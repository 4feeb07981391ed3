use procdrift::autostart::AutostartIndex;
use procdrift::baseline::Baseline;
use procdrift::model::{Findings, TrustState};
use procdrift::process::ProcKey;
use procdrift::scan::{ProcessSample, ScanState};
use procdrift::state::{Snapshot, State, CURRENT_VERSION};

fn sample(pid: u32, ppid: u32, name: &str, path: &str) -> ProcessSample {
    ProcessSample {
        key: ProcKey { pid, created: u64::from(pid) },
        ppid,
        session_id: 1,
        thread_count: 1,
        handle_count: 1,
        name: name.to_owned(),
        path: path.to_owned(),
        accessible: !path.is_empty(),
        memory_bytes: 0,
        private_bytes: 0,
        cpu_tenths: 0,
        io_per_second: 0,
    }
}

fn baseline() -> Baseline {
    Baseline::from_state(State {
        version: CURRENT_VERSION,
        snapshot: Some(Snapshot {
            recorded_at: "t".to_owned(),
            executables: vec![("host.exe".to_owned(), vec![r"c:\host.exe".to_owned()])],
        }),
        allowed_paths: Vec::new(),
        onboarding_complete: true,
    })
}

#[test]
fn a_scan_classifies_each_process_against_the_baseline_and_its_parent() {
    let autostart = AutostartIndex::from_executables(vec![r"c:\new.exe".to_owned()]);
    let mut state = ScanState::new(baseline(), autostart);
    let samples = vec![
        sample(10, 0, "host.exe", r"C:\host.exe"),
        sample(20, 10, "new.exe", r"C:\new.exe"),
        sample(30, 99, "host.exe", r"D:\host.exe"),
        sample(40, 0, "System", ""),
    ];
    let rows = state.rows_from(&samples, 0);
    assert_eq!(rows.len(), 4);
    assert_eq!(rows[0].trust, TrustState::Allowed);
    assert_eq!(rows[1].trust, TrustState::Unclassified);
    assert!(rows[1].findings.contains(Findings::NEW));
    assert!(rows[1].findings.contains(Findings::LAUNCHED_BY_KNOWN));
    assert!(rows[1].findings.contains(Findings::STARTS_AUTOMATICALLY));
    assert!(rows[2].findings.contains(Findings::DIFFERENT_PATH));
    assert!(rows[2].findings.contains(Findings::PARENT_ENDED));
    assert_eq!(rows[3].trust, TrustState::Protected);
    assert!(rows[3].findings.is_empty());
    assert_eq!(state.activity().events().count(), 0);
}

#[test]
fn several_instances_of_one_path_are_noted() {
    let mut state = ScanState::new(baseline(), AutostartIndex::new());
    let samples = vec![
        sample(10, 0, "host.exe", r"C:\host.exe"),
        sample(11, 0, "host.exe", r"C:\host.exe"),
        sample(12, 0, "other.exe", r"C:\other.exe"),
    ];
    let rows = state.rows_from(&samples, 0);
    assert!(rows[0].findings.contains(Findings::MANY_INSTANCES));
    assert!(rows[1].findings.contains(Findings::MANY_INSTANCES));
    assert!(!rows[2].findings.contains(Findings::MANY_INSTANCES));
}

#[test]
fn paused_processes_are_forgotten_once_gone() {
    let mut state = ScanState::new(baseline(), AutostartIndex::new());
    let key = ProcKey { pid: 10, created: 10 };
    state.mark_paused(key);
    let rows = state.rows_from(&[sample(10, 0, "host.exe", r"C:\host.exe")], 0);
    assert!(rows[0].paused_by_procdrift);
    assert!(state.is_paused(key));
    let rows = state.rows_from(&[sample(11, 0, "host.exe", r"C:\host.exe")], 1);
    assert!(!rows[0].paused_by_procdrift);
    assert!(!state.is_paused(key));
    state.mark_paused(key);
    state.mark_resumed(key);
    assert!(!state.is_paused(key));
}

#[test]
fn later_scans_record_starts_and_exits() {
    let mut state = ScanState::new(baseline(), AutostartIndex::new());
    state.rows_from(&[sample(10, 0, "host.exe", r"C:\host.exe")], 0);
    state.rows_from(&[sample(11, 0, "host.exe", r"C:\host.exe")], 5);
    assert_eq!(state.activity().events().count(), 2);
}
