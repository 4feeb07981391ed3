use procdrift::baseline::{utc_stamp, Baseline, BaselineMatch};
use procdrift::model::{Findings, TrustState};
use procdrift::paths::normalize_path;
use procdrift::process::{ProcKey, ProcessRow};
use procdrift::state::{Snapshot, State, CURRENT_VERSION};

fn state_with(executables: Vec<(String, Vec<String>)>, allowed: Vec<String>) -> State {
    State {
        version: CURRENT_VERSION,
        snapshot: Some(Snapshot {
            recorded_at: "2024-01-01T00:00:00Z".to_owned(),
            executables,
        }),
        allowed_paths: allowed,
        onboarding_complete: true,
    }
}

fn process_row(pid: u32, name: &str, path: &str) -> ProcessRow {
    ProcessRow {
        key: ProcKey { pid, created: 1 },
        ppid: 0,
        session_id: 1,
        thread_count: 1,
        handle_count: 1,
        trust: TrustState::Unclassified,
        findings: Findings::default(),
        name: name.to_owned(),
        cpu_tenths: 0,
        memory_bytes: 0,
        private_bytes: 0,
        io_per_second: 0,
        path: path.to_owned(),
        paused_by_procdrift: false,
    }
}

#[test]
fn baseline_requires_a_matching_path_for_trust() {
    let baseline = Baseline::from_state(state_with(
        vec![
            (
                "trusted.exe".to_string(),
                vec![normalize_path(r"C:\Program Files\Trusted\trusted.exe")],
            ),
            ("legacy.exe".to_string(), Vec::new()),
        ],
        Vec::new(),
    ));
    assert!(
        baseline.classify_match("TRUSTED.EXE", r"c:/program files/trusted/TRUSTED.exe")
            == BaselineMatch::Path
    );
    assert!(
        baseline.classify_match("trusted.exe", r"C:\Temp\trusted.exe")
            == BaselineMatch::PathMismatch
    );
    assert!(baseline.classify_match("trusted.exe", "") == BaselineMatch::PathUnknown);
    assert!(baseline.classify_match("legacy.exe", r"C:\legacy.exe") == BaselineMatch::LegacyName);
    assert!(baseline.classify_match("other.exe", r"C:\other.exe") == BaselineMatch::Unrecorded);
}

#[test]
fn baseline_mutations_are_path_scoped_and_atomically_persisted() {
    let mut baseline = Baseline::from_state(state_with(Vec::new(), Vec::new()));
    assert!(baseline.add(r"C:\One\Example.exe"));
    assert!(baseline.add(r"D:\Two\Example.exe"));
    assert!(!baseline.add(r"d:/two/example.exe"));
    let saved = baseline
        .save(utc_stamp(2024, 5, 6, 7, 8, 9))
        .expect("persist added paths");
    assert_eq!(saved.version, 2);
    assert_eq!(saved.allowed_paths.len(), 2);
    assert!(saved.snapshot.as_ref().unwrap().recorded_at.ends_with('Z'));

    assert!(baseline.remove(r"C:\One\Example.exe"));
    assert_eq!(baseline.allowed_count(), 1);
    assert!(baseline.remove(r"D:\Two\Example.exe"));
    assert_eq!(baseline.allowed_count(), 0);
    assert!(baseline.save(utc_stamp(2024, 5, 6, 7, 8, 9)).is_ok());
}

#[test]
fn an_unreadable_state_file_is_never_overwritten() {
    let (mut baseline, imported) = Baseline::load(
        Err("state file was written by a newer version.".to_owned()),
        true,
        None,
    );
    assert!(!imported);
    baseline.add(r"C:\One\Example.exe");
    let error = baseline
        .save(utc_stamp(2024, 5, 6, 7, 8, 9))
        .expect_err("saving over an unreadable state file must be refused");
    assert!(
        error.contains("Nothing was written"),
        "the refusal must tell the user their baseline survived: {error}"
    );
    assert_eq!(
        error,
        "state file was written by a newer version. Nothing was written. Move or delete that file if you want to start a new baseline."
    );
}

#[test]
fn a_missing_state_file_falls_back_to_a_legacy_import() {
    let legacy = state_with(
        vec![("a.exe".to_owned(), vec![r"c:\a.exe".to_owned()])],
        Vec::new(),
    );
    assert!(Baseline::looks_for_legacy(&Err("missing".to_owned()), false));
    assert!(!Baseline::looks_for_legacy(&Err("unreadable".to_owned()), true));
    let (baseline, imported) = Baseline::load(Err("missing".to_owned()), false, Some(legacy));
    assert!(imported);
    assert!(baseline.classify_match("A.exe", r"C:\a.exe") == BaselineMatch::Path);
    let (empty, imported) = Baseline::load(Err("missing".to_owned()), false, None);
    assert!(!imported);
    assert!(!empty.is_recorded());
    assert!(!empty.onboarding_complete());
    assert!(empty.save("t".to_owned()).is_ok());
}

#[test]
fn an_allowed_path_wins_over_the_snapshot() {
    let mut baseline = Baseline::from_state(state_with(
        vec![("x.exe".to_owned(), vec![r"c:\x.exe".to_owned()])],
        Vec::new(),
    ));
    assert!(baseline.classify_match("x.exe", r"C:\elsewhere\x.exe") == BaselineMatch::PathMismatch);
    assert!(baseline.add(r"C:\Elsewhere\X.EXE"));
    assert!(baseline.classify_match("x.exe", r"C:\elsewhere\x.exe") == BaselineMatch::Allowed);
    assert!(!baseline.add("   "));
    assert!(!baseline.remove(r"C:\never\allowed.exe"));
}

#[test]
fn recording_the_running_processes_makes_them_known() {
    let baseline = Baseline::from_state(state_with(Vec::new(), vec![r"c:\kept.exe".to_owned()]));
    let rows = vec![
        process_row(1, "App.exe", r"C:\App\App.exe"),
        process_row(2, "app.exe", r"D:\Other\app.exe"),
        process_row(3, "hidden.exe", ""),
    ];
    let replacement = baseline.replacement_from_rows(&rows);
    assert!(replacement.onboarding_complete());
    assert_eq!(replacement.recorded_count(), 1);
    assert_eq!(replacement.allowed_count(), 1);
    assert!(replacement.classify_match("APP.EXE", r"c:\app\app.exe") == BaselineMatch::Path);
    assert!(replacement.classify_match("app.exe", r"d:\other\app.exe") == BaselineMatch::Path);
    assert!(replacement.classify_match("hidden.exe", "") == BaselineMatch::Unrecorded);
    let saved = replacement.save("t".to_owned()).unwrap();
    let reloaded = Baseline::from_state(saved);
    assert!(reloaded.classify_match("app.exe", r"C:\App\App.exe") == BaselineMatch::Path);
    assert!(reloaded.classify_match("kept.exe", r"C:\kept.exe") == BaselineMatch::Allowed);
}

#[test]
fn snapshot_times_are_zero_padded_utc() {
    assert_eq!(utc_stamp(2024, 5, 6, 7, 8, 9), "2024-05-06T07:08:09Z");
    assert_eq!(utc_stamp(987, 12, 31, 23, 59, 0), "0987-12-31T23:59:00Z");
}
