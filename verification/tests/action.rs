use procdrift::action::{
    action_refusal, captured_process_tree, check_critical, check_identity, check_target,
};
use procdrift::model::{Findings, TrustState};
use procdrift::process::{ProcKey, ProcessRow};

fn process_row(pid: u32, ppid: u32) -> ProcessRow {
    ProcessRow {
        key: ProcKey { pid, created: u64::from(pid) * 10 },
        ppid,
        session_id: 1,
        thread_count: 1,
        handle_count: 1,
        trust: TrustState::Unclassified,
        findings: Findings::default(),
        name: "test.exe".to_owned(),
        cpu_tenths: 0,
        memory_bytes: 0,
        private_bytes: 0,
        io_per_second: 0,
        path: r"C:\test.exe".to_owned(),
        paused_by_procdrift: false,
    }
}

#[test]
fn captured_tree_is_transitive_pid_safe_and_excludes_the_monitor() {
    let root = process_row(10, 1);
    let grandchild = process_row(30, 20);
    let child = process_row(20, 10);
    let excluded_monitor = process_row(40, 20);
    let unrelated = process_row(50, 1);
    let stale_parent_link = process_row(5, 10);
    let rows = [
        grandchild,
        unrelated,
        stale_parent_link,
        child,
        excluded_monitor,
        root.clone(),
    ];
    assert_eq!(
        captured_process_tree(&rows, root.key, 40),
        vec![
            root.key,
            ProcKey { pid: 20, created: 200 },
            ProcKey { pid: 30, created: 300 },
        ]
    );
}

#[test]
fn a_lone_root_is_its_own_tree() {
    let root = process_row(10, 1);
    assert_eq!(captured_process_tree(&[], root.key, 0), vec![root.key]);
}

#[test]
fn protected_action_targets_are_rejected_before_opening() {
    let own = 777;
    for pid in [0, 4, own] {
        assert!(check_target(ProcKey { pid, created: 1 }, own)
            .unwrap_err()
            .contains("protected"));
    }
    assert!(check_target(ProcKey { pid: 12, created: 1 }, own).is_ok());
}

#[test]
fn process_action_rejects_a_stale_identity() {
    let key = ProcKey { pid: 12, created: 1 };
    assert!(check_identity(key, Some(2)).is_err());
    assert!(check_identity(key, None).is_err());
    assert!(check_identity(ProcKey { pid: 12, created: 0 }, Some(0)).is_err());
    assert!(check_identity(key, Some(1)).is_ok());
}

#[test]
fn the_window_refuses_itself_the_kernel_and_protected_processes() {
    assert_eq!(
        action_refusal(9, 9, TrustState::Unclassified),
        Some("Refusing to act on ProcDrift itself.")
    );
    assert_eq!(
        action_refusal(4, 9, TrustState::Known),
        Some("Refusing to act on a kernel pseudo-process. Ending it would stop the machine.")
    );
    assert_eq!(
        action_refusal(12, 9, TrustState::Protected),
        Some("Refusing to act on a protected system process. Ending it would stop the machine.")
    );
    assert_eq!(action_refusal(12, 9, TrustState::Known), None);
}

#[test]
fn critical_processes_are_refused_after_opening() {
    assert_eq!(
        check_critical(true, 1),
        Err("Windows reports this as a critical process; action blocked.".to_owned())
    );
    assert_eq!(check_critical(true, 0), Ok(()));
    assert_eq!(check_critical(false, 1), Ok(()));
}
