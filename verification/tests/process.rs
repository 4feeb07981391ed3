use procdrift::baseline::BaselineMatch;
use procdrift::model::{Findings, TrustState};
use procdrift::process::{
    classify_evidence, cmp_ascii_case_insensitive, contains_ascii_case_insensitive,
    legacy_category, primary_finding, risk_rank, row_matches_search, ProcKey, ProcessRow,
};
use std::cmp::Ordering;
use std::collections::HashSet;

fn process_row(pid: u32, name: &str, path: &str) -> ProcessRow {
    ProcessRow {
        key: ProcKey { pid, created: u64::from(pid) * 10 },
        ppid: 1,
        session_id: 1,
        thread_count: 1,
        handle_count: 1,
        trust: TrustState::Unclassified,
        findings: Findings::default(),
        name: name.to_owned(),
        cpu_tenths: 0,
        memory_bytes: 0,
        private_bytes: 0,
        io_per_second: 0,
        path: path.to_owned(),
        paused_by_procdrift: false,
    }
}

#[test]
fn path_mismatch_is_never_inherited_as_a_trusted_child() {
    let all_pids = HashSet::from([10, 20]);
    let baseline_pids = HashSet::from([10]);
    assert_eq!(
        classify_evidence(
            true,
            true,
            BaselineMatch::PathMismatch,
            "app.exe",
            10,
            &all_pids,
            &baseline_pids,
        ),
        (TrustState::Unclassified, {
            let mut findings = Findings::default();
            findings.insert(Findings::DIFFERENT_PATH | Findings::LAUNCHED_BY_KNOWN);
            findings
        })
    );
    assert_eq!(
        classify_evidence(
            true,
            true,
            BaselineMatch::Unrecorded,
            "app.exe",
            10,
            &all_pids,
            &baseline_pids,
        ),
        (TrustState::Unclassified, {
            let mut findings = Findings::default();
            findings.insert(Findings::NEW | Findings::LAUNCHED_BY_KNOWN);
            findings
        })
    );
}

#[test]
fn inaccessible_processes_are_protected_without_findings() {
    let none = HashSet::new();
    assert_eq!(
        classify_evidence(false, true, BaselineMatch::Unrecorded, "svchost.exe", 99, &none, &none),
        (TrustState::Protected, Findings::default())
    );
}

#[test]
fn an_ended_parent_and_an_unrecorded_baseline() {
    let all_pids = HashSet::from([10]);
    let none = HashSet::new();
    let (trust, findings) =
        classify_evidence(true, false, BaselineMatch::Unrecorded, "app.exe", 77, &all_pids, &none);
    assert_eq!(trust, TrustState::Unclassified);
    assert!(findings.contains(Findings::PARENT_ENDED));
    assert!(!findings.contains(Findings::NEW));
    let (trust, _) =
        classify_evidence(true, true, BaselineMatch::Allowed, "app.exe", 0, &all_pids, &none);
    assert_eq!(trust, TrustState::Allowed);
    let (trust, findings) =
        classify_evidence(true, true, BaselineMatch::Path, "app.exe", 0, &all_pids, &none);
    assert_eq!(trust, TrustState::Allowed);
    assert!(findings.is_empty());
}

#[test]
fn described_windows_programs_outside_the_snapshot_are_known() {
    let all_pids = HashSet::from([10]);
    let none = HashSet::new();
    let (trust, findings) =
        classify_evidence(true, true, BaselineMatch::Unrecorded, "svchost.exe", 0, &all_pids, &none);
    assert_eq!(trust, TrustState::Known);
    assert!(findings.contains(Findings::NEW));
    let (trust, _) =
        classify_evidence(true, true, BaselineMatch::Path, "svchost.exe", 0, &all_pids, &none);
    assert_eq!(trust, TrustState::Allowed);
    let (trust, _) =
        classify_evidence(true, true, BaselineMatch::Unrecorded, "app.exe", 0, &all_pids, &none);
    assert_eq!(trust, TrustState::Unclassified);
}

#[test]
fn the_primary_finding_follows_the_precedence_order() {
    let mut row = process_row(5, "a.exe", r"C:\a.exe");
    assert_eq!(primary_finding(&row), "None");
    row.findings.insert(Findings::NEW | Findings::HEAVY_DISK);
    assert_eq!(primary_finding(&row), "Heavy disk");
    row.findings.insert(Findings::RESTARTING);
    assert_eq!(primary_finding(&row), "Restarting");
    assert_eq!(legacy_category(&row), "Restarting");
    row.paused_by_procdrift = true;
    assert_eq!(legacy_category(&row), "Paused by ProcDrift");
    let mut calm = process_row(6, "b.exe", "");
    calm.trust = TrustState::Known;
    assert_eq!(legacy_category(&calm), "Known");
    calm.trust = TrustState::Protected;
    calm.findings.insert(Findings::NEW);
    assert_eq!(legacy_category(&calm), "Protected");
}

#[test]
fn risk_rank_puts_persistent_new_binaries_first() {
    let mut row = process_row(5, "a.exe", r"C:\a.exe");
    assert_eq!(risk_rank(&row), 3);
    row.findings.insert(Findings::NEW);
    assert_eq!(risk_rank(&row), 3);
    row.findings.insert(Findings::STARTS_AUTOMATICALLY);
    assert_eq!(risk_rank(&row), 0);
    let mut heavy = process_row(6, "b.exe", "");
    heavy.trust = TrustState::Known;
    assert_eq!(risk_rank(&heavy), 5);
    heavy.findings.insert(Findings::HEAVY_MEMORY);
    assert_eq!(risk_rank(&heavy), 2);
    heavy.findings.insert(Findings::PARENT_ENDED);
    assert_eq!(risk_rank(&heavy), 1);
    heavy.findings = Findings::default();
    heavy.trust = TrustState::Allowed;
    assert_eq!(risk_rank(&heavy), 4);
}

#[test]
fn ascii_comparisons_ignore_letter_case() {
    assert_eq!(cmp_ascii_case_insensitive("Apple", "apple"), Ordering::Equal);
    assert_eq!(cmp_ascii_case_insensitive("apple", "Banana"), Ordering::Less);
    assert_eq!(cmp_ascii_case_insensitive("b", "A"), Ordering::Greater);
    assert_eq!(cmp_ascii_case_insensitive("ab", "a"), Ordering::Greater);
    assert!(contains_ascii_case_insensitive("Hello World", b"LO w"));
    assert!(contains_ascii_case_insensitive("anything", b""));
    assert!(!contains_ascii_case_insensitive("short", b"longer needle"));
    assert!(!contains_ascii_case_insensitive("abc", b"abd"));
}

#[test]
fn search_matches_name_path_label_and_pid() {
    let mut row = process_row(4321, "Notepad.exe", r"C:\Windows\notepad.exe");
    assert!(row_matches_search(&row, b"", None));
    assert!(row_matches_search(&row, b"NOTEPAD", None));
    assert!(row_matches_search(&row, b"windows", None));
    assert!(row_matches_search(&row, b"unclassified", None));
    assert!(row_matches_search(&row, b"4321", Some(4321)));
    assert!(!row_matches_search(&row, b"4321", None));
    row.findings.insert(Findings::PEER_OUTLIER);
    assert!(row_matches_search(&row, b"peer", None));
    assert!(!row_matches_search(&row, b"definitely-not-a-running-process-name", None));
}
