use procdrift::listing::{
    anomaly_count, displayed_rows, dynamic_cells_changed, filter_rows, sort_by_column,
    sort_like_rendered, static_cells_changed,
};
use procdrift::model::{Filter, Findings, TrustState};
use procdrift::process::{ProcKey, ProcessRow};

fn row(pid: u32, name: &str, cpu: u32) -> ProcessRow {
    ProcessRow {
        key: ProcKey { pid, created: 1 },
        ppid: 0,
        session_id: 1,
        thread_count: 1,
        handle_count: 1,
        trust: TrustState::Unclassified,
        findings: Findings::default(),
        name: name.to_owned(),
        cpu_tenths: cpu,
        memory_bytes: 0,
        private_bytes: 0,
        io_per_second: 0,
        path: format!(r"C:\{name}"),
        paused_by_procdrift: false,
    }
}

fn pids(rows: &[ProcessRow]) -> Vec<u32> {
    rows.iter().map(|row| row.key.pid).collect()
}

#[test]
fn sorting_by_name_ignores_case_and_is_stable() {
    let rows = vec![row(1, "beta", 0), row(2, "Alpha", 0), row(3, "alpha", 0)];
    assert_eq!(pids(&sort_by_column(&rows, 1, false)), vec![2, 3, 1]);
    assert_eq!(pids(&sort_by_column(&rows, 1, true)), vec![1, 2, 3]);
}

#[test]
fn sorting_by_review_rank_then_name() {
    let mut known = row(1, "a", 0);
    known.trust = TrustState::Known;
    let mut restarting = row(2, "z", 0);
    restarting.findings.insert(Findings::RESTARTING);
    let plain = row(3, "m", 0);
    let rows = vec![known, restarting, plain];
    assert_eq!(pids(&sort_by_column(&rows, 0, false)), vec![2, 3, 1]);
}

#[test]
fn sorting_by_measurements_and_pid() {
    let rows = vec![row(3, "a", 50), row(1, "b", 70), row(2, "c", 50)];
    assert_eq!(pids(&sort_by_column(&rows, 3, true)), vec![1, 3, 2]);
    assert_eq!(pids(&sort_by_column(&rows, 2, false)), vec![1, 2, 3]);
    assert_eq!(pids(&sort_by_column(&rows, 6, false)), vec![3, 1, 2]);
}

#[test]
fn a_refresh_keeps_the_on_screen_order() {
    let rows = vec![row(1, "a", 10), row(2, "b", 90), row(3, "c", 50), row(4, "new", 99)];
    let rendered = vec![
        ProcKey { pid: 3, created: 1 },
        ProcKey { pid: 1, created: 1 },
        ProcKey { pid: 2, created: 1 },
    ];
    assert_eq!(pids(&sort_like_rendered(&rows, &rendered)), vec![3, 1, 2, 4]);
    assert_eq!(
        pids(&displayed_rows(&rows, Filter::All, "", 3, true, false, &rendered)),
        vec![3, 1, 2, 4]
    );
    assert_eq!(
        pids(&displayed_rows(&rows, Filter::All, "", 3, true, true, &rendered)),
        vec![4, 2, 3, 1]
    );
    assert_eq!(
        pids(&displayed_rows(&rows, Filter::All, "", 1, false, false, &rendered)),
        vec![1, 2, 3, 4]
    );
}

#[test]
fn filtering_uses_the_trimmed_search_and_the_filter() {
    let mut known = row(10, "alpha", 0);
    known.trust = TrustState::Known;
    let rows = vec![known, row(20, "beta", 0), row(30, "gamma", 0)];
    assert_eq!(pids(&filter_rows(&rows, Filter::All, "  BETA ")), vec![20]);
    assert_eq!(pids(&filter_rows(&rows, Filter::All, "30")), vec![30]);
    assert_eq!(pids(&filter_rows(&rows, Filter::Review, "")), vec![20, 30]);
    assert_eq!(pids(&filter_rows(&rows, Filter::Known, "")), vec![10]);
    assert_eq!(anomaly_count(&rows), 2);
}

#[test]
fn only_changed_cells_are_repainted() {
    let old = row(1, "a", 10);
    let mut new = row(1, "a", 10);
    assert!(!static_cells_changed(&old, &new));
    assert!(!dynamic_cells_changed(&old, &new));
    new.cpu_tenths = 11;
    assert!(dynamic_cells_changed(&old, &new));
    assert!(!static_cells_changed(&old, &new));
    new.findings.insert(Findings::NEW);
    assert!(static_cells_changed(&old, &new));
}
