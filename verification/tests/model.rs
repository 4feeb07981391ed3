use procdrift::model::{
    apply_resource_findings, median, peer_outliers, robust_limit, sorted_copy, EvidenceRow, Filter,
    Findings, TrustState, DISK_HEAVY_BYTES, MEMORY_HEAVY_BYTES,
};
use std::collections::{HashMap, HashSet};

fn row(cpu: u32, memory: u64, disk: u64) -> EvidenceRow {
    EvidenceRow {
        trust: TrustState::Unclassified,
        findings: Findings::default(),
        cpu_tenths: cpu,
        memory_bytes: memory,
        disk_bytes_per_second: disk,
    }
}

#[test]
fn trust_and_findings_are_independent_and_explanations_are_calm() {
    let mut findings = Findings::default();
    findings.insert(Findings::PARENT_ENDED | Findings::HEAVY_CPU);
    assert_eq!(TrustState::Known.label(), "Known");
    assert_eq!(
        findings.calm_reasons(),
        [
            "The launching process is no longer running",
            "Currently among the highest CPU users"
        ]
    );
    assert!(findings
        .calm_reasons()
        .iter()
        .all(|reason| { !reason.contains("malicious") && !reason.contains("threat") }));
}

#[test]
fn leaderboard_honors_minimums_and_five_item_bound() {
    let mut rows: Vec<_> = (0..9).map(|i| row(10 + i, 0, 0)).collect();
    rows.push(row(9, MEMORY_HEAVY_BYTES - 1, DISK_HEAVY_BYTES - 1));
    apply_resource_findings(&mut rows);
    assert_eq!(
        rows.iter()
            .filter(|row| row.findings.contains(Findings::HEAVY_CPU))
            .count(),
        5
    );
    assert!(!rows[9]
        .findings
        .contains(Findings::HEAVY_CPU | Findings::HEAVY_MEMORY | Findings::HEAVY_DISK));
}

#[test]
fn peer_outlier_requires_three_exact_path_peers_and_robust_threshold() {
    let samples: HashMap<String, Vec<(usize, u32, u64)>> = HashMap::from([
        ("a".into(), vec![(0, 10, 10), (1, 11, 11), (2, 80, 12)]),
        ("b".into(), vec![(3, 1, 1), (4, 999, u64::MAX)]),
    ]);
    assert_eq!(peer_outliers(&samples), HashSet::from([2]));
}

#[test]
fn the_highest_five_are_the_ones_flagged() {
    let mut rows: Vec<_> = [50, 10, 70, 20, 90, 30, 60, 40]
        .into_iter()
        .map(|cpu| row(cpu, 0, 0))
        .collect();
    apply_resource_findings(&mut rows);
    let flagged: Vec<u32> = rows
        .iter()
        .filter(|row| row.findings.contains(Findings::HEAVY_CPU))
        .map(|row| row.cpu_tenths)
        .collect();
    assert_eq!(flagged, vec![50, 70, 90, 60, 40]);
}

#[test]
fn memory_and_disk_leaderboards_use_their_own_minimums() {
    let mut rows = vec![
        row(0, MEMORY_HEAVY_BYTES, 0),
        row(0, 0, DISK_HEAVY_BYTES),
        row(0, MEMORY_HEAVY_BYTES - 1, DISK_HEAVY_BYTES - 1),
    ];
    apply_resource_findings(&mut rows);
    assert!(rows[0].findings.contains(Findings::HEAVY_MEMORY));
    assert!(!rows[0].findings.contains(Findings::HEAVY_DISK));
    assert!(rows[1].findings.contains(Findings::HEAVY_DISK));
    assert!(rows[2].findings.is_empty());
}

#[test]
fn median_is_the_upper_middle_of_the_sorted_values() {
    assert_eq!(median(&vec![5, 1, 3]), 3);
    assert_eq!(median(&vec![4, 1, 3, 2]), 3);
    assert_eq!(sorted_copy(&vec![3, 1, 2, 1]), vec![1, 1, 2, 3]);
}

#[test]
fn robust_limit_is_median_plus_four_deviations_with_a_floor() {
    // median 11, deviations 1, 0, 69 -> median deviation 1, spread 4, floor 30
    assert_eq!(robust_limit(&vec![10, 11, 80], 30), 41);
    // median 100, deviations 90, 0, 100 -> 90 * 4 = 360 beats the floor
    assert_eq!(robust_limit(&vec![10, 100, 200], 30), 460);
    assert_eq!(robust_limit(&vec![u64::MAX, u64::MAX, 0], 1), u64::MAX);
}

#[test]
fn filters_select_by_trust_and_findings() {
    let mut known = row(0, 0, 0);
    known.trust = TrustState::Known;
    assert!(known.matches_filter(Filter::Known));
    assert!(!known.matches_filter(Filter::Review));
    assert!(known.matches_filter(Filter::All));
    let mut persistent = known;
    persistent
        .findings
        .insert(Findings::NEW | Findings::STARTS_AUTOMATICALLY);
    assert!(persistent.matches_filter(Filter::Review));
    assert!(persistent.matches_filter(Filter::New));
    let unclassified = row(0, 0, 0);
    assert!(unclassified.matches_filter(Filter::Review));
    assert!(!unclassified.matches_filter(Filter::Heavy));
}

#[test]
fn findings_insert_and_contain_any_of_several() {
    let mut findings = Findings::default();
    assert!(findings.is_empty());
    findings.insert(Findings::RESTARTING);
    assert!(findings.contains(Findings::RESTARTING | Findings::NEW));
    assert!(!findings.contains(Findings::NEW));
    assert_eq!(findings.bits(), Findings::RESTARTING);
}

#[test]
fn every_flag_has_one_calm_reason_in_bit_order() {
    let mut all = Findings::default();
    all.insert(0xFFFF);
    let reasons = all.calm_reasons();
    assert_eq!(reasons.len(), 11);
    for (i, reason) in reasons.iter().enumerate() {
        let mut single = Findings::default();
        single.insert(1 << i);
        assert_eq!(single.calm_reasons(), vec![*reason]);
        for word in ["malicious", "threat", "safe"] {
            assert!(!reason.contains(word));
        }
        for other in &reasons[i + 1..] {
            assert_ne!(reason, other);
        }
    }
    let mut outside = Findings::default();
    outside.insert(0xF800);
    assert!(outside.calm_reasons().is_empty());
    assert!(Findings::default().calm_reasons().is_empty());
}
