use procdrift::activity::{ActivityKind, ActivityTracker, ProcessKey};

fn key(pid: u32, created: u64) -> ProcessKey {
    ProcessKey { pid, created }
}

#[test]
fn pid_reuse_is_an_exit_and_start_and_restart_threshold_is_three() {
    let mut tracker = ActivityTracker::default();
    tracker.update(0, &[(key(10, 1), "app")]);
    tracker.update(30, &[(key(10, 2), "app")]);
    tracker.update(60, &[(key(10, 3), "app")]);
    tracker.update(90, &[(key(10, 4), "app")]);
    assert!(tracker.is_restarting("app", 90));
    assert_eq!(tracker.events().count(), 6);
}

#[test]
fn history_is_bounded_and_expires() {
    let mut tracker = ActivityTracker::default();
    for pid in 0..200u32 {
        tracker.update(pid.into(), &[(key(pid, pid.into()), "app")]);
    }
    assert!(tracker.events().count() <= 128);
    tracker.update(1_000, &[]);
    assert!(tracker.events().count() <= 1);
}

#[test]
fn initial_inventory_is_not_misreported_as_restart_activity() {
    let mut tracker = ActivityTracker::default();
    tracker.update(
        0,
        &[
            (key(1, 1), "browser"),
            (key(2, 2), "browser"),
            (key(3, 3), "browser"),
        ],
    );
    assert!(!tracker.is_restarting("browser", 0));
    assert_eq!(tracker.events().count(), 0);
}

#[test]
fn restarts_older_than_the_window_do_not_count() {
    let mut tracker = ActivityTracker::default();
    tracker.update(0, &[(key(10, 1), "app")]);
    tracker.update(30, &[(key(10, 2), "app")]);
    tracker.update(60, &[(key(10, 3), "app")]);
    tracker.update(90, &[(key(10, 4), "app")]);
    assert!(tracker.is_restarting("app", 150));
    assert!(!tracker.is_restarting("app", 200));
    assert!(!tracker.is_restarting("other", 90));
}

#[test]
fn events_record_starts_before_exits_with_their_times() {
    let mut tracker = ActivityTracker::default();
    tracker.update(5, &[(key(1, 1), "a")]);
    tracker.update(7, &[(key(2, 2), "b")]);
    let events: Vec<_> = tracker.events().collect();
    assert_eq!(events.len(), 2);
    assert_eq!(events[0].kind, ActivityKind::Started);
    assert_eq!(events[0].executable, "b");
    assert_eq!(events[0].at_seconds, 7);
    assert_eq!(events[1].kind, ActivityKind::Exited);
    assert_eq!(events[1].key, key(1, 1));
}

#[test]
fn recent_activity_text_lists_newest_first() {
    let mut tracker = ActivityTracker::default();
    assert_eq!(
        tracker.recent_text(),
        "No process starts or exits have been observed in this session."
    );
    tracker.update(5, &[(key(1, 1), "a")]);
    tracker.update(7, &[(key(2, 2), "b")]);
    assert_eq!(
        tracker.recent_text(),
        "7s  Exited  a (PID 1)\n7s  Started  b (PID 2)"
    );
}

#[test]
fn recent_activity_text_is_capped_at_forty_lines() {
    let mut tracker = ActivityTracker::default();
    tracker.update(0, &[]);
    for pid in 1..=30u32 {
        tracker.update(u64::from(pid), &[(key(pid, 1), "x")]);
    }
    assert_eq!(tracker.recent_text().lines().count(), 40);
}

#[test]
fn events_stay_in_time_order_within_the_window() {
    let mut tracker = ActivityTracker::default();
    for step in 0..60u64 {
        let pid = (step % 3) as u32;
        tracker.update(step * 20, &[(key(pid, step), "app"), (key(100, 1), "steady")]);
    }
    let now = 59 * 20;
    let times: Vec<u64> = tracker.events().map(|e| e.at_seconds).collect();
    assert!(!times.is_empty());
    assert!(times.windows(2).all(|pair| pair[0] <= pair[1]));
    assert!(times.iter().all(|&t| t <= now && now - t <= 600));
    assert!(tracker
        .events()
        .all(|e| e.key != key(100, 1)));
    assert!(tracker
        .events()
        .any(|e| e.kind == ActivityKind::Started));
}
