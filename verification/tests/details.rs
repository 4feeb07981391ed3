use procdrift::details::{
    is_current_selection, BoundedCache, DetailResult, SelectionKey, SignatureState, CACHE_LIMIT,
};

fn result(pid: u32) -> DetailResult {
    DetailResult {
        key: SelectionKey { pid, created: pid.into() },
        name: "test".into(),
        path: String::new(),
        file_size: None,
        modified_unix_seconds: None,
        signature: SignatureState::Unavailable,
        signer: None,
    }
}

#[test]
fn cache_is_bounded_and_recently_used_entries_survive() {
    let mut cache = BoundedCache::default();
    for pid in 0..=CACHE_LIMIT as u32 {
        cache.insert(result(pid));
    }
    assert_eq!(cache.len(), CACHE_LIMIT);
    assert!(!cache.contains(&SelectionKey { pid: 0, created: 0 }));
}

#[test]
fn a_recently_read_entry_outlives_older_ones() {
    let mut cache = BoundedCache::default();
    for pid in 0..CACHE_LIMIT as u32 {
        cache.insert(result(pid));
    }
    let first = SelectionKey { pid: 0, created: 0 };
    assert_eq!(cache.get(&first).map(|found| found.key), Some(first));
    cache.insert(result(1000));
    assert!(cache.contains(&first));
    assert!(!cache.contains(&SelectionKey { pid: 1, created: 1 }));
    assert!(cache.get(&SelectionKey { pid: 5000, created: 5000 }).is_none());
}

#[test]
fn stale_enrichment_is_rejected_by_pid_and_creation_time() {
    let value = result(8);
    assert!(is_current_selection(Some(value.key), &value));
    assert!(!is_current_selection(
        Some(SelectionKey { pid: 8, created: 999 }),
        &value
    ));
    assert!(!is_current_selection(None, &value));
}

#[test]
fn signature_states_are_explicit() {
    let labels = [
        SignatureState::Trusted.label(),
        SignatureState::Unsigned.label(),
        SignatureState::Invalid.label(),
        SignatureState::Unavailable.label(),
    ];
    assert_eq!(labels, ["Trusted", "Unsigned", "Invalid", "Unavailable"]);
}

#[test]
fn the_summary_says_unavailable_for_what_is_unknown() {
    assert_eq!(
        result(3).summary(),
        "File: Unavailable\nSize: Unavailable\nModified (Unix seconds): Unavailable\nAuthenticode: Unavailable\nSigner: Unavailable"
    );
    let known = DetailResult {
        key: SelectionKey { pid: 4, created: 4 },
        name: "explorer.exe".into(),
        path: r"C:\Windows\explorer.exe".into(),
        file_size: Some(1024),
        modified_unix_seconds: Some(1700000000),
        signature: SignatureState::Trusted,
        signer: Some("Microsoft Windows".into()),
    };
    assert_eq!(
        known.summary(),
        "File: C:\\Windows\\explorer.exe\nSize: 1024 bytes\nModified (Unix seconds): 1700000000\nAuthenticode: Trusted\nSigner: Microsoft Windows\n\nAbout explorer.exe: Provides the desktop, taskbar, and File Explorer windows."
    );
}
