use procdrift::knowledge::{describe, knowledge_entries};

#[test]
fn lookup_is_case_insensitive_and_covers_pseudo_processes() {
    assert!(describe("SVCHOST.EXE").is_some());
    assert!(describe("svchost.exe").is_some());
    assert!(describe("Memory Compression").is_some());
    assert!(describe("System Idle Process").is_some());
}

#[test]
fn unknown_processes_get_no_invented_description() {
    assert_eq!(describe("totally-made-up.exe"), None);
    assert_eq!(describe(""), None);
}

#[test]
fn entries_are_unique_and_stored_for_case_insensitive_lookup() {
    let mut names: Vec<String> = knowledge_entries()
        .iter()
        .map(|(name, _)| name.to_ascii_lowercase())
        .collect();
    names.sort();
    let before = names.len();
    names.dedup();
    assert_eq!(before, names.len(), "duplicate entry in the knowledge table");
}

#[test]
fn lookup_ignores_surrounding_whitespace() {
    assert_eq!(
        describe("  explorer.exe\t"),
        Some("Provides the desktop, taskbar, and File Explorer windows.")
    );
}
