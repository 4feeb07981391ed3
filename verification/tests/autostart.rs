use procdrift::autostart::AutostartIndex;

#[test]
fn matching_is_by_exact_executable_not_substring() {
    let index = AutostartIndex::from_executables(vec![r"c:\program files\app\app.exe".to_owned()]);
    assert!(index.contains(r"C:\Program Files\App\APP.exe"));
    assert!(!index.contains(r"C:\Program Files\App\app-helper.exe"));
    assert!(!index.contains(""));
}

#[test]
fn entries_can_be_added_one_at_a_time() {
    let mut index = AutostartIndex::new();
    assert!(!index.contains(r"C:\a.exe"));
    index.insert(r"c:\a.exe".to_owned());
    index.insert(r"c:\a.exe".to_owned());
    assert!(index.contains(r"C:/A.EXE"));
}
