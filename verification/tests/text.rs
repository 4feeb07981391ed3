use procdrift::text::{concatenated, decimal_string, wide};

#[test]
fn wide_strings_are_utf16_with_a_terminator() {
    assert_eq!(wide("A"), vec![65, 0]);
    let expected: Vec<u16> = "é😀".encode_utf16().chain(Some(0)).collect();
    assert_eq!(wide("é😀"), expected);
}

#[test]
fn decimal_rendering_matches_display() {
    for value in [0u64, 7, 10, 12345, u64::MAX] {
        assert_eq!(decimal_string(value), value.to_string());
    }
    assert_eq!(concatenated("ab", "cd"), "abcd");
}
