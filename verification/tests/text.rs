use pickem::text::{same_text, starts_with};

#[test]
fn starts_with_compares_characters() {
    assert!(starts_with("chord", ""));
    assert!(starts_with("chord", "ch"));
    assert!(starts_with("chord", "chord"));
    assert!(!starts_with("chord", "chords"));
    assert!(!starts_with("chord", "Ch"));
    assert!(!starts_with("", "c"));
    assert!(starts_with("", ""));
    assert!(starts_with("éa", "é"));
    assert!(!starts_with("éa", "e"));
}

#[test]
fn same_text_is_equality() {
    assert!(same_text("", ""));
    assert!(same_text("abc", "abc"));
    assert!(!same_text("abc", "ab"));
    assert!(!same_text("ab", "abc"));
    assert!(!same_text("abc", "abd"));
    assert!(!same_text("é", "e"));
}
