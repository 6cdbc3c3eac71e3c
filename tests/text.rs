use mfdarchiver::text::{chars_of, contains, is_blank, starts_with, white_space};

#[test]
fn blank_text() {
    assert!(is_blank(""));
    assert!(is_blank(" \n\t\r"));
    assert!(is_blank("\u{3000}\u{a0}"));
    assert!(!is_blank("  x "));
    assert!(!is_blank("Delete"));
}

#[test]
fn whitespace_characters() {
    assert!(white_space(' '));
    assert!(white_space('\u{2028}'));
    assert!(!white_space('a'));
    assert!(!white_space('\u{200b}'));
}

#[test]
fn substring_search() {
    assert!(contains("The following discussion is an archived debate.", "archived debate"));
    assert!(!contains("An open debate", "archived debate"));
    assert!(contains("abc", ""));
    assert!(!contains("ab", "abc"));
}

#[test]
fn prefix_test() {
    assert!(starts_with("Wikipedia:Miscellany for deletion/Draft:X", "Wikipedia:Miscellany for deletion"));
    assert!(!starts_with("Wikipedia:Articles for deletion/X", "Wikipedia:Miscellany for deletion"));
    assert!(!starts_with("Wiki", "Wikipedia"));
}

#[test]
fn characters_of_text() {
    assert_eq!(chars_of("añb"), vec!['a', 'ñ', 'b']);
}
