use mfdarchiver::gate::{diff_text, has_changes, should_write};

#[test]
fn equal_texts_need_no_write() {
    assert!(!should_write("a\nb\n", "a\nb\n"));
    assert!(!should_write("", ""));
}

#[test]
fn changed_texts_need_a_write() {
    assert!(should_write("a\nb\n", "a\nc\n"));
    assert!(should_write("", "new page\n"));
}

#[test]
fn diff_records_the_change() {
    let d = diff_text("a\nb\n", "a\nc\n");
    assert!(d.contains("-b"));
    assert!(d.contains("+c"));
}

#[test]
fn whitespace_diff_has_no_change() {
    assert!(!has_changes(""));
    assert!(!has_changes(" \n"));
    assert!(has_changes("@@ -1 +1 @@\n-a\n+b\n"));
}

#[test]
fn equal_texts_have_an_empty_diff() {
    assert_eq!(diff_text("a\nb\n", "a\nb\n"), "");
}

#[test]
fn one_line_change_needs_a_write() {
    assert!(should_write("a\n", "b\n"));
    assert!(should_write("a", "a\n"));
}
