use crabmd::coords::backspace_join_doc;

#[test]
fn backspace_at_heading_joins_previous_line() {
    let src = "hello\n\n## Quota and hsh\n";
    let at = src.find('#').unwrap();
    let (out, caret) = backspace_join_doc(src, at).expect("join");
    assert_eq!(out, "hello## Quota and hsh\n");
    assert_eq!(caret, 5);
    assert!(out.contains("hello## Quota"));
}

#[test]
fn backspace_at_hash_heading_after_blank() {
    let src = "hello\n\n# H";
    let at = src.find('#').unwrap();
    let (out, caret) = backspace_join_doc(src, at).expect("join");
    assert_eq!(out, "hello# H");
    assert_eq!(caret, 5);
}

#[test]
fn backspace_mid_line_or_at_start_is_plain() {
    assert_eq!(backspace_join_doc("hello", 2), None);
    assert_eq!(backspace_join_doc("hello", 0), None);
    assert_eq!(backspace_join_doc("hello", 9), None);
}

#[test]
fn backspace_joins_single_and_crlf_breaks() {
    assert_eq!(
        backspace_join_doc("ab\ncd", 3),
        Some(("abcd".to_string(), 2))
    );
    assert_eq!(
        backspace_join_doc("ab\r\ncd", 4),
        Some(("abcd".to_string(), 2))
    );
}
