use writ::acp::apply_line_limit;

#[test]
fn whole_content_without_window() {
    assert_eq!(apply_line_limit("a\nb\nc\n", None, None), "a\nb\nc");
    assert_eq!(apply_line_limit("", None, None), "");
}

#[test]
fn window_from_line_with_limit() {
    let text = "one\ntwo\nthree\nfour\n";
    assert_eq!(apply_line_limit(text, Some(2), Some(2)), "two\nthree");
    assert_eq!(apply_line_limit(text, Some(3), None), "three\nfour");
    assert_eq!(apply_line_limit(text, None, Some(1)), "one");
    // Line 0 counts as the first line.
    assert_eq!(apply_line_limit(text, Some(0), Some(1)), "one");
}

#[test]
fn window_past_the_end_is_empty() {
    assert_eq!(apply_line_limit("one\ntwo", Some(5), None), "");
    assert_eq!(apply_line_limit("one\ntwo", Some(2), Some(10)), "two");
}

#[test]
fn crlf_line_endings_are_dropped() {
    assert_eq!(apply_line_limit("a\r\nb\r\n", None, None), "a\nb");
    assert_eq!(apply_line_limit("a\r", None, None), "a\r");
    assert_eq!(apply_line_limit("\n\nx", Some(2), None), "\nx");
}
