use writ::buffer::{Buffer, TextEdit};
use writ::syntax::{NodeKind, SyntaxNode};

fn buf(s: &str) -> Buffer {
    s.parse().unwrap()
}

#[test]
fn test_new_buffer_is_empty() {
    let buf = Buffer::new();
    assert!(buf.is_empty());
    assert_eq!(buf.len_bytes(), 0);
}

#[test]
fn test_from_str() {
    let buf: Buffer = "hello world".parse().unwrap();
    assert_eq!(buf.text(), "hello world");
    assert_eq!(buf.len_bytes(), 11);
    assert!(!buf.is_empty());
}

#[test]
fn test_insert() {
    let mut buf: Buffer = "hello world".parse().unwrap();
    buf.insert(5, " beautiful", 5);
    assert_eq!(buf.text(), "hello beautiful world");
}

#[test]
fn test_delete() {
    let mut buf: Buffer = "hello world".parse().unwrap();
    buf.delete(5..11, 11);
    assert_eq!(buf.text(), "hello");
}

#[test]
fn test_replace() {
    let mut buf: Buffer = "hello world".parse().unwrap();
    buf.replace(6..11, "rust", 11);
    assert_eq!(buf.text(), "hello rust");
}

#[test]
fn test_line_operations() {
    let buf: Buffer = "line one\nline two\nline three".parse().unwrap();
    assert_eq!(buf.line_count(), 3);
    assert_eq!(buf.line(0), "line one");
    assert_eq!(buf.line(1), "line two");
    assert_eq!(buf.line(2), "line three");
}

#[test]
fn test_byte_to_line() {
    let buf: Buffer = "abc\ndef\nghi".parse().unwrap();
    assert_eq!(buf.byte_to_line(0), 0);
    assert_eq!(buf.byte_to_line(3), 0);
    assert_eq!(buf.byte_to_line(4), 1);
    assert_eq!(buf.byte_to_line(8), 2);
}

#[test]
fn test_undo_insert() {
    let mut buf: Buffer = "hello".parse().unwrap();
    buf.insert(5, " world", 5);
    assert_eq!(buf.text(), "hello world");

    let cursor = buf.undo();
    assert_eq!(cursor, Some(5));
    assert_eq!(buf.text(), "hello");
}

#[test]
fn test_redo_insert() {
    let mut buf: Buffer = "hello".parse().unwrap();
    buf.insert(5, " world", 5);
    buf.undo();

    let cursor = buf.redo();
    assert_eq!(cursor, Some(11));
    assert_eq!(buf.text(), "hello world");
}

#[test]
fn test_undo_delete() {
    let mut buf: Buffer = "hello world".parse().unwrap();
    buf.delete(5..11, 11);
    assert_eq!(buf.text(), "hello");

    let cursor = buf.undo();
    assert_eq!(cursor, Some(11));
    assert_eq!(buf.text(), "hello world");
}

#[test]
fn test_dirty_state() {
    let mut buf: Buffer = "hello".parse().unwrap();
    assert!(!buf.is_dirty());

    buf.insert(5, " world", 5);
    assert!(buf.is_dirty());

    buf.mark_clean();
    assert!(!buf.is_dirty());

    buf.insert(11, "!", 11);
    assert!(buf.is_dirty());
}

#[test]
fn test_dirty_after_undo_to_save_point() {
    let mut buf: Buffer = "hello".parse().unwrap();
    buf.insert(5, " world", 5);
    buf.mark_clean();
    assert!(!buf.is_dirty());

    buf.insert(11, "!", 11);
    assert!(buf.is_dirty());

    buf.undo();
    assert!(!buf.is_dirty());
}

#[test]
fn test_dirty_save_point_unreachable() {
    let mut buf: Buffer = "hello".parse().unwrap();
    buf.insert(5, " world", 5);
    buf.mark_clean();

    buf.undo();
    assert!(buf.is_dirty());

    buf.insert(5, " rust", 5);
    assert!(buf.is_dirty());

    buf.undo();
    assert!(buf.is_dirty());
}

#[test]
fn test_multiple_undo_redo() {
    let mut buf: Buffer = "a".parse().unwrap();
    buf.insert(1, "b", 1);
    buf.insert(2, "c", 2);
    buf.insert(3, "d", 3);
    assert_eq!(buf.text(), "abcd");

    buf.undo();
    assert_eq!(buf.text(), "abc");
    buf.undo();
    assert_eq!(buf.text(), "ab");
    buf.undo();
    assert_eq!(buf.text(), "a");

    buf.redo();
    assert_eq!(buf.text(), "ab");
    buf.redo();
    assert_eq!(buf.text(), "abc");
    buf.redo();
    assert_eq!(buf.text(), "abcd");
}

#[test]
fn test_ordered_list_no_normalization() {
    let buf: Buffer = "1. First\n5. Second\n9. Third\n".parse().unwrap();
    assert_eq!(buf.text(), "1. First\n5. Second\n9. Third\n");
}

#[test]
fn test_ordered_list_parenthesis_no_normalization() {
    let buf: Buffer = "1) First\n5) Second\n9) Third\n".parse().unwrap();
    assert_eq!(buf.text(), "1) First\n5) Second\n9) Third\n");
}

#[test]
fn test_unordered_list_unchanged() {
    let buf: Buffer = "- First\n- Second\n- Third\n".parse().unwrap();
    assert_eq!(buf.text(), "- First\n- Second\n- Third\n");
}

#[test]
fn test_lines_empty_buffer() {
    let buf: Buffer = "".parse().unwrap();
    let lines = buf.lines();

    assert_eq!(lines.len(), 1);
    assert_eq!(lines[0].range, 0..0);
    assert!(lines[0].markers.is_empty());
}

#[test]
fn test_lines_single_newline() {
    let buf: Buffer = "\n".parse().unwrap();
    let lines = buf.lines();

    assert_eq!(lines.len(), 2);
    assert_eq!(lines[0].range, 0..0);
    assert_eq!(lines[1].range, 1..1);
}

#[test]
fn test_lines_paragraph() {
    let buf: Buffer = "Hello\n\nWorld\n".parse().unwrap();
    let lines = buf.lines();

    assert_eq!(lines.len(), 4);
    assert_eq!(lines[0].range, 0..5);
    assert_eq!(lines[1].range, 6..6);
    assert_eq!(lines[2].range, 7..12);
}

// Further checks of the buffer's contracts on concrete values.

#[test]
fn undo_restores_text_after_replace_with_multibyte_chars() {
    let mut b = buf("héllo wörld");
    let start = "héllo ".len();
    let end = b.len_bytes();
    let cursor = b.replace(start..end, "ünïcode", end);
    assert_eq!(cursor, start + "ünïcode".len());
    assert_eq!(b.text(), "héllo ünïcode");
    assert_eq!(b.undo(), Some(end));
    assert_eq!(b.text(), "héllo wörld");
    assert_eq!(b.redo(), Some(start + "ünïcode".len()));
    assert_eq!(b.text(), "héllo ünïcode");
}

#[test]
fn edit_after_undo_drops_redo() {
    let mut b = buf("ab");
    b.insert(2, "c", 2);
    b.undo();
    assert!(b.can_redo());
    b.insert(0, "x", 0);
    assert!(!b.can_redo());
    assert_eq!(b.redo(), None);
    assert_eq!(b.text(), "xab");
    assert!(b.can_undo());
}

#[test]
fn undo_and_redo_at_the_ends_do_nothing() {
    let mut b = buf("abc");
    assert!(!b.can_undo());
    assert_eq!(b.undo(), None);
    assert_eq!(b.redo(), None);
    assert_eq!(b.text(), "abc");
    assert!(!b.is_dirty());
}

#[test]
fn delete_returns_range_start_and_keeps_lines() {
    let mut b = buf("one\ntwo\nthree");
    assert_eq!(b.delete(3..8, 8), 3);
    assert_eq!(b.text(), "onethree");
    assert_eq!(b.line_count(), 1);
    assert_eq!(b.lines().len(), 1);
    assert_eq!(b.lines()[0].range, 0..8);
}

#[test]
fn line_queries() {
    let b = buf("ab\ncd\n");
    assert_eq!(b.line_count(), 3);
    assert_eq!(b.line_to_byte(1), 3);
    assert_eq!(b.line_to_byte(2), 6);
    assert_eq!(b.line_byte_range(0), 0..3);
    assert_eq!(b.line_byte_range(1), 3..6);
    assert_eq!(b.line_byte_range(2), 6..6);
    assert_eq!(b.line(2), "");
    assert_eq!(b.byte_at(4), Some(b'd'));
    assert_eq!(b.byte_at(6), None);
    assert_eq!(b.len_chars(), 6);
}

#[test]
fn slice_cow_clamps() {
    let b = buf("hello");
    assert_eq!(b.slice_cow(1..3), "el");
    assert_eq!(b.slice_cow(3..100), "lo");
    assert_eq!(b.slice_cow(4..2), "");
    assert_eq!(b.slice_cow(10..20), "");
}

#[test]
fn text_edit_new_builds_an_edit() {
    let e = TextEdit::new(3, "ab".to_string(), "xyz".to_string(), 5, 6);
    let f = e.clone();
    assert_eq!(format!("{:?}", e), format!("{:?}", f));
}

#[test]
fn set_syntax_rejects_nodes_outside_the_text() {
    let mut b = buf("> a\n");
    let bad = vec![SyntaxNode { kind: NodeKind::BlockQuoteMarker, start_byte: 0, end_byte: 9, parent: None }];
    assert!(!b.set_syntax(bad));
    assert!(b.tree().is_none());
    let good = vec![
        SyntaxNode { kind: NodeKind::Document, start_byte: 0, end_byte: 4, parent: None },
        SyntaxNode { kind: NodeKind::BlockQuote, start_byte: 0, end_byte: 4, parent: Some(0) },
        SyntaxNode { kind: NodeKind::BlockQuoteMarker, start_byte: 0, end_byte: 2, parent: Some(1) },
    ];
    assert!(b.set_syntax(good));
    assert!(b.tree().is_some());
    assert!(b.lines()[0].has_border());
    b.insert(4, "b", 4);
    assert!(b.tree().is_none());
    assert!(!b.lines()[0].has_border());
}
