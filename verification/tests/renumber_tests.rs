use ropey::Rope;
use writ::buffer::{Buffer, BufferContent};
use writ::renumber::{apply_corrections_to_rope, find_ordered_list_corrections, marker_string};
use writ::syntax::{NodeKind, SyntaxNode};

fn node(kind: NodeKind, start_byte: usize, end_byte: usize, parent: Option<usize>) -> SyntaxNode {
    SyntaxNode { kind, start_byte, end_byte, parent }
}

/// A flat list whose items span `items` (byte ranges), each with a marker of
/// `marker_len` bytes of kind `marker`.
fn list_nodes(total: usize, items: &[(usize, usize)], marker: NodeKind, marker_len: usize) -> Vec<SyntaxNode> {
    let mut nodes = vec![node(NodeKind::Document, 0, total, None), node(NodeKind::List, 0, total, Some(0))];
    for &(start, end) in items {
        let item = nodes.len();
        nodes.push(node(NodeKind::ListItem, start, end, Some(1)));
        nodes.push(node(marker, start, start + marker_len, Some(item)));
        nodes.push(node(NodeKind::Paragraph, start + marker_len, end, Some(item)));
    }
    nodes
}

#[test]
fn corrections_for_out_of_order_numbers() {
    let text = "1. First\n5. Second\n9. Third\n";
    let nodes = list_nodes(28, &[(0, 9), (9, 19), (19, 28)], NodeKind::ListMarkerDot, 3);
    let rope = Rope::from_str(text);
    let cs = find_ordered_list_corrections(&nodes, &rope);
    assert_eq!(cs, vec![(9..12, 2, false), (19..22, 3, false)]);
}

#[test]
fn no_corrections_when_numbered_in_order() {
    let text = "1. a\n2. b\n3. c\n";
    let nodes = list_nodes(15, &[(0, 5), (5, 10), (10, 15)], NodeKind::ListMarkerDot, 3);
    let cs = find_ordered_list_corrections(&nodes, &Rope::from_str(text));
    assert!(cs.is_empty());
}

#[test]
fn no_corrections_for_unordered_list() {
    let text = "- a\n- b\n";
    let nodes = list_nodes(8, &[(0, 4), (4, 8)], NodeKind::ListMarkerMinus, 2);
    let cs = find_ordered_list_corrections(&nodes, &Rope::from_str(text));
    assert!(cs.is_empty());
}

#[test]
fn leading_zeros_count_as_the_number() {
    // "01. " carries 1, which is wrong for the second item.
    let text = "1. a\n01. b\n";
    let nodes = list_nodes(11, &[(0, 5), (5, 11)], NodeKind::ListMarkerDot, 3);
    let mut nodes = nodes;
    nodes[6].end_byte = 9;
    nodes[7].start_byte = 9;
    let cs = find_ordered_list_corrections(&nodes, &Rope::from_str(text));
    assert_eq!(cs, vec![(5..9, 2, false)]);
}

#[test]
fn marker_string_formats() {
    assert_eq!(marker_string(12, true), "12) ");
    assert_eq!(marker_string(3, false), "3. ");
    assert_eq!(marker_string(0, false), "0. ");
}

#[test]
fn corrections_applied_last_first() {
    let mut rope = Rope::from_str("1. a\n7. b\n10. c\n");
    let cs = vec![(5..8, 2, false), (10..14, 3, false)];
    apply_corrections_to_rope(&mut rope, &cs);
    assert_eq!(rope.to_string(), "1. a\n2. b\n3. c\n");
}

#[test]
fn correction_off_the_text_stops_renumbering() {
    let mut rope = Rope::from_str("1. a\n7. b\n");
    let cs = vec![(5..8, 2, false), (40..44, 3, false)];
    apply_corrections_to_rope(&mut rope, &cs);
    assert_eq!(rope.to_string(), "1. a\n7. b\n");
}

#[test]
fn normalize_renumbers_dot_list() {
    let text = "1. First\n5. Second\n9. Third\n";
    let mut content = BufferContent::from_text(text);
    assert!(content.set_syntax(list_nodes(28, &[(0, 9), (9, 19), (19, 28)], NodeKind::ListMarkerDot, 3)));
    assert!(content.normalize_ordered_lists());
    assert_eq!(content.text(), "1. First\n2. Second\n3. Third\n");
    assert!(content.tree().is_none());
}

#[test]
fn normalize_renumbers_parenthesis_list_with_shorter_number() {
    let text = "10) a\n3) b\n";
    let mut content = BufferContent::from_text(text);
    let mut nodes = list_nodes(11, &[(0, 6), (6, 11)], NodeKind::ListMarkerParenthesis, 3);
    nodes[3].end_byte = 4;
    nodes[4].start_byte = 4;
    assert!(content.set_syntax(nodes));
    assert!(content.normalize_ordered_lists());
    assert_eq!(content.text(), "1) a\n2) b\n");
}

#[test]
fn normalize_without_parse_changes_nothing() {
    let mut content = BufferContent::from_text("3. a\n");
    assert!(!content.normalize_ordered_lists());
    assert_eq!(content.text(), "3. a\n");
}

#[test]
fn normalize_keeps_ordered_list_in_order() {
    let text = "1. a\n2. b\n";
    let mut content = BufferContent::from_text(text);
    assert!(content.set_syntax(list_nodes(10, &[(0, 5), (5, 10)], NodeKind::ListMarkerDot, 3)));
    assert!(!content.normalize_ordered_lists());
    assert_eq!(content.text(), text);
    assert!(content.tree().is_some());
}

#[test]
fn edit_then_reparse_renumbers_and_undo_takes_both_back() {
    let mut buf = Buffer::new();
    let cursor = buf.insert(0, "1. a\n1. b\n", 0);
    assert_eq!(cursor, 10);
    assert!(buf.reparse(list_nodes(10, &[(0, 5), (5, 10)], NodeKind::ListMarkerDot, 3)));
    assert_eq!(buf.text(), "1. a\n2. b\n");
    assert!(buf.can_undo());
    assert_eq!(buf.undo(), Some(0));
    assert_eq!(buf.text(), "");
    assert_eq!(buf.redo(), Some(10));
    assert_eq!(buf.text(), "1. a\n2. b\n");
}

#[test]
fn reparse_of_numbered_list_installs_the_parse() {
    let mut buf = Buffer::new();
    buf.insert(0, "1. a\n2. b\n", 0);
    assert!(!buf.reparse(list_nodes(10, &[(0, 5), (5, 10)], NodeKind::ListMarkerDot, 3)));
    assert_eq!(buf.text(), "1. a\n2. b\n");
    assert!(buf.content().tree().is_some());
}

#[test]
fn reparse_refuses_nodes_off_the_text() {
    let mut buf = Buffer::new();
    buf.insert(0, "1. a\n", 0);
    assert!(!buf.reparse(list_nodes(40, &[(0, 20), (20, 40)], NodeKind::ListMarkerDot, 3)));
    assert_eq!(buf.text(), "1. a\n");
    assert!(buf.content().tree().is_none());
}

#[test]
fn renumbering_a_loaded_text_leaves_it_dirty() {
    let mut buf = Buffer::from_text("3. a\n");
    assert!(!buf.is_dirty());
    assert!(buf.reparse(list_nodes(5, &[(0, 5)], NodeKind::ListMarkerDot, 3)));
    assert_eq!(buf.text(), "1. a\n");
    assert!(buf.is_dirty());
    assert!(!buf.can_undo());
}
