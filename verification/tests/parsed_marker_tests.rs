//! Markers that the block trees of small documents put on their lines. Each
//! tree is written out as the parser gives it: `(depth, kind, start, end)` in
//! preorder.

use writ::lines::extract_lines_from_parts;
use writ::marker::{LineMarkers, Marker, MarkerKind};
use writ::syntax::NodeKind::{
    AtxHeading, AtxMarker, BlockContinuation, BlockQuote, BlockQuoteMarker, CodeFenceContent, Document,
    FencedCodeBlock, FencedCodeBlockDelimiter, IndentedCodeBlock, InfoString, Inline, List, ListItem,
    ListMarkerDot, ListMarkerMinus, ListMarkerPlus, ListMarkerStar, Paragraph, TaskListMarkerChecked,
    TaskListMarkerUnchecked, ThematicBreak,
};
use writ::syntax::{NodeKind, SyntaxNode};

fn tree(spec: &[(usize, NodeKind, usize, usize)]) -> Vec<SyntaxNode> {
    let mut nodes: Vec<SyntaxNode> = Vec::new();
    let mut stack: Vec<usize> = Vec::new();
    for &(depth, kind, start_byte, end_byte) in spec {
        stack.truncate(depth);
        let parent = stack.last().copied();
        nodes.push(SyntaxNode { kind, start_byte, end_byte, parent });
        stack.push(nodes.len() - 1);
    }
    nodes
}

fn extract_lines(text: &str, spec: &[(usize, NodeKind, usize, usize)]) -> Vec<LineMarkers> {
    let nodes = tree(spec);
    extract_lines_from_parts(text, Some(&nodes))
}

fn kinds(markers: &[Marker]) -> Vec<&MarkerKind> {
    markers.iter().map(|m| &m.kind).collect()
}

/// A one-item list whose marker of kind `marker` spans `marker_len` bytes.
fn one_item(len: usize, marker: NodeKind, marker_len: usize) -> Vec<(usize, NodeKind, usize, usize)> {
    vec![
        (0, Document, 0, len),
        (1, List, 0, len),
        (2, ListItem, 0, len),
        (3, marker, 0, marker_len),
        (3, Paragraph, marker_len, len),
        (4, Inline, marker_len, len - 1),
    ]
}

/// A paragraph alone.
fn paragraph(len: usize) -> Vec<(usize, NodeKind, usize, usize)> {
    vec![(0, Document, 0, len), (1, Paragraph, 0, len), (2, Inline, 0, len - 1)]
}

/// A list item whose first line is `first` bytes long, then an item nested
/// under it: its indent of `indent` bytes, then a `- ` marker.
fn nested_under(first: usize, top_marker: NodeKind, top_len: usize, indent: usize, len: usize) -> Vec<(usize, NodeKind, usize, usize)> {
    let m = first + indent;
    vec![
        (0, Document, 0, len),
        (1, List, 0, len),
        (2, ListItem, 0, len),
        (3, top_marker, 0, top_len),
        (3, Paragraph, top_len, first),
        (4, Inline, top_len, first - 1),
        (3, BlockContinuation, first, m),
        (3, List, m, len),
        (4, ListItem, m, len),
        (5, ListMarkerMinus, m, m + 2),
        (5, Paragraph, m + 2, len),
        (6, Inline, m + 2, len - 1),
    ]
}

#[test]
fn marker_test_simple_list() {
    let lines = extract_lines("- Item\n", &one_item(7, ListMarkerMinus, 2));
    assert_eq!(kinds(&lines[0].markers), vec![&MarkerKind::ListItem { ordered: false }]);
}

#[test]
fn marker_test_multiline_blockquote() {
    let spec = [
        (0, Document, 0, 18),
        (1, BlockQuote, 0, 18),
        (2, BlockQuoteMarker, 0, 2),
        (2, Paragraph, 2, 18),
        (3, Inline, 2, 17),
        (4, BlockContinuation, 9, 11),
    ];
    let lines = extract_lines("> Line 1\n> Line 2\n", &spec);
    assert_eq!(kinds(&lines[0].markers), vec![&MarkerKind::BlockQuote]);
    assert_eq!(kinds(&lines[1].markers), vec![&MarkerKind::BlockQuote]);
}

#[test]
fn marker_test_nested_blockquote() {
    let spec = [
        (0, Document, 0, 22),
        (1, BlockQuote, 0, 22),
        (2, BlockQuoteMarker, 0, 2),
        (2, Paragraph, 2, 10),
        (3, Inline, 2, 9),
        (2, BlockContinuation, 10, 12),
        (2, BlockQuote, 12, 22),
        (3, BlockQuoteMarker, 12, 14),
        (3, Paragraph, 14, 22),
        (4, Inline, 14, 21),
    ];
    let lines = extract_lines("> Level 1\n> > Level 2\n", &spec);
    assert_eq!(kinds(&lines[0].markers), vec![&MarkerKind::BlockQuote]);
    assert_eq!(kinds(&lines[1].markers), vec![&MarkerKind::BlockQuote, &MarkerKind::BlockQuote]);
}

#[test]
fn marker_test_list_in_blockquote() {
    let spec = [
        (0, Document, 0, 9),
        (1, BlockQuote, 0, 9),
        (2, BlockQuoteMarker, 0, 2),
        (2, List, 2, 9),
        (3, ListItem, 2, 9),
        (4, ListMarkerMinus, 2, 4),
        (4, Paragraph, 4, 9),
        (5, Inline, 4, 8),
    ];
    let lines = extract_lines("> - Item\n", &spec);
    assert_eq!(
        kinds(&lines[0].markers),
        vec![&MarkerKind::ListItem { ordered: false }, &MarkerKind::BlockQuote]
    );
}

#[test]
fn marker_test_ordered_list() {
    let lines = extract_lines("1. First\n", &one_item(9, ListMarkerDot, 3));
    assert_eq!(kinds(&lines[0].markers), vec![&MarkerKind::ListItem { ordered: true }]);
}

#[test]
fn marker_test_task_list() {
    let spec = [
        (0, Document, 0, 22),
        (1, List, 0, 22),
        (2, ListItem, 0, 11),
        (3, ListMarkerMinus, 0, 2),
        (3, TaskListMarkerUnchecked, 2, 5),
        (3, Paragraph, 6, 11),
        (4, Inline, 6, 10),
        (2, ListItem, 11, 22),
        (3, ListMarkerMinus, 11, 13),
        (3, TaskListMarkerChecked, 13, 16),
        (3, Paragraph, 17, 22),
        (4, Inline, 17, 21),
    ];
    let lines = extract_lines("- [ ] Todo\n- [x] Done\n", &spec);
    assert_eq!(
        kinds(&lines[0].markers),
        vec![&MarkerKind::Checkbox { checked: false }, &MarkerKind::ListItem { ordered: false }]
    );
    assert_eq!(
        kinds(&lines[1].markers),
        vec![&MarkerKind::Checkbox { checked: true }, &MarkerKind::ListItem { ordered: false }]
    );
}

#[test]
fn marker_test_heading() {
    let spec = [(0, Document, 0, 11), (1, AtxHeading, 0, 11), (2, AtxMarker(2), 0, 2), (2, Inline, 3, 10)];
    let lines = extract_lines("## Heading\n", &spec);
    assert_eq!(kinds(&lines[0].markers), vec![&MarkerKind::Heading(2)]);
}

#[test]
fn marker_test_fenced_code_block() {
    let spec = [
        (0, Document, 0, 23),
        (1, FencedCodeBlock, 0, 23),
        (2, FencedCodeBlockDelimiter, 0, 3),
        (2, InfoString, 3, 7),
        (2, CodeFenceContent, 8, 19),
        (2, FencedCodeBlockDelimiter, 19, 22),
    ];
    let lines = extract_lines("```rust\nlet x = 1;\n```\n", &spec);
    assert_eq!(
        kinds(&lines[0].markers),
        vec![&MarkerKind::CodeBlockFence { language: Some("rust".to_string()), is_opening: true }]
    );
    assert_eq!(kinds(&lines[1].markers), vec![] as Vec<&MarkerKind>);
    assert_eq!(
        kinds(&lines[2].markers),
        vec![&MarkerKind::CodeBlockFence { language: None, is_opening: false }]
    );
}

#[test]
fn marker_test_fenced_code_block_with_indentation() {
    let text = "```rust\nfn main() {\n    println!(\"hello\");\n}\n```\n";
    let close = text.rfind("```").unwrap();
    let spec = [
        (0, Document, 0, text.len()),
        (1, FencedCodeBlock, 0, text.len()),
        (2, FencedCodeBlockDelimiter, 0, 3),
        (2, InfoString, 3, 7),
        (2, CodeFenceContent, 8, close),
        (2, FencedCodeBlockDelimiter, close, close + 3),
    ];
    let lines = extract_lines(text, &spec);
    assert_eq!(
        kinds(&lines[0].markers),
        vec![&MarkerKind::CodeBlockFence { language: Some("rust".to_string()), is_opening: true }]
    );
    assert_eq!(kinds(&lines[1].markers), vec![] as Vec<&MarkerKind>);
    assert_eq!(kinds(&lines[2].markers), vec![] as Vec<&MarkerKind>);
    assert_eq!(kinds(&lines[3].markers), vec![] as Vec<&MarkerKind>);
    assert_eq!(
        kinds(&lines[4].markers),
        vec![&MarkerKind::CodeBlockFence { language: None, is_opening: false }]
    );
}

#[test]
fn marker_test_indented_code_block() {
    let spec = [(0, Document, 0, 30), (1, IndentedCodeBlock, 0, 30), (2, BlockContinuation, 15, 19)];
    let lines = extract_lines("    let x = 1;\n    let y = 2;\n", &spec);
    assert_eq!(kinds(&lines[0].markers), vec![] as Vec<&MarkerKind>);
    assert_eq!(kinds(&lines[1].markers), vec![] as Vec<&MarkerKind>);
}

#[test]
fn test_indented_code_block_in_blockquote() {
    let spec = [(0, Document, 0, 11), (1, BlockQuote, 0, 11), (2, BlockQuoteMarker, 0, 2), (2, IndentedCodeBlock, 2, 11)];
    let lines = extract_lines(">     code\n", &spec);
    assert_eq!(kinds(&lines[0].markers), vec![&MarkerKind::BlockQuote]);
}

#[test]
fn marker_test_thematic_break() {
    let lines = extract_lines("---\n", &[(0, Document, 0, 4), (1, ThematicBreak, 0, 4)]);
    assert_eq!(kinds(&lines[0].markers), vec![&MarkerKind::ThematicBreak]);
}

#[test]
fn marker_test_soft_wrapped_list_item() {
    let spec = [
        (0, Document, 0, 28),
        (1, List, 0, 28),
        (2, ListItem, 0, 28),
        (3, ListMarkerMinus, 0, 2),
        (3, Paragraph, 2, 28),
        (4, Inline, 2, 27),
        (5, BlockContinuation, 13, 15),
    ];
    let lines = extract_lines("- First line\n  continuation\n", &spec);
    assert_eq!(kinds(&lines[0].markers), vec![&MarkerKind::ListItem { ordered: false }]);
    assert_eq!(kinds(&lines[1].markers), vec![&MarkerKind::Indent]);
}

#[test]
fn marker_test_multi_paragraph_list_item() {
    let spec = [
        (0, Document, 0, 33),
        (1, List, 0, 33),
        (2, ListItem, 0, 33),
        (3, ListMarkerMinus, 0, 2),
        (3, Paragraph, 2, 13),
        (4, Inline, 2, 12),
        (3, BlockContinuation, 14, 16),
        (3, Paragraph, 16, 33),
        (4, Inline, 16, 32),
    ];
    let lines = extract_lines("- First line\n\n  Second paragraph\n", &spec);
    assert_eq!(kinds(&lines[0].markers), vec![&MarkerKind::ListItem { ordered: false }]);
    assert_eq!(kinds(&lines[1].markers), vec![] as Vec<&MarkerKind>);
    assert_eq!(kinds(&lines[2].markers), vec![&MarkerKind::Indent]);
}

#[test]
fn marker_test_nested_list() {
    let text = "- First\n    - Nested\n";
    let spec = [
        (0, Document, 0, 21),
        (1, List, 0, 21),
        (2, ListItem, 0, 21),
        (3, ListMarkerMinus, 0, 2),
        (3, Paragraph, 2, 8),
        (4, Inline, 2, 7),
        (3, BlockContinuation, 8, 10),
        (3, List, 10, 21),
        (4, ListItem, 10, 21),
        (5, ListMarkerMinus, 10, 14),
        (5, Paragraph, 14, 21),
        (6, Inline, 14, 20),
    ];
    let lines = extract_lines(text, &spec);
    assert_eq!(
        kinds(&lines[1].markers),
        vec![&MarkerKind::ListItem { ordered: false }, &MarkerKind::Indent]
    );
    assert_eq!(&text[lines[1].markers[0].range.clone()], "  - ");
    assert_eq!(&text[lines[1].markers[1].range.clone()], "  ");
}

#[test]
fn test_two_nested_items_same_level() {
    let text = "- test\n    - hey\n    - hey\n";
    let spec = [
        (0, Document, 0, 27),
        (1, List, 0, 27),
        (2, ListItem, 0, 27),
        (3, ListMarkerMinus, 0, 2),
        (3, Paragraph, 2, 7),
        (4, Inline, 2, 6),
        (3, BlockContinuation, 7, 9),
        (3, List, 9, 27),
        (4, ListItem, 9, 17),
        (5, ListMarkerMinus, 9, 13),
        (5, Paragraph, 13, 17),
        (6, Inline, 13, 16),
        (4, BlockContinuation, 17, 19),
        (4, ListItem, 19, 27),
        (5, ListMarkerMinus, 19, 23),
        (5, Paragraph, 23, 27),
        (6, Inline, 23, 26),
    ];
    let lines = extract_lines(text, &spec);
    assert_eq!(lines[1].substitution(text), lines[2].substitution(text));
}

#[test]
fn test_marker_width_unordered() {
    let lines = extract_lines("- item\n", &one_item(7, ListMarkerMinus, 2));
    assert_eq!(lines[0].marker_width(), 2);
}

#[test]
fn test_marker_width_ordered_single_digit() {
    let lines = extract_lines("1. item\n", &one_item(8, ListMarkerDot, 3));
    assert_eq!(lines[0].marker_width(), 3);
}

#[test]
fn test_marker_width_ordered_double_digit() {
    let text = "1. a\n2. b\n3. c\n4. d\n5. e\n6. f\n7. g\n8. h\n9. i\n10. j\n";
    let mut spec = vec![(0, Document, 0, text.len()), (1, List, 0, text.len())];
    let mut start = 0;
    for line in text.split_inclusive('\n') {
        let marker_len = line.find(' ').unwrap() + 1;
        let end = start + line.len();
        spec.push((2, ListItem, start, end));
        spec.push((3, ListMarkerDot, start, start + marker_len));
        spec.push((3, Paragraph, start + marker_len, end));
        spec.push((4, Inline, start + marker_len, end - 1));
        start = end;
    }
    let lines = extract_lines(text, &spec);
    assert_eq!(lines[9].marker_width(), 4);
}

#[test]
fn test_marker_width_no_marker() {
    let lines = extract_lines("just text\n", &paragraph(10));
    assert_eq!(lines[0].marker_width(), 0);
}

#[test]
fn test_nesting_threshold_unordered() {
    let lines = extract_lines("- top\n  - nested\n", &nested_under(6, ListMarkerMinus, 2, 2, 17));
    assert!(lines[1].markers.iter().any(|m| matches!(m.kind, MarkerKind::Indent)));
}

#[test]
fn test_nesting_threshold_unordered_insufficient() {
    // One space is not enough to nest: the item is a sibling, its marker " - ".
    let spec = [
        (0, Document, 0, 20),
        (1, List, 0, 20),
        (2, ListItem, 0, 6),
        (3, ListMarkerMinus, 0, 2),
        (3, Paragraph, 2, 6),
        (4, Inline, 2, 5),
        (2, ListItem, 6, 20),
        (3, ListMarkerMinus, 6, 9),
        (3, Paragraph, 9, 20),
        (4, Inline, 9, 19),
    ];
    let lines = extract_lines("- top\n - not nested\n", &spec);
    assert!(!lines[1].markers.iter().any(|m| matches!(m.kind, MarkerKind::Indent)));
}

#[test]
fn test_nesting_threshold_ordered_single_digit() {
    let lines = extract_lines("1. top\n   - nested\n", &nested_under(7, ListMarkerDot, 3, 3, 19));
    assert!(lines[1].markers.iter().any(|m| matches!(m.kind, MarkerKind::Indent)));
}

#[test]
fn test_nesting_threshold_ordered_double_digit() {
    let lines = extract_lines("10. top\n    - nested\n", &nested_under(8, ListMarkerDot, 4, 4, 21));
    assert!(lines[1].markers.iter().any(|m| matches!(m.kind, MarkerKind::Indent)));
}

#[test]
fn test_nesting_threshold_ordered_triple_digit() {
    let lines = extract_lines("100. top\n     - nested\n", &nested_under(9, ListMarkerDot, 5, 5, 23));
    assert!(lines[1].markers.iter().any(|m| matches!(m.kind, MarkerKind::Indent)));
}

#[test]
fn test_blockquote_with_space() {
    let spec = [(0, Document, 0, 7), (1, BlockQuote, 0, 7), (2, BlockQuoteMarker, 0, 2), (2, Paragraph, 2, 7), (3, Inline, 2, 6)];
    let lines = extract_lines("> text\n", &spec);
    assert_eq!(kinds(&lines[0].markers), vec![&MarkerKind::BlockQuote]);
}

#[test]
fn test_blockquote_without_space() {
    let spec = [(0, Document, 0, 6), (1, BlockQuote, 0, 6), (2, BlockQuoteMarker, 0, 1), (2, Paragraph, 1, 6), (3, Inline, 1, 5)];
    let lines = extract_lines(">text\n", &spec);
    assert_eq!(kinds(&lines[0].markers), vec![&MarkerKind::BlockQuote]);
}

#[test]
fn test_unordered_list_minus_with_space() {
    let lines = extract_lines("- text\n", &one_item(7, ListMarkerMinus, 2));
    assert_eq!(kinds(&lines[0].markers), vec![&MarkerKind::ListItem { ordered: false }]);
}

#[test]
fn test_unordered_list_minus_without_space() {
    let lines = extract_lines("-text\n", &paragraph(6));
    assert_eq!(kinds(&lines[0].markers), vec![] as Vec<&MarkerKind>);
}

#[test]
fn test_unordered_list_star_with_space() {
    let lines = extract_lines("* text\n", &one_item(7, ListMarkerStar, 2));
    assert_eq!(kinds(&lines[0].markers), vec![&MarkerKind::ListItem { ordered: false }]);
}

#[test]
fn test_unordered_list_star_without_space() {
    let lines = extract_lines("*text\n", &paragraph(6));
    assert_eq!(kinds(&lines[0].markers), vec![] as Vec<&MarkerKind>);
}

#[test]
fn test_unordered_list_plus_with_space() {
    let lines = extract_lines("+ text\n", &one_item(7, ListMarkerPlus, 2));
    assert_eq!(kinds(&lines[0].markers), vec![&MarkerKind::ListItem { ordered: false }]);
}

#[test]
fn test_unordered_list_plus_without_space() {
    let lines = extract_lines("+text\n", &paragraph(6));
    assert_eq!(kinds(&lines[0].markers), vec![] as Vec<&MarkerKind>);
}

#[test]
fn test_ordered_list_with_space() {
    let lines = extract_lines("1. text\n", &one_item(8, ListMarkerDot, 3));
    assert_eq!(kinds(&lines[0].markers), vec![&MarkerKind::ListItem { ordered: true }]);
}

#[test]
fn test_ordered_list_without_space() {
    let lines = extract_lines("1.text\n", &paragraph(7));
    assert_eq!(kinds(&lines[0].markers), vec![] as Vec<&MarkerKind>);
}

#[test]
fn test_heading_with_space() {
    let spec = [(0, Document, 0, 7), (1, AtxHeading, 0, 7), (2, AtxMarker(1), 0, 1), (2, Inline, 2, 6)];
    let lines = extract_lines("# text\n", &spec);
    assert_eq!(kinds(&lines[0].markers), vec![&MarkerKind::Heading(1)]);
}

#[test]
fn test_heading_without_space() {
    let lines = extract_lines("#text\n", &paragraph(6));
    assert_eq!(kinds(&lines[0].markers), vec![] as Vec<&MarkerKind>);
}

#[test]
fn test_heading_h2_without_space() {
    let lines = extract_lines("##text\n", &paragraph(7));
    assert_eq!(kinds(&lines[0].markers), vec![] as Vec<&MarkerKind>);
}
