//! Line markers of parsed documents. Each document's block tree is written
//! out as the parser gives it: `(depth, kind, start, end)` in preorder.

use writ::buffer::Buffer;
use writ::lines::{extract_lines as buffer_lines, extract_lines_from_parts};
use writ::marker::{LineMarkers, Marker, MarkerKind};
use writ::syntax::{NodeKind, SyntaxNode};
use writ::syntax::NodeKind::{
    AtxHeading, AtxMarker, BlockContinuation, BlockQuote, BlockQuoteMarker, CodeFenceContent, Document,
    FencedCodeBlock, FencedCodeBlockDelimiter, InfoString, Inline, List, ListItem, ListMarkerDot,
    ListMarkerMinus, Paragraph, Section, TaskListMarkerChecked, TaskListMarkerUnchecked, ThematicBreak,
};

type Spec = [(usize, NodeKind, usize, usize)];

fn tree(spec: &Spec) -> Vec<SyntaxNode> {
    let mut nodes: Vec<SyntaxNode> = Vec::new();
    let mut stack: Vec<usize> = Vec::new();
    for &(depth, kind, start_byte, end_byte) in spec {
        stack.truncate(depth);
        let parent = stack.last().copied();
        nodes.push(SyntaxNode { kind, start_byte, end_byte, parent });
        stack.push(nodes.len() - 1);
    }
    nodes
}

/// The lines of `text` with the markers of its parse.
fn extract_lines(text: &str, spec: &Spec) -> Vec<LineMarkers> {
    let nodes = tree(spec);
    extract_lines_from_parts(text, Some(&nodes))
}

/// A buffer holding `text` with its parse installed.
fn parsed_buffer(text: &str, spec: &Spec) -> Buffer {
    let mut buf: Buffer = text.parse().unwrap();
    assert!(buf.set_syntax(tree(spec)));
    buf
}

fn kinds(markers: &[Marker]) -> Vec<&MarkerKind> {
    markers.iter().map(|m| &m.kind).collect()
}

fn heading_spec() -> Vec<(usize, NodeKind, usize, usize)> {
    vec![(0, Document, 0, 8), (1, Section, 0, 8), (2, AtxHeading, 0, 8), (3, AtxMarker(1), 0, 1), (3, Inline, 2, 7)]
}

fn heading_levels_spec() -> Vec<(usize, NodeKind, usize, usize)> {
    vec![
        (0, Document, 0, 18),
        (1, Section, 0, 18),
        (2, AtxHeading, 0, 5),
        (3, AtxMarker(1), 0, 1),
        (3, Inline, 2, 4),
        (2, Section, 5, 18),
        (3, AtxHeading, 5, 11),
        (4, AtxMarker(2), 5, 7),
        (4, Inline, 8, 10),
        (3, Section, 11, 18),
        (4, AtxHeading, 11, 18),
        (5, AtxMarker(3), 11, 14),
        (5, Inline, 15, 17),
    ]
}

/// "- Item 1\n- Item 2\n"
fn unordered_spec() -> Vec<(usize, NodeKind, usize, usize)> {
    vec![
        (0, Document, 0, 18),
        (1, List, 0, 18),
        (2, ListItem, 0, 9),
        (3, ListMarkerMinus, 0, 2),
        (3, Paragraph, 2, 9),
        (4, Inline, 2, 8),
        (2, ListItem, 9, 18),
        (3, ListMarkerMinus, 9, 11),
        (3, Paragraph, 11, 18),
        (4, Inline, 11, 17),
    ]
}

/// "1. First\n2. Second\n"
fn ordered_spec() -> Vec<(usize, NodeKind, usize, usize)> {
    vec![
        (0, Document, 0, 19),
        (1, List, 0, 19),
        (2, ListItem, 0, 9),
        (3, ListMarkerDot, 0, 3),
        (3, Paragraph, 3, 9),
        (4, Inline, 3, 8),
        (2, ListItem, 9, 19),
        (3, ListMarkerDot, 9, 12),
        (3, Paragraph, 12, 19),
        (4, Inline, 12, 18),
    ]
}

/// "- [ ] Unchecked\n- [x] Checked\n"
fn checkbox_spec() -> Vec<(usize, NodeKind, usize, usize)> {
    vec![
        (0, Document, 0, 30),
        (1, List, 0, 30),
        (2, ListItem, 0, 16),
        (3, ListMarkerMinus, 0, 2),
        (3, TaskListMarkerUnchecked, 2, 5),
        (3, Paragraph, 6, 16),
        (4, Inline, 6, 15),
        (2, ListItem, 16, 30),
        (3, ListMarkerMinus, 16, 18),
        (3, TaskListMarkerChecked, 18, 21),
        (3, Paragraph, 22, 30),
        (4, Inline, 22, 29),
    ]
}

/// "> Quote\n"
fn quote_spec() -> Vec<(usize, NodeKind, usize, usize)> {
    vec![(0, Document, 0, 8), (1, BlockQuote, 0, 8), (2, BlockQuoteMarker, 0, 2), (2, Paragraph, 2, 8), (3, Inline, 2, 7)]
}

/// "> Level 1\n> > Level 2\n"
fn nested_quote_spec() -> Vec<(usize, NodeKind, usize, usize)> {
    vec![
        (0, Document, 0, 22),
        (1, BlockQuote, 0, 22),
        (2, BlockQuoteMarker, 0, 2),
        (2, Paragraph, 2, 10),
        (3, Inline, 2, 9),
        (2, BlockContinuation, 10, 12),
        (2, BlockQuote, 12, 22),
        (3, BlockQuoteMarker, 12, 14),
        (3, Paragraph, 14, 22),
        (4, Inline, 14, 21),
    ]
}

/// "> - Item\n"
fn quoted_list_spec() -> Vec<(usize, NodeKind, usize, usize)> {
    vec![
        (0, Document, 0, 9),
        (1, BlockQuote, 0, 9),
        (2, BlockQuoteMarker, 0, 2),
        (2, List, 2, 9),
        (3, ListItem, 2, 9),
        (4, ListMarkerMinus, 2, 4),
        (4, Paragraph, 4, 9),
        (5, Inline, 4, 8),
    ]
}

/// "```rust\nlet x = 1;\n```\n"
fn fence_spec() -> Vec<(usize, NodeKind, usize, usize)> {
    vec![
        (0, Document, 0, 23),
        (1, FencedCodeBlock, 0, 23),
        (2, FencedCodeBlockDelimiter, 0, 3),
        (2, InfoString, 3, 7),
        (2, CodeFenceContent, 8, 19),
        (2, FencedCodeBlockDelimiter, 19, 22),
    ]
}

/// "```rust\nfn main() {}\n```\n"
fn main_fence_spec() -> Vec<(usize, NodeKind, usize, usize)> {
    vec![
        (0, Document, 0, 25),
        (1, FencedCodeBlock, 0, 25),
        (2, FencedCodeBlockDelimiter, 0, 3),
        (2, InfoString, 3, 7),
        (2, CodeFenceContent, 8, 21),
        (2, FencedCodeBlockDelimiter, 21, 24),
    ]
}

/// "> ```rust\n> fn main() {}\n> ```\n"
fn quoted_fence_spec() -> Vec<(usize, NodeKind, usize, usize)> {
    vec![
        (0, Document, 0, 31),
        (1, BlockQuote, 0, 31),
        (2, BlockQuoteMarker, 0, 2),
        (2, FencedCodeBlock, 2, 31),
        (3, FencedCodeBlockDelimiter, 2, 5),
        (3, InfoString, 5, 9),
        (3, BlockContinuation, 10, 12),
        (3, CodeFenceContent, 12, 25),
        (3, BlockContinuation, 25, 27),
        (3, FencedCodeBlockDelimiter, 27, 30),
    ]
}

/// "---\n"
fn break_spec() -> Vec<(usize, NodeKind, usize, usize)> {
    vec![(0, Document, 0, 4), (1, ThematicBreak, 0, 4)]
}

/// "- Item 1\n  - Nested\n"
fn nested_list_spec() -> Vec<(usize, NodeKind, usize, usize)> {
    vec![
        (0, Document, 0, 20),
        (1, List, 0, 20),
        (2, ListItem, 0, 20),
        (3, ListMarkerMinus, 0, 2),
        (3, Paragraph, 2, 9),
        (4, Inline, 2, 8),
        (3, BlockContinuation, 9, 11),
        (3, List, 11, 20),
        (4, ListItem, 11, 20),
        (5, ListMarkerMinus, 11, 13),
        (5, Paragraph, 13, 20),
        (6, Inline, 13, 19),
    ]
}

/// "- Item\n"
fn simple_list_spec() -> Vec<(usize, NodeKind, usize, usize)> {
    vec![
        (0, Document, 0, 7),
        (1, List, 0, 7),
        (2, ListItem, 0, 7),
        (3, ListMarkerMinus, 0, 2),
        (3, Paragraph, 2, 7),
        (4, Inline, 2, 6),
    ]
}

/// "> hey\n>\n> - foo\n"
fn quote_then_list_spec() -> Vec<(usize, NodeKind, usize, usize)> {
    vec![
        (0, Document, 0, 16),
        (1, BlockQuote, 0, 16),
        (2, BlockQuoteMarker, 0, 2),
        (2, Paragraph, 2, 6),
        (3, Inline, 2, 5),
        (2, BlockContinuation, 6, 7),
        (2, BlockContinuation, 8, 10),
        (2, List, 10, 16),
        (3, ListItem, 10, 16),
        (4, ListMarkerMinus, 10, 12),
        (4, Paragraph, 12, 16),
        (5, Inline, 12, 15),
    ]
}

// --- Lines of a buffer ---

#[test]
fn buffer_test_heading_markers() {
    let buf = parsed_buffer("# Hello\n", &heading_spec());
    let lines = buf.lines();
    assert_eq!(lines.len(), 2);
    assert_eq!(lines[0].heading_level(), Some(1));
    assert_eq!(lines[0].marker_range(), Some(0..2));
}

#[test]
fn buffer_test_heading_levels() {
    let buf = parsed_buffer("# H1\n## H2\n### H3\n", &heading_levels_spec());
    let lines = buf.lines();
    assert_eq!(lines[0].heading_level(), Some(1));
    assert_eq!(lines[1].heading_level(), Some(2));
    assert_eq!(lines[2].heading_level(), Some(3));
}

#[test]
fn buffer_test_unordered_list_markers() {
    let buf = parsed_buffer("- Item 1\n- Item 2\n", &unordered_spec());
    let lines = buf.lines();
    assert!(lines[0].markers.iter().any(|m| matches!(m.kind, MarkerKind::ListItem { ordered: false, .. })));
    assert_eq!(lines[0].marker_range(), Some(0..2));
}

#[test]
fn buffer_test_ordered_list_markers() {
    let buf = parsed_buffer("1. First\n2. Second\n", &ordered_spec());
    let lines = buf.lines();
    assert!(lines[0].markers.iter().any(|m| matches!(m.kind, MarkerKind::ListItem { ordered: true, .. })));
}

#[test]
fn buffer_test_checkbox_markers() {
    let buf = parsed_buffer("- [ ] Unchecked\n- [x] Checked\n", &checkbox_spec());
    let lines = buf.lines();
    assert_eq!(lines[0].checkbox(), Some(false));
    assert_eq!(lines[1].checkbox(), Some(true));
}

#[test]
fn buffer_test_blockquote_markers() {
    let buf = parsed_buffer("> Quote\n", &quote_spec());
    let lines = buf.lines();
    assert!(lines[0].has_border());
    assert!(lines[0].markers.iter().any(|m| matches!(m.kind, MarkerKind::BlockQuote)));
}

#[test]
fn test_is_line_empty_blockquote_only() {
    let spec = [
        (0, Document, 0, 16),
        (1, BlockQuote, 0, 16),
        (2, BlockQuoteMarker, 0, 2),
        (2, Paragraph, 2, 6),
        (3, Inline, 2, 5),
        (2, BlockContinuation, 6, 8),
        (2, BlockContinuation, 9, 11),
        (2, BlockQuote, 11, 16),
        (3, BlockQuoteMarker, 11, 13),
        (3, Paragraph, 13, 16),
        (4, Inline, 13, 16),
    ];
    let buf = parsed_buffer("> hey\n> \n> > hey", &spec);
    assert!(!buf.is_line_empty(0));
    assert!(buf.is_line_empty(1));
    assert!(!buf.is_line_empty(2));
}

#[test]
fn test_marker_range_includes_trailing_space() {
    let quote = [(0, Document, 0, 5), (1, BlockQuote, 0, 5), (2, BlockQuoteMarker, 0, 2), (2, Paragraph, 2, 5), (3, Inline, 2, 5)];
    let buf = parsed_buffer("> hey", &quote);
    assert_eq!(buf.lines()[0].marker_range(), Some(0..2));

    let item = [
        (0, Document, 0, 6),
        (1, List, 0, 6),
        (2, ListItem, 0, 6),
        (3, ListMarkerMinus, 0, 2),
        (3, Paragraph, 2, 6),
        (4, Inline, 2, 6),
    ];
    let buf = parsed_buffer("- item", &item);
    assert_eq!(buf.lines()[0].marker_range(), Some(0..2));

    let nested = [
        (0, Document, 0, 7),
        (1, BlockQuote, 0, 7),
        (2, BlockQuoteMarker, 0, 2),
        (2, BlockQuote, 2, 7),
        (3, BlockQuoteMarker, 2, 4),
        (3, Paragraph, 4, 7),
        (4, Inline, 4, 7),
    ];
    let buf = parsed_buffer("> > hey", &nested);
    assert_eq!(buf.lines()[0].marker_range(), Some(0..4));
}

#[test]
fn test_nested_blockquote_lines() {
    let buf = parsed_buffer("> Level 1\n> > Level 2\n", &nested_quote_spec());
    let lines = buf.lines();
    assert_eq!(lines[0].markers.iter().filter(|m| matches!(m.kind, MarkerKind::BlockQuote)).count(), 1);
    assert_eq!(lines[1].markers.iter().filter(|m| matches!(m.kind, MarkerKind::BlockQuote)).count(), 2);
}

#[test]
fn test_list_in_blockquote_lines() {
    let buf = parsed_buffer("> - Item\n", &quoted_list_spec());
    let lines = buf.lines();
    assert!(lines[0].markers.iter().any(|m| matches!(m.kind, MarkerKind::BlockQuote)));
    assert!(lines[0].markers.iter().any(|m| matches!(m.kind, MarkerKind::ListItem { .. })));
}

#[test]
fn test_code_block_fence_lines() {
    let buf = parsed_buffer("```rust\nlet x = 1;\n```\n", &fence_spec());
    let lines = buf.lines();
    assert!(lines[0].is_fence());
    assert!(!lines[1].is_fence());
    assert!(lines[2].is_fence());
}

#[test]
fn test_thematic_break_lines() {
    let buf = parsed_buffer("---\n", &break_spec());
    let lines = buf.lines();
    assert!(lines[0].markers.iter().any(|m| matches!(m.kind, MarkerKind::ThematicBreak)));
}

#[test]
fn buffer_test_nested_list_continuation() {
    let buf = parsed_buffer("- Item 1\n  - Nested\n", &nested_list_spec());
    let text = buf.text();
    let continuation = buf.lines()[1].continuation(&text);
    assert!(continuation.contains("- "));
}

#[test]
fn buffer_test_list_in_blockquote_continuation() {
    let buf = parsed_buffer("> - Item\n", &quoted_list_spec());
    let text = buf.text();
    assert_eq!(buf.lines()[0].continuation(&text), "> - ");
}

#[test]
fn buffer_test_multiline_blockquote_with_list_continuation() {
    let buf = parsed_buffer("> hey\n>\n> - foo\n", &quote_then_list_spec());
    let text = buf.text();
    assert_eq!(buf.lines()[2].continuation(&text), "> - ");
}

#[test]
fn buffer_test_code_block_in_blockquote() {
    let buf = parsed_buffer("> ```rust\n> fn main() {}\n> ```\n", &quoted_fence_spec());
    let lines = buf.lines();
    assert!(lines[0].is_fence());
    assert!(lines[0].has_border());
}

// --- Extracted lines ---

#[test]
fn lines_test_heading_markers() {
    let lines = extract_lines("# Hello\n", &heading_spec());
    assert_eq!(lines.len(), 2);
    assert_eq!(lines[0].heading_level(), Some(1));
    assert_eq!(lines[0].marker_range(), Some(0..2));
}

#[test]
fn lines_test_heading_levels() {
    let lines = extract_lines("# H1\n## H2\n### H3\n", &heading_levels_spec());
    assert_eq!(lines[0].heading_level(), Some(1));
    assert_eq!(lines[1].heading_level(), Some(2));
    assert_eq!(lines[2].heading_level(), Some(3));
}

#[test]
fn lines_test_unordered_list_markers() {
    let lines = extract_lines("- Item 1\n- Item 2\n", &unordered_spec());
    assert!(lines[0].markers.iter().any(|m| matches!(m.kind, MarkerKind::ListItem { ordered: false })));
    assert_eq!(lines[0].marker_range(), Some(0..2));
}

#[test]
fn lines_test_ordered_list_markers() {
    let lines = extract_lines("1. First\n2. Second\n", &ordered_spec());
    assert!(lines[0].markers.iter().any(|m| matches!(m.kind, MarkerKind::ListItem { ordered: true })));
}

#[test]
fn lines_test_checkbox_markers() {
    let lines = extract_lines("- [ ] Unchecked\n- [x] Checked\n", &checkbox_spec());
    assert_eq!(lines[0].checkbox(), Some(false));
    assert_eq!(lines[1].checkbox(), Some(true));
}

#[test]
fn lines_test_blockquote_markers() {
    let lines = extract_lines("> Quote\n", &quote_spec());
    assert!(lines[0].has_border());
    assert!(lines[0].markers.iter().any(|m| matches!(m.kind, MarkerKind::BlockQuote)));
}

#[test]
fn lines_test_nested_blockquote() {
    let lines = extract_lines("> Level 1\n> > Level 2\n", &nested_quote_spec());
    assert_eq!(lines[0].markers.iter().filter(|m| matches!(m.kind, MarkerKind::BlockQuote)).count(), 1);
    assert_eq!(lines[1].markers.iter().filter(|m| matches!(m.kind, MarkerKind::BlockQuote)).count(), 2);
}

#[test]
fn lines_test_list_in_blockquote() {
    let lines = extract_lines("> - Item\n", &quoted_list_spec());
    assert!(lines[0].markers.iter().any(|m| matches!(m.kind, MarkerKind::BlockQuote)));
    assert!(lines[0].markers.iter().any(|m| matches!(m.kind, MarkerKind::ListItem { .. })));
}

#[test]
fn test_code_block_fence() {
    let lines = extract_lines("```rust\nlet x = 1;\n```\n", &fence_spec());
    assert!(lines[0].is_fence());
    assert!(!lines[1].is_fence());
    assert!(lines[2].is_fence());
}

#[test]
fn lines_test_thematic_break() {
    let lines = extract_lines("---\n", &break_spec());
    assert!(lines[0].markers.iter().any(|m| matches!(m.kind, MarkerKind::ThematicBreak)));
}

#[test]
fn lines_test_nested_list_continuation() {
    let text = "- Item 1\n  - Nested\n";
    let lines = extract_lines(text, &nested_list_spec());
    let continuation = lines[1].continuation(text);
    assert!(continuation.contains("- "));
}

#[test]
fn lines_test_substitution() {
    let text = "- Item\n";
    let lines = extract_lines(text, &simple_list_spec());
    let sub = lines[0].substitution(text);
    assert!(sub.contains('•') || sub.contains('-'));
}

#[test]
fn lines_test_list_in_blockquote_continuation() {
    let text = "> - Item\n";
    let lines = extract_lines(text, &quoted_list_spec());
    assert_eq!(lines[0].continuation(text), "> - ");
}

#[test]
fn lines_test_multiline_blockquote_with_list_continuation() {
    let text = "> hey\n>\n> - foo\n";
    let lines = extract_lines(text, &quote_then_list_spec());
    assert_eq!(lines[2].continuation(text), "> - ");
}

#[test]
fn lines_test_code_block_in_blockquote() {
    let lines = extract_lines("> ```rust\n> fn main() {}\n> ```\n", &quoted_fence_spec());
    assert!(lines[0].is_fence());
    assert!(lines[0].has_border());
}

#[test]
fn test_code_block_fence_detection() {
    let lines = extract_lines("```rust\nfn main() {}\n```\n", &main_fence_spec());
    assert!(lines[0].is_fence(), "Line 0 should be fence");
    assert!(!lines[1].is_fence(), "Line 1 should not be fence");
    assert!(lines[2].is_fence(), "Line 2 should be fence");

    let lines2 = extract_lines("> ```rust\n> fn main() {}\n> ```\n", &quoted_fence_spec());
    assert!(lines2[0].is_fence(), "Line 0 should be fence");
    assert!(!lines2[1].is_fence(), "Line 1 should not be fence");
    assert!(lines2[2].is_fence(), "Line 2 should be fence");
}

#[test]
fn test_code_block_content_markers() {
    let text = "> ```rust\n> fn main() {}\n> ```\n";
    let lines = extract_lines(text, &quoted_fence_spec());
    assert_eq!(kinds(&lines[1].markers), vec![&MarkerKind::BlockQuote]);
    assert_eq!(lines[1].substitution(text), "  ");
}

#[test]
fn test_simple_code_block_content_markers() {
    let text = "```rust\nfn main() {}\n```\n";
    let lines = extract_lines(text, &main_fence_spec());
    assert!(lines[1].markers.is_empty());
    assert_eq!(lines[1].substitution(text), "");
    assert_eq!(lines[1].range, 8..20);
    assert_eq!(&text[lines[1].range.clone()], "fn main() {}");
}

/// Ranges of code blocks: from an opening fence line to its closing fence
/// line, or to the end when it has none.
fn compute_code_block_ranges(lines: &[LineMarkers]) -> Vec<(usize, Option<usize>)> {
    let mut ranges = Vec::new();
    let mut i = 0;
    while i < lines.len() {
        if lines[i].is_fence() {
            let start = i;
            i += 1;
            let mut found_close = false;
            while i < lines.len() {
                if lines[i].is_fence() {
                    ranges.push((start, Some(i)));
                    i += 1;
                    found_close = true;
                    break;
                }
                i += 1;
            }
            if !found_close {
                ranges.push((start, None));
            }
        } else {
            i += 1;
        }
    }
    ranges
}

fn line_in_code_block(lines: &[LineMarkers], cursor_line: usize) -> bool {
    for (start, end) in compute_code_block_ranges(lines) {
        let block_end = end.unwrap_or(lines.len().saturating_sub(1));
        if cursor_line >= start && cursor_line <= block_end {
            return true;
        }
    }
    false
}

#[test]
fn test_cursor_in_code_block_detection() {
    let lines = extract_lines("```rust\nfn main() {}\n```\n", &main_fence_spec());
    assert!(line_in_code_block(&lines, 0));
    assert!(line_in_code_block(&lines, 1));
    assert!(line_in_code_block(&lines, 2));

    let lines2 = extract_lines("> ```rust\n> fn main() {}\n> ```\n", &quoted_fence_spec());
    assert!(line_in_code_block(&lines2, 0));
    assert!(line_in_code_block(&lines2, 1));
    assert!(line_in_code_block(&lines2, 2));
}

#[test]
fn buffer_lines_follow_its_parse() {
    let mut buf: Buffer = "> Quote\n".parse().unwrap();
    assert!(buffer_lines(&buf)[0].markers.is_empty());
    assert!(buf.set_syntax(tree(&quote_spec())));
    let lines = buffer_lines(&buf);
    assert_eq!(lines.len(), 2);
    assert_eq!(kinds(&lines[0].markers), vec![&MarkerKind::BlockQuote]);
}

/// "```rust\n    fn foo()\n```\n"
fn tabbed_fence_spec() -> Vec<(usize, NodeKind, usize, usize)> {
    vec![
        (0, Document, 0, 25),
        (1, FencedCodeBlock, 0, 25),
        (2, FencedCodeBlockDelimiter, 0, 3),
        (2, InfoString, 3, 7),
        (2, CodeFenceContent, 8, 21),
        (2, FencedCodeBlockDelimiter, 21, 24),
    ]
}

#[test]
fn test_code_block_after_tab() {
    // Simulate: type ```rust, enter, tab, type "fn foo()"
    let text = "```rust\n    fn foo()\n```\n";
    let lines = extract_lines(text, &tabbed_fence_spec());
    println!("Text: {:?}", text);
    println!("\nLines:");
    for (i, line) in lines.iter().enumerate() {
        let line_text = &text[line.range.clone()];
        println!("  Line {}: range={:?} text={:?}", i, line.range, line_text);
        println!("    markers: {:?}", line.markers);
        println!("    is_fence: {}", line.is_fence());
        println!("    substitution: {:?}", line.substitution(text));
        println!("    marker_range: {:?}", line.marker_range());
    }
}
