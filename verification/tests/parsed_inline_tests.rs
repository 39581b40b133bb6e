//! Inline styles of parsed documents. Each document's tree (block nodes and
//! the inline nodes under its `inline` nodes) is written out as the parser
//! gives it: `(depth, kind, start, end)` in preorder.

use ropey::Rope;
use writ::inline::{extract_all_inline_styles, styles_in_range, StyledRegion};
use writ::syntax::NodeKind::{
    BlockQuote, BlockQuoteMarker, CodeSpan, CodeSpanDelimiter, Document, Emphasis, EmphasisDelimiter,
    Inline, InlineLink, LinkDestination, LinkText, List, ListItem, ListMarkerMinus, Paragraph,
    StrongEmphasis,
};
use writ::syntax::{NodeKind, SyntaxNode};

fn tree(spec: &[(usize, NodeKind, usize, usize)]) -> Vec<SyntaxNode> {
    let mut nodes: Vec<SyntaxNode> = Vec::new();
    let mut stack: Vec<usize> = Vec::new();
    for &(depth, kind, start_byte, end_byte) in spec {
        stack.truncate(depth);
        let parent = stack.last().copied();
        nodes.push(SyntaxNode { kind, start_byte, end_byte, parent });
        stack.push(nodes.len() - 1);
    }
    nodes
}

fn get_styles(text: &str, spec: &[(usize, NodeKind, usize, usize)]) -> Vec<StyledRegion> {
    extract_all_inline_styles(&tree(spec), &Rope::from_str(text))
}

/// `**..**` over `start..end` at `depth`.
fn strong(depth: usize, start: usize, end: usize) -> Vec<(usize, NodeKind, usize, usize)> {
    vec![
        (depth, StrongEmphasis, start, end),
        (depth + 1, EmphasisDelimiter, start, start + 1),
        (depth + 1, EmphasisDelimiter, start + 1, start + 2),
        (depth + 1, EmphasisDelimiter, end - 2, end - 1),
        (depth + 1, EmphasisDelimiter, end - 1, end),
    ]
}

/// `*..*` over `start..end` at `depth`.
fn emphasis(depth: usize, start: usize, end: usize) -> Vec<(usize, NodeKind, usize, usize)> {
    vec![
        (depth, Emphasis, start, end),
        (depth + 1, EmphasisDelimiter, start, start + 1),
        (depth + 1, EmphasisDelimiter, end - 1, end),
    ]
}

/// `` `..` `` over `start..end` at `depth`.
fn code(depth: usize, start: usize, end: usize) -> Vec<(usize, NodeKind, usize, usize)> {
    vec![
        (depth, CodeSpan, start, end),
        (depth + 1, CodeSpanDelimiter, start, start + 1),
        (depth + 1, CodeSpanDelimiter, end - 1, end),
    ]
}

/// A paragraph over `0..len` whose inline node holds `inner`.
fn paragraph_with(len: usize, inner: Vec<(usize, NodeKind, usize, usize)>) -> Vec<(usize, NodeKind, usize, usize)> {
    let mut spec = vec![(0, Document, 0, len), (1, Paragraph, 0, len), (2, Inline, 0, len - 1)];
    spec.extend(inner);
    spec
}

#[test]
fn test_bold() {
    let styles = get_styles("**bold** text\n", &paragraph_with(14, strong(3, 0, 8)));
    assert_eq!(styles.len(), 1);
    assert!(styles[0].style.bold);
    assert_eq!(styles[0].full_range, 0..8);
    assert_eq!(styles[0].content_range, 2..6);
}

#[test]
fn test_italic() {
    let styles = get_styles("*italic* text\n", &paragraph_with(14, emphasis(3, 0, 8)));
    assert_eq!(styles.len(), 1);
    assert!(styles[0].style.italic);
    assert_eq!(styles[0].full_range, 0..8);
    assert_eq!(styles[0].content_range, 1..7);
}

#[test]
fn test_code() {
    let styles = get_styles("`code` text\n", &paragraph_with(12, code(3, 0, 6)));
    assert_eq!(styles.len(), 1);
    assert!(styles[0].style.code);
    assert_eq!(styles[0].full_range, 0..6);
    assert_eq!(styles[0].content_range, 1..5);
}

#[test]
fn test_link() {
    let inner = vec![(3, InlineLink, 0, 26), (4, LinkText, 1, 5), (4, LinkDestination, 7, 25)];
    let styles = get_styles("[text](http://example.com)\n", &paragraph_with(27, inner));
    assert_eq!(styles.len(), 1);
    assert_eq!(styles[0].link_url, Some("http://example.com".to_string()));
    assert_eq!(styles[0].full_range, 0..26);
    assert_eq!(styles[0].content_range, 1..5);
}

#[test]
fn test_nested_bold_italic() {
    let mut inner = vec![(3, Emphasis, 0, 17), (4, EmphasisDelimiter, 0, 1)];
    inner.extend(strong(4, 1, 16));
    inner.push((4, EmphasisDelimiter, 16, 17));
    let styles = get_styles("***bold italic***\n", &paragraph_with(18, inner));
    assert!(!styles.is_empty());
}

fn three_lines_spec() -> Vec<(usize, NodeKind, usize, usize)> {
    let mut inner = strong(3, 0, 8);
    inner.extend(emphasis(3, 9, 17));
    inner.extend(code(3, 18, 24));
    paragraph_with(25, inner)
}

#[test]
fn test_multiple_lines() {
    let styles = get_styles("**bold**\n*italic*\n`code`\n", &three_lines_spec());
    assert_eq!(styles.len(), 3);
    assert!(styles[0].style.bold);
    assert!(styles[1].style.italic);
    assert!(styles[2].style.code);
}

#[test]
fn test_styles_in_range() {
    let styles = get_styles("**bold**\n*italic*\n`code`\n", &three_lines_spec());
    let line1_styles = styles_in_range(&styles, &(0..8));
    assert_eq!(line1_styles.len(), 1);
    assert!(line1_styles[0].style.bold);
    let line2_styles = styles_in_range(&styles, &(9..17));
    assert_eq!(line2_styles.len(), 1);
    assert!(line2_styles[0].style.italic);
}

#[test]
fn test_blockquote_inline() {
    let mut spec = vec![
        (0, Document, 0, 20),
        (1, BlockQuote, 0, 20),
        (2, BlockQuoteMarker, 0, 2),
        (2, Paragraph, 2, 20),
        (3, Inline, 2, 19),
    ];
    spec.extend(strong(4, 2, 10));
    let styles = get_styles("> **bold** in quote\n", &spec);
    assert_eq!(styles.len(), 1);
    assert!(styles[0].style.bold);
}

#[test]
fn test_list_inline() {
    let mut spec = vec![
        (0, Document, 0, 34),
        (1, List, 0, 34),
        (2, ListItem, 0, 19),
        (3, ListMarkerMinus, 0, 2),
        (3, Paragraph, 2, 19),
        (4, Inline, 2, 18),
    ];
    spec.extend(strong(5, 2, 10));
    spec.extend(vec![
        (2, ListItem, 19, 34),
        (3, ListMarkerMinus, 19, 21),
        (3, Paragraph, 21, 34),
        (4, Inline, 21, 33),
    ]);
    spec.extend(emphasis(5, 21, 29));
    let styles = get_styles("- **bold** in list\n- *italic* too\n", &spec);
    assert_eq!(styles.len(), 2);
    assert!(styles[0].style.bold);
    assert!(styles[1].style.italic);
}
