use ropey::Rope;
use writ::editor::EditorState;
use writ::inline::extract_all_inline_styles;
use writ::lines::extract_inline_styles_from_parts;
use writ::marker::LineMarkers;
use writ::paste::PasteContext;
use writ::syntax::{NodeKind, SyntaxNode};

fn node(kind: NodeKind, start_byte: usize, end_byte: usize, parent: Option<usize>) -> SyntaxNode {
    SyntaxNode { kind, start_byte, end_byte, parent }
}

/// "**bold** [t](u) `c`\n" as a block tree with its inline tree under the inline node.
fn styled_line() -> Vec<SyntaxNode> {
    vec![
        node(NodeKind::Document, 0, 19, None),
        node(NodeKind::Paragraph, 0, 19, Some(0)),
        node(NodeKind::Inline, 0, 18, Some(1)),
        node(NodeKind::StrongEmphasis, 0, 8, Some(2)),
        node(NodeKind::EmphasisDelimiter, 0, 1, Some(3)),
        node(NodeKind::EmphasisDelimiter, 1, 2, Some(3)),
        node(NodeKind::EmphasisDelimiter, 6, 7, Some(3)),
        node(NodeKind::EmphasisDelimiter, 7, 8, Some(3)),
        node(NodeKind::InlineLink, 9, 15, Some(2)),
        node(NodeKind::LinkText, 10, 11, Some(8)),
        node(NodeKind::LinkDestination, 13, 14, Some(8)),
        node(NodeKind::CodeSpan, 15, 18, Some(2)),
        node(NodeKind::CodeSpanDelimiter, 15, 16, Some(11)),
        node(NodeKind::CodeSpanDelimiter, 17, 18, Some(11)),
    ]
}

#[test]
fn inline_styles_from_nodes() {
    let text = "**bold** [t](u)`c`\n";
    let rope = Rope::from_str(text);
    let styles = extract_all_inline_styles(&styled_line(), &rope);
    assert_eq!(styles.len(), 3);
    assert!(styles[0].style.bold);
    assert_eq!(styles[0].full_range, 0..8);
    assert_eq!(styles[0].content_range, 2..6);
    assert_eq!(styles[1].link_url, Some("u".to_string()));
    assert_eq!(styles[1].content_range, 10..11);
    assert!(styles[2].style.code);
    assert_eq!(styles[2].content_range, 16..17);
}

#[test]
fn inline_styles_sorted_by_start_keeping_order() {
    // Two regions listed out of order: the later-starting one first.
    let nodes = vec![
        node(NodeKind::Emphasis, 5, 8, None),
        node(NodeKind::CodeSpan, 0, 3, None),
        node(NodeKind::Strikethrough, 0, 4, None),
    ];
    let rope = Rope::from_str("abcdefghij");
    let styles = extract_all_inline_styles(&nodes, &rope);
    assert_eq!(styles.len(), 3);
    assert_eq!(styles[0].full_range, 0..3);
    assert!(styles[0].style.code);
    assert_eq!(styles[1].full_range, 0..4);
    assert!(styles[1].style.strikethrough);
    assert_eq!(styles[2].full_range, 5..8);
}

#[test]
fn shortcut_checkbox_is_not_a_link() {
    let nodes = vec![node(NodeKind::ShortcutLink, 2, 5, None)];
    let rope = Rope::from_str("- [x] done");
    assert!(extract_all_inline_styles(&nodes, &rope).is_empty());
    let image = vec![
        node(NodeKind::Image, 0, 8, None),
        node(NodeKind::ImageDescription, 2, 3, Some(0)),
        node(NodeKind::LinkDestination, 5, 7, Some(0)),
    ];
    let rope = Rope::from_str("![a](pq)");
    let styles = extract_all_inline_styles(&image, &rope);
    assert_eq!(styles.len(), 1);
    assert!(styles[0].is_image);
    assert_eq!(styles[0].link_url.as_deref(), Some("pq"));
    assert_eq!(styles[0].content_range, 2..3);
}

#[test]
fn line_styles_come_from_overlapping_blocks() {
    let text = "**bold** [t](u)`c`\n";
    let nodes = styled_line();
    let line = LineMarkers { range: 0..18, line_number: 0, markers: vec![] };
    let styles = extract_inline_styles_from_parts(text, Some(&nodes), &line);
    assert_eq!(styles.len(), 3);
    let other = LineMarkers { range: 19..19, line_number: 1, markers: vec![] };
    assert!(extract_inline_styles_from_parts(text, Some(&nodes), &other).is_empty());
    assert!(extract_inline_styles_from_parts(text, None, &line).is_empty());
}

#[test]
fn code_block_range_with_a_parse() {
    let text = "```\ncode\n```";
    let mut state = EditorState::new(text);
    let nodes = vec![
        node(NodeKind::Document, 0, 12, None),
        node(NodeKind::FencedCodeBlock, 0, 12, Some(0)),
        node(NodeKind::FencedCodeBlockDelimiter, 0, 3, Some(1)),
        node(NodeKind::CodeFenceContent, 4, 9, Some(1)),
        node(NodeKind::FencedCodeBlockDelimiter, 9, 12, Some(1)),
    ];
    assert!(state.buffer.set_syntax(nodes));
    state.set_cursor(5);
    assert_eq!(state.cursor_code_block_range(), Some((0, 2)));
    assert!(state.cursor_in_code_block());
    let ctx = PasteContext::from_buffer(&state.buffer, 5);
    assert!(ctx.in_code_block);
    assert_eq!(ctx.blockquote_prefix, "");
}

#[test]
fn blockquote_marker_completed_and_backspaced() {
    let mut state = EditorState::new(">");
    let nodes = vec![
        node(NodeKind::Document, 0, 1, None),
        node(NodeKind::BlockQuote, 0, 1, Some(0)),
        node(NodeKind::BlockQuoteMarker, 0, 1, Some(1)),
    ];
    assert!(state.buffer.set_syntax(nodes.clone()));
    state.set_cursor(1);
    assert!(state.maybe_complete_blockquote_marker());
    assert_eq!(state.text(), "> ");
    assert_eq!(state.cursor().offset, 2);
    let ctx = {
        let mut quoted = EditorState::new("> > a");
        let nested = vec![
            node(NodeKind::Document, 0, 5, None),
            node(NodeKind::BlockQuote, 0, 5, Some(0)),
            node(NodeKind::BlockQuoteMarker, 0, 2, Some(1)),
            node(NodeKind::BlockQuote, 2, 5, Some(1)),
            node(NodeKind::BlockQuoteMarker, 2, 4, Some(3)),
        ];
        assert!(quoted.buffer.set_syntax(nested));
        quoted.set_cursor(5);
        PasteContext::from_buffer(&quoted.buffer, 5)
    };
    assert_eq!(ctx.blockquote_prefix, "> > ");
    assert!(!ctx.in_code_block);
    let mut again = EditorState::new("> x");
    assert!(again.buffer.set_syntax(vec![
        node(NodeKind::Document, 0, 3, None),
        node(NodeKind::BlockQuote, 0, 3, Some(0)),
        node(NodeKind::BlockQuoteMarker, 0, 2, Some(1)),
    ]));
    again.set_cursor(2);
    again.delete_backward();
    assert_eq!(again.text(), "x");
    assert_eq!(again.cursor().offset, 0);
}
