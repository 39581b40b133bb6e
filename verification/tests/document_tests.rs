use writ::document::{Block, BlockKind, Document, DocumentError, FormatSpan, MdEvent, Parser, RichText, SpanStyle};

#[test]
fn from_markdown_reads_headings_and_paragraphs() {
    let doc = Document::from_markdown("# Title\n\nSome *em* and **strong** `code`.").unwrap();
    assert_eq!(doc.blocks.len(), 2);
    assert_eq!(doc.blocks[0].kind, BlockKind::Heading { level: 1, id: None });
    assert_eq!(doc.blocks[0].content.text, "Title");
    assert_eq!(doc.blocks[1].content.text, "Some em and strong code.");
    assert_eq!(doc.blocks[1].content.spans.len(), 3);
    assert_eq!(doc.to_markdown(), "# Title\n\nSome *em* and **strong** `code`.");
}

#[test]
fn from_markdown_refuses_lists() {
    assert_eq!(Document::from_markdown("- item").err(), Some(DocumentError::Unsupported));
}

#[test]
fn parser_builds_spans_at_byte_offsets() {
    let events = vec![
        MdEvent::StartParagraph,
        MdEvent::Text("é ".to_string()),
        MdEvent::StartStrong,
        MdEvent::Text("b".to_string()),
        MdEvent::EndSpan,
        MdEvent::EndParagraph,
    ];
    let blocks = Parser::new().parse(events);
    assert_eq!(blocks.len(), 1);
    assert_eq!(blocks[0].content.text, "é b");
    assert_eq!(blocks[0].content.spans[0].range, 3..4);
}

#[test]
fn rich_text_markdown_places_markers() {
    let rt = RichText {
        text: "hello world".to_string(),
        spans: vec![
            FormatSpan { range: 0..5, style: SpanStyle::Bold },
            FormatSpan { range: 6..11, style: SpanStyle::Link { url: "u".to_string() } },
        ],
    };
    assert_eq!(rt.to_markdown(), "**hello** [world](u)");
    let b = Block { kind: BlockKind::Heading { level: 2, id: None }, content: rt };
    assert_eq!(b.to_markdown(), "## **hello** [world](u)");
    assert_eq!(Document::new().to_markdown(), "");
    assert_eq!(SpanStyle::Strikethrough.start_marker(), "~~");
    assert_eq!(SpanStyle::Italic.end_marker(), "*");
    assert_eq!(Block::new_paragraph().to_markdown(), "");
}
