use writ::config::Config;
use writ::demo::DemoTiming;
use writ::lines::extract_lines_from_parts;
use writ::syntax::{NodeKind, SyntaxNode};

#[test]
fn config_validate_accepts() {
    let c = Config { file: Some("notes.md".to_string()), demo: false, text_font: "a".to_string(), code_font: "b".to_string() };
    let v = c.validate().unwrap();
    assert_eq!(v.file.as_deref(), Some("notes.md"));
}

#[test]
fn demo_timing_default() {
    let t = DemoTiming::default();
    assert_eq!((t.char_delay, t.key_delay), (50, 150));
}

#[test]
fn test_extract_lines_empty_buffer() {
    let lines = extract_lines_from_parts("", None);
    assert_eq!(lines.len(), 1);
    assert_eq!(lines[0].range, 0..0);
    assert!(lines[0].markers.is_empty());
}

#[test]
fn test_extract_lines_single_newline() {
    let lines = extract_lines_from_parts("\n", None);
    assert_eq!(lines.len(), 2);
    assert_eq!(lines[0].range, 0..0);
    assert_eq!(lines[1].range, 1..1);
}

#[test]
fn test_extract_lines_paragraph() {
    let lines = extract_lines_from_parts("Hello\n\nWorld\n", None);
    assert_eq!(lines.len(), 4);
    assert_eq!(lines[0].range, 0..5);
    assert_eq!(lines[1].range, 6..6);
    assert_eq!(lines[2].range, 7..12);
    assert_eq!(lines[3].range, 13..13);
}

#[test]
fn extract_lines_with_a_heading_parse() {
    let text = "# Hi\nx";
    let nodes = vec![
        SyntaxNode { kind: NodeKind::Document, start_byte: 0, end_byte: 6, parent: None },
        SyntaxNode { kind: NodeKind::Section, start_byte: 0, end_byte: 6, parent: Some(0) },
        SyntaxNode { kind: NodeKind::AtxHeading, start_byte: 0, end_byte: 5, parent: Some(1) },
        SyntaxNode { kind: NodeKind::AtxMarker(1), start_byte: 0, end_byte: 1, parent: Some(2) },
        SyntaxNode { kind: NodeKind::Paragraph, start_byte: 5, end_byte: 6, parent: Some(1) },
    ];
    let lines = extract_lines_from_parts(text, Some(&nodes));
    assert_eq!(lines.len(), 2);
    assert_eq!(lines[0].heading_level(), Some(1));
    assert_eq!(lines[1].heading_level(), None);
}
