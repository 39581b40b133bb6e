use std::ops::Range;
use writ::marker::{find_container_indent_from_lines, LineMarkers, Marker, MarkerKind};

fn make_line(range: Range<usize>, markers: Vec<Marker>) -> LineMarkers {
    LineMarkers { range, line_number: 0, markers }
}

#[test]
fn marker_test_line_marker_range_empty() {
    let line = make_line(0..10, vec![]);
    assert_eq!(line.marker_range(), None);
}

#[test]
fn marker_test_line_marker_range_single() {
    let line = make_line(
        0..10,
        vec![Marker { kind: MarkerKind::ListItem { ordered: false }, range: 0..2 }],
    );
    assert_eq!(line.marker_range(), Some(0..2));
}

#[test]
fn marker_test_line_marker_range_multiple() {
    let line = make_line(
        0..15,
        vec![
            Marker { kind: MarkerKind::ListItem { ordered: false }, range: 2..4 },
            Marker { kind: MarkerKind::BlockQuote, range: 0..2 },
        ],
    );
    assert_eq!(line.marker_range(), Some(0..4));
}

#[test]
fn marker_test_line_substitution() {
    let line = make_line(
        0..15,
        vec![
            Marker { kind: MarkerKind::ListItem { ordered: false }, range: 2..4 },
            Marker { kind: MarkerKind::BlockQuote, range: 0..2 },
        ],
    );
    let text = "> - Item text here";
    assert_eq!(line.substitution(text), "  • ");
}

#[test]
fn marker_test_line_substitution_task_list() {
    let text = "- [ ] Task item";
    let line = make_line(
        0..15,
        vec![
            Marker { kind: MarkerKind::Checkbox { checked: false }, range: 2..6 },
            Marker { kind: MarkerKind::ListItem { ordered: false }, range: 0..2 },
        ],
    );
    assert_eq!(line.substitution(text), "• [ ] ");
}

#[test]
fn marker_test_line_continuation() {
    let text = "> - Item text here";
    let line = make_line(
        0..18,
        vec![
            Marker { kind: MarkerKind::ListItem { ordered: false }, range: 2..4 },
            Marker { kind: MarkerKind::BlockQuote, range: 0..2 },
        ],
    );
    assert_eq!(line.continuation(text), "> - ");
}

#[test]
fn marker_test_line_continuation_with_indent() {
    let text = "  Second paragraph";
    let line = make_line(0..18, vec![Marker { kind: MarkerKind::Indent, range: 0..2 }]);
    assert_eq!(line.continuation(text), "  ");
}

#[test]
fn marker_test_line_continuation_nested_list() {
    let text = "    - Nested";
    let line = make_line(
        0..12,
        vec![Marker { kind: MarkerKind::ListItem { ordered: false }, range: 0..6 }],
    );
    assert_eq!(line.continuation(text), "    - ");
}

#[test]
fn marker_test_line_has_border() {
    let line_with_quote =
        make_line(0..10, vec![Marker { kind: MarkerKind::BlockQuote, range: 0..2 }]);
    assert!(line_with_quote.has_border());

    let line_with_list = make_line(
        0..10,
        vec![Marker { kind: MarkerKind::ListItem { ordered: false }, range: 0..2 }],
    );
    assert!(!line_with_list.has_border());
}

#[test]
fn marker_test_line_checkbox() {
    let line_unchecked = make_line(
        0..15,
        vec![
            Marker { kind: MarkerKind::ListItem { ordered: false }, range: 0..2 },
            Marker { kind: MarkerKind::Checkbox { checked: false }, range: 2..6 },
        ],
    );
    assert_eq!(line_unchecked.checkbox(), Some(false));

    let line_checked = make_line(
        0..15,
        vec![
            Marker { kind: MarkerKind::ListItem { ordered: false }, range: 0..2 },
            Marker { kind: MarkerKind::Checkbox { checked: true }, range: 2..6 },
        ],
    );
    assert_eq!(line_checked.checkbox(), Some(true));

    let line_no_checkbox = make_line(
        0..10,
        vec![Marker { kind: MarkerKind::ListItem { ordered: false }, range: 0..2 }],
    );
    assert_eq!(line_no_checkbox.checkbox(), None);
}

#[test]
fn marker_test_line_leading_whitespace() {
    let text = "  - Item\n";
    let line = make_line(
        0..8,
        vec![Marker { kind: MarkerKind::ListItem { ordered: false }, range: 2..4 }],
    );
    assert_eq!(line.leading_whitespace(text), "  ");
}

#[test]
fn marker_test_line_leading_whitespace_none() {
    let text = "- Item\n";
    let line = make_line(
        0..6,
        vec![Marker { kind: MarkerKind::ListItem { ordered: false }, range: 0..2 }],
    );
    assert_eq!(line.leading_whitespace(text), "");
}

// Further checks on concrete lines.

#[test]
fn marker_kind_texts() {
    assert_eq!(MarkerKind::BlockQuote.substitution(), "  ");
    assert_eq!(MarkerKind::BlockQuote.continuation(), "> ");
    assert!(MarkerKind::BlockQuote.has_border());
    assert!(!MarkerKind::Indent.has_border());
    assert_eq!(MarkerKind::Heading(2).continuation(), "");
}

#[test]
fn line_queries_on_fences_and_headings() {
    let fence = make_line(
        0..7,
        vec![Marker {
            kind: MarkerKind::CodeBlockFence { language: Some("rust".to_string()), is_opening: true },
            range: 0..7,
        }],
    );
    assert!(fence.is_fence());
    assert!(!fence.is_code_block_content());
    let content = make_line(8..12, vec![Marker { kind: MarkerKind::CodeBlockContent, range: 8..8 }]);
    assert!(content.is_code_block_content());
    let heading = make_line(0..9, vec![Marker { kind: MarkerKind::Heading(3), range: 0..4 }]);
    assert_eq!(heading.heading_level(), Some(3));
    assert_eq!(heading.marker_width(), 4);
}

#[test]
fn container_indent_from_lines() {
    let lines = vec![
        make_line(0..6, vec![Marker { kind: MarkerKind::ListItem { ordered: false }, range: 0..2 }]),
        LineMarkers { range: 7..7, line_number: 1, markers: vec![] },
    ];
    assert_eq!(find_container_indent_from_lines(&lines, 3), Some(2));
}
