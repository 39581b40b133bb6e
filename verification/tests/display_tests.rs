use writ::display::{line_display, ColorRole, DisplayRun, FontRole};
use writ::inline::{StyledRegion, TextStyle};
use writ::marker::{LineMarkers, Marker, MarkerKind};

fn line(start: usize, end: usize, markers: Vec<Marker>) -> LineMarkers {
    LineMarkers { range: start..end, line_number: 0, markers }
}

fn marker(kind: MarkerKind, start: usize, end: usize) -> Marker {
    Marker { kind, range: start..end }
}

fn region(full: (usize, usize), content: (usize, usize), style: TextStyle) -> StyledRegion {
    StyledRegion {
        full_range: full.0..full.1,
        content_range: content.0..content.1,
        style,
        link_url: None,
        is_image: false,
        checkbox: None,
    }
}

const TEXT: FontRole = FontRole { code: false, bold: false, italic: false };
const BOLD: FontRole = FontRole { code: false, bold: true, italic: false };
const CODE: FontRole = FontRole { code: true, bold: false, italic: false };

fn run(len: usize, font: FontRole, color: ColorRole) -> DisplayRun {
    DisplayRun { len, font, color, underline: false, strikethrough: false }
}

#[test]
fn plain_line_shows_its_text() {
    let (text, runs, collapsed) = line_display(&line(0, 5, vec![]), "hello", 0, None, &[]);
    assert_eq!(text, "hello");
    assert_eq!(runs, vec![run(5, TEXT, ColorRole::Text)]);
    assert!(collapsed.is_empty());
}

#[test]
fn bold_delimiters_hidden_with_cursor_outside() {
    let styles = vec![region((0, 8), (2, 6), TextStyle::bold())];
    let (text, runs, _) = line_display(&line(0, 10, vec![]), "**bold** x", 10, None, &styles);
    assert_eq!(text, "bold x");
    assert_eq!(runs, vec![run(4, BOLD, ColorRole::Text), run(2, TEXT, ColorRole::Text)]);
}

#[test]
fn bold_delimiters_shown_with_cursor_inside() {
    let styles = vec![region((0, 8), (2, 6), TextStyle::bold())];
    let (text, runs, _) = line_display(&line(0, 10, vec![]), "**bold** x", 3, None, &styles);
    assert_eq!(text, "**bold** x");
    assert_eq!(runs, vec![run(8, BOLD, ColorRole::Text), run(2, TEXT, ColorRole::Text)]);
}

#[test]
fn heading_marker_hidden_unless_cursor_on_line() {
    let l = line(0, 7, vec![marker(MarkerKind::Heading(1), 0, 2)]);
    let text = "# Title\nmore";
    let (away, runs, _) = line_display(&l, text, 10, None, &[]);
    assert_eq!(away, "Title");
    assert_eq!(runs, vec![run(5, BOLD, ColorRole::Text)]);
    let (here, runs, _) = line_display(&l, text, 3, None, &[]);
    assert_eq!(here, "# Title");
    assert_eq!(runs, vec![run(2, BOLD, ColorRole::Text), run(5, BOLD, ColorRole::Text)]);
    let (selected, _, _) = line_display(&l, text, 10, Some(1..3), &[]);
    assert_eq!(selected, "# Title");
}

#[test]
fn bullet_replaces_list_marker() {
    let l = line(0, 6, vec![marker(MarkerKind::ListItem { ordered: false }, 0, 2)]);
    let (text, runs, _) = line_display(&l, "- item", 0, None, &[]);
    assert_eq!(text, "• item");
    assert_eq!(runs, vec![run(4, CODE, ColorRole::Text), run(4, TEXT, ColorRole::Text)]);
}

#[test]
fn ordered_marker_stays_in_code_face() {
    let l = line(0, 4, vec![marker(MarkerKind::ListItem { ordered: true }, 0, 3)]);
    let (text, runs, _) = line_display(&l, "1. a", 0, None, &[]);
    assert_eq!(text, "1. a");
    assert_eq!(runs, vec![run(4, CODE, ColorRole::Text)]);
}

#[test]
fn fence_line_shows_fence_and_language() {
    let l = line(0, 7, vec![marker(MarkerKind::CodeBlockFence { language: Some("rust".to_string()), is_opening: true }, 0, 3)]);
    let (text, runs, _) = line_display(&l, "```rust", 20, None, &[]);
    assert_eq!(text, "```rust");
    assert_eq!(runs, vec![run(3, CODE, ColorRole::Fence), run(4, CODE, ColorRole::FenceLanguage)]);
}

#[test]
fn thematic_break_visible_only_with_cursor_on_line() {
    let l = line(0, 3, vec![marker(MarkerKind::ThematicBreak, 0, 3)]);
    let (text, runs, _) = line_display(&l, "---\nx", 5, None, &[]);
    assert_eq!(text, "---");
    assert_eq!(runs, vec![run(3, TEXT, ColorRole::Transparent)]);
    let (_, runs, _) = line_display(&l, "---\nx", 1, None, &[]);
    assert_eq!(runs, vec![run(3, TEXT, ColorRole::Text)]);
}

#[test]
fn inline_code_gets_code_colour() {
    let styles = vec![region((2, 5), (3, 4), TextStyle::code())];
    let (text, runs, _) = line_display(&line(0, 5, vec![]), "a `b`", 0, None, &styles);
    assert_eq!(text, "a b");
    assert_eq!(runs, vec![run(2, TEXT, ColorRole::Text), run(1, CODE, ColorRole::Code)]);
}
