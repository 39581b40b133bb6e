//! Editing actions on parsed documents. Each document's block tree is
//! written out as the parser gives it: `(depth, kind, start, end)` in
//! preorder; an edit drops the parse, so it is handed in again after one.

use writ::editor::EditorState;
use writ::syntax::NodeKind::{
    BlockContinuation, BlockQuote, BlockQuoteMarker, Document, Inline, List, ListItem, ListMarkerDot,
    ListMarkerMinus, Paragraph, TaskListMarkerChecked, TaskListMarkerUnchecked,
};
use writ::syntax::{NodeKind, SyntaxNode};

fn tree(spec: &[(usize, NodeKind, usize, usize)]) -> Vec<SyntaxNode> {
    let mut nodes: Vec<SyntaxNode> = Vec::new();
    let mut stack: Vec<usize> = Vec::new();
    for &(depth, kind, start_byte, end_byte) in spec {
        stack.truncate(depth);
        let parent = stack.last().copied();
        nodes.push(SyntaxNode { kind, start_byte, end_byte, parent });
        stack.push(nodes.len() - 1);
    }
    nodes
}

/// An editor holding `input` without its `|`, the cursor there, and the
/// parse `spec` installed.
fn parsed_editor(input: &str, spec: &[(usize, NodeKind, usize, usize)]) -> EditorState {
    let cursor_pos = input.find('|').expect("Input must contain | for cursor position");
    let content = input.replace('|', "");
    let mut state = EditorState::new(&content);
    assert!(state.buffer.set_syntax(tree(spec)));
    state.set_cursor(cursor_pos);
    state
}

/// Hand `spec` in again as the parse, its document reaching the text's end.
fn reparse(state: &mut EditorState, spec: &[(usize, NodeKind, usize, usize)]) {
    let mut nodes = tree(spec);
    nodes[0].end_byte = state.text().len();
    assert!(state.buffer.set_syntax(nodes));
}

fn assert_editor_eq(state: &EditorState, expected: &str) {
    let text = state.text();
    let cursor = state.cursor().offset;
    let mut actual = String::new();
    actual.push_str(&text[..cursor]);
    actual.push('|');
    actual.push_str(&text[cursor..]);
    assert_eq!(actual, expected);
}

/// One list item over `0..len` with a `- ` marker.
fn item(len: usize) -> Vec<(usize, NodeKind, usize, usize)> {
    vec![
        (0, Document, 0, len),
        (1, List, 0, len),
        (2, ListItem, 0, len),
        (3, ListMarkerMinus, 0, 2),
        (3, Paragraph, 2, len),
        (4, Inline, 2, len),
    ]
}

/// A quote over `0..len`.
fn quote(len: usize) -> Vec<(usize, NodeKind, usize, usize)> {
    vec![(0, Document, 0, len), (1, BlockQuote, 0, len), (2, BlockQuoteMarker, 0, 2), (2, Paragraph, 2, len), (3, Inline, 2, len)]
}

/// A list item with a `marker` of `marker_len` bytes in a quote, over `0..len`.
fn quoted_item(len: usize, marker: NodeKind, marker_len: usize) -> Vec<(usize, NodeKind, usize, usize)> {
    vec![
        (0, Document, 0, len),
        (1, BlockQuote, 0, len),
        (2, BlockQuoteMarker, 0, 2),
        (2, List, 2, len),
        (3, ListItem, 2, len),
        (4, marker, 2, 2 + marker_len),
        (4, Paragraph, 2 + marker_len, len),
        (5, Inline, 2 + marker_len, len),
    ]
}

// --- Shift+Enter ---

#[test]
fn shift_enter_on_list_item_continues_list() {
    let mut state = parsed_editor("- item one|", &item(10));
    state.shift_enter();
    assert_editor_eq(&state, "- item one\n- |");
}

#[test]
fn shift_enter_on_blockquote_continues_blockquote() {
    let mut state = parsed_editor("> quote|", &quote(7));
    state.shift_enter();
    assert_editor_eq(&state, "> quote\n> |");
}

#[test]
fn shift_enter_on_nested_container_continues_all() {
    let mut state = parsed_editor("> - item|", &quoted_item(8, ListMarkerMinus, 2));
    state.shift_enter();
    assert_editor_eq(&state, "> - item\n> - |");
}

// --- Backspace ---

#[test]
fn backspace_deletes_entire_list_marker() {
    let spec = [(0, Document, 0, 2), (1, List, 0, 2), (2, ListItem, 0, 2), (3, ListMarkerMinus, 0, 2)];
    let mut state = parsed_editor("- |", &spec);
    state.delete_backward();
    assert_editor_eq(&state, "|");
}

#[test]
fn backspace_deletes_innermost_marker_first() {
    let spec = [
        (0, Document, 0, 4),
        (1, BlockQuote, 0, 4),
        (2, BlockQuoteMarker, 0, 2),
        (2, List, 2, 4),
        (3, ListItem, 2, 4),
        (4, ListMarkerMinus, 2, 4),
    ];
    let mut state = parsed_editor("> - |", &spec);
    state.delete_backward();
    assert_editor_eq(&state, "> |");
}

#[test]
fn backspace_then_deletes_outer_marker() {
    let spec = [(0, Document, 0, 2), (1, BlockQuote, 0, 2), (2, BlockQuoteMarker, 0, 2)];
    let mut state = parsed_editor("> |", &spec);
    state.delete_backward();
    assert_editor_eq(&state, "|");
}

#[test]
fn backspace_deletes_entire_indent() {
    let spec = [
        (0, Document, 0, 13),
        (1, List, 0, 13),
        (2, ListItem, 0, 13),
        (3, ListMarkerMinus, 0, 2),
        (3, Paragraph, 2, 13),
        (4, Inline, 2, 13),
        (5, BlockContinuation, 7, 9),
    ];
    let mut state = parsed_editor("- item\n  |text", &spec);
    state.delete_backward();
    assert_editor_eq(&state, "- item\n|text");
}

#[test]
fn backspace_sequence_through_markers_and_join() {
    let spec = [
        (0, Document, 0, 13),
        (1, List, 0, 13),
        (2, ListItem, 0, 11),
        (3, ListMarkerMinus, 0, 2),
        (3, Paragraph, 2, 11),
        (4, Inline, 2, 10),
        (2, ListItem, 11, 13),
        (3, ListMarkerMinus, 11, 13),
    ];
    let mut state = parsed_editor("- item one\n- |", &spec);
    state.delete_backward();
    assert_editor_eq(&state, "- item one\n|");
    state.delete_backward();
    assert_editor_eq(&state, "- item one|");
}

#[test]
fn backspace_with_content_after_cursor_deletes_marker() {
    let mut state = parsed_editor("- |two", &item(5));
    state.delete_backward();
    assert_editor_eq(&state, "|two");
}

// --- Cursor movement over markers ---

#[test]
fn move_left_through_marker_is_atomic() {
    let mut state = parsed_editor("- |item", &item(6));
    state.move_left();
    assert_editor_eq(&state, "|- item");
}

#[test]
fn move_right_through_marker_is_atomic() {
    let mut state = parsed_editor("|- item", &item(6));
    state.move_right();
    assert_editor_eq(&state, "- |item");
}

#[test]
fn move_left_through_nested_markers_one_at_a_time() {
    let mut state = parsed_editor("> - |item", &quoted_item(8, ListMarkerMinus, 2));
    state.move_left();
    assert_editor_eq(&state, "> |- item");
    state.move_left();
    assert_editor_eq(&state, "|> - item");
}

#[test]
fn move_left_through_blockquote_ordered_list() {
    let spec = [
        (0, Document, 0, 5),
        (1, BlockQuote, 0, 5),
        (2, BlockQuoteMarker, 0, 2),
        (2, List, 2, 5),
        (3, ListItem, 2, 5),
        (4, ListMarkerDot, 2, 5),
    ];
    let mut state = parsed_editor("> 1. |", &spec);
    state.move_left();
    assert_editor_eq(&state, "> |1. ");
    state.move_left();
    assert_editor_eq(&state, "|> 1. ");
}

// --- Tab ---

#[test]
fn tab_with_blank_line_between_still_works() {
    let spec = [
        (0, Document, 0, 8),
        (1, List, 0, 8),
        (2, ListItem, 0, 8),
        (3, ListMarkerMinus, 0, 2),
        (3, Paragraph, 2, 7),
        (4, Inline, 2, 6),
    ];
    let mut state = parsed_editor("- item\n\n|", &spec);
    state.tab();
    assert_editor_eq(&state, "- item\n\n- |");
}

#[test]
fn tab_with_two_blank_lines_still_works() {
    let spec = [
        (0, Document, 0, 9),
        (1, List, 0, 9),
        (2, ListItem, 0, 9),
        (3, ListMarkerMinus, 0, 2),
        (3, Paragraph, 2, 7),
        (4, Inline, 2, 6),
    ];
    let mut state = parsed_editor("- item\n\n\n|", &spec);
    state.tab();
    assert_editor_eq(&state, "- item\n\n\n- |");
}

/// "- parent item\n  - nested with tab\n"
fn parent_nested_spec() -> Vec<(usize, NodeKind, usize, usize)> {
    vec![
        (0, Document, 0, 34),
        (1, List, 0, 34),
        (2, ListItem, 0, 34),
        (3, ListMarkerMinus, 0, 2),
        (3, Paragraph, 2, 14),
        (4, Inline, 2, 13),
        (3, BlockContinuation, 14, 16),
        (3, List, 16, 34),
        (4, ListItem, 16, 34),
        (5, ListMarkerMinus, 16, 18),
        (5, Paragraph, 18, 34),
        (6, Inline, 18, 33),
    ]
}

#[test]
fn tab_no_blank_line_no_para_indent() {
    let mut state = parsed_editor("- parent item\n  - nested with tab\n|", &parent_nested_spec());
    let expected = [
        "- parent item\n  - nested with tab\n- |",
        "- parent item\n  - nested with tab\n  - |",
        "- parent item\n  - nested with tab\n    - |",
        "- parent item\n  - nested with tab\n|",
    ];
    for e in expected {
        reparse(&mut state, &parent_nested_spec());
        state.tab();
        assert_editor_eq(&state, e);
    }
}

#[test]
fn tab_with_trailing_newline() {
    let mut state = parsed_editor("- parent item\n  - nested with tab\n|\n", &parent_nested_spec());
    let expected = [
        "- parent item\n  - nested with tab\n- |\n",
        "- parent item\n  - nested with tab\n  - |\n",
        "- parent item\n  - nested with tab\n    - |\n",
        "- parent item\n  - nested with tab\n|\n",
    ];
    for e in expected {
        reparse(&mut state, &parent_nested_spec());
        state.tab();
        assert_editor_eq(&state, e);
    }
}

// --- Checkboxes ---

/// "- [ ] Todo\n- [x] Done\n"
fn tasks_spec() -> Vec<(usize, NodeKind, usize, usize)> {
    vec![
        (0, Document, 0, 22),
        (1, List, 0, 22),
        (2, ListItem, 0, 11),
        (3, ListMarkerMinus, 0, 2),
        (3, TaskListMarkerUnchecked, 2, 5),
        (3, Paragraph, 6, 11),
        (4, Inline, 6, 10),
        (2, ListItem, 11, 22),
        (3, ListMarkerMinus, 11, 13),
        (3, TaskListMarkerChecked, 13, 16),
        (3, Paragraph, 17, 22),
        (4, Inline, 17, 21),
    ]
}

#[test]
fn toggle_checkbox_checks_and_clears() {
    let mut state = parsed_editor("- [ ] Todo\n- [x] Done\n|", &tasks_spec());
    state.toggle_checkbox(0);
    assert_editor_eq(&state, "- [x] Todo\n- [x] Done\n|");
    reparse(&mut state, &tasks_spec());
    state.toggle_checkbox(1);
    assert_editor_eq(&state, "- [x] Todo\n- [ ] Done\n|");
    // Undo gives the check back.
    state.buffer.undo();
    assert_eq!(state.text(), "- [x] Todo\n- [x] Done\n");
}

#[test]
fn toggle_checkbox_without_checkbox_does_nothing() {
    let mut state = parsed_editor("- [ ] Todo\n- [x] Done\n|", &tasks_spec());
    state.toggle_checkbox(2);
    assert_editor_eq(&state, "- [ ] Todo\n- [x] Done\n|");
    state.toggle_checkbox(9);
    assert_editor_eq(&state, "- [ ] Todo\n- [x] Done\n|");
}

#[test]
fn tab_then_shift_tab_restores_prefix() {
    let spec = item(7);
    let mut state = parsed_editor("- item\n|", &spec);
    state.tab();
    assert_editor_eq(&state, "- item\n- |");
    reparse(&mut state, &spec);
    state.shift_tab();
    assert_editor_eq(&state, "- item\n|");
}

// --- Shift+Alt+Enter: indented continuation ---

#[test]
fn shift_alt_enter_on_list_item_creates_indent() {
    let mut state = parsed_editor("- item one|", &item(10));
    state.shift_alt_enter();
    assert_editor_eq(&state, "- item one\n  |");
}

#[test]
fn shift_alt_enter_on_blockquote_creates_indent_outside() {
    let mut state = parsed_editor("> quote|", &quote(7));
    state.shift_alt_enter();
    assert_editor_eq(&state, "> quote\n  |");
}

#[test]
fn shift_alt_enter_on_nested_container_creates_indent_inside() {
    let mut state = parsed_editor("> - item|", &quoted_item(8, ListMarkerMinus, 2));
    state.shift_alt_enter();
    assert_editor_eq(&state, "> - item\n>   |");
}

#[test]
fn shift_alt_enter_on_paragraph_just_inserts_newline() {
    let spec = [(0, Document, 0, 11), (1, Paragraph, 0, 11), (2, Inline, 0, 11)];
    let mut state = parsed_editor("Hello world|", &spec);
    state.shift_alt_enter();
    assert_editor_eq(&state, "Hello world\n|");
}

// --- Space ---

#[test]
fn space_at_line_start_is_ignored() {
    let mut state = parsed_editor("|- item one", &item(10));
    assert!(!state.try_insert_space());
    assert_editor_eq(&state, "|- item one");
}

#[test]
fn space_after_quote_marker_is_ignored() {
    let mut state = parsed_editor("> |quote", &quote(7));
    assert!(!state.try_insert_space());
    assert_editor_eq(&state, "> |quote");
}

#[test]
fn space_inside_text_is_typed() {
    let mut state = parsed_editor("> quo|te", &quote(7));
    assert!(state.try_insert_space());
    assert_editor_eq(&state, "> quo |te");
}
