use writ::editor::EditorState;

fn trim_raw(s: &str) -> &str {
    s.strip_prefix('\n').unwrap_or(s)
}

/// An editor with the cursor where `|` stands in `input`.
fn editor_with_cursor(input: &str) -> EditorState {
    let input = trim_raw(input);
    let cursor_pos = input.find('|').expect("Input must contain | for cursor position");
    let content = input.replace('|', "");
    let mut state = EditorState::new(&content);
    state.set_cursor(cursor_pos);
    state
}

fn assert_editor_eq(state: &EditorState, expected: &str) {
    let expected = trim_raw(expected);
    let text = state.text();
    let cursor = state.cursor().offset;
    let mut actual = String::new();
    actual.push_str(&text[..cursor]);
    actual.push('|');
    actual.push_str(&text[cursor..]);
    assert_eq!(actual, expected);
}

#[test]
fn move_left() {
    let mut state = editor_with_cursor("hel|lo");
    state.move_left();
    assert_editor_eq(&state, "he|llo");
}

#[test]
fn move_left_at_start() {
    let mut state = editor_with_cursor("|hello");
    state.move_left();
    assert_editor_eq(&state, "|hello");
}

#[test]
fn move_right() {
    let mut state = editor_with_cursor("he|llo");
    state.move_right();
    assert_editor_eq(&state, "hel|lo");
}

#[test]
fn move_right_at_end() {
    let mut state = editor_with_cursor("hello|");
    state.move_right();
    assert_editor_eq(&state, "hello|");
}

#[test]
fn move_up() {
    let mut state = editor_with_cursor("line one\nline |two\nline three");
    state.move_up();
    assert_editor_eq(&state, "line |one\nline two\nline three");
}

#[test]
fn move_up_from_first_line() {
    let mut state = editor_with_cursor("hel|lo\nworld");
    state.move_up();
    assert_editor_eq(&state, "|hello\nworld");
}

#[test]
fn move_down() {
    let mut state = editor_with_cursor("line |one\nline two\nline three");
    state.move_down();
    assert_editor_eq(&state, "line one\nline |two\nline three");
}

#[test]
fn move_down_from_last_line() {
    let mut state = editor_with_cursor("hello\nwor|ld");
    state.move_down();
    assert_editor_eq(&state, "hello\nworld|");
}

#[test]
fn move_up_preserves_column() {
    let mut state = editor_with_cursor("short\nlonger line|");
    state.move_up();
    assert_editor_eq(&state, "short|\nlonger line");
}

#[test]
fn move_to_line_start() {
    let mut state = editor_with_cursor("hello\nwor|ld");
    state.move_to_line_start();
    assert_editor_eq(&state, "hello\n|world");
}

#[test]
fn move_to_line_end() {
    let mut state = editor_with_cursor("hello\nwor|ld");
    state.move_to_line_end();
    assert_editor_eq(&state, "hello\nworld|");
}

#[test]
fn enter_on_paragraph_inserts_newline() {
    let mut state = editor_with_cursor("Hello world|");
    state.enter();
    assert_editor_eq(&state, "Hello world\n|");
}

#[test]
fn enter_on_heading_inserts_newline() {
    let mut state = editor_with_cursor("# Hello|");
    state.enter();
    assert_editor_eq(&state, "# Hello\n|");
}

#[test]
fn enter_on_list_item_inserts_newline_no_marker() {
    let mut state = editor_with_cursor("- item one|");
    state.enter();
    assert_editor_eq(&state, "- item one\n|");
}

#[test]
fn enter_on_blockquote_inserts_newline_no_marker() {
    let mut state = editor_with_cursor("> quote|");
    state.enter();
    assert_editor_eq(&state, "> quote\n|");
}

#[test]
fn enter_on_nested_container_inserts_newline_no_markers() {
    let mut state = editor_with_cursor("> - item|");
    state.enter();
    assert_editor_eq(&state, "> - item\n|");
}

#[test]
fn enter_on_empty_list_item_inserts_newline_keeps_marker() {
    let mut state = editor_with_cursor("- item one\n- |");
    state.enter();
    assert_editor_eq(&state, "- item one\n- \n|");
}

#[test]
fn enter_on_empty_blockquote_inserts_newline_keeps_marker() {
    let mut state = editor_with_cursor("> quote one\n> |");
    state.enter();
    assert_editor_eq(&state, "> quote one\n> \n|");
}

#[test]
fn enter_in_code_block_inserts_newline() {
    let mut state = editor_with_cursor("```rust\nlet x = 1;|");
    state.enter();
    assert_editor_eq(&state, "```rust\nlet x = 1;\n|");
}

#[test]
fn enter_on_code_fence_inserts_newline() {
    let mut state = editor_with_cursor("```rust|");
    state.enter();
    assert_editor_eq(&state, "```rust\n|");
}

#[test]
fn enter_preserves_soft_wrap_style() {
    let mut state = editor_with_cursor("First sentence.\nSecond sentence.|");
    state.enter();
    assert_editor_eq(&state, "First sentence.\nSecond sentence.\n|");
}

#[test]
fn shift_enter_on_paragraph_just_inserts_newline() {
    let mut state = editor_with_cursor("Hello world|");
    state.shift_enter();
    assert_editor_eq(&state, "Hello world\n|");
}

#[test]
fn shift_enter_on_heading_just_inserts_newline() {
    let mut state = editor_with_cursor("# Hello|");
    state.shift_enter();
    assert_editor_eq(&state, "# Hello\n|");
}

#[test]
fn backspace_deletes_char() {
    let mut state = editor_with_cursor("hello|");
    state.delete_backward();
    assert_editor_eq(&state, "hell|");
}

#[test]
fn backspace_deletes_whole_multibyte_char() {
    let mut state = EditorState::new("café");
    state.set_cursor(5);
    state.delete_backward();
    assert_eq!(state.text(), "caf");
    assert_eq!(state.cursor().offset, 3);
}

#[test]
fn backspace_at_line_start_joins_lines() {
    let mut state = editor_with_cursor("line one\n|line two");
    state.delete_backward();
    assert_editor_eq(&state, "line one|line two");
}

#[test]
fn backspace_in_middle_of_text_deletes_char() {
    let mut state = editor_with_cursor("- item o|ne");
    state.delete_backward();
    assert_editor_eq(&state, "- item |ne");
}

#[test]
fn backspace_on_empty_line_after_list_joins() {
    let mut state = editor_with_cursor("- item one\n|");
    state.delete_backward();
    assert_editor_eq(&state, "- item one|");
}

#[test]
fn move_left_does_not_skip_blank_lines() {
    let mut state = editor_with_cursor("line one\n\n|line three");
    state.move_left();
    assert_editor_eq(&state, "line one\n|\nline three");
}

#[test]
fn move_left_from_blank_line_goes_to_previous() {
    let mut state = editor_with_cursor("line one\n|\nline three");
    state.move_left();
    assert_editor_eq(&state, "line one|\n\nline three");
}

#[test]
fn move_up_maintains_column_in_content_area() {
    let mut state = editor_with_cursor("- item one\n- item |two");
    state.move_up();
    assert_editor_eq(&state, "- item |one\n- item two");
}

// Further checks of the editing core.

#[test]
fn typing_replaces_the_selection_and_undo_restores() {
    let mut state = editor_with_cursor("hello |world");
    state.selection = writ::cursor::Selection::new(6, 11);
    state.insert_text("there");
    assert_editor_eq(&state, "hello there|");
    state.buffer.undo();
    state.buffer.undo();
    assert_eq!(state.text(), "hello world");
}

#[test]
fn delete_forward_and_selection() {
    let mut state = editor_with_cursor("ab|cd");
    state.delete_forward();
    assert_editor_eq(&state, "ab|d");
    state.selection = writ::cursor::Selection::new(0, 2);
    state.delete_forward();
    assert_editor_eq(&state, "|d");
    let mut end = editor_with_cursor("x|");
    end.delete_forward();
    assert_editor_eq(&end, "x|");
}

#[test]
fn code_block_range_without_parse_is_none() {
    let state = editor_with_cursor("```\nco|de\n```");
    assert_eq!(state.cursor_code_block_range(), None);
    assert!(!state.cursor_in_code_block());
}

#[test]
fn blockquote_space_needs_a_blockquote_marker() {
    let mut state = editor_with_cursor(">|");
    assert!(!state.maybe_complete_blockquote_marker());
    assert_editor_eq(&state, ">|");
}

#[test]
fn set_cursor_clamps() {
    let mut state = editor_with_cursor("abc|");
    state.set_cursor(99);
    assert_eq!(state.cursor().offset, 3);
}
