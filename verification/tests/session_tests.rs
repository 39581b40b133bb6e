use writ::editor::EditorState;
use writ::session::EditorSession;

#[test]
fn streaming_blocks_input_and_pins_cursor_to_end() {
    let mut state = EditorState::new("hello");
    state.set_cursor(1);
    let mut s = EditorSession::new(state);
    assert!(!s.is_streaming() && !s.is_input_blocked());
    s.begin_streaming();
    assert!(s.is_streaming() && s.is_input_blocked());
    assert_eq!(s.cursor_position(), 5);
    s.append(" wor");
    s.append("ld");
    assert_eq!(s.state.text(), "hello world");
    assert_eq!(s.cursor_position(), 11);
    s.end_streaming();
    assert!(!s.is_streaming() && !s.is_input_blocked());
    assert_eq!(s.state.text(), "hello world");
}

#[test]
fn append_is_undoable() {
    let mut s = EditorSession::new(EditorState::new("a"));
    s.append("é");
    assert_eq!(s.state.text(), "aé");
    assert_eq!(s.cursor_position(), 3);
    assert_eq!(s.state.buffer.undo(), Some(1));
    assert_eq!(s.state.text(), "a");
}

#[test]
fn selection_range_is_none_when_collapsed() {
    let mut s = EditorSession::new(EditorState::new("hello"));
    s.state.set_cursor(2);
    assert_eq!(s.selection_range(), None);
    s.state.selection.anchor = 4;
    assert_eq!(s.selection_range(), Some(2..4));
    s.state.selection.anchor = 0;
    assert_eq!(s.selection_range(), Some(0..2));
}

#[test]
fn input_blocked_flag_set_and_cleared() {
    let mut s = EditorSession::new(EditorState::new(""));
    s.set_input_blocked(true);
    assert!(s.is_input_blocked());
    s.set_input_blocked(false);
    assert!(!s.is_input_blocked());
}
