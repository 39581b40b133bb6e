use writ::editor::Direction;
use writ::keys::{key_command, KeyCommand, Modifiers};

const NONE: Modifiers = Modifiers { shift: false, alt: false, control: false, platform: false };
const SHIFT: Modifiers = Modifiers { shift: true, alt: false, control: false, platform: false };
const CTRL: Modifiers = Modifiers { shift: false, alt: false, control: true, platform: false };
const CMD: Modifiers = Modifiers { shift: false, alt: false, control: false, platform: true };

#[test]
fn editing_keys() {
    assert_eq!(key_command("backspace", NONE, None, false, false), KeyCommand::Backspace);
    assert_eq!(key_command("delete", NONE, None, false, false), KeyCommand::Delete);
    assert_eq!(
        key_command("left", SHIFT, None, false, false),
        KeyCommand::Move { direction: Direction::Left, extend: true }
    );
    assert_eq!(
        key_command("down", NONE, None, false, false),
        KeyCommand::Move { direction: Direction::Down, extend: false }
    );
}

#[test]
fn home_and_end_with_modifiers() {
    assert_eq!(key_command("home", NONE, None, false, false), KeyCommand::Home { document: false, extend: false });
    let ctrl_shift = Modifiers { shift: true, alt: false, control: true, platform: false };
    assert_eq!(key_command("home", ctrl_shift, None, false, false), KeyCommand::Home { document: true, extend: true });
    assert_eq!(key_command("end", CMD, None, false, false), KeyCommand::End { document: true, extend: false });
}

#[test]
fn enter_variants() {
    assert_eq!(key_command("enter", NONE, None, false, false), KeyCommand::Enter);
    assert_eq!(key_command("enter", SHIFT, None, false, false), KeyCommand::ShiftEnter);
    let shift_alt = Modifiers { shift: true, alt: true, control: false, platform: false };
    assert_eq!(key_command("enter", shift_alt, None, false, false), KeyCommand::ShiftAltEnter);
}

#[test]
fn tab_in_and_out_of_code_blocks() {
    assert_eq!(key_command("tab", NONE, None, false, false), KeyCommand::Tab);
    assert_eq!(key_command("tab", SHIFT, None, false, false), KeyCommand::ShiftTab);
    assert_eq!(key_command("tab", SHIFT, None, true, false), KeyCommand::CodeIndent);
}

#[test]
fn shortcuts_need_a_command_key() {
    assert_eq!(key_command("a", CTRL, Some("a"), false, false), KeyCommand::SelectAll);
    assert_eq!(key_command("a", NONE, Some("a"), false, false), KeyCommand::Type { complete_quote: false });
    assert_eq!(key_command("c", CMD, None, false, false), KeyCommand::Copy);
    assert_eq!(key_command("x", CTRL, None, false, false), KeyCommand::Cut);
    assert_eq!(key_command("v", CTRL, None, false, false), KeyCommand::Paste);
    assert_eq!(key_command("z", CTRL, None, false, false), KeyCommand::Undo);
    let ctrl_shift = Modifiers { shift: true, alt: false, control: true, platform: false };
    assert_eq!(key_command("z", ctrl_shift, None, false, false), KeyCommand::Redo);
    assert_eq!(key_command("y", CTRL, None, false, false), KeyCommand::Redo);
    // Only Control makes `y` redo.
    assert_eq!(key_command("y", CMD, Some("y"), false, false), KeyCommand::Type { complete_quote: false });
    assert_eq!(key_command("s", CMD, None, false, false), KeyCommand::Save);
}

#[test]
fn typed_text() {
    assert_eq!(key_command("space", NONE, Some(" "), false, false), KeyCommand::Space);
    assert_eq!(key_command(">", SHIFT, Some(">"), false, false), KeyCommand::Type { complete_quote: true });
    assert_eq!(key_command("f1", NONE, None, false, false), KeyCommand::Ignore);
}

#[test]
fn blocked_input_is_ignored() {
    assert_eq!(key_command("backspace", NONE, None, false, true), KeyCommand::Ignore);
    assert_eq!(key_command("a", NONE, Some("a"), false, true), KeyCommand::Ignore);
}
