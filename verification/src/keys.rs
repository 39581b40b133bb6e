//! What a key press does in the editor: the decision from the key, its
//! modifiers and the editor's state to the editing command to run.

use vstd::prelude::*;

use crate::editor::Direction;
use crate::text::chars_of;

verus! {

broadcast use vstd::string::group_string_axioms;

/// The modifier keys held with a key.
#[derive(Clone, Copy, Debug, PartialEq, Eq, Structural)]
pub struct Modifiers {
    pub shift: bool,
    pub alt: bool,
    pub control: bool,
    /// The platform key (Cmd on macOS).
    pub platform: bool,
}

/// The command a key press runs.
#[derive(Clone, Copy, Debug, PartialEq, Eq, Structural)]
pub enum KeyCommand {
    /// Nothing: input is blocked, or the key types nothing.
    Ignore,
    /// Delete backward (markers are atomic).
    Backspace,
    /// Delete the character after the cursor.
    Delete,
    /// Move the cursor, extending the selection when asked.
    Move { direction: Direction, extend: bool },
    /// Move to the start of the document (`document`) or of the line.
    Home { document: bool, extend: bool },
    /// Move to the end of the document (`document`) or of the line.
    End { document: bool, extend: bool },
    /// A raw newline.
    Enter,
    /// Continue the line's containers.
    ShiftEnter,
    /// An indented continuation (nested paragraph).
    ShiftAltEnter,
    /// Four spaces, inside a code block.
    CodeIndent,
    /// Cycle the line's prefix forward.
    Tab,
    /// Cycle the line's prefix backward.
    ShiftTab,
    SelectAll,
    Copy,
    Cut,
    Paste,
    Undo,
    Redo,
    Save,
    /// A typed space, which the editor may ignore.
    Space,
    /// Type the key's text; after a `>`, complete a block-quote marker.
    Type { complete_quote: bool },
}

/// Control or the platform key is held.
pub open spec fn command_held(m: Modifiers) -> bool {
    m.control || m.platform
}

/// The command of a key press: `key` names the key, `key_char` is the text it
/// types (if any), and `in_code_block` says whether the cursor is in a code
/// block.
pub open spec fn key_command_spec(
    key: Seq<char>,
    m: Modifiers,
    key_char: Option<Seq<char>>,
    in_code_block: bool,
    input_blocked: bool,
) -> KeyCommand {
    if input_blocked {
        KeyCommand::Ignore
    } else if key == "backspace"@ {
        KeyCommand::Backspace
    } else if key == "delete"@ {
        KeyCommand::Delete
    } else if key == "left"@ {
        KeyCommand::Move { direction: Direction::Left, extend: m.shift }
    } else if key == "right"@ {
        KeyCommand::Move { direction: Direction::Right, extend: m.shift }
    } else if key == "up"@ {
        KeyCommand::Move { direction: Direction::Up, extend: m.shift }
    } else if key == "down"@ {
        KeyCommand::Move { direction: Direction::Down, extend: m.shift }
    } else if key == "home"@ {
        KeyCommand::Home { document: command_held(m), extend: m.shift }
    } else if key == "end"@ {
        KeyCommand::End { document: command_held(m), extend: m.shift }
    } else if key == "enter"@ {
        if m.shift && m.alt {
            KeyCommand::ShiftAltEnter
        } else if m.shift {
            KeyCommand::ShiftEnter
        } else {
            KeyCommand::Enter
        }
    } else if key == "tab"@ {
        if in_code_block {
            KeyCommand::CodeIndent
        } else if m.shift {
            KeyCommand::ShiftTab
        } else {
            KeyCommand::Tab
        }
    } else if key == "a"@ && command_held(m) {
        KeyCommand::SelectAll
    } else if key == "c"@ && command_held(m) {
        KeyCommand::Copy
    } else if key == "x"@ && command_held(m) {
        KeyCommand::Cut
    } else if key == "v"@ && command_held(m) {
        KeyCommand::Paste
    } else if key == "z"@ && command_held(m) {
        if m.shift {
            KeyCommand::Redo
        } else {
            KeyCommand::Undo
        }
    } else if key == "y"@ && m.control {
        KeyCommand::Redo
    } else if key == "s"@ && command_held(m) {
        KeyCommand::Save
    } else {
        match key_char {
            Some(c) => if c == " "@ {
                KeyCommand::Space
            } else {
                KeyCommand::Type { complete_quote: c == ">"@ }
            },
            None => KeyCommand::Ignore,
        }
    }
}

/// Whether two strings hold the same chars.
fn same_text(a: &str, b: &str) -> (r: bool)
    ensures
        r == (a@ == b@),
{
    let x = chars_of(a);
    let y = chars_of(b);
    if x.len() != y.len() {
        return false;
    }
    let mut i: usize = 0;
    while i < x.len()
        invariant
            x@ == a@,
            y@ == b@,
            x@.len() == y@.len(),
            i <= x@.len(),
            forall|k: int| 0 <= k < i ==> x@[k] == y@[k],
        decreases x@.len() - i,
    {
        if x[i] != y[i] {
            return false;
        }
        i += 1;
    }
    assert(a@ =~= b@);
    true
}

/// The command a key press runs.
pub fn key_command(
    key: &str,
    m: Modifiers,
    key_char: Option<&str>,
    in_code_block: bool,
    input_blocked: bool,
) -> (c: KeyCommand)
    ensures
        c == key_command_spec(
            key@,
            m,
            match key_char {
                Some(s) => Some(s@),
                None => None,
            },
            in_code_block,
            input_blocked,
        ),
{
    let cmd = m.control || m.platform;
    if input_blocked {
        KeyCommand::Ignore
    } else if same_text(key, "backspace") {
        KeyCommand::Backspace
    } else if same_text(key, "delete") {
        KeyCommand::Delete
    } else if same_text(key, "left") {
        KeyCommand::Move { direction: Direction::Left, extend: m.shift }
    } else if same_text(key, "right") {
        KeyCommand::Move { direction: Direction::Right, extend: m.shift }
    } else if same_text(key, "up") {
        KeyCommand::Move { direction: Direction::Up, extend: m.shift }
    } else if same_text(key, "down") {
        KeyCommand::Move { direction: Direction::Down, extend: m.shift }
    } else if same_text(key, "home") {
        KeyCommand::Home { document: cmd, extend: m.shift }
    } else if same_text(key, "end") {
        KeyCommand::End { document: cmd, extend: m.shift }
    } else if same_text(key, "enter") {
        if m.shift && m.alt {
            KeyCommand::ShiftAltEnter
        } else if m.shift {
            KeyCommand::ShiftEnter
        } else {
            KeyCommand::Enter
        }
    } else if same_text(key, "tab") {
        if in_code_block {
            KeyCommand::CodeIndent
        } else if m.shift {
            KeyCommand::ShiftTab
        } else {
            KeyCommand::Tab
        }
    } else if same_text(key, "a") && cmd {
        KeyCommand::SelectAll
    } else if same_text(key, "c") && cmd {
        KeyCommand::Copy
    } else if same_text(key, "x") && cmd {
        KeyCommand::Cut
    } else if same_text(key, "v") && cmd {
        KeyCommand::Paste
    } else if same_text(key, "z") && cmd {
        if m.shift {
            KeyCommand::Redo
        } else {
            KeyCommand::Undo
        }
    } else if same_text(key, "y") && m.control {
        KeyCommand::Redo
    } else if same_text(key, "s") && cmd {
        KeyCommand::Save
    } else {
        match key_char {
            Some(c) => if same_text(c, " ") {
                KeyCommand::Space
            } else {
                KeyCommand::Type { complete_quote: same_text(c, ">") }
            },
            None => KeyCommand::Ignore,
        }
    }
}

} // verus!
