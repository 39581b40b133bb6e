//! The editing core of the editor: a buffer with a selection, and the
//! editing actions on them, without any UI.

use vstd::prelude::*;

use crate::buffer::{
    chars_of_bytes, char_start, edit_chars, line_of, record_edit, Buffer, BufferV, EditV,
};
use crate::cursor::{
    lemma_line_of, line_end_spec, move_down_spec, move_left_spec, move_right_spec, move_up_spec,
    Cursor, Selection,
};
use crate::marker::{checkbox_from, LineMarkers, MarkerKind};
use crate::rope::{
    byte_len, lemma_byte_len_mono, lemma_char_of_byte_bounds, lemma_char_of_char_start, newline_count,
    rope_byte_to_char, rope_char_to_byte,
};
use crate::buffer::{clamped_slice, line_start_byte, prev_char_start};
use crate::cycle::{as_index, cycle_states, cycle_states_at};
use crate::syntax::SyntaxNode;
use crate::text::{
    bytes_of, chars_of, lemma_ascii_char_bytes, string_from_chars, sub_chars, trim_chars, trim_spec, valid_byte_range,
};

verus! {

broadcast use vstd::string::group_string_axioms;

/// Cursor movement direction.
#[derive(Clone, Copy, Debug, PartialEq, Eq, Structural)]
pub enum Direction {
    Left,
    Right,
    Up,
    Down,
}

/// Core editing state that can be used without a UI.
/// This contains the buffer and selection, and all editing logic.
pub struct EditorState {
    pub buffer: Buffer,
    pub selection: Selection,
}

/// The indent Shift+Alt+Enter starts the next line with: two spaces on a
/// line inside blockquotes only, else the indent of a paragraph nested in the
/// line's innermost list item.
pub open spec fn alt_indent(line: LineMarkers, t: Seq<char>) -> Seq<char> {
    let ms = line.markers@;
    let has_list = exists|k: int| 0 <= k < ms.len() && ((#[trigger] ms[k]).kind is ListItem || ms[k].kind is Checkbox);
    let has_quote = exists|k: int| 0 <= k < ms.len() && (#[trigger] ms[k]).kind is BlockQuote;
    if has_quote && !has_list {
        seq![' ', ' ']
    } else {
        line.nested_indent_spec(t)
    }
}

/// The collapsed selection at `o`.
pub open spec fn caret(o: int) -> Selection {
    Selection { anchor: o as usize, head: o as usize }
}

/// The history after deleting the bytes `lo..hi` of its text (a selection),
/// recorded with the cursor at `head` before.
pub open spec fn after_delete(h: BufferV, lo: int, hi: int, head: int) -> BufferV {
    record_edit(
        h,
        EditV {
            offset: lo,
            deleted: chars_of_bytes(h.text, lo, hi),
            inserted: Seq::empty(),
            cursor_before: head,
            cursor_after: lo,
        },
        edit_chars(h.text, lo, hi - lo, Seq::empty()),
    )
}

/// The history after inserting `t` at byte `pos`, the cursor there before.
pub open spec fn after_insert(h: BufferV, pos: int, t: Seq<char>) -> BufferV {
    record_edit(
        h,
        EditV {
            offset: pos,
            deleted: Seq::empty(),
            inserted: t,
            cursor_before: pos,
            cursor_after: pos + byte_len(t),
        },
        edit_chars(h.text, pos, 0, t),
    )
}

/// The history after typing `t` over the selection `sel`: the selection
/// deleted if it is not empty, then `t` inserted at its start.
pub open spec fn after_typing(h: BufferV, sel: Selection, t: Seq<char>) -> BufferV {
    let lo = sel.lo() as int;
    let h1 = if sel.anchor == sel.head {
        h
    } else {
        after_delete(h, lo, sel.hi() as int, sel.head as int)
    };
    after_insert(h1, lo, t)
}

/// The marker of line `line` that ends at byte `pos`: the first such among its markers.
pub open spec fn marker_ending_at(ms: Seq<crate::marker::Marker>, pos: int, i: int) -> Option<int>
    decreases ms.len() - i,
{
    if i < 0 || i >= ms.len() {
        None
    } else if ms[i].range.end == pos {
        Some(i)
    } else {
        marker_ending_at(ms, pos, i + 1)
    }
}

/// The marker that backspace at `pos` deletes as a whole, if any: the first
/// marker of the line at `pos` that ends there.
pub open spec fn backspace_marker(t: Seq<char>, lines: Seq<LineMarkers>, pos: int) -> Option<crate::marker::Marker> {
    let l = line_of(t, pos);
    if 0 <= l < lines.len() {
        match marker_ending_at(lines[l].markers@, pos, 0) {
            Some(i) => Some(lines[l].markers@[i]),
            None => None,
        }
    } else {
        None
    }
}

/// Whether some marker of `ms` is a fence that opens (or closes) a code block.
pub open spec fn has_fence(ms: Seq<crate::marker::Marker>, opening: bool) -> bool {
    exists|i: int|
        0 <= i < ms.len() && (#[trigger] ms[i]).kind is CodeBlockFence
            && ms[i].kind->is_opening == opening
}

/// The code block around line `c` found by scanning `lines` from line `i`:
/// an opening fence, then up to its closing fence (or the end).
pub open spec fn code_block_from(lines: Seq<LineMarkers>, c: int, i: int) -> Option<(int, int)>
    decreases lines.len() - i, 1int,
{
    if i < 0 || i >= lines.len() {
        None
    } else if has_fence(lines[i].markers@, true) {
        close_from(lines, c, i, i + 1)
    } else {
        code_block_from(lines, c, i + 1)
    }
}

/// From line `j` on, the closing fence of the block opened at line `start`.
pub open spec fn close_from(lines: Seq<LineMarkers>, c: int, start: int, j: int) -> Option<(int, int)>
    decreases lines.len() - j, 0int,
{
    if j < start + 1 || j > lines.len() {
        None
    } else if j == lines.len() {
        if c >= start {
            Some((start, lines.len() - 1))
        } else {
            None
        }
    } else if has_fence(lines[j].markers@, false) {
        if start <= c <= j {
            Some((start, j))
        } else {
            code_block_from(lines, c, j + 1)
        }
    } else {
        close_from(lines, c, start, j + 1)
    }
}

/// Whether line `line` has something besides its markers.
pub open spec fn line_has_content_spec(t: Seq<char>, line: LineMarkers) -> bool {
    let ms = line.markers@;
    let fence = exists|i: int| 0 <= i < ms.len() && (#[trigger] ms[i]).kind is CodeBlockFence;
    let start = if ms.len() > 0 {
        ms[0].range.end as int
    } else {
        line.range.start as int
    };
    let len = byte_len(t);
    let s = if start < len {
        start
    } else {
        len
    };
    let e = if line.range.end < len {
        line.range.end as int
    } else {
        len
    };
    fence || (s < e && trim_spec(chars_of_bytes(t, s, e)).len() > 0)
}

impl EditorState {
    pub open spec fn wf(&self) -> bool {
        self.buffer.wf()
    }

    /// The lines of the buffer.
    pub open spec fn lines_spec(&self) -> Seq<LineMarkers> {
        self.buffer.content_spec().line_list()
    }

    pub fn new(content: &str) -> (e: Self)
        ensures
            e.wf(),
            e.buffer@.text == content@,
            e.buffer@.edits.len() == 0,
            e.buffer@.index == 0,
            e.buffer@.saved == Some(0int),
            e.selection == caret(0),
    {
        EditorState { buffer: Buffer::from_text(content), selection: Selection::new(0, 0) }
    }

    pub fn cursor(&self) -> (c: Cursor)
        ensures
            c.offset == self.selection.head,
    {
        self.selection.cursor()
    }

    pub fn text(&self) -> (s: String)
        requires
            self.wf(),
        ensures
            s@ == self.buffer@.text,
    {
        proof {
            self.buffer.lemma_history_ok();
        }
        self.buffer.content().text()
    }

    /// Set cursor position by byte offset, clamped to the text.
    pub fn set_cursor(&mut self, offset: usize)
        requires
            old(self).wf(),
        ensures
            final(self).wf(),
            final(self).buffer == old(self).buffer,
            final(self).selection == caret(
                if offset <= byte_len(old(self).buffer@.text) {
                    offset as int
                } else {
                    byte_len(old(self).buffer@.text)
                },
            ),
    {
        proof {
            self.buffer.lemma_history_ok();
        }
        let len = self.buffer.content().len_bytes();
        let offset = if offset <= len {
            offset
        } else {
            len
        };
        self.selection = Selection::new(offset, offset);
    }

    /// Move cursor left by one character.
    pub fn move_left(&mut self)
        requires
            old(self).wf(),
            old(self).selection.head <= byte_len(old(self).buffer@.text),
        ensures
            final(self).wf(),
            final(self).buffer == old(self).buffer,
            final(self).selection == caret(
                move_left_spec(
                    old(self).buffer@.text,
                    old(self).lines_spec(),
                    old(self).selection.head as int,
                ),
            ),
    {
        let c = self.cursor().move_left(&self.buffer);
        self.selection = Selection::new(c.offset, c.offset);
    }

    /// Move cursor right by one character.
    pub fn move_right(&mut self)
        requires
            old(self).wf(),
        ensures
            final(self).wf(),
            final(self).buffer == old(self).buffer,
            final(self).selection == caret(
                move_right_spec(
                    old(self).buffer@.text,
                    old(self).lines_spec(),
                    old(self).selection.head as int,
                ),
            ),
    {
        let c = self.cursor().move_right(&self.buffer);
        self.selection = Selection::new(c.offset, c.offset);
    }

    /// Move cursor up by one line.
    pub fn move_up(&mut self)
        requires
            old(self).wf(),
            old(self).selection.head <= byte_len(old(self).buffer@.text),
        ensures
            final(self).wf(),
            final(self).buffer == old(self).buffer,
            final(self).selection == caret(
                move_up_spec(old(self).buffer@.text, old(self).selection.head as int),
            ),
    {
        let c = self.cursor().move_up(&self.buffer);
        self.selection = Selection::new(c.offset, c.offset);
    }

    /// Move cursor down by one line.
    pub fn move_down(&mut self)
        requires
            old(self).wf(),
            old(self).selection.head <= byte_len(old(self).buffer@.text),
        ensures
            final(self).wf(),
            final(self).buffer == old(self).buffer,
            final(self).selection == caret(
                move_down_spec(old(self).buffer@.text, old(self).selection.head as int),
            ),
    {
        let c = self.cursor().move_down(&self.buffer);
        self.selection = Selection::new(c.offset, c.offset);
    }

    /// Move cursor to start of current line.
    pub fn move_to_line_start(&mut self)
        requires
            old(self).wf(),
            old(self).selection.head <= byte_len(old(self).buffer@.text),
        ensures
            final(self).wf(),
            final(self).buffer == old(self).buffer,
            final(self).selection == caret(
                line_start_byte(
                    old(self).buffer@.text,
                    line_of(old(self).buffer@.text, old(self).selection.head as int),
                ),
            ),
    {
        let c = self.cursor().move_to_line_start(&self.buffer);
        self.selection = Selection::new(c.offset, c.offset);
    }

    /// Move cursor to end of current line.
    pub fn move_to_line_end(&mut self)
        requires
            old(self).wf(),
            old(self).selection.head <= byte_len(old(self).buffer@.text),
        ensures
            final(self).wf(),
            final(self).buffer == old(self).buffer,
            final(self).selection == caret(
                line_end_spec(old(self).buffer@.text, old(self).selection.head as int),
            ),
    {
        let c = self.cursor().move_to_line_end(&self.buffer);
        self.selection = Selection::new(c.offset, c.offset);
    }

    /// Insert text at the current cursor position, replacing the selection.
    pub fn insert_text(&mut self, text: &str)
        requires
            old(self).wf(),
            char_start(old(self).buffer@.text, old(self).selection.anchor as int),
            char_start(old(self).buffer@.text, old(self).selection.head as int),
            byte_len(old(self).buffer@.text) + byte_len(text@) < usize::MAX,
            old(self).buffer@.index + 2 < usize::MAX,
        ensures
            final(self).wf(),
            final(self).buffer@ == after_typing(old(self).buffer@, old(self).selection, text@),
            final(self).selection == caret(old(self).selection.lo() + byte_len(text@)),
    {
        let ghost h = self.buffer@;
        let ghost t = h.text;
        let ghost lo = self.selection.lo() as int;
        let ghost hi = self.selection.hi() as int;
        let cursor_before = self.cursor().offset;
        proof {
            self.buffer.lemma_history_ok();
        }
        let insert_pos = if !self.selection.is_collapsed() {
            let range = self.selection.range();
            self.buffer.delete(range.start..range.end, cursor_before);
            proof {
                lemma_delete_keeps_start(t, lo, hi);
            }
            range.start
        } else {
            cursor_before
        };
        self.buffer.insert(insert_pos, text, insert_pos);
        let new_pos = insert_pos + text.as_bytes().len();
        self.selection = Selection::new(new_pos, new_pos);
    }

    /// Enter: just insert a raw newline.
    pub fn enter(&mut self)
        requires
            old(self).wf(),
            char_start(old(self).buffer@.text, old(self).selection.anchor as int),
            char_start(old(self).buffer@.text, old(self).selection.head as int),
            byte_len(old(self).buffer@.text) + 1 < usize::MAX,
            old(self).buffer@.index + 2 < usize::MAX,
        ensures
            final(self).wf(),
            final(self).buffer@ == after_typing(old(self).buffer@, old(self).selection, seq!['\n']),
            final(self).selection == caret(old(self).selection.lo() + 1),
    {
        proof {
            reveal_strlit("\n");
            assert("\n"@ =~= seq!['\n']);
            lemma_ascii_char_bytes('\n');
        }
        self.insert_text("\n");
    }

    /// Shift+Enter: continue the container of the cursor's line: a newline,
    /// then the line's continuation (its markers' text).
    pub fn shift_enter(&mut self)
        requires
            old(self).wf(),
            old(self).selection.head <= byte_len(old(self).buffer@.text),
            char_start(old(self).buffer@.text, old(self).selection.anchor as int),
            char_start(old(self).buffer@.text, old(self).selection.head as int),
            old(self).buffer@.index + 4 < usize::MAX,
            ({
                let t = old(self).buffer@.text;
                let l = line_of(t, old(self).selection.head as int);
                let lines = old(self).lines_spec();
                0 <= l < lines.len() ==> {
                    &&& byte_len(t) + 1 + byte_len(lines[l].continuation_spec(t)) < usize::MAX
                    &&& forall|i: int|
                        0 <= i < lines[l].markers@.len() && (lines[l].markers@[i].kind is Indent
                            || lines[l].markers@[i].kind is ListItem) ==> valid_byte_range(
                            bytes_of(t),
                            #[trigger] lines[l].markers@[i].range.start as int,
                            lines[l].markers@[i].range.end as int,
                        )
                }
            }),
            byte_len(old(self).buffer@.text) + 1 < usize::MAX,
        ensures
            final(self).wf(),
            ({
                let h = old(self).buffer@;
                let sel = old(self).selection;
                let lo = sel.lo() as int;
                let l = line_of(h.text, sel.head as int);
                let lines = old(self).lines_spec();
                let h1 = after_typing(h, sel, seq!['\n']);
                let cont = if 0 <= l < lines.len() {
                    lines[l].continuation_spec(h.text)
                } else {
                    Seq::<char>::empty()
                };
                &&& final(self).buffer@ == (if cont.len() > 0 {
                    after_typing(h1, caret(lo + 1), cont)
                } else {
                    h1
                })
                &&& final(self).selection == caret(lo + 1 + byte_len(cont))
            }),
    {
        proof {
            self.buffer.lemma_history_ok();
            lemma_line_of(self.buffer@.text, self.selection.head as int);
        }
        let ghost h = self.buffer@;
        let ghost sel0 = self.selection;
        let found = self.find_line_at(self.cursor().offset);
        let continuation = match found {
            Some((_, line)) => {
                let text = self.buffer.content().text();
                line.continuation(text.as_str())
            },
            None => String::new(),
        };
        self.enter();
        proof {
            lemma_typed_end_is_start(h, sel0, seq!['\n']);
            lemma_ascii_char_bytes('\n');
            crate::rope::lemma_len_le_byte_len(continuation@);
        }
        if continuation.as_str().as_bytes().len() != 0 {
            assert(byte_len(self.buffer@.text) <= byte_len(h.text) + 1);
            self.insert_text(continuation.as_str());
        }
    }

    /// Shift+Alt+Enter: a newline, then the indent of a paragraph nested in
    /// the line's container: on a line inside blockquotes only, two spaces
    /// (leaving them); otherwise the markers around the innermost list item,
    /// then spaces under that item's own markers.
    pub fn shift_alt_enter(&mut self)
        requires
            old(self).wf(),
            old(self).selection.head <= byte_len(old(self).buffer@.text),
            char_start(old(self).buffer@.text, old(self).selection.anchor as int),
            char_start(old(self).buffer@.text, old(self).selection.head as int),
            old(self).buffer@.index + 4 < usize::MAX,
            ({
                let t = old(self).buffer@.text;
                let l = line_of(t, old(self).selection.head as int);
                let lines = old(self).lines_spec();
                0 <= l < lines.len() ==> {
                    &&& byte_len(t) + 1 + byte_len(alt_indent(lines[l], t)) < usize::MAX
                    &&& forall|i: int|
                        0 <= i < lines[l].markers@.len() && (lines[l].markers@[i].kind is Indent
                            || lines[l].markers@[i].kind is ListItem) ==> valid_byte_range(
                            bytes_of(t),
                            #[trigger] lines[l].markers@[i].range.start as int,
                            lines[l].markers@[i].range.end as int,
                        )
                }
            }),
            byte_len(old(self).buffer@.text) + 1 < usize::MAX,
        ensures
            final(self).wf(),
            ({
                let h = old(self).buffer@;
                let sel = old(self).selection;
                let lo = sel.lo() as int;
                let l = line_of(h.text, sel.head as int);
                let lines = old(self).lines_spec();
                let h1 = after_typing(h, sel, seq!['\n']);
                let ind = if 0 <= l < lines.len() {
                    alt_indent(lines[l], h.text)
                } else {
                    Seq::<char>::empty()
                };
                &&& final(self).buffer@ == (if ind.len() > 0 {
                    after_typing(h1, caret(lo + 1), ind)
                } else {
                    h1
                })
                &&& final(self).selection == caret(lo + 1 + byte_len(ind))
            }),
    {
        proof {
            self.buffer.lemma_history_ok();
            lemma_line_of(self.buffer@.text, self.selection.head as int);
        }
        let ghost h = self.buffer@;
        let ghost sel0 = self.selection;
        let found = self.find_line_at(self.cursor().offset);
        let indent = match found {
            Some((_, line)) => {
                let mut has_list = false;
                let mut has_quote = false;
                let mut i: usize = 0;
                while i < line.markers.len()
                    invariant
                        i <= line.markers@.len(),
                        has_list <==> exists|k: int|
                            0 <= k < i && ((#[trigger] line.markers@[k]).kind is ListItem
                                || line.markers@[k].kind is Checkbox),
                        has_quote <==> exists|k: int|
                            0 <= k < i && (#[trigger] line.markers@[k]).kind is BlockQuote,
                    decreases line.markers@.len() - i,
                {
                    match line.markers[i].kind {
                        MarkerKind::ListItem { .. } | MarkerKind::Checkbox { .. } => {
                            has_list = true;
                        },
                        MarkerKind::BlockQuote => {
                            has_quote = true;
                        },
                        _ => {},
                    }
                    i += 1;
                }
                if has_quote && !has_list {
                    proof {
                        reveal_strlit("  ");
                    }
                    assert("  "@ =~= seq![' ', ' ']);
                    String::from_str("  ")
                } else {
                    let text = self.buffer.content().text();
                    line.nested_paragraph_indent(text.as_str())
                }
            },
            None => String::new(),
        };
        self.enter();
        proof {
            lemma_typed_end_is_start(h, sel0, seq!['\n']);
            lemma_ascii_char_bytes('\n');
            crate::rope::lemma_len_le_byte_len(indent@);
        }
        if indent.as_str().as_bytes().len() != 0 {
            assert(byte_len(self.buffer@.text) <= byte_len(h.text) + 1);
            self.insert_text(indent.as_str());
        }
    }

    /// Type a space, unless it is ignored: at the start of a line, or right
    /// after the marker of a line inside blockquotes only, outside code
    /// blocks. Returns whether the space was typed.
    pub fn try_insert_space(&mut self) -> (typed: bool)
        requires
            old(self).wf(),
            old(self).selection.head <= byte_len(old(self).buffer@.text),
            char_start(old(self).buffer@.text, old(self).selection.anchor as int),
            char_start(old(self).buffer@.text, old(self).selection.head as int),
            byte_len(old(self).buffer@.text) + 1 < usize::MAX,
            old(self).buffer@.index + 2 < usize::MAX,
        ensures
            final(self).wf(),
            ({
                let h = old(self).buffer@;
                let c = old(self).selection.head as int;
                let l = line_of(h.text, c);
                let lines = old(self).lines_spec();
                let in_code = code_block_from(lines, l, 0) is Some;
                let after_quote = 0 <= l < lines.len() && crate::marker::blockquote_only(
                    lines[l].markers@,
                ) && lines[l].markers@[0].range.end == c;
                let type_it = in_code || !(c == line_start_byte(h.text, l) || after_quote);
                &&& typed == type_it
                &&& type_it ==> final(self).buffer@ == after_typing(h, old(self).selection, seq![' '])
                    && final(self).selection == caret(old(self).selection.lo() + 1)
                &&& !type_it ==> *final(self) == *old(self)
            }),
    {
        proof {
            self.buffer.lemma_history_ok();
            reveal_strlit(" ");
            assert(" "@ =~= seq![' ']);
            lemma_ascii_char_bytes(' ');
        }
        if self.cursor_in_code_block() {
            self.insert_text(" ");
            return true;
        }
        let cursor_pos = self.cursor().offset;
        proof {
            lemma_line_of(self.buffer@.text, cursor_pos as int);
        }
        let content = self.buffer.content();
        let line_start = content.line_to_byte(content.byte_to_line(cursor_pos));
        if cursor_pos == line_start {
            return false;
        }
        let at_quote_start = match self.find_line_at(cursor_pos) {
            Some((_, line)) => line.is_blockquote_only() && line.markers[0].range.end == cursor_pos,
            None => false,
        };
        if at_quote_start {
            return false;
        }
        self.insert_text(" ");
        true
    }

    /// The line at byte `byte_pos`, with its index.
    fn find_line_at(&self, byte_pos: usize) -> (r: Option<(usize, &LineMarkers)>)
        requires
            self.wf(),
            byte_pos <= byte_len(self.buffer@.text),
        ensures
            ({
                let l = line_of(self.buffer@.text, byte_pos as int);
                match r {
                    Some((i, line)) => i == l && 0 <= l < self.lines_spec().len() && *line
                        == self.lines_spec()[l],
                    None => !(0 <= l < self.lines_spec().len()),
                }
            }),
    {
        proof {
            self.buffer.lemma_history_ok();
            lemma_line_of(self.buffer@.text, byte_pos as int);
        }
        let content = self.buffer.content();
        let idx = content.byte_to_line(byte_pos);
        let lines = content.lines();
        if idx < lines.len() {
            Some((idx, &lines[idx]))
        } else {
            None
        }
    }

    /// Whether the cursor is inside a code block.
    pub fn cursor_in_code_block(&self) -> (b: bool)
        requires
            self.wf(),
            self.selection.head <= byte_len(self.buffer@.text),
        ensures
            b == code_block_from(
                self.lines_spec(),
                line_of(self.buffer@.text, self.selection.head as int),
                0,
            ) is Some,
    {
        self.cursor_code_block_range().is_some()
    }

    /// The lines (first and last, fences included) of the code block that
    /// holds the cursor, if any; a block without a closing fence runs to the end.
    pub fn cursor_code_block_range(&self) -> (r: Option<(usize, usize)>)
        requires
            self.wf(),
            self.selection.head <= byte_len(self.buffer@.text),
        ensures
            match r {
                Some((a, b)) => code_block_from(
                    self.lines_spec(),
                    line_of(self.buffer@.text, self.selection.head as int),
                    0,
                ) == Some((a as int, b as int)),
                None => code_block_from(
                    self.lines_spec(),
                    line_of(self.buffer@.text, self.selection.head as int),
                    0,
                ) is None,
            },
    {
        proof {
            self.buffer.lemma_history_ok();
            lemma_line_of(self.buffer@.text, self.selection.head as int);
        }
        let content = self.buffer.content();
        let lines = content.lines();
        let cursor_line = content.byte_to_line(self.cursor().offset);
        let ghost ls = lines@;
        let ghost c = cursor_line as int;
        let mut i: usize = 0;
        while i < lines.len()
            invariant
                i <= ls.len(),
                ls == lines@,
                c == cursor_line,
                ls == self.lines_spec(),
                c == line_of(self.buffer@.text, self.selection.head as int),
                code_block_from(ls, c, i as int) == code_block_from(ls, c, 0),
            decreases ls.len() - i,
        {
            if has_fence_exec(&lines[i].markers, true) {
                let start = i;
                i += 1;
                let mut found_close = false;
                while i < lines.len()
                    invariant_except_break
                        !found_close,
                        close_from(ls, c, start as int, i as int) == code_block_from(ls, c, 0),
                    invariant
                        start < i <= ls.len(),
                        ls == lines@,
                        c == cursor_line,
                        ls == self.lines_spec(),
                        c == line_of(self.buffer@.text, self.selection.head as int),
                    ensures
                        found_close ==> i <= ls.len() && code_block_from(ls, c, i as int)
                            == code_block_from(ls, c, 0),
                        !found_close ==> i == ls.len() && close_from(ls, c, start as int, i as int)
                            == code_block_from(ls, c, 0),
                    decreases ls.len() - i,
                {
                    if has_fence_exec(&lines[i].markers, false) {
                        if cursor_line >= start && cursor_line <= i {
                            return Some((start, i));
                        }
                        i += 1;
                        found_close = true;
                        break;
                    }
                    i += 1;
                }
                if !found_close && cursor_line >= start {
                    return Some((start, lines.len() - 1));
                }
                assert(code_block_from(ls, c, i as int) == code_block_from(ls, c, 0));
            } else {
                i += 1;
            }
        }
        None
    }

    /// Whether `line` has something besides its markers. Fence lines always do.
    pub fn line_has_content(&self, line: &LineMarkers) -> (b: bool)
        requires
            self.wf(),
        ensures
            b == line_has_content_spec(self.buffer@.text, *line),
    {
        proof {
            self.buffer.lemma_history_ok();
        }
        if line.is_fence() {
            return true;
        }
        let content_start = match line.marker_range() {
            Some(r) => r.end,
            None => line.range.start,
        };
        let s = self.buffer.content().slice_cow(content_start..line.range.end);
        let cs = chars_of(s.as_str());
        let trimmed = trim_chars(&cs);
        trimmed.len() != 0
    }

    /// The marker that backspace at `cursor_pos` deletes as a whole, with
    /// whether it is an indent.
    fn backspace_range_with_type(&self, cursor_pos: usize) -> (r: Option<(std::ops::Range<usize>, bool)>)
        requires
            self.wf(),
            cursor_pos <= byte_len(self.buffer@.text),
        ensures
            match (r, backspace_marker(self.buffer@.text, self.lines_spec(), cursor_pos as int)) {
                (Some((rg, ind)), Some(m)) => rg == m.range && ind == (m.kind is Indent),
                (None, None) => true,
                _ => false,
            },
    {
        let found = self.find_line_at(cursor_pos);
        match found {
            None => None,
            Some((_, line)) => {
                let mut i: usize = 0;
                while i < line.markers.len()
                    invariant
                        i <= line.markers@.len(),
                        0 <= line_of(self.buffer@.text, cursor_pos as int) < self.lines_spec().len(),
                        *line == self.lines_spec()[line_of(self.buffer@.text, cursor_pos as int)],
                        marker_ending_at(line.markers@, cursor_pos as int, i as int)
                            == marker_ending_at(line.markers@, cursor_pos as int, 0),
                    decreases line.markers@.len() - i,
                {
                    let m = &line.markers[i];
                    if cursor_pos == m.range.end {
                        let is_indent = matches!(m.kind, MarkerKind::Indent);
                        return Some((m.range.start..m.range.end, is_indent));
                    }
                    i += 1;
                }
                None
            },
        }
    }

    /// Delete the selection, leaving the cursor at its start.
    fn delete_selection(&mut self)
        requires
            old(self).wf(),
            char_start(old(self).buffer@.text, old(self).selection.anchor as int),
            char_start(old(self).buffer@.text, old(self).selection.head as int),
            old(self).buffer@.index + 1 < usize::MAX,
        ensures
            final(self).wf(),
            final(self).buffer@ == after_delete(
                old(self).buffer@,
                old(self).selection.lo() as int,
                old(self).selection.hi() as int,
                old(self).selection.head as int,
            ),
            final(self).selection == caret(old(self).selection.lo() as int),
    {
        let range = self.selection.range();
        let cursor_before = self.cursor().offset;
        self.buffer.delete(range.start..range.end, cursor_before);
        self.selection = Selection::new(range.start, range.start);
    }

    /// Delete backward (backspace): the selection if there is one; else a
    /// whole marker that ends at the cursor; else the char before the cursor.
    pub fn delete_backward(&mut self)
        requires
            old(self).wf(),
            old(self).buffer@.index + 1 < usize::MAX,
            old(self).selection.head <= byte_len(old(self).buffer@.text),
            char_start(old(self).buffer@.text, old(self).selection.anchor as int),
            char_start(old(self).buffer@.text, old(self).selection.head as int),
            old(self).selection.anchor == old(self).selection.head && old(self).selection.head > 0
                ==> match backspace_marker(
                old(self).buffer@.text,
                old(self).lines_spec(),
                old(self).selection.head as int,
            ) {
                Some(m) => m.range.start <= m.range.end && char_start(
                    old(self).buffer@.text,
                    m.range.start as int,
                ) && char_start(old(self).buffer@.text, m.range.end as int),
                None => true,
            },
        ensures
            final(self).wf(),
            ({
                let h = old(self).buffer@;
                let sel = old(self).selection;
                let c = sel.head as int;
                if sel.anchor != sel.head {
                    final(self).buffer@ == after_delete(h, sel.lo() as int, sel.hi() as int, c)
                        && final(self).selection == caret(sel.lo() as int)
                } else if c == 0 {
                    *final(self) == *old(self)
                } else {
                    match backspace_marker(h.text, old(self).lines_spec(), c) {
                        Some(m) => final(self).buffer@ == after_delete(
                            h,
                            m.range.start as int,
                            m.range.end as int,
                            c,
                        ) && final(self).selection == caret(m.range.start as int),
                        None => {
                            let p = prev_char_start(h.text, c);
                            final(self).buffer@ == after_delete(h, p, c, c) && final(self).selection
                                == caret(p)
                        },
                    }
                }
            }),
    {
        if !self.selection.is_collapsed() {
            self.delete_selection();
            return;
        }
        if self.cursor().offset == 0 {
            return;
        }
        let cursor_pos = self.cursor().offset;
        if let Some((marker_range, _is_indent)) = self.backspace_range_with_type(cursor_pos) {
            self.buffer.delete(marker_range.start..marker_range.end, cursor_pos);
            self.selection = Selection::new(marker_range.start, marker_range.start);
            return;
        }
        let rope = self.buffer.content().rope();
        let k = rope_byte_to_char(rope, cursor_pos);
        proof {
            lemma_char_of_byte_bounds(self.buffer@.text, cursor_pos as int);
            if k == 0 {
                assert(self.buffer@.text.take(0) =~= Seq::<char>::empty());
                assert(bytes_of(self.buffer@.text.take(0)) =~= Seq::<u8>::empty());
            }
            lemma_byte_len_mono(self.buffer@.text, k - 1, k as int);
            lemma_char_of_char_start(self.buffer@.text, k - 1);
        }
        let new_pos = rope_char_to_byte(rope, k - 1);
        self.buffer.delete(new_pos..cursor_pos, cursor_pos);
        self.selection = Selection::new(new_pos, new_pos);
    }

    /// Delete the character after the cursor, or the selection if active.
    pub fn delete_forward(&mut self)
        requires
            old(self).wf(),
            old(self).buffer@.index + 1 < usize::MAX,
            char_start(old(self).buffer@.text, old(self).selection.anchor as int),
            char_start(old(self).buffer@.text, old(self).selection.head as int),
            old(self).selection.anchor == old(self).selection.head ==> ({
                let next = move_right_spec(
                    old(self).buffer@.text,
                    old(self).lines_spec(),
                    old(self).selection.head as int,
                );
                old(self).selection.head < byte_len(old(self).buffer@.text) ==> old(
                    self,
                ).selection.head <= next && char_start(old(self).buffer@.text, next)
            }),
        ensures
            final(self).wf(),
            ({
                let h = old(self).buffer@;
                let sel = old(self).selection;
                let c = sel.head as int;
                if sel.anchor != sel.head {
                    final(self).buffer@ == after_delete(h, sel.lo() as int, sel.hi() as int, c)
                        && final(self).selection == caret(sel.lo() as int)
                } else if c < byte_len(h.text) {
                    final(self).buffer@ == after_delete(
                        h,
                        c,
                        move_right_spec(h.text, old(self).lines_spec(), c),
                        c,
                    ) && final(self).selection == sel
                } else {
                    *final(self) == *old(self)
                }
            }),
    {
        proof {
            self.buffer.lemma_history_ok();
        }
        if !self.selection.is_collapsed() {
            self.delete_selection();
        } else if self.cursor().offset < self.buffer.content().len_bytes() {
            let cursor_before = self.cursor().offset;
            let next = self.cursor().move_right(&self.buffer);
            self.buffer.delete(cursor_before..next.offset, cursor_before);
        }
    }

    /// Auto-insert space after `>` if it just became a blockquote marker.
    /// Returns true if a space was inserted.
    pub fn maybe_complete_blockquote_marker(&mut self) -> (inserted: bool)
        requires
            old(self).wf(),
            old(self).selection.head <= byte_len(old(self).buffer@.text),
            char_start(old(self).buffer@.text, old(self).selection.anchor as int),
            char_start(old(self).buffer@.text, old(self).selection.head as int),
            byte_len(old(self).buffer@.text) + 1 < usize::MAX,
            old(self).buffer@.index + 2 < usize::MAX,
            old(self).selection.head > 0 ==> char_start(
                old(self).buffer@.text,
                old(self).selection.head - 1,
            ),
            old(self).selection.head < byte_len(old(self).buffer@.text) ==> char_start(
                old(self).buffer@.text,
                old(self).selection.head + 1,
            ),
        ensures
            final(self).wf(),
            ({
                let h = old(self).buffer@;
                let c = old(self).selection.head as int;
                let bytes = crate::text::bytes_of(h.text);
                let l = line_of(h.text, c);
                let lines = old(self).lines_spec();
                let should = c > 0 && bytes[c - 1] == 0x3E && !(c < bytes.len() && bytes[c]
                    == 0x20) && 0 <= l < lines.len() && exists|i: int|
                    0 <= i < lines[l].markers@.len() && (#[trigger] lines[l].markers@[i]).kind is BlockQuote;
                &&& inserted == should
                &&& should ==> final(self).buffer@ == after_typing(h, old(self).selection, seq![' '])
                    && final(self).selection == caret(old(self).selection.lo() + 1)
                &&& !should ==> *final(self) == *old(self)
            }),
    {
        proof {
            self.buffer.lemma_history_ok();
        }
        let cursor_pos = self.cursor().offset;
        if cursor_pos == 0 {
            return false;
        }
        let content = self.buffer.content();
        if content.byte_at(cursor_pos - 1) != Some(0x3Eu8) {
            return false;
        }
        if content.byte_at(cursor_pos) == Some(0x20u8) {
            return false;
        }
        let found = self.find_line_at(cursor_pos);
        let line = match found {
            Some((_, line)) => line,
            None => return false,
        };
        let mut has_blockquote = false;
        let mut i: usize = 0;
        while i < line.markers.len()
            invariant
                i <= line.markers@.len(),
                has_blockquote <==> exists|k: int|
                    0 <= k < i && (#[trigger] line.markers@[k]).kind is BlockQuote,
            decreases line.markers@.len() - i,
        {
            if matches!(line.markers[i].kind, MarkerKind::BlockQuote) {
                has_blockquote = true;
            }
            i += 1;
        }
        if !has_blockquote {
            return false;
        }
        proof {
            reveal_strlit(" ");
            assert(" "@ =~= seq![' ']);
            lemma_ascii_char_bytes(' ');
        }
        self.insert_text(" ");
        true
    }

    /// Toggle the checkbox of line `line_number`: the mark between the
    /// brackets of the line's checkbox becomes `x` when it was clear, and
    /// clear when it was checked (see `checkbox_toggle`). The cursor stays.
    pub fn toggle_checkbox(&mut self, line_number: usize)
        requires
            old(self).wf(),
            old(self).buffer@.index + 1 < usize::MAX,
            byte_len(old(self).buffer@.text) + 1 < usize::MAX,
        ensures
            final(self).wf(),
            ({
                let h = old(self).buffer@;
                let c = old(self).selection.head as int;
                match checkbox_toggle(h.text, old(self).lines_spec(), line_number as int) {
                    Some((p, m)) => if char_start(h.text, p) && char_start(h.text, p + 1) {
                        &&& final(self).buffer@ == record_edit(
                            h,
                            EditV {
                                offset: p,
                                deleted: chars_of_bytes(h.text, p, p + 1),
                                inserted: m,
                                cursor_before: c,
                                cursor_after: p + 1,
                            },
                            edit_chars(h.text, p, 1, m),
                        )
                        &&& final(self).selection == caret(c)
                    } else {
                        final(self).buffer@ == h && final(self).selection == old(self).selection
                    },
                    None => final(self).buffer@ == h && final(self).selection == old(self).selection,
                }
            }),
    {
        proof {
            self.buffer.lemma_history_ok();
        }
        let ghost t = self.buffer@.text;
        let content = self.buffer.content();
        let lines = content.lines();
        proof {
            content.lemma_lines();
        }
        if line_number >= lines.len() {
            return;
        }
        let line = &lines[line_number];
        let is_checked = match line.checkbox() {
            Some(c) => c,
            None => {
                return;
            },
        };
        let line_text = content.slice_cow(line.range.start..line.range.end);
        let cs = chars_of(line_text.as_str());
        let pattern: Vec<char> = if is_checked {
            vec!['[', 'x', ']']
        } else {
            vec!['[', ' ', ']']
        };
        let found = match find_chars(&cs, &pattern) {
            Some(k) => Some(k),
            None => if is_checked {
                let alt: Vec<char> = vec!['[', 'X', ']'];
                find_chars(&cs, &alt)
            } else {
                None
            },
        };
        let k = match found {
            Some(k) => k,
            None => {
                return;
            },
        };
        proof {
            assert(pattern@ =~= (if is_checked { seq!['[', 'x', ']'] } else { seq!['[', ' ', ']'] }));
        }
        let before = sub_chars(&cs, 0, k);
        let rel = string_from_chars(&before).as_str().as_bytes().len();
        let start = match line.range.start.checked_add(rel) {
            Some(v) => match v.checked_add(1) {
                Some(w) => w,
                None => {
                    return;
                },
            },
            None => {
                return;
            },
        };
        if start == usize::MAX || !content.is_char_start(start) || !content.is_char_start(start + 1) {
            return;
        }
        let cursor_before = self.cursor().offset;
        let new_content = if is_checked {
            " "
        } else {
            "x"
        };
        proof {
            reveal_strlit(" ");
            reveal_strlit("x");
            lemma_ascii_char_bytes(' ');
            lemma_ascii_char_bytes('x');
            assert(" "@ =~= seq![' ']);
            assert("x"@ =~= seq!['x']);
            assert(byte_len(new_content@) == 1);
        }
        self.buffer.replace(start..start + 1, new_content, cursor_before);
        self.selection = Selection::new(cursor_before, cursor_before);
    }

    /// The prefixes that Tab cycles the line at `cursor_offset` through,
    /// found from the parse of the text above the line (see `cycle_states`).
    pub fn build_cycle_states_from_tree(&self, cursor_offset: usize) -> (r: Vec<String>)
        requires
            self.wf(),
            cursor_offset <= byte_len(self.buffer@.text),
        ensures
            r@.map_values(|s: String| s@) == cycle_states(
                self.buffer@.text,
                self.buffer.content_spec().syntax(),
                cursor_offset as int,
            ),
    {
        proof {
            self.buffer.lemma_history_ok();
        }
        cycle_states_at(self.buffer.content(), cursor_offset)
    }

    /// Replace the line's text from its start to the cursor with `new_prefix`,
    /// and put the cursor after it.
    fn set_line_prefix(&mut self, new_prefix: &str)
        requires
            old(self).wf(),
            old(self).selection.head <= byte_len(old(self).buffer@.text),
            char_start(old(self).buffer@.text, old(self).selection.head as int),
            old(self).buffer@.index + 2 < usize::MAX,
            byte_len(old(self).buffer@.text) + byte_len(new_prefix@) < usize::MAX,
        ensures
            final(self).wf(),
            ({
                let t = old(self).buffer@.text;
                let cur = old(self).selection.head as int;
                let ls = line_start_byte(t, line_of(t, cur));
                &&& final(self).buffer@ == after_set_prefix(old(self).buffer@, ls, cur, new_prefix@)
                &&& final(self).selection == caret(ls + byte_len(new_prefix@))
            }),
    {
        let ghost t = self.buffer@.text;
        proof {
            self.buffer.lemma_history_ok();
            lemma_line_of(t, self.selection.head as int);
        }
        let cursor_offset = self.cursor().offset;
        let line_idx = self.buffer.content().byte_to_line(cursor_offset);
        let line_start = self.buffer.content().line_to_byte(line_idx);
        proof {
            lemma_line_start_is_char_start(t, line_idx as int);
        }
        if cursor_offset > line_start {
            self.buffer.delete(line_start..cursor_offset, cursor_offset);
            proof {
                lemma_delete_keeps_start(t, line_start as int, cursor_offset as int);
            }
        }
        if new_prefix.unicode_len() > 0 {
            self.buffer.insert(line_start, new_prefix, line_start);
        }
        let new_cursor = line_start + new_prefix.as_bytes().len();
        self.selection = Selection::new(new_cursor, new_cursor);
    }

    /// Move the cursor's line to the state `forward` (Tab) or backward
    /// (Shift+Tab) of the current one in its cycle. Nothing changes when the
    /// cycle has one state, or when the text would grow past what an offset
    /// can count.
    fn cycle_line_prefix(&mut self, forward: bool)
        requires
            old(self).wf(),
            old(self).selection.head <= byte_len(old(self).buffer@.text),
            char_start(old(self).buffer@.text, old(self).selection.head as int),
            old(self).buffer@.index + 2 < usize::MAX,
        ensures
            final(self).wf(),
            cycled(old(self).buffer@, old(self).buffer.content_spec().syntax(), old(self).selection, forward, final(self).buffer@, final(self).selection),
    {
        let ghost h = self.buffer@;
        let ghost t = h.text;
        let cursor_offset = self.cursor().offset;
        let states = self.build_cycle_states_from_tree(cursor_offset);
        let ghost sv = states@.map_values(|s: String| s@);
        if states.len() <= 1 {
            return;
        }
        proof {
            self.buffer.lemma_history_ok();
            lemma_line_of(t, cursor_offset as int);
        }
        let line_idx = self.buffer.content().byte_to_line(cursor_offset);
        let line_start = self.buffer.content().line_to_byte(line_idx);
        let current = self.buffer.content().slice_cow(line_start..cursor_offset);
        let idx = match position_in(&states, &current) {
            Some(i) => i,
            None => 0,
        };
        let target = if forward {
            (idx + 1) % states.len()
        } else if idx == 0 {
            states.len() - 1
        } else {
            idx - 1
        };
        let prefix = &states[target];
        let len = self.buffer.content().len_bytes();
        let plen = prefix.as_str().as_bytes().len();
        if plen >= usize::MAX - len {
            return;
        }
        self.set_line_prefix(prefix.as_str());
    }

    /// Tab: move the cursor's line to the next state of its cycle.
    pub fn tab(&mut self)
        requires
            old(self).wf(),
            old(self).selection.head <= byte_len(old(self).buffer@.text),
            char_start(old(self).buffer@.text, old(self).selection.head as int),
            old(self).buffer@.index + 2 < usize::MAX,
        ensures
            final(self).wf(),
            cycled(old(self).buffer@, old(self).buffer.content_spec().syntax(), old(self).selection, true, final(self).buffer@, final(self).selection),
    {
        self.cycle_line_prefix(true);
    }

    /// Shift+Tab: move the cursor's line to the previous state of its cycle.
    pub fn shift_tab(&mut self)
        requires
            old(self).wf(),
            old(self).selection.head <= byte_len(old(self).buffer@.text),
            char_start(old(self).buffer@.text, old(self).selection.head as int),
            old(self).buffer@.index + 2 < usize::MAX,
        ensures
            final(self).wf(),
            cycled(old(self).buffer@, old(self).buffer.content_spec().syntax(), old(self).selection, false, final(self).buffer@, final(self).selection),
    {
        self.cycle_line_prefix(false);
    }
}

/// Whether some marker of `ms` is a fence that opens (or closes) a code block.
fn has_fence_exec(ms: &Vec<crate::marker::Marker>, opening: bool) -> (b: bool)
    ensures
        b == has_fence(ms@, opening),
{
    let mut i: usize = 0;
    while i < ms.len()
        invariant
            i <= ms@.len(),
            forall|k: int|
                0 <= k < i ==> !((#[trigger] ms@[k]).kind is CodeBlockFence && ms@[k].kind->is_opening
                    == opening),
        decreases ms@.len() - i,
    {
        if let MarkerKind::CodeBlockFence { is_opening, .. } = &ms[i].kind {
            if *is_opening == opening {
                return true;
            }
        }
        i += 1;
    }
    false
}

/// The index of the first of `states[i..]` equal to `x`, if any.
pub open spec fn position_of(states: Seq<Seq<char>>, x: Seq<char>, i: int) -> Option<int>
    decreases states.len() - i,
{
    if i < 0 || i >= states.len() {
        None
    } else if states[i] == x {
        Some(i)
    } else {
        position_of(states, x, i + 1)
    }
}

/// The state Tab (`forward`) or Shift+Tab moves to from the one equal to
/// `current` (from the first state when none is).
pub open spec fn cycle_target(states: Seq<Seq<char>>, current: Seq<char>, forward: bool) -> int {
    let idx = match position_of(states, current, 0) {
        Some(i) => i,
        None => 0,
    };
    if forward {
        (idx + 1) % (states.len() as int)
    } else if idx == 0 {
        states.len() - 1
    } else {
        idx - 1
    }
}

/// In a cycle of distinct states, Shift+Tab from the state Tab moved to
/// gives back the state it started from, and so does Tab from the state
/// Shift+Tab moved to.
pub proof fn law_shift_tab_undoes_tab(states: Seq<Seq<char>>, i: int)
    requires
        states.len() > 1,
        0 <= i < states.len(),
        forall|a: int, b: int| 0 <= a < b < states.len() ==> states[a] != states[b],
    ensures
        cycle_target(states, states[cycle_target(states, states[i], true)], false) == i,
        cycle_target(states, states[cycle_target(states, states[i], false)], true) == i,
{
    assert forall|k: int| 0 <= k < states.len() implies position_of(states, #[trigger] states[k], 0) == Some(k) by {
        lemma_position_of_distinct(states, k, 0);
    }
    let n = states.len() as int;
    assert((i + 1) % n == if i + 1 < n {
        i + 1
    } else {
        0
    }) by (nonlinear_arith)
        requires
            0 <= i < n,
    ;
    let b = if i == 0 {
        n - 1
    } else {
        i - 1
    };
    assert((b + 1) % n == i) by (nonlinear_arith)
        requires
            0 <= i < n,
            b == if i == 0 {
                n - 1
            } else {
                i - 1
            },
    ;
}

/// In a sequence of distinct states, the first position of the state at
/// `k`, looking from `j <= k`, is `k`.
proof fn lemma_position_of_distinct(states: Seq<Seq<char>>, k: int, j: int)
    requires
        0 <= j <= k < states.len(),
        forall|a: int, b: int| 0 <= a < b < states.len() ==> states[a] != states[b],
    ensures
        position_of(states, states[k], j) == Some(k),
    decreases k - j,
{
    if j < k {
        assert(states[j] != states[k]);
        lemma_position_of_distinct(states, k, j + 1);
    }
}

/// The history after the line's text from its start `ls` to the cursor is
/// replaced by `p`: a deletion (when there is text), then an insertion (when
/// `p` is not empty).
pub open spec fn after_set_prefix(h: BufferV, ls: int, cursor: int, p: Seq<char>) -> BufferV {
    let h1 = if cursor > ls {
        after_delete(h, ls, cursor, cursor)
    } else {
        h
    };
    if p.len() > 0 {
        after_insert(h1, ls, p)
    } else {
        h1
    }
}

/// The buffer `h2` and selection `sel2` after cycling the prefix of the line
/// of `sel`'s head in `h` (with the parse `syntax`): its text from the
/// line's start to the cursor replaced by the next (`forward`) or previous
/// state of the cycle, the cursor after it; unchanged when the cycle has one
/// state or the text would grow past what an offset can count.
pub open spec fn cycled(
    h: BufferV,
    syntax: Option<Seq<SyntaxNode>>,
    sel: Selection,
    forward: bool,
    h2: BufferV,
    sel2: Selection,
) -> bool {
    let t = h.text;
    let cur = sel.head as int;
    let states = cycle_states(t, syntax, cur);
    let ls = line_start_byte(t, line_of(t, cur));
    let p = states[cycle_target(states, clamped_slice(t, ls, cur), forward)];
    if states.len() <= 1 || byte_len(p) >= usize::MAX - byte_len(t) {
        h2 == h && sel2 == sel
    } else {
        h2 == after_set_prefix(h, ls, cur, p) && sel2 == caret(ls + byte_len(p))
    }
}

/// The first index at or after `i` where `p` occurs in `s`.
pub open spec fn find_from(s: Seq<char>, p: Seq<char>, i: int) -> Option<int>
    decreases s.len() + 1 - i,
{
    if i < 0 || i + p.len() > s.len() {
        None
    } else if s.subrange(i, i + p.len()) == p {
        Some(i)
    } else {
        find_from(s, p, i + 1)
    }
}

/// Where toggling the checkbox of line `l` writes, and what: the byte after
/// the `[` of the line's first `[x]` (else `[X]`) when the line's checkbox is
/// checked, or of its first `[ ]` when it is clear, and the mark that
/// replaces the byte there.
pub open spec fn checkbox_toggle(t: Seq<char>, lines: Seq<LineMarkers>, l: int) -> Option<(int, Seq<char>)> {
    if 0 <= l < lines.len() {
        match checkbox_from(lines[l].markers@, 0) {
            Some(checked) => {
                let lt = clamped_slice(t, lines[l].range.start as int, lines[l].range.end as int);
                let found = if checked {
                    match find_from(lt, seq!['[', 'x', ']'], 0) {
                        Some(k) => Some(k),
                        None => find_from(lt, seq!['[', 'X', ']'], 0),
                    }
                } else {
                    find_from(lt, seq!['[', ' ', ']'], 0)
                };
                match found {
                    Some(k) => Some(
                        (
                            lines[l].range.start + byte_len(lt.take(k)) + 1,
                            if checked {
                                seq![' ']
                            } else {
                                seq!['x']
                            },
                        ),
                    ),
                    None => None,
                }
            },
            None => None,
        }
    } else {
        None
    }
}

/// The first index where `p` occurs in `s`.
fn find_chars(s: &Vec<char>, p: &Vec<char>) -> (r: Option<usize>)
    ensures
        as_index(r) == find_from(s@, p@, 0),
        r matches Some(k) ==> k + p@.len() <= s@.len(),
{
    let n = s.len();
    let mut i: usize = 0;
    while i <= s.len() && p.len() <= s.len() - i
        invariant
            n == s@.len(),
            find_from(s@, p@, 0) == find_from(s@, p@, i as int),
        decreases s@.len() + 1 - i,
    {
        let mut j: usize = 0;
        let mut same = true;
        while j < p.len()
            invariant
                n == s@.len(),
                i + p@.len() <= s@.len(),
                j <= p@.len(),
                same == (forall|q: int| 0 <= q < j ==> s@[i + q] == p@[q]),
            decreases p@.len() - j,
        {
            if s[i + j] != p[j] {
                same = false;
            }
            j += 1;
        }
        assert(same == (s@.subrange(i as int, i + p@.len()) =~= p@));
        if same {
            return Some(i);
        }
        i += 1;
    }
    None
}

/// The index of the first of `states` equal to `x`.
fn position_in(states: &Vec<String>, x: &String) -> (r: Option<usize>)
    ensures
        as_index(r) == position_of(states@.map_values(|s: String| s@), x@, 0),
        r matches Some(i) ==> i < states@.len(),
{
    let ghost sv = states@.map_values(|s: String| s@);
    let mut i: usize = 0;
    while i < states.len()
        invariant
            i <= states@.len(),
            sv == states@.map_values(|s: String| s@),
            position_of(sv, x@, 0) == position_of(sv, x@, i as int),
        decreases states@.len() - i,
    {
        if states[i] == *x {
            return Some(i);
        }
        i += 1;
    }
    None
}

/// A line's start is where a char starts.
proof fn lemma_line_start_is_char_start(t: Seq<char>, l: int)
    requires
        0 <= l <= newline_count(t) + 1,
    ensures
        char_start(t, line_start_byte(t, l)),
{
    let k = crate::rope::line_start_char(t, l);
    crate::rope::lemma_line_start_bounds(t, l);
    lemma_char_of_char_start(t, k);
    crate::rope::lemma_byte_len_mono(t, k, t.len() as int);
    assert(t.take(t.len() as int) =~= t);
}

/// Deleting the chars between two char starts leaves the first a char start.
proof fn lemma_delete_keeps_start(t: Seq<char>, lo: int, hi: int)
    requires
        lo <= hi,
        char_start(t, lo),
        char_start(t, hi),
    ensures
        char_start(edit_chars(t, lo, hi - lo, Seq::empty()), lo),
        byte_len(edit_chars(t, lo, hi - lo, Seq::empty())) <= byte_len(t),
{
    let a = crate::rope::char_of_byte(t, lo);
    let b = crate::rope::char_of_byte(t, hi);
    crate::rope::lemma_char_of_byte_mono(t, lo, hi);
    lemma_char_of_byte_bounds(t, lo);
    lemma_char_of_byte_bounds(t, hi);
    crate::buffer::lemma_edit_at(t, a, b - a, Seq::empty());
    let r = t.take(a) + t.skip(b);
    assert(r == t.take(a) + Seq::<char>::empty() + t.skip(b));
    assert(r.take(a) =~= t.take(a));
    lemma_char_of_char_start(r, a);
    crate::rope::lemma_len_le_byte_len(r);
    assert(r =~= r.take(a) + r.skip(a));
    crate::rope::lemma_bytes_concat(r.take(a), r.skip(a));
}

/// After typing `t` over a selection at char boundaries, the end of `t` is a
/// char start of the new text, and the text grew by at most `t`.
proof fn lemma_typed_end_is_start(h: BufferV, sel: Selection, t: Seq<char>)
    requires
        char_start(h.text, sel.anchor as int),
        char_start(h.text, sel.head as int),
    ensures
        char_start(after_typing(h, sel, t).text, sel.lo() + byte_len(t)),
        byte_len(after_typing(h, sel, t).text) <= byte_len(h.text) + byte_len(t),
{
    let lo = sel.lo() as int;
    let hi = sel.hi() as int;
    let t1 = if sel.anchor == sel.head {
        h.text
    } else {
        edit_chars(h.text, lo, hi - lo, Seq::empty())
    };
    if sel.anchor != sel.head {
        lemma_delete_keeps_start(h.text, lo, hi);
    }
    let k = crate::rope::char_of_byte(t1, lo);
    lemma_char_of_byte_bounds(t1, lo);
    crate::buffer::lemma_edit_at(t1, k, 0, t);
    assert(t1.subrange(k, k) =~= Seq::<char>::empty());
    assert(crate::text::bytes_of(Seq::<char>::empty()) =~= Seq::<u8>::empty());
    let n = t1.take(k) + t + t1.skip(k);
    assert(n.take(k + t.len()) =~= t1.take(k) + t);
    crate::rope::lemma_bytes_concat(t1.take(k), t);
    lemma_char_of_char_start(n, k + t.len());
    crate::rope::lemma_byte_len_mono(n, k + t.len(), n.len() as int);
    assert(n.take(n.len() as int) =~= n);
}

} // verus!
