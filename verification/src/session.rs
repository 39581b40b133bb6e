//! An editing session: the editor state together with the flags that block
//! user input and mark content streaming in (from an assistant or any other
//! source), and the queries a host asks of it.

use std::ops::Range;
use vstd::prelude::*;

use crate::buffer::{char_start, record_edit, EditV};
use crate::editor::{caret, EditorState};
use crate::rope::{byte_len, char_of_byte, lemma_char_of_char_start};

verus! {

/// The editor state of a session, with its input and streaming flags.
pub struct EditorSession {
    pub state: EditorState,
    pub input_blocked: bool,
    pub streaming: bool,
}

/// The end of a text is a char boundary, and an insertion there appends.
proof fn lemma_end_is_char_start(t: Seq<char>)
    ensures
        char_start(t, byte_len(t)),
        char_of_byte(t, byte_len(t)) == t.len(),
{
    lemma_char_of_char_start(t, t.len() as int);
    assert(t.take(t.len() as int) =~= t);
}

impl EditorSession {
    /// A session on `state`, accepting input and not streaming.
    pub fn new(state: EditorState) -> (s: Self)
        ensures
            s.state == state,
            !s.input_blocked,
            !s.streaming,
    {
        EditorSession { state, input_blocked: false, streaming: false }
    }

    /// Block or unblock user input. Useful during demos or streaming.
    pub fn set_input_blocked(&mut self, blocked: bool)
        ensures
            final(self).input_blocked == blocked,
            final(self).streaming == old(self).streaming,
            final(self).state == old(self).state,
    {
        self.input_blocked = blocked;
    }

    /// Returns true if user input is currently blocked.
    pub fn is_input_blocked(&self) -> (b: bool)
        ensures
            b == self.input_blocked,
    {
        self.input_blocked
    }

    /// Enter streaming mode: block input and move the cursor to the end.
    ///
    /// Call this before appending streamed content, then call
    /// `end_streaming` when done.
    pub fn begin_streaming(&mut self)
        requires
            old(self).state.wf(),
        ensures
            final(self).state.wf(),
            final(self).streaming,
            final(self).input_blocked,
            final(self).state.buffer == old(self).state.buffer,
            final(self).state.selection == caret(byte_len(old(self).state.buffer@.text)),
    {
        self.streaming = true;
        self.input_blocked = true;
        proof {
            self.state.buffer.lemma_history_ok();
        }
        let end = self.state.buffer.content().len_bytes();
        self.state.set_cursor(end);
    }

    /// Exit streaming mode and re-enable user input.
    pub fn end_streaming(&mut self)
        ensures
            !final(self).streaming,
            !final(self).input_blocked,
            final(self).state == old(self).state,
    {
        self.streaming = false;
        self.input_blocked = false;
    }

    /// Returns true if currently in streaming mode.
    pub fn is_streaming(&self) -> (b: bool)
        ensures
            b == self.streaming,
    {
        self.streaming
    }

    /// Append `text` to the end of the buffer, as an edit of its history,
    /// and move the cursor to the new end. Useful for streaming content.
    pub fn append(&mut self, text: &str)
        requires
            old(self).state.wf(),
            old(self).state.buffer@.index + 1 < usize::MAX,
            byte_len(old(self).state.buffer@.text) + byte_len(text@) < usize::MAX,
        ensures
            final(self).state.wf(),
            final(self).input_blocked == old(self).input_blocked,
            final(self).streaming == old(self).streaming,
            ({
                let h = old(self).state.buffer@;
                let n = byte_len(h.text);
                &&& final(self).state.buffer@ == record_edit(
                    h,
                    EditV {
                        offset: n,
                        deleted: seq![],
                        inserted: text@,
                        cursor_before: n,
                        cursor_after: n + byte_len(text@),
                    },
                    h.text + text@,
                )
                &&& final(self).state.selection == caret(n + byte_len(text@))
            }),
    {
        let ghost t = self.state.buffer@.text;
        proof {
            self.state.buffer.lemma_history_ok();
            lemma_end_is_char_start(t);
            assert(t.take(t.len() as int) + t.skip(t.len() as int) =~= t);
            assert(t.take(t.len() as int) + text@ + t.skip(t.len() as int) =~= t + text@);
        }
        let end = self.state.buffer.content().len_bytes();
        let new_end = self.state.buffer.insert(end, text, end);
        self.state.selection = crate::cursor::Selection { anchor: new_end, head: new_end };
    }

    /// The cursor position as a byte offset.
    pub fn cursor_position(&self) -> (p: usize)
        ensures
            p == self.state.selection.head,
    {
        self.state.selection.head
    }

    /// The selected range, or None when the cursor is collapsed.
    pub fn selection_range(&self) -> (r: Option<Range<usize>>)
        ensures
            (r is None) <==> self.state.selection.anchor == self.state.selection.head,
            r matches Some(g) ==> g.start == self.state.selection.lo() && g.end
                == self.state.selection.hi(),
    {
        if self.state.selection.is_collapsed() {
            None
        } else {
            Some(self.state.selection.range())
        }
    }
}

} // verus!
