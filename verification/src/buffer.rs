//! The text buffer: a rope with its lines and their markers, and a linear
//! undo/redo history of the edits made to it.
//!
//! Offsets are byte offsets into the UTF-8 text. The block structure of the
//! text is parsed outside the library; a parse is handed in as its list of
//! syntax nodes (`set_syntax`), and an edit drops the parse it made stale.
//! The parse of the text after an edit ends the edit (`Buffer::reparse`):
//! its ordered lists are renumbered, as part of that edit in the history.

use ropey::Rope;
use std::ops::Range;
use vstd::prelude::*;
use vstd::string::StringSliceAdditionalSpecFns;

use crate::lines::{extract_lines_from_parts, lines_match};
use crate::marker::{nodes_fit, nodes_fit_text, LineMarkers};
use crate::rope::{
    byte_len, char_of_byte, lemma_byte_len_mono, lemma_bytes_concat, lemma_char_of_byte_bounds,
    lemma_char_of_byte_mono, lemma_char_of_char_start, lemma_line_start_bounds, lemma_line_starts_ordered,
    lemma_len_le_byte_len, lemma_newline_count_bounds, line_start_char, newline_count, rope_byte, rope_byte_to_char,
    rope_char, rope_char_to_byte, rope_char_to_line, rope_chars, rope_clone, rope_from_str, rope_insert, rope_len_bytes,
    rope_len_chars, rope_len_lines, rope_line_to_char, rope_remove, rope_slice_string,
    rope_to_string,
};
use crate::renumber::{
    apply_corrections, apply_corrections_to_rope, find_ordered_list_corrections, list_corrections,
};
use crate::syntax::SyntaxNode;
use crate::editor::line_has_content_spec;
use crate::text::{bytes_of, chars_of, trim_chars};

verus! {

broadcast use vstd::string::group_string_axioms;

/// `cs` with the chars that hold bytes `offset..offset + del_len` removed, and
/// `ins` put before the char that then holds byte `offset`.
pub open spec fn edit_chars(cs: Seq<char>, offset: int, del_len: int, ins: Seq<char>) -> Seq<char> {
    let rest = cs.take(char_of_byte(cs, offset)) + cs.skip(char_of_byte(cs, offset + del_len));
    let c = char_of_byte(rest, offset);
    rest.take(c) + ins + rest.skip(c)
}

/// Byte `b` of `cs` is where a char starts (or the end of the text).
pub open spec fn char_start(cs: Seq<char>, b: int) -> bool {
    &&& 0 <= b <= byte_len(cs)
    &&& byte_len(cs.take(char_of_byte(cs, b))) == b
}

/// The byte where the char before byte `b` starts.
pub open spec fn prev_char_start(cs: Seq<char>, b: int) -> int {
    byte_len(cs.take(char_of_byte(cs, b) - 1))
}

/// The chars that hold bytes `start..end` of `cs`.
pub open spec fn chars_of_bytes(cs: Seq<char>, start: int, end: int) -> Seq<char> {
    cs.subrange(char_of_byte(cs, start), char_of_byte(cs, end))
}

/// The chars that hold bytes `start..end` of `t`, the range clamped to the
/// text; empty when the clamped range is.
pub open spec fn clamped_slice(t: Seq<char>, start: int, end: int) -> Seq<char> {
    let len = byte_len(t);
    let s = if start < len {
        start
    } else {
        len
    };
    let e = if end < len {
        end
    } else {
        len
    };
    if s >= e {
        Seq::<char>::empty()
    } else {
        chars_of_bytes(t, s, e)
    }
}

/// The line that byte `b` of `t` is on.
pub open spec fn line_of(t: Seq<char>, b: int) -> int {
    newline_count(t.take(char_of_byte(t, b)))
}

/// The byte where line `l` of `t` starts.
pub open spec fn line_start_byte(t: Seq<char>, l: int) -> int {
    byte_len(t.take(line_start_char(t, l)))
}

/// The byte where line `l` of `t` ends, its line break included; the end of
/// the text for the last line.
pub open spec fn line_end_byte(t: Seq<char>, l: int) -> int {
    byte_len(
        t.take(
            if l + 1 < newline_count(t) + 1 {
                line_start_char(t, l + 1)
            } else {
                t.len() as int
            },
        ),
    )
}

/// An edit, seen as plain values.
pub struct EditV {
    pub offset: int,
    pub deleted: Seq<char>,
    pub inserted: Seq<char>,
    pub cursor_before: int,
    pub cursor_after: int,
}

/// The edit `e` turns `before` into `after`, at a char boundary, and what it
/// deletes is what `before` holds there.
pub open spec fn edit_step(before: Seq<char>, e: EditV, after: Seq<char>) -> bool {
    let k = char_of_byte(before, e.offset);
    &&& char_start(before, e.offset)
    &&& k + e.deleted.len() <= before.len()
    &&& before.subrange(k, k + e.deleted.len()) == e.deleted
    &&& after == before.take(k) + e.inserted + before.skip(k + e.deleted.len())
}

/// One edit of the history: the bytes at `offset` that it deleted and inserted,
/// and where the cursor stood before and after it.
#[derive(Clone, Debug)]
pub struct TextEdit {
    offset: usize,
    deleted: String,
    inserted: String,
    cursor_before: usize,
    cursor_after: usize,
}

impl View for TextEdit {
    type V = EditV;

    closed spec fn view(&self) -> EditV {
        EditV {
            offset: self.offset as int,
            deleted: self.deleted@,
            inserted: self.inserted@,
            cursor_before: self.cursor_before as int,
            cursor_after: self.cursor_after as int,
        }
    }
}

impl TextEdit {
    pub fn new(
        offset: usize,
        deleted: String,
        inserted: String,
        cursor_before: usize,
        cursor_after: usize,
    ) -> (e: Self)
        ensures
            e@ == (EditV {
                offset: offset as int,
                deleted: deleted@,
                inserted: inserted@,
                cursor_before: cursor_before as int,
                cursor_after: cursor_after as int,
            }),
    {
        TextEdit { offset, deleted, inserted, cursor_before, cursor_after }
    }
}

/// Editing at char `k`: the bytes up to char `k`, and those of the chars
/// `k..k + n`, are what `edit_chars` removes, so it replaces exactly those chars.
pub proof fn lemma_edit_at(cs: Seq<char>, k: int, n: int, ins: Seq<char>)
    requires
        0 <= k <= k + n <= cs.len(),
    ensures
        char_start(cs, byte_len(cs.take(k))),
        char_of_byte(cs, byte_len(cs.take(k))) == k,
        byte_len(cs.take(k)) + byte_len(cs.subrange(k, k + n)) <= byte_len(cs),
        edit_chars(cs, byte_len(cs.take(k)), byte_len(cs.subrange(k, k + n)), ins) == cs.take(k)
            + ins + cs.skip(k + n),
        chars_of_bytes(cs, byte_len(cs.take(k)), byte_len(cs.take(k + n))) == cs.subrange(k, k + n),
        byte_len(cs.take(k + n)) == byte_len(cs.take(k)) + byte_len(cs.subrange(k, k + n)),
        char_start(cs, byte_len(cs.take(k + n))),
        char_of_byte(cs, byte_len(cs.take(k)) + byte_len(cs.subrange(k, k + n))) == k + n,
        byte_len(cs.take(k)) <= byte_len(cs.take(k) + cs.skip(k + n)),
        byte_len(cs.take(k) + ins + cs.skip(k + n)) == byte_len(cs) - byte_len(cs.subrange(k, k + n))
            + byte_len(ins),
{
    let off = byte_len(cs.take(k));
    let dl = byte_len(cs.subrange(k, k + n));
    lemma_char_of_char_start(cs, k);
    lemma_char_of_char_start(cs, k + n);
    assert(cs.take(k + n) =~= cs.take(k) + cs.subrange(k, k + n));
    lemma_bytes_concat(cs.take(k), cs.subrange(k, k + n));
    assert(cs =~= cs.take(cs.len() as int));
    lemma_byte_len_mono(cs, k + n, cs.len() as int);
    assert(char_of_byte(cs, off + dl) == k + n);
    let rest = cs.take(k) + cs.skip(k + n);
    assert(rest.take(k) =~= cs.take(k));
    lemma_char_of_char_start(rest, k);
    assert(rest.take(k) + ins + rest.skip(k) =~= cs.take(k) + ins + cs.skip(k + n));
    lemma_bytes_concat(cs.take(k), cs.skip(k + n));
    assert(cs =~= cs.take(k + n) + cs.skip(k + n));
    lemma_bytes_concat(cs.take(k + n), cs.skip(k + n));
    lemma_bytes_concat(cs.take(k) + ins, cs.skip(k + n));
    lemma_bytes_concat(cs.take(k), ins);
}

/// An edit made at a char boundary is undone by the edit that deletes what it
/// inserted and inserts what it deleted, at the same offset.
#[verifier::rlimit(50)]
#[verifier::spinoff_prover]
pub proof fn lemma_edit_inverse(before: Seq<char>, e: EditV, after: Seq<char>)
    requires
        edit_step(before, e, after),
    ensures
        edit_step(
            after,
            EditV {
                offset: e.offset,
                deleted: e.inserted,
                inserted: e.deleted,
                cursor_before: e.cursor_after,
                cursor_after: e.cursor_before,
            },
            before,
        ),
        edit_chars(before, e.offset, byte_len(e.deleted), e.inserted) == after,
        edit_chars(after, e.offset, byte_len(e.inserted), e.deleted) == before,
        e.offset + byte_len(e.deleted) <= byte_len(before),
        e.offset + byte_len(e.inserted) <= byte_len(after),
        e.offset <= byte_len(
            before.take(char_of_byte(before, e.offset)) + before.skip(
                char_of_byte(before, e.offset + byte_len(e.deleted)),
            ),
        ),
        e.offset <= byte_len(
            after.take(char_of_byte(after, e.offset)) + after.skip(
                char_of_byte(after, e.offset + byte_len(e.inserted)),
            ),
        ),
{
    let k = char_of_byte(before, e.offset);
    let n = e.deleted.len() as int;
    let m = e.inserted.len() as int;
    lemma_char_of_byte_bounds(before, e.offset);
    lemma_edit_at(before, k, n, e.inserted);
    assert(after.take(k) =~= before.take(k));
    assert(after.subrange(k, k + m) =~= e.inserted);
    assert(after.skip(k + m) =~= before.skip(k + n));
    lemma_edit_at(after, k, m, e.deleted);
    assert(after.take(k) + e.deleted + after.skip(k + m) =~= before);
}

/// The text of a buffer with its lines and their markers.
///
/// `lines` is kept equal to what the text and its parse (if there is one) give.
pub struct BufferContent {
    text: Rope,
    syntax: Option<Vec<SyntaxNode>>,
    lines: Vec<LineMarkers>,
}

/// A copy of the buffer's text and lines, for rendering.
pub struct RenderSnapshot {
    pub lines: Vec<LineMarkers>,
    pub rope: Rope,
}

impl View for BufferContent {
    type V = Seq<char>;

    closed spec fn view(&self) -> Seq<char> {
        rope_chars(self.text)
    }
}

/// The view of an optional node list.
pub open spec fn syntax_view(s: Option<Vec<SyntaxNode>>) -> Option<Seq<SyntaxNode>> {
    match s {
        Some(v) => Some(v@),
        None => None,
    }
}

impl BufferContent {
    /// The parse of the text that the lines' markers come from, if there is one.
    pub closed spec fn syntax(&self) -> Option<Seq<SyntaxNode>> {
        syntax_view(self.syntax)
    }

    /// The cached lines.
    pub closed spec fn line_list(&self) -> Seq<LineMarkers> {
        self.lines@
    }

    pub closed spec fn wf(&self) -> bool {
        &&& byte_len(self@) <= usize::MAX
        &&& (self.syntax() matches Some(ns) ==> nodes_fit_text(ns, bytes_of(self@)))
        &&& lines_match(bytes_of(self@), self.syntax(), self.lines@)
    }

    /// Recompute the cached lines from the text and its parse.
    fn refresh_lines(&mut self)
        requires
            old(self).syntax() matches Some(ns) ==> nodes_fit_text(ns, bytes_of(old(self)@)),
        ensures
            final(self).wf(),
            final(self)@ == old(self)@,
            final(self).syntax() == old(self).syntax(),
    {
        let s = rope_to_string(&self.text);
        let lines = match &self.syntax {
            Some(v) => extract_lines_from_parts(s.as_str(), Some(v.as_slice())),
            None => extract_lines_from_parts(s.as_str(), None),
        };
        self.lines = lines;
    }

    /// An empty buffer.
    pub fn new() -> (b: Self)
        ensures
            b.wf(),
            b@ == Seq::<char>::empty(),
            b.syntax() == None::<Seq<SyntaxNode>>,
    {
        proof {
            reveal_strlit("");
            lemma_len_le_byte_len(""@);
        }
        Self::from_text("")
    }

    /// A buffer holding `s`, not yet parsed.
    pub fn from_text(s: &str) -> (b: Self)
        ensures
            b.wf(),
            b@ == s@,
            b.syntax() == None::<Seq<SyntaxNode>>,
    {
        let text = rope_from_str(s);
        let mut c = BufferContent { text, syntax: None, lines: Vec::new() };
        c.refresh_lines();
        c
    }

    /// Install `nodes` as the parse of the text, if they fit it, and recompute
    /// the lines' markers from them. Returns whether they were installed.
    pub fn set_syntax(&mut self, nodes: Vec<SyntaxNode>) -> (ok: bool)
        requires
            old(self).wf(),
        ensures
            final(self).wf(),
            final(self)@ == old(self)@,
            ok == nodes_fit_text(nodes@, bytes_of(old(self)@)),
            ok ==> final(self).syntax() == Some(nodes@),
            !ok ==> final(self).syntax() == old(self).syntax(),
    {
        let s = rope_to_string(&self.text);
        if !nodes_fit(nodes.as_slice(), s.as_str()) {
            return false;
        }
        self.syntax = Some(nodes);
        self.refresh_lines();
        true
    }

    /// Remove the chars holding bytes `offset..offset + to_delete.len()`, then
    /// insert `to_insert` before the char holding byte `offset`. The parse no
    /// longer fits the text and is dropped.
    fn apply_edit(&mut self, offset: usize, to_delete: &str, to_insert: &str)
        requires
            old(self).wf(),
            offset + byte_len(to_delete@) <= byte_len(old(self)@),
            to_insert@.len() > 0 ==> offset <= byte_len(
                old(self)@.take(char_of_byte(old(self)@, offset as int)) + old(self)@.skip(
                    char_of_byte(old(self)@, offset + byte_len(to_delete@)),
                ),
            ),
        ensures
            final(self).wf(),
            final(self)@ == edit_chars(old(self)@, offset as int, byte_len(to_delete@), to_insert@),
            final(self).syntax() == None::<Seq<SyntaxNode>>,
    {
        let ghost cs = self@;
        let delete_len = to_delete.as_bytes().len();
        let insert_len = to_insert.as_bytes().len();
        let ghost a = char_of_byte(cs, offset as int);
        let ghost b = char_of_byte(cs, offset + delete_len);
        proof {
            lemma_char_of_byte_mono(cs, offset as int, offset + delete_len);
            lemma_char_of_byte_bounds(cs, offset + delete_len);
        }
        if delete_len > 0 {
            let char_start = rope_byte_to_char(&self.text, offset);
            let char_end = rope_byte_to_char(&self.text, offset + delete_len);
            rope_remove(&mut self.text, char_start, char_end);
        } else {
            assert(cs.take(a) + cs.skip(b) =~= cs);
        }
        let ghost rest = self@;
        assert(rest == cs.take(a) + cs.skip(b));
        let ghost c = char_of_byte(rest, offset as int);
        if insert_len > 0 {
            let char_offset = rope_byte_to_char(&self.text, offset);
            proof {
                lemma_char_of_byte_bounds(rest, offset as int);
            }
            rope_insert(&mut self.text, char_offset, to_insert);
        } else {
            assert(rest.take(c) + to_insert@ + rest.skip(c) =~= rest) by {
                lemma_char_of_byte_bounds(rest, offset as int);
                lemma_len_le_byte_len(to_insert@);
            }
        }
        self.syntax = None;
        self.refresh_lines();
    }

    /// The whole text.
    pub fn text(&self) -> (s: String)
        ensures
            s@ == self@,
    {
        rope_to_string(&self.text)
    }

    pub fn len_bytes(&self) -> (n: usize)
        ensures
            n == byte_len(self@),
    {
        rope_len_bytes(&self.text)
    }

    pub fn len_chars(&self) -> (n: usize)
        ensures
            n == self@.len(),
    {
        rope_len_chars(&self.text)
    }

    pub fn is_empty(&self) -> (b: bool)
        ensures
            b == (byte_len(self@) == 0),
    {
        rope_len_bytes(&self.text) == 0
    }

    /// The byte at `offset`, if there is one. A byte inside the text must be
    /// a whole (one-byte) char.
    pub fn byte_at(&self, offset: usize) -> (r: Option<u8>)
        requires
            offset < byte_len(self@) ==> char_start(self@, offset as int) && char_start(
                self@,
                offset + 1,
            ),
        ensures
            r == (if offset >= byte_len(self@) {
                None
            } else {
                Some(bytes_of(self@)[offset as int])
            }),
    {
        if offset >= rope_len_bytes(&self.text) {
            return None;
        }
        Some(rope_byte(&self.text, offset))
    }

    pub fn rope(&self) -> (r: &Rope)
        ensures
            rope_chars(*r) == self@,
    {
        &self.text
    }

    /// The parse of the text, if there is one.
    pub fn tree(&self) -> (r: Option<&Vec<SyntaxNode>>)
        ensures
            match r {
                Some(v) => self.syntax() == Some(v@),
                None => self.syntax() == None::<Seq<SyntaxNode>>,
            },
    {
        match &self.syntax {
            Some(v) => Some(v),
            None => None,
        }
    }

    /// The text's length fits an offset, and the parse, if there is one,
    /// fits the text.
    pub proof fn lemma_syntax_fits(&self)
        requires
            self.wf(),
        ensures
            byte_len(self@) <= usize::MAX,
            self.syntax() matches Some(ns) ==> nodes_fit_text(ns, bytes_of(self@)),
    {
    }

    /// The cached lines are the lines of the text.
    pub proof fn lemma_lines(&self)
        requires
            self.wf(),
        ensures
            lines_match(bytes_of(self@), self.syntax(), self.line_list()),
    {
    }

    /// The lines of the text, each with its markers.
    pub fn lines(&self) -> (r: &[LineMarkers])
        requires
            self.wf(),
        ensures
            lines_match(bytes_of(self@), self.syntax(), r@),
            r@ == self.line_list(),
    {
        self.lines.as_slice()
    }

    /// A snapshot of the text and its lines.
    pub fn render_snapshot(&self) -> (s: RenderSnapshot)
        ensures
            rope_chars(s.rope) == self@,
            s.lines@.len() == self.line_list().len(),
            forall|i: int|
                0 <= i < s.lines@.len() ==> (#[trigger] s.lines@[i]).range == self.line_list()[i].range
                    && s.lines@[i].line_number == self.line_list()[i].line_number,
    {
        let lines = self.lines.clone();
        proof {
            assert forall|i: int| 0 <= i < lines@.len() implies (#[trigger] lines@[i]).range
                == self.lines@[i].range && lines@[i].line_number == self.lines@[i].line_number by {
                assert(cloned::<LineMarkers>(self.lines@[i], lines@[i]));
            }
        }
        RenderSnapshot { lines, rope: rope_clone(&self.text) }
    }

    /// The line that byte `byte_offset` is on.
    pub fn byte_to_line(&self, byte_offset: usize) -> (l: usize)
        requires
            byte_offset <= byte_len(self@),
        ensures
            l == line_of(self@, byte_offset as int),
    {
        proof {
            lemma_char_of_byte_bounds(self@, byte_offset as int);
        }
        let char_offset = rope_byte_to_char(&self.text, byte_offset);
        rope_char_to_line(&self.text, char_offset)
    }

    /// The byte where line `line` starts.
    pub fn line_to_byte(&self, line: usize) -> (b: usize)
        requires
            line <= newline_count(self@) + 1,
        ensures
            b == line_start_byte(self@, line as int),
    {
        let char_offset = rope_line_to_char(&self.text, line);
        proof {
            lemma_line_start_bounds(self@, line as int);
        }
        rope_char_to_byte(&self.text, char_offset)
    }

    pub fn line_count(&self) -> (n: usize)
        ensures
            n == newline_count(self@) + 1,
    {
        rope_len_lines(&self.text)
    }

    /// The bytes of line `line_idx`, its line break included.
    pub fn line_byte_range(&self, line_idx: usize) -> (r: Range<usize>)
        requires
            self.wf(),
            line_idx <= newline_count(self@) + 1,
        ensures
            r.start == line_start_byte(self@, line_idx as int),
            r.end == line_end_byte(self@, line_idx as int),
    {
        proof {
            lemma_newline_count_bounds(self@);
            lemma_len_le_byte_len(self@);
            lemma_line_start_bounds(self@, line_idx as int);
        }
        let start_char = rope_line_to_char(&self.text, line_idx);
        let end_char = if line_idx < rope_len_lines(&self.text) - 1 {
            proof {
                lemma_line_start_bounds(self@, line_idx + 1);
            }
            rope_line_to_char(&self.text, line_idx + 1)
        } else {
            rope_len_chars(&self.text)
        };
        let start_byte = rope_char_to_byte(&self.text, start_char);
        let end_byte = rope_char_to_byte(&self.text, end_char);
        start_byte..end_byte
    }

    /// The text of line `line_idx`, without its line break.
    pub fn line(&self, line_idx: usize) -> (s: String)
        requires
            self.wf(),
            line_idx < newline_count(self@) + 1,
        ensures
            s@ == ({
                let t = self@;
                let start = line_start_char(t, line_idx as int);
                let end = if line_idx + 1 < newline_count(t) + 1 {
                    line_start_char(t, line_idx + 1)
                } else {
                    t.len() as int
                };
                let l = t.subrange(start, end);
                if l.len() > 0 && l.last() == '\n' {
                    l.drop_last()
                } else {
                    l
                }
            }),
    {
        proof {
            lemma_newline_count_bounds(self@);
            lemma_len_le_byte_len(self@);
            lemma_line_start_bounds(self@, line_idx as int);
            lemma_line_start_bounds(self@, line_idx + 1);
            lemma_line_starts_ordered(self@, line_idx as int);
        }
        let start = rope_line_to_char(&self.text, line_idx);
        let end = if line_idx < rope_len_lines(&self.text) - 1 {
            rope_line_to_char(&self.text, line_idx + 1)
        } else {
            rope_len_chars(&self.text)
        };
        if end > start && rope_char(&self.text, end - 1) == '\n' {
            let s = rope_slice_string(&self.text, start, end - 1);
            assert(s@ =~= self@.subrange(start as int, end as int).drop_last());
            s
        } else {
            rope_slice_string(&self.text, start, end)
        }
    }

    /// The chars that hold the bytes of `range`.
    fn slice(&self, range: Range<usize>) -> (s: String)
        requires
            range.start <= byte_len(self@),
            range.end <= byte_len(self@),
            char_of_byte(self@, range.start as int) <= char_of_byte(self@, range.end as int),
        ensures
            s@ == chars_of_bytes(self@, range.start as int, range.end as int),
    {
        proof {
            lemma_char_of_byte_bounds(self@, range.end as int);
        }
        let char_start = rope_byte_to_char(&self.text, range.start);
        let char_end = rope_byte_to_char(&self.text, range.end);
        rope_slice_string(&self.text, char_start, char_end)
    }

    /// The chars that hold the bytes of `range`, clamped to the text; empty
    /// when the clamped range is.
    pub fn slice_cow(&self, range: Range<usize>) -> (s: String)
        ensures
            s@ == clamped_slice(self@, range.start as int, range.end as int),
    {
        let len = rope_len_bytes(&self.text);
        let start = if range.start < len { range.start } else { len };
        let end = if range.end < len { range.end } else { len };
        if start >= end {
            return String::new();
        }
        proof {
            lemma_char_of_byte_mono(self@, start as int, end as int);
        }
        self.slice(start..end)
    }

    /// Whether byte `b` is where a char of the text starts (or its end).
    pub fn is_char_start(&self, b: usize) -> (r: bool)
        ensures
            r == char_start(self@, b as int),
    {
        if b > rope_len_bytes(&self.text) {
            return false;
        }
        proof {
            lemma_char_of_byte_bounds(self@, b as int);
        }
        let c = rope_byte_to_char(&self.text, b);
        rope_char_to_byte(&self.text, c) == b
    }

    /// Whether line `line_idx` has nothing but its markers and whitespace;
    /// a code fence line always has content, and a line past the last is
    /// empty.
    pub fn is_line_empty(&self, line_idx: usize) -> (e: bool)
        requires
            self.wf(),
        ensures
            e == (line_idx >= self.line_list().len() || !line_has_content_spec(
                self@,
                self.line_list()[line_idx as int],
            )),
    {
        if line_idx >= self.lines.len() {
            return true;
        }
        let line = &self.lines[line_idx];
        if line.is_fence() {
            return false;
        }
        let content_start = match line.marker_range() {
            Some(r) => r.end,
            None => line.range.start,
        };
        let s = self.slice_cow(content_start..line.range.end);
        let cs = chars_of(s.as_str());
        let trimmed = trim_chars(&cs);
        trimmed.len() == 0
    }

    /// Renumber the ordered lists of the parse so that their items count 1, 2,
    /// 3, ... (see `find_ordered_list_corrections`). Returns whether there was
    /// anything to renumber; when there was, the text changed and the parse is
    /// dropped.
    pub fn normalize_ordered_lists(&mut self) -> (changed: bool)
        requires
            old(self).wf(),
        ensures
            final(self).wf(),
            match old(self).syntax() {
                Some(ns) if ns.len() < usize::MAX => {
                    let cs = list_corrections(ns, ns.len() as int, old(self)@);
                    &&& changed == (cs.len() > 0)
                    &&& changed ==> final(self)@ == apply_corrections(old(self)@, cs, cs.len() as int)
                        && final(self).syntax() == None::<Seq<SyntaxNode>>
                    &&& !changed ==> final(self)@ == old(self)@ && final(self).syntax() == old(
                        self,
                    ).syntax()
                },
                _ => !changed && final(self)@ == old(self)@ && final(self).syntax() == old(
                    self,
                ).syntax(),
            },
    {
        let corrections = match &self.syntax {
            Some(nodes) => {
                if nodes.len() == usize::MAX {
                    return false;
                }
                find_ordered_list_corrections(nodes.as_slice(), &self.text)
            },
            None => {
                return false;
            },
        };
        if corrections.len() == 0 {
            return false;
        }
        apply_corrections_to_rope(&mut self.text, &corrections);
        self.syntax = None;
        self.refresh_lines();
        true
    }

    /// The document is kept exactly as it was loaded: nothing to normalize.
    pub fn normalize_document(&mut self) -> (changed: bool)
        ensures
            !changed,
            *final(self) == *old(self),
    {
        false
    }
}

/// A buffer seen as plain values: its text, the text after each edit of its
/// history (`states[0]` before the first), the edits, how many of them are in
/// effect, and the position of the last save in the history, if it can still
/// be reached.
pub struct BufferV {
    pub text: Seq<char>,
    pub states: Seq<Seq<char>>,
    pub edits: Seq<EditV>,
    pub index: int,
    pub saved: Option<int>,
}

/// The history after `e`, which turned the text into `t`: the edits undone so
/// far are dropped, and so is a save point among them.
pub open spec fn record_edit(h: BufferV, e: EditV, t: Seq<char>) -> BufferV {
    BufferV {
        text: t,
        states: h.states.take(h.index + 1).push(t),
        edits: h.edits.take(h.index).push(e),
        index: h.index + 1,
        saved: match h.saved {
            Some(s) => if s > h.index {
                None
            } else {
                Some(s)
            },
            None => None,
        },
    }
}

/// The history after undoing its last edit in effect.
pub open spec fn undone(h: BufferV) -> BufferV {
    BufferV { text: h.states[h.index - 1], index: h.index - 1, ..h }
}

/// The history after redoing its first undone edit.
pub open spec fn redone(h: BufferV) -> BufferV {
    BufferV { text: h.states[h.index + 1], index: h.index + 1, ..h }
}

/// The history with its current position marked as saved.
pub open spec fn marked_clean(h: BufferV) -> BufferV {
    BufferV { saved: Some(h.index), ..h }
}

/// The edit `e` widened to turn all of `before` into `t`, keeping its
/// cursor positions.
pub open spec fn amended(e: EditV, before: Seq<char>, t: Seq<char>) -> EditV {
    EditV { offset: 0, deleted: before, inserted: t, cursor_before: e.cursor_before, cursor_after: e.cursor_after }
}

/// The history after its current text was renumbered to `t`: the edit that
/// led to the current text now leads to `t`, so that undoing it takes the
/// renumbering back with it; the undone edits are dropped, and so is a save
/// point at or after the current position.
pub open spec fn renumbered(h: BufferV, t: Seq<char>) -> BufferV {
    BufferV {
        text: t,
        states: h.states.take(h.index).push(t),
        edits: if h.index > 0 {
            h.edits.take(h.index - 1).push(amended(h.edits[h.index - 1], h.states[h.index - 1], t))
        } else {
            Seq::empty()
        },
        index: h.index,
        saved: match h.saved {
            Some(s) => if s < h.index {
                Some(s)
            } else {
                None
            },
            None => None,
        },
    }
}

/// The text differs from the last saved one, as far as the history knows.
pub open spec fn dirty(h: BufferV) -> bool {
    h.saved != Some(h.index)
}

/// The history is consistent: the text is the state at the current position,
/// and each edit turns its state into the next one.
pub open spec fn history_ok(h: BufferV) -> bool {
    &&& 0 <= h.index <= h.edits.len()
    &&& h.states.len() == h.edits.len() + 1
    &&& h.text == h.states[h.index]
    &&& forall|i: int|
        0 <= i < h.edits.len() ==> edit_step(h.states[i], #[trigger] h.edits[i], h.states[i + 1])
}

/// A text buffer with undo and redo.
///
/// Edits are recorded in a linear history: an edit made after some undos
/// drops the undone edits, and with them a save point among them.
pub struct Buffer {
    content: BufferContent,
    history: Vec<TextEdit>,
    index: usize,
    saved: Option<usize>,
    states: Ghost<Seq<Seq<char>>>,
}

impl View for Buffer {
    type V = BufferV;

    closed spec fn view(&self) -> BufferV {
        BufferV {
            text: self.content@,
            states: self.states@,
            edits: self.history@.map_values(|e: TextEdit| e@),
            index: self.index as int,
            saved: match self.saved {
                Some(s) => Some(s as int),
                None => None,
            },
        }
    }
}

impl Buffer {
    pub closed spec fn wf(&self) -> bool {
        &&& self.content.wf()
        &&& history_ok(self@)
        &&& self.history@.len() < usize::MAX
    }

    /// The text and lines of the buffer.
    pub closed spec fn content_spec(&self) -> BufferContent {
        self.content
    }

    /// An empty buffer, saved.
    pub fn new() -> (b: Self)
        ensures
            b.wf(),
            b@.text == Seq::<char>::empty(),
            b@.edits.len() == 0,
            b@.index == 0,
            b@.saved == Some(0int),
    {
        let content = BufferContent::new();
        let ghost st = seq![Seq::<char>::empty()];
        let b = Buffer {
            content,
            history: Vec::new(),
            index: 0,
            saved: Some(0),
            states: Ghost(st),
        };
        assert(b@.edits =~= Seq::<EditV>::empty());
        b
    }

    /// A buffer holding `s`, saved.
    pub fn from_text(s: &str) -> (b: Self)
        ensures
            b.wf(),
            b@.text == s@,
            b@.edits.len() == 0,
            b@.index == 0,
            b@.saved == Some(0int),
    {
        let content = BufferContent::from_text(s);
        let ghost st = seq![s@];
        let b = Buffer {
            content,
            history: Vec::new(),
            index: 0,
            saved: Some(0),
            states: Ghost(st),
        };
        assert(b@.edits =~= Seq::<EditV>::empty());
        b
    }

    /// The text and lines of the buffer.
    pub fn content(&self) -> (c: &BufferContent)
        ensures
            *c == self.content_spec(),
            self.wf() ==> c.wf(),
            c@ == self@.text,
    {
        &self.content
    }

    /// Install `nodes` as the parse of the text, if they fit it.
    pub fn set_syntax(&mut self, nodes: Vec<SyntaxNode>) -> (ok: bool)
        requires
            old(self).wf(),
        ensures
            final(self).wf(),
            final(self)@ == old(self)@,
            ok == nodes_fit_text(nodes@, bytes_of(old(self)@.text)),
            ok ==> final(self).content_spec().syntax() == Some(nodes@),
            !ok ==> final(self).content_spec().syntax() == old(self).content_spec().syntax(),
    {
        let ok = self.content.set_syntax(nodes);
        ok
    }

    /// Take `nodes`, the parse of the text after an edit, and end the edit as
    /// every edit ends: with the ordered lists renumbered so that their items
    /// count 1, 2, 3, ... When nothing needs renumbering the parse is
    /// installed; when something does, the text changes (see `renumbered`)
    /// and the parse, which no longer fits it, is dropped. Nodes that do not
    /// fit the text are refused and nothing changes. Returns whether the text
    /// was renumbered.
    pub fn reparse(&mut self, nodes: Vec<SyntaxNode>) -> (changed: bool)
        requires
            old(self).wf(),
        ensures
            final(self).wf(),
            !nodes_fit_text(nodes@, bytes_of(old(self)@.text)) ==> !changed && final(self)@ == old(
                self,
            )@ && final(self).content_spec().syntax() == old(self).content_spec().syntax(),
            nodes_fit_text(nodes@, bytes_of(old(self)@.text)) ==> {
                let cs = list_corrections(nodes@, nodes@.len() as int, old(self)@.text);
                &&& changed == (nodes@.len() < usize::MAX && cs.len() > 0)
                &&& changed ==> final(self)@ == renumbered(
                    old(self)@,
                    apply_corrections(old(self)@.text, cs, cs.len() as int),
                ) && final(self).content_spec().syntax() == None::<Seq<SyntaxNode>>
                &&& !changed ==> final(self)@ == old(self)@ && final(self).content_spec().syntax()
                    == Some(nodes@)
            },
    {
        let ghost h = self@;
        let p = self.content.text();
        if !self.content.set_syntax(nodes) {
            return false;
        }
        let changed = self.content.normalize_ordered_lists();
        if !changed {
            return false;
        }
        let r = self.content.text();
        let ghost t = r@;
        if self.index > 0 {
            let i = self.index - 1;
            proof {
                assert(edit_step(h.states[i as int], h.edits[i as int], h.states[i + 1]));
                lemma_edit_inverse(h.states[i as int], h.edits[i as int], h.states[i + 1]);
            }
            let e = &self.history[i];
            assert(e@ == h.edits[i as int]);
            let mut scratch = BufferContent::from_text(p.as_str());
            scratch.apply_edit(e.offset, e.inserted.as_str(), e.deleted.as_str());
            let before = scratch.text();
            let widened = TextEdit {
                offset: 0,
                deleted: before,
                inserted: r,
                cursor_before: e.cursor_before,
                cursor_after: e.cursor_after,
            };
            self.history.truncate(i);
            self.history.push(widened);
        } else {
            self.history.truncate(0);
        }
        if let Some(s) = self.saved {
            if s >= self.index {
                self.saved = None;
            }
        }
        proof {
            self.states@ = h.states.take(h.index).push(t);
            let n = self@;
            if h.index > 0 {
                let b = h.states[h.index - 1];
                assert(n.edits =~= h.edits.take(h.index - 1).push(amended(h.edits[h.index - 1], b, t)));
                law_undo_takes_back_renumbering(h, t);
            } else {
                assert(n.edits =~= Seq::<EditV>::empty());
            }
            assert(n == renumbered(h, t));
        }
        true
    }

    pub fn is_dirty(&self) -> (d: bool)
        ensures
            d == dirty(self@),
    {
        match self.saved {
            Some(s) => s != self.index,
            None => true,
        }
    }

    /// Mark the current text as saved.
    pub fn mark_clean(&mut self)
        requires
            old(self).wf(),
        ensures
            final(self).wf(),
            final(self)@ == marked_clean(old(self)@),
            final(self).content_spec() == old(self).content_spec(),
    {
        self.saved = Some(self.index);
    }

    /// Make the edit `e`, whose effect on the text `edit_step` gives, and
    /// record it. Returns the cursor position after it.
    fn record(&mut self, e: TextEdit) -> (cursor: usize)
        requires
            old(self).wf(),
            old(self)@.index + 1 < usize::MAX,
            char_start(old(self)@.text, e@.offset),
            char_of_byte(old(self)@.text, e@.offset) + e@.deleted.len() <= old(self)@.text.len(),
            old(self)@.text.subrange(
                char_of_byte(old(self)@.text, e@.offset),
                char_of_byte(old(self)@.text, e@.offset) + e@.deleted.len(),
            ) == e@.deleted,
        ensures
            final(self).wf(),
            cursor == e@.cursor_after,
            final(self)@ == record_edit(
                old(self)@,
                e@,
                edit_chars(old(self)@.text, e@.offset, byte_len(e@.deleted), e@.inserted),
            ),
            final(self).content_spec().syntax() == None::<Seq<SyntaxNode>>,
    {
        let ghost h = self@;
        let ghost cs = h.text;
        let ghost k = char_of_byte(cs, e@.offset);
        let ghost after = cs.take(k) + e@.inserted + cs.skip(k + e@.deleted.len());
        proof {
            lemma_char_of_byte_bounds(cs, e@.offset);
            assert(edit_step(cs, e@, after));
            lemma_edit_inverse(cs, e@, after);
            lemma_edit_at(cs, k, e@.deleted.len() as int, e@.inserted);
        }
        self.content.apply_edit(e.offset, e.deleted.as_str(), e.inserted.as_str());
        let cursor = e.cursor_after;
        self.history.truncate(self.index);
        self.history.push(e);
        if let Some(s) = self.saved {
            if s > self.index {
                self.saved = None;
            }
        }
        self.index = self.index + 1;
        proof {
            self.states@ = h.states.take(h.index + 1).push(after);
            let n = self@;
            assert(n.edits =~= h.edits.take(h.index).push(e@));
            assert forall|i: int| 0 <= i < n.edits.len() implies edit_step(
                n.states[i],
                #[trigger] n.edits[i],
                n.states[i + 1],
            ) by {
                if i < h.index {
                    assert(n.states[i] == h.states[i]);
                    assert(n.states[i + 1] == h.states[i + 1]);
                    assert(n.edits[i] == h.edits[i]);
                }
            }
        }
        cursor
    }

    /// Insert `text` at byte `byte_offset`, a char boundary. Returns the
    /// cursor position after the insertion: the end of the inserted text.
    /// The parse of the new text, handed to `reparse`, ends the edit with its
    /// ordered lists renumbered.
    pub fn insert(&mut self, byte_offset: usize, text: &str, cursor_before: usize) -> (cursor: usize)
        requires
            old(self).wf(),
            old(self)@.index + 1 < usize::MAX,
            char_start(old(self)@.text, byte_offset as int),
            byte_len(old(self)@.text) + byte_len(text@) < usize::MAX,
        ensures
            final(self).wf(),
            cursor == byte_offset + byte_len(text@),
            final(self)@ == record_edit(
                old(self)@,
                EditV {
                    offset: byte_offset as int,
                    deleted: Seq::empty(),
                    inserted: text@,
                    cursor_before: cursor_before as int,
                    cursor_after: cursor as int,
                },
                edit_chars(old(self)@.text, byte_offset as int, 0, text@),
            ),
            final(self).content_spec().syntax() == None::<Seq<SyntaxNode>>,
    {
        let ghost cs = self@.text;
        let ghost k = char_of_byte(cs, byte_offset as int);
        proof {
            lemma_char_of_byte_bounds(cs, byte_offset as int);
            lemma_edit_at(cs, k, 0, text@);
            assert(cs.subrange(k, k) =~= Seq::<char>::empty());
            assert(bytes_of(Seq::<char>::empty()) =~= Seq::<u8>::empty());
            assert(cs.take(k) + text@ + cs.skip(k) =~= (cs.take(k) + text@) + cs.skip(k));
            lemma_bytes_concat(cs.take(k) + text@, cs.skip(k));
            lemma_bytes_concat(cs.take(k), text@);
            assert(cs =~= cs.take(k) + cs.skip(k));
            lemma_bytes_concat(cs.take(k), cs.skip(k));
        }
        let cursor_after = byte_offset + text.as_bytes().len();
        let edit = TextEdit::new(byte_offset, String::new(), text.to_string(), cursor_before, cursor_after);
        self.record(edit)
    }

    /// Delete the bytes of `byte_range`, whose ends are char boundaries.
    /// Returns the cursor position after the deletion: the range's start.
    /// The parse of the new text, handed to `reparse`, ends the edit with its
    /// ordered lists renumbered.
    pub fn delete(&mut self, byte_range: Range<usize>, cursor_before: usize) -> (cursor: usize)
        requires
            old(self).wf(),
            old(self)@.index + 1 < usize::MAX,
            byte_range.start <= byte_range.end,
            char_start(old(self)@.text, byte_range.start as int),
            char_start(old(self)@.text, byte_range.end as int),
        ensures
            final(self).wf(),
            cursor == byte_range.start,
            final(self)@ == record_edit(
                old(self)@,
                EditV {
                    offset: byte_range.start as int,
                    deleted: chars_of_bytes(
                        old(self)@.text,
                        byte_range.start as int,
                        byte_range.end as int,
                    ),
                    inserted: Seq::empty(),
                    cursor_before: cursor_before as int,
                    cursor_after: byte_range.start as int,
                },
                edit_chars(
                    old(self)@.text,
                    byte_range.start as int,
                    byte_range.end - byte_range.start,
                    Seq::empty(),
                ),
            ),
            final(self).content_spec().syntax() == None::<Seq<SyntaxNode>>,
    {
        let ghost cs = self@.text;
        let ghost a = char_of_byte(cs, byte_range.start as int);
        let ghost b = char_of_byte(cs, byte_range.end as int);
        proof {
            lemma_char_of_byte_mono(cs, byte_range.start as int, byte_range.end as int);
            lemma_char_of_byte_bounds(cs, byte_range.start as int);
            lemma_char_of_byte_bounds(cs, byte_range.end as int);
            lemma_edit_at(cs, a, b - a, Seq::empty());
            lemma_len_le_byte_len(Seq::<char>::empty());
        }
        let deleted = self.content.slice(byte_range.start..byte_range.end);
        let edit = TextEdit::new(byte_range.start, deleted, String::new(), cursor_before, byte_range.start);
        proof {
            assert(edit@.inserted =~= Seq::<char>::empty());
        }
        self.record(edit)
    }

    /// Replace the bytes of `byte_range`, whose ends are char boundaries, by
    /// `text`. Returns the cursor position after it: the end of `text`.
    /// The parse of the new text, handed to `reparse`, ends the edit with its
    /// ordered lists renumbered.
    pub fn replace(&mut self, byte_range: Range<usize>, text: &str, cursor_before: usize) -> (cursor: usize)
        requires
            old(self).wf(),
            old(self)@.index + 1 < usize::MAX,
            byte_range.start <= byte_range.end,
            char_start(old(self)@.text, byte_range.start as int),
            char_start(old(self)@.text, byte_range.end as int),
            byte_len(old(self)@.text) + byte_len(text@) < usize::MAX,
        ensures
            final(self).wf(),
            cursor == byte_range.start + byte_len(text@),
            final(self)@ == record_edit(
                old(self)@,
                EditV {
                    offset: byte_range.start as int,
                    deleted: chars_of_bytes(
                        old(self)@.text,
                        byte_range.start as int,
                        byte_range.end as int,
                    ),
                    inserted: text@,
                    cursor_before: cursor_before as int,
                    cursor_after: cursor as int,
                },
                edit_chars(
                    old(self)@.text,
                    byte_range.start as int,
                    byte_range.end - byte_range.start,
                    text@,
                ),
            ),
            final(self).content_spec().syntax() == None::<Seq<SyntaxNode>>,
    {
        let ghost cs = self@.text;
        let ghost a = char_of_byte(cs, byte_range.start as int);
        let ghost b = char_of_byte(cs, byte_range.end as int);
        proof {
            lemma_char_of_byte_mono(cs, byte_range.start as int, byte_range.end as int);
            lemma_char_of_byte_bounds(cs, byte_range.start as int);
            lemma_char_of_byte_bounds(cs, byte_range.end as int);
            lemma_edit_at(cs, a, b - a, text@);
            lemma_len_le_byte_len(cs.subrange(a, b));
        }
        let deleted = self.content.slice(byte_range.start..byte_range.end);
        let cursor_after = byte_range.start + text.as_bytes().len();
        let edit = TextEdit::new(byte_range.start, deleted, text.to_string(), cursor_before, cursor_after);
        self.record(edit)
    }

    /// Undo the last edit in effect, if there is one. Returns the cursor
    /// position from before that edit.
    pub fn undo(&mut self) -> (cursor: Option<usize>)
        requires
            old(self).wf(),
        ensures
            final(self).wf(),
            old(self)@.index == 0 ==> cursor is None && final(self)@ == old(self)@,
            old(self)@.index > 0 ==> cursor == Some(
                old(self)@.edits[old(self)@.index - 1].cursor_before as usize,
            ) && final(self)@ == undone(old(self)@),
    {
        if self.index == 0 {
            return None;
        }
        let ghost h = self@;
        let i = self.index - 1;
        proof {
            assert(edit_step(h.states[i as int], h.edits[i as int], h.states[i + 1]));
            lemma_edit_inverse(h.states[i as int], h.edits[i as int], h.states[i + 1]);
            assert(h.states[i as int] == h.states[i as int]);
        }
        let e = &self.history[i];
        assert(e@ == h.edits[i as int]);
        self.content.apply_edit(e.offset, e.inserted.as_str(), e.deleted.as_str());
        let cursor = e.cursor_before;
        self.index = i;
        proof {
            assert(self@.edits =~= h.edits);
        }
        Some(cursor)
    }

    /// Redo the first undone edit, if there is one. Returns the cursor
    /// position from after that edit.
    pub fn redo(&mut self) -> (cursor: Option<usize>)
        requires
            old(self).wf(),
        ensures
            final(self).wf(),
            old(self)@.index == old(self)@.edits.len() ==> cursor is None && final(self)@ == old(
                self,
            )@,
            old(self)@.index < old(self)@.edits.len() ==> cursor == Some(
                old(self)@.edits[old(self)@.index].cursor_after as usize,
            ) && final(self)@ == redone(old(self)@),
    {
        if self.index >= self.history.len() {
            return None;
        }
        let ghost h = self@;
        let i = self.index;
        proof {
            assert(edit_step(h.states[i as int], h.edits[i as int], h.states[i + 1]));
            lemma_edit_inverse(h.states[i as int], h.edits[i as int], h.states[i + 1]);
        }
        let e = &self.history[i];
        assert(e@ == h.edits[i as int]);
        self.content.apply_edit(e.offset, e.deleted.as_str(), e.inserted.as_str());
        let cursor = e.cursor_after;
        self.index = i + 1;
        proof {
            assert(self@.edits =~= h.edits);
        }
        Some(cursor)
    }

    pub fn can_undo(&self) -> (b: bool)
        ensures
            b == (self@.index > 0),
    {
        self.index > 0
    }

    pub fn can_redo(&self) -> (b: bool)
        requires
            self.wf(),
        ensures
            b == (self@.index < self@.edits.len()),
    {
        self.index < self.history.len()
    }
}

impl Default for BufferContent {
    fn default() -> (b: Self)
        ensures
            b.wf(),
            b@ == Seq::<char>::empty(),
            b.syntax() == None::<Seq<SyntaxNode>>,
    {
        Self::new()
    }
}

impl Default for Buffer {
    fn default() -> (b: Self)
        ensures
            b.wf(),
            b@.text == Seq::<char>::empty(),
            b@.edits.len() == 0,
            b@.index == 0,
            b@.saved == Some(0int),
    {
        Self::new()
    }
}

impl std::str::FromStr for Buffer {
    type Err = std::convert::Infallible;

    fn from_str(s: &str) -> (r: Result<Self, Self::Err>)
        ensures
            r matches Ok(b) && b.wf() && b@.text == s@ && b@.edits.len() == 0 && b@.index == 0
                && b@.saved == Some(0int),
    {
        Ok(Buffer::from_text(s))
    }
}

impl std::ops::Deref for Buffer {
    type Target = BufferContent;

    fn deref(&self) -> (c: &BufferContent)
        ensures
            *c == self.content_spec(),
    {
        &self.content
    }
}

impl Buffer {
    /// A well-formed buffer's history is consistent.
    pub proof fn lemma_history_ok(&self)
        requires
            self.wf(),
        ensures
            history_ok(self@),
            self.content_spec().wf(),
            self.content_spec()@ == self@.text,
    {
    }
}

/// Undoing an edit gives back the text from before it, at the position from
/// before it.
pub proof fn law_undo_after_edit(h: BufferV, e: EditV, t: Seq<char>)
    requires
        history_ok(h),
    ensures
        undone(record_edit(h, e, t)).text == h.text,
        undone(record_edit(h, e, t)).index == h.index,
{
}

/// Redoing an undone edit gives back the history from before the undo.
pub proof fn law_redo_after_undo(h: BufferV)
    requires
        history_ok(h),
        h.index > 0,
    ensures
        history_ok(undone(h)),
        redone(undone(h)) == h,
{
    assert(redone(undone(h)).text == h.states[h.index]);
}

/// Undoing a redone edit gives back the history from before the redo.
pub proof fn law_undo_after_redo(h: BufferV)
    requires
        history_ok(h),
        h.index < h.edits.len(),
    ensures
        history_ok(redone(h)),
        undone(redone(h)) == h,
{
}

/// An edit leaves the buffer dirty and nothing to redo.
pub proof fn law_edit_is_dirty(h: BufferV, e: EditV, t: Seq<char>)
    requires
        history_ok(h),
    ensures
        dirty(record_edit(h, e, t)),
        record_edit(h, e, t).index == record_edit(h, e, t).edits.len(),
{
}

/// Marking the buffer clean makes it not dirty.
pub proof fn law_mark_clean(h: BufferV)
    ensures
        !dirty(marked_clean(h)),
{
}

/// An edit made after undoing past the save point drops the save point; from
/// then on no undo or redo makes the buffer clean.
pub proof fn law_save_point_dropped(h: BufferV, e: EditV, t: Seq<char>)
    requires
        h.saved matches Some(s) && s > h.index,
    ensures
        record_edit(h, e, t).saved is None,
        dirty(record_edit(h, e, t)),
        undone(record_edit(h, e, t)).saved is None,
        redone(record_edit(h, e, t)).saved is None,
{
}

/// Undo and redo never move the save point, and a buffer without one is dirty.
pub proof fn law_no_save_point(h: BufferV)
    requires
        h.saved is None,
    ensures
        dirty(h),
        undone(h).saved is None,
        redone(h).saved is None,
{
}

/// Renumbering keeps the history consistent; undoing then takes back the
/// edit and the renumbering together, giving the text from before the edit,
/// and redoing gives the renumbered text again. A renumbered text is dirty.
pub proof fn law_undo_takes_back_renumbering(h: BufferV, t: Seq<char>)
    requires
        history_ok(h),
        h.index > 0,
    ensures
        history_ok(renumbered(h, t)),
        undone(renumbered(h, t)).text == h.states[h.index - 1],
        redone(undone(renumbered(h, t))).text == t,
        dirty(renumbered(h, t)),
{
    let n = renumbered(h, t);
    let b = h.states[h.index - 1];
    assert(char_of_byte(b, 0) == 0);
    assert(b.take(0) =~= Seq::<char>::empty());
    assert(bytes_of(b.take(0)) =~= Seq::<u8>::empty());
    assert(b.subrange(0, b.len() as int) =~= b);
    assert(t =~= b.take(0) + t + b.skip(b.len() as int));
    assert forall|j: int| 0 <= j < n.edits.len() implies edit_step(
        n.states[j],
        #[trigger] n.edits[j],
        n.states[j + 1],
    ) by {
        if j < h.index - 1 {
            assert(n.states[j] == h.states[j]);
            assert(n.states[j + 1] == h.states[j + 1]);
            assert(n.edits[j] == h.edits[j]);
        }
    }
}

} // verus!
