//! Cursor positions and selections, as byte offsets into the buffer.

use std::ops::Range;
use vstd::prelude::*;

use crate::buffer::{line_end_byte, line_of, line_start_byte, Buffer};
use crate::marker::LineMarkers;
use crate::text::{char_is_alphanumeric, is_alphanumeric};
use crate::rope::{
    byte_len, char_of_byte, lemma_byte_len_mono, lemma_char_of_byte_bounds, lemma_char_of_byte_mono,
    lemma_line_starts_ordered,
    lemma_len_le_byte_len, lemma_line_start_before, lemma_line_start_bounds,
    lemma_newline_count_bounds, lemma_newline_count_prefix, line_start_char, newline_count,
    rope_byte_to_char,
    rope_char, rope_char_to_byte, rope_chars, rope_len_chars,
};

verus! {

/// A cursor: a byte offset into the buffer.
#[derive(Debug, Clone, Copy, PartialEq, Eq, Structural)]
pub struct Cursor {
    pub offset: usize,
}

impl Default for Cursor {
    fn default() -> (c: Self)
        ensures
            c.offset == 0,
    {
        Cursor { offset: 0 }
    }
}

impl Cursor {
    pub fn new(offset: usize) -> (c: Self)
        ensures
            c.offset == offset,
    {
        Self { offset }
    }

    pub fn start() -> (c: Self)
        ensures
            c.offset == 0,
    {
        Self { offset: 0 }
    }

    pub fn move_to_start(&self) -> (c: Self)
        ensures
            c.offset == 0,
    {
        Self::start()
    }
}

/// A selection: the anchor stays put while the head moves.
#[derive(Debug, Clone, Copy, PartialEq, Eq, Structural)]
pub struct Selection {
    pub anchor: usize,
    pub head: usize,
}

impl Selection {
    /// The lower end of the selected range.
    pub open spec fn lo(&self) -> usize {
        if self.anchor <= self.head {
            self.anchor
        } else {
            self.head
        }
    }

    /// The upper end of the selected range.
    pub open spec fn hi(&self) -> usize {
        if self.anchor <= self.head {
            self.head
        } else {
            self.anchor
        }
    }

    pub fn new(anchor: usize, head: usize) -> (s: Self)
        ensures
            s.anchor == anchor,
            s.head == head,
    {
        Self { anchor, head }
    }

    pub fn from_cursor(cursor: Cursor) -> (s: Self)
        ensures
            s.anchor == cursor.offset,
            s.head == cursor.offset,
    {
        Self { anchor: cursor.offset, head: cursor.offset }
    }

    pub fn is_collapsed(&self) -> (b: bool)
        ensures
            b == (self.anchor == self.head),
    {
        self.anchor == self.head
    }

    pub fn cursor(&self) -> (c: Cursor)
        ensures
            c.offset == self.head,
    {
        Cursor::new(self.head)
    }

    /// The selected byte range, low end first.
    pub fn range(&self) -> (r: Range<usize>)
        ensures
            r.start == self.lo(),
            r.end == self.hi(),
    {
        if self.anchor <= self.head {
            self.anchor..self.head
        } else {
            self.head..self.anchor
        }
    }

    pub fn extend_to(&self, new_head: usize) -> (s: Self)
        ensures
            s.anchor == self.anchor,
            s.head == new_head,
    {
        Self { anchor: self.anchor, head: new_head }
    }

    pub fn collapse(&self) -> (s: Self)
        ensures
            s.anchor == self.head,
            s.head == self.head,
    {
        Self { anchor: self.head, head: self.head }
    }

    pub fn collapse_to_start(&self) -> (s: Self)
        ensures
            s.anchor == self.lo(),
            s.head == self.lo(),
    {
        let start = self.range().start;
        Self { anchor: start, head: start }
    }

    pub fn collapse_to_end(&self) -> (s: Self)
        ensures
            s.anchor == self.hi(),
            s.head == self.hi(),
    {
        let end = self.range().end;
        Self { anchor: end, head: end }
    }
}

/// `x - 1`, or 0.
pub open spec fn sat_dec(x: int) -> int {
    if x >= 1 {
        x - 1
    } else {
        0
    }
}

/// The smaller of `a` and `b`.
pub open spec fn min_int(a: int, b: int) -> int {
    if a <= b {
        a
    } else {
        b
    }
}

/// Index of the first of `ms[i..]` that ends at `x`.
pub open spec fn first_marker_ending(ms: Seq<crate::marker::Marker>, x: int, i: int) -> Option<int>
    decreases ms.len() - i,
{
    if i < 0 || i >= ms.len() {
        None
    } else if ms[i].range.end == x {
        Some(i)
    } else {
        first_marker_ending(ms, x, i + 1)
    }
}

/// Index of the last of `ms[..n]` that starts at `x`.
pub open spec fn last_marker_starting(ms: Seq<crate::marker::Marker>, x: int, n: int) -> Option<int>
    decreases n,
{
    if n <= 0 || n > ms.len() {
        None
    } else if ms[n - 1].range.start == x {
        Some(n - 1)
    } else {
        last_marker_starting(ms, x, n - 1)
    }
}

/// Where moving left from `off` stops because of line `l`'s markers or start, if it does.
pub open spec fn left_stop(t: Seq<char>, line: LineMarkers, l: int, off: int) -> Option<int> {
    match first_marker_ending(line.markers@, off, 0) {
        Some(i) => Some(line.markers@[i].range.start as int),
        None => if off == line.range.start {
            Some(
                if l > 0 {
                    sat_dec(line_end_byte(t, l - 1))
                } else {
                    off
                },
            )
        } else {
            None
        },
    }
}

/// Where the cursor goes when moved left from `off`: over a whole marker that
/// ends there, from a line start to the end of the line before, else back one char.
pub open spec fn move_left_spec(t: Seq<char>, lines: Seq<LineMarkers>, off: int) -> int {
    if off == 0 {
        0
    } else {
        let l = line_of(t, off);
        let stop = if 0 <= l < lines.len() {
            left_stop(t, lines[l], l, off)
        } else {
            None
        };
        match stop {
            Some(x) => x,
            None => {
                let c = char_of_byte(t, off);
                if c == 0 {
                    off
                } else {
                    byte_len(t.take(c - 1))
                }
            },
        }
    }
}

/// Where the cursor goes when moved right from `off`: over a whole marker
/// that starts there, else forward one char.
pub open spec fn move_right_spec(t: Seq<char>, lines: Seq<LineMarkers>, off: int) -> int {
    if off >= byte_len(t) {
        off
    } else {
        let l = line_of(t, off);
        let stop = if 0 <= l < lines.len() {
            match last_marker_starting(lines[l].markers@, off, lines[l].markers@.len() as int) {
                Some(i) => Some(lines[l].markers@[i].range.end as int),
                None => None,
            }
        } else {
            None
        };
        match stop {
            Some(x) => x,
            None => {
                let c = char_of_byte(t, off);
                if c >= t.len() {
                    off
                } else {
                    byte_len(t.take(c + 1))
                }
            },
        }
    }
}

/// Where the cursor goes when moved up from `off`: the same column of the
/// line above, or that line's end if it is shorter; the start from the first line.
pub open spec fn move_up_spec(t: Seq<char>, off: int) -> int {
    let l = line_of(t, off);
    if l == 0 {
        0
    } else {
        let column = off - line_start_byte(t, l);
        let start = line_start_byte(t, l - 1);
        let end = line_end_byte(t, l - 1);
        let len = sat_dec(if end >= start { end - start } else { 0 });
        start + min_int(column, len)
    }
}

/// Where the cursor goes when moved down from `off`: the same column of the
/// line below, or that line's end if it is shorter; the end from the last line.
pub open spec fn move_down_spec(t: Seq<char>, off: int) -> int {
    let l = line_of(t, off);
    let count = newline_count(t) + 1;
    if l >= count - 1 {
        byte_len(t)
    } else {
        let column = off - line_start_byte(t, l);
        let start = line_start_byte(t, l + 1);
        let end = line_end_byte(t, l + 1);
        let span = if end >= start { end - start } else { 0 };
        let len = if l + 2 >= count { span } else { sat_dec(span) };
        start + min_int(column, len)
    }
}

/// The end of the line that byte `off` is on, before its line break.
pub open spec fn line_end_spec(t: Seq<char>, off: int) -> int {
    let l = line_of(t, off);
    if l + 1 >= newline_count(t) + 1 {
        line_end_byte(t, l)
    } else {
        sat_dec(line_end_byte(t, l))
    }
}

/// Facts about the line of a byte that the cursor moves rely on.
pub proof fn lemma_line_of(t: Seq<char>, off: int)
    requires
        0 <= off <= byte_len(t),
    ensures
        0 <= line_of(t, off) <= newline_count(t),
        line_start_byte(t, line_of(t, off)) <= off,
        0 <= char_of_byte(t, off) <= t.len(),
{
    let c = char_of_byte(t, off);
    lemma_char_of_byte_bounds(t, off);
    lemma_newline_count_prefix(t, c);
    lemma_newline_count_bounds(t.take(c));
    lemma_line_start_before(t, c);
    lemma_line_start_bounds(t, line_of(t, off));
    lemma_byte_len_mono(t, line_start_char(t, line_of(t, off)), c);
}

/// The chars before where line `l` starts hold `l` line breaks, and the
/// char just before it (for a line after the first) is a line break.
proof fn lemma_line_start_count(s: Seq<char>, l: int)
    requires
        0 <= l <= newline_count(s),
    ensures
        newline_count(s.take(line_start_char(s, l))) == l,
        l >= 1 ==> line_start_char(s, l) >= 1 && s[line_start_char(s, l) - 1] == '\n',
    decreases s.len(),
{
    lemma_line_start_bounds(s, l);
    if l <= 0 {
        assert(s.take(0) =~= Seq::<char>::empty());
    } else {
        let t = s.drop_last();
        if newline_count(t) >= l {
            lemma_line_start_count(t, l);
            lemma_line_start_bounds(t, l);
            assert(s.take(line_start_char(t, l)) =~= t.take(line_start_char(t, l)));
        } else {
            assert(s.take(s.len() as int) =~= s);
        }
    }
}

/// Line breaks in a prefix never decrease as the prefix grows, and one
/// more char adds one exactly when it is a line break.
proof fn lemma_newline_count_take(s: Seq<char>, a: int, b: int)
    requires
        0 <= a <= b <= s.len(),
    ensures
        newline_count(s.take(a)) <= newline_count(s.take(b)),
        b >= 1 ==> newline_count(s.take(b)) == newline_count(s.take(b - 1)) + if s[b - 1] == '\n' {
            1int
        } else {
            0
        },
{
    assert(s.take(b).take(a) =~= s.take(a));
    lemma_newline_count_prefix(s.take(b), a);
    if b >= 1 {
        assert(s.take(b).drop_last() =~= s.take(b - 1));
    }
}

/// The chars from where line `l` starts up to (and including) the line
/// break that ends it are on line `l`.
proof fn lemma_on_line(s: Seq<char>, l: int, c: int)
    requires
        0 <= l <= newline_count(s),
        line_start_char(s, l) <= c <= s.len(),
        l < newline_count(s) ==> c < line_start_char(s, l + 1),
    ensures
        newline_count(s.take(c)) == l,
{
    lemma_line_start_count(s, l);
    lemma_line_start_bounds(s, l);
    lemma_newline_count_take(s, line_start_char(s, l), c);
    if l < newline_count(s) {
        lemma_line_start_count(s, l + 1);
        lemma_line_start_bounds(s, l + 1);
        let e = line_start_char(s, l + 1);
        lemma_newline_count_take(s, c, e - 1);
        lemma_newline_count_take(s, e - 1, e);
    } else {
        assert(s.take(s.len() as int) =~= s);
        lemma_newline_count_take(s, c, s.len() as int);
    }
}

/// A byte before the start of char `k` belongs to a char before `k`.
proof fn lemma_char_before(t: Seq<char>, x: int, k: int)
    requires
        0 <= x,
        0 <= k <= t.len(),
        x < byte_len(t.take(k)),
    ensures
        char_of_byte(t, x) < k,
{
    lemma_char_of_byte_bounds(t, x);
    if char_of_byte(t, x) >= k {
        lemma_byte_len_mono(t, k, char_of_byte(t, x));
    }
}

/// Moving up from a line that is not the first lands on the line before, no
/// further right than the column it left and before that line's break; it
/// keeps the column unless the line is too short, then it stops at the
/// line's end. From the first line it goes to the start of the text.
pub proof fn law_move_up_previous_line(t: Seq<char>, off: int)
    requires
        0 <= off <= byte_len(t),
    ensures
        ({
            let l = line_of(t, off);
            let r = move_up_spec(t, off);
            let start = line_start_byte(t, l - 1);
            let column = off - line_start_byte(t, l);
            let vis_end = line_end_byte(t, l - 1) - 1;
            l > 0 ==> {
                &&& line_of(t, r) == l - 1
                &&& start <= r <= vis_end
                &&& r - start <= column
                &&& (r - start == column || r == vis_end)
                &&& t[char_of_byte(t, vis_end)] == '\n'
            }
        }),
        line_of(t, off) == 0 ==> move_up_spec(t, off) == 0,
{
    let l = line_of(t, off);
    lemma_line_of(t, off);
    lemma_newline_count_bounds(t);
    if l > 0 {
        let r = move_up_spec(t, off);
        let ls1 = line_start_char(t, l - 1);
        let ls2 = line_start_char(t, l);
        let start = line_start_byte(t, l - 1);
        let end = line_end_byte(t, l - 1);
        lemma_line_start_bounds(t, l - 1);
        lemma_line_start_bounds(t, l);
        lemma_line_start_count(t, l - 1);
        lemma_line_start_count(t, l);
        crate::rope::lemma_char_of_char_start(t, ls1);
        if ls2 - 1 < ls1 {
            lemma_newline_count_take(t, ls2, ls1);
        }
        lemma_byte_len_mono(t, ls1, ls2 - 1);
        crate::rope::lemma_byte_len_take(t, ls2 - 1);
        crate::rope::lemma_char_width(t[ls2 - 1]);
        crate::text::lemma_ascii_char_bytes('\n');
        assert(seq![t[ls2 - 1]] == seq!['\n']);
        assert(end == byte_len(t.take(ls2)));
        assert(end - 1 == byte_len(t.take(ls2 - 1)));
        crate::rope::lemma_char_of_char_start(t, ls2 - 1);
        lemma_char_of_byte_mono(t, start, r);
        lemma_char_of_byte_bounds(t, r);
        lemma_char_before(t, r, ls2);
        lemma_on_line(t, l - 1, char_of_byte(t, r));
    }
}

/// Moving down from a line that is not the last lands on the next line, no
/// further right than the column it left, and before that line's break (or
/// at the text's end on the last line); it keeps the column unless the line
/// is too short, then it stops at the line's end. From the last line it goes
/// to the end of the text.
pub proof fn law_move_down_next_line(t: Seq<char>, off: int)
    requires
        0 <= off <= byte_len(t),
    ensures
        ({
            let l = line_of(t, off);
            let r = move_down_spec(t, off);
            let start = line_start_byte(t, l + 1);
            let column = off - line_start_byte(t, l);
            let last = l + 1 == newline_count(t);
            let vis_end = if last {
                byte_len(t)
            } else {
                line_end_byte(t, l + 1) - 1
            };
            l < newline_count(t) ==> {
                &&& line_of(t, r) == l + 1
                &&& start <= r <= vis_end
                &&& r - start <= column
                &&& (r - start == column || r == vis_end)
                &&& !last ==> t[char_of_byte(t, vis_end)] == '\n'
            }
        }),
        line_of(t, off) == newline_count(t) ==> move_down_spec(t, off) == byte_len(t),
{
    let l = line_of(t, off);
    lemma_line_of(t, off);
    lemma_newline_count_bounds(t);
    if l < newline_count(t) {
        let r = move_down_spec(t, off);
        let ls1 = line_start_char(t, l + 1);
        let start = line_start_byte(t, l + 1);
        let end = line_end_byte(t, l + 1);
        lemma_line_start_bounds(t, l + 1);
        lemma_line_start_count(t, l + 1);
        lemma_line_starts_ordered(t, l);
        crate::rope::lemma_char_of_char_start(t, ls1);
        assert(t.take(t.len() as int) =~= t);
        // the column is never negative
        assert(line_start_byte(t, l) <= off);
        lemma_char_of_byte_mono(t, start, r);
        lemma_char_of_byte_bounds(t, r);
        if l + 1 < newline_count(t) {
            let ls2 = line_start_char(t, l + 2);
            lemma_line_start_bounds(t, l + 2);
            lemma_line_start_count(t, l + 2);
            // the line's break comes after its start
            if ls2 - 1 < ls1 {
                lemma_newline_count_take(t, ls2, ls1);
            }
            lemma_byte_len_mono(t, ls1, ls2 - 1);
            crate::rope::lemma_byte_len_take(t, ls2 - 1);
            crate::rope::lemma_char_width(t[ls2 - 1]);
            crate::text::lemma_ascii_char_bytes('\n');
            assert(seq![t[ls2 - 1]] == seq!['\n']);
            assert(end == byte_len(t.take(ls2)));
            assert(end - 1 == byte_len(t.take(ls2 - 1)));
            crate::rope::lemma_char_of_char_start(t, ls2 - 1);
            lemma_char_before(t, r, ls2);
            lemma_on_line(t, l + 1, char_of_byte(t, r));
        } else {
            lemma_byte_len_mono(t, ls1, t.len() as int);
            lemma_on_line(t, l + 1, char_of_byte(t, r));
        }
    }
}

/// Facts about a line's byte range.
pub proof fn lemma_line_range(t: Seq<char>, l: int)
    requires
        0 <= l <= newline_count(t),
    ensures
        0 <= line_start_byte(t, l) <= byte_len(t),
        0 <= line_end_byte(t, l) <= byte_len(t),
{
    lemma_line_start_bounds(t, l);
    lemma_line_start_bounds(t, l + 1);
    assert(t.take(t.len() as int) =~= t);
    lemma_byte_len_mono(t, line_start_char(t, l), t.len() as int);
    lemma_byte_len_mono(t, line_start_char(t, l + 1), t.len() as int);
}

impl Cursor {
    pub fn end(buffer: &Buffer) -> (c: Self)
        requires
            buffer.wf(),
        ensures
            c.offset == byte_len(buffer@.text),
    {
        proof {
            buffer.lemma_history_ok();
        }
        Self { offset: buffer.content().len_bytes() }
    }

    pub fn clamp(&self, buffer: &Buffer) -> (c: Self)
        requires
            buffer.wf(),
        ensures
            c.offset == min_int(self.offset as int, byte_len(buffer@.text)),
    {
        proof {
            buffer.lemma_history_ok();
        }
        let len = buffer.content().len_bytes();
        Self { offset: if self.offset <= len { self.offset } else { len } }
    }

    /// Move cursor left. Markers are atomic - cursor jumps over entire marker.
    /// Blank lines are not skipped.
    pub fn move_left(&self, buffer: &Buffer) -> (c: Self)
        requires
            buffer.wf(),
            self.offset <= byte_len(buffer@.text),
        ensures
            c.offset == move_left_spec(
                buffer@.text,
                buffer.content_spec().line_list(),
                self.offset as int,
            ),
    {
        proof {
            buffer.lemma_history_ok();
        }
        if self.offset == 0 {
            return *self;
        }
        let content = buffer.content();
        let ghost t = content@;
        proof {
            lemma_line_of(t, self.offset as int);
        }
        let current_line_idx = content.byte_to_line(self.offset);
        let lines = content.lines();
        assert(lines@ == content.line_list()) by {
            content.lemma_lines();
        }
        if current_line_idx < lines.len() {
            let line = &lines[current_line_idx];
            let mut i: usize = 0;
            while i < line.markers.len()
                invariant
                    i <= line.markers@.len(),
                    self.offset != 0,
                    t == buffer@.text,
                    current_line_idx == line_of(t, self.offset as int),
                    current_line_idx < lines@.len(),
                    lines@ == buffer.content_spec().line_list(),
                    *line == lines@[current_line_idx as int],
                    first_marker_ending(line.markers@, self.offset as int, 0)
                        == first_marker_ending(line.markers@, self.offset as int, i as int),
                decreases line.markers@.len() - i,
            {
                if self.offset == line.markers[i].range.end {
                    return Self { offset: line.markers[i].range.start };
                }
                i += 1;
            }
            if self.offset == line.range.start {
                if current_line_idx > 0 {
                    let prev_line_range = content.line_byte_range(current_line_idx - 1);
                    return Self {
                        offset: if prev_line_range.end >= 1 {
                            prev_line_range.end - 1
                        } else {
                            0
                        },
                    };
                }
                return *self;
            }
        }
        let rope = content.rope();
        let char_idx = rope_byte_to_char(rope, self.offset);
        if char_idx == 0 {
            return *self;
        }
        Self { offset: rope_char_to_byte(rope, char_idx - 1) }
    }

    /// Move cursor right. Markers are atomic - cursor jumps over entire marker.
    /// Blank lines are not skipped.
    pub fn move_right(&self, buffer: &Buffer) -> (c: Self)
        requires
            buffer.wf(),
        ensures
            c.offset == move_right_spec(
                buffer@.text,
                buffer.content_spec().line_list(),
                self.offset as int,
            ),
    {
        proof {
            buffer.lemma_history_ok();
        }
        let content = buffer.content();
        let ghost t = content@;
        let len = content.len_bytes();
        if self.offset >= len {
            return *self;
        }
        proof {
            lemma_line_of(t, self.offset as int);
        }
        let current_line_idx = content.byte_to_line(self.offset);
        let lines = content.lines();
        assert(lines@ == content.line_list()) by {
            content.lemma_lines();
        }
        if current_line_idx < lines.len() {
            let line = &lines[current_line_idx];
            let mut n: usize = line.markers.len();
            while n > 0
                invariant
                    n <= line.markers@.len(),
                    self.offset < byte_len(t),
                    t == buffer@.text,
                    current_line_idx == line_of(t, self.offset as int),
                    current_line_idx < lines@.len(),
                    lines@ == buffer.content_spec().line_list(),
                    *line == lines@[current_line_idx as int],
                    last_marker_starting(line.markers@, self.offset as int, line.markers@.len() as int)
                        == last_marker_starting(line.markers@, self.offset as int, n as int),
                decreases n,
            {
                if self.offset == line.markers[n - 1].range.start {
                    return Self { offset: line.markers[n - 1].range.end };
                }
                n -= 1;
            }
        }
        let rope = content.rope();
        let char_idx = rope_byte_to_char(rope, self.offset);
        let char_count = rope_len_chars(rope);
        if char_idx >= char_count {
            return *self;
        }
        Self { offset: rope_char_to_byte(rope, char_idx + 1) }
    }

    /// Move cursor up. Blank lines are not skipped.
    pub fn move_up(&self, buffer: &Buffer) -> (c: Self)
        requires
            buffer.wf(),
            self.offset <= byte_len(buffer@.text),
        ensures
            c.offset == move_up_spec(buffer@.text, self.offset as int),
    {
        proof {
            buffer.lemma_history_ok();
        }
        let content = buffer.content();
        let ghost t = content@;
        proof {
            lemma_line_of(t, self.offset as int);
        }
        let current_line = content.byte_to_line(self.offset);
        if current_line == 0 {
            return Self::start();
        }
        let target_line = current_line - 1;
        let line_start = content.line_to_byte(current_line);
        let column = self.offset - line_start;
        let target_line_range = content.line_byte_range(target_line);
        proof {
            lemma_line_range(t, target_line as int);
        }
        let target_line_start = target_line_range.start;
        let span = if target_line_range.end >= target_line_range.start {
            target_line_range.end - target_line_range.start
        } else {
            0
        };
        let target_line_len = if span >= 1 { span - 1 } else { 0 };
        let new_column = if column <= target_line_len { column } else { target_line_len };
        Self { offset: target_line_start + new_column }
    }

    /// Move cursor down. Blank lines are not skipped.
    pub fn move_down(&self, buffer: &Buffer) -> (c: Self)
        requires
            buffer.wf(),
            self.offset <= byte_len(buffer@.text),
        ensures
            c.offset == move_down_spec(buffer@.text, self.offset as int),
    {
        proof {
            buffer.lemma_history_ok();
        }
        let content = buffer.content();
        let ghost t = content@;
        proof {
            lemma_line_of(t, self.offset as int);
            lemma_newline_count_bounds(t);
            lemma_len_le_byte_len(t);
        }
        let current_line = content.byte_to_line(self.offset);
        let line_count = content.line_count();
        if current_line >= line_count - 1 {
            return Self::end(buffer);
        }
        let target_line = current_line + 1;
        let line_start = content.line_to_byte(current_line);
        let column = self.offset - line_start;
        let target_line_range = content.line_byte_range(target_line);
        proof {
            lemma_line_range(t, target_line as int);
        }
        let target_line_start = target_line_range.start;
        let span = if target_line_range.end >= target_line_range.start {
            target_line_range.end - target_line_range.start
        } else {
            0
        };
        let is_last_line = target_line >= line_count - 1;
        let target_line_len = if is_last_line {
            span
        } else if span >= 1 {
            span - 1
        } else {
            0
        };
        let new_column = if column <= target_line_len { column } else { target_line_len };
        Self { offset: target_line_start + new_column }
    }

    pub fn move_to_line_start(&self, buffer: &Buffer) -> (c: Self)
        requires
            buffer.wf(),
            self.offset <= byte_len(buffer@.text),
        ensures
            c.offset == line_start_byte(buffer@.text, line_of(buffer@.text, self.offset as int)),
    {
        proof {
            buffer.lemma_history_ok();
        }
        let content = buffer.content();
        proof {
            lemma_line_of(content@, self.offset as int);
        }
        let current_line = content.byte_to_line(self.offset);
        Self { offset: content.line_to_byte(current_line) }
    }

    pub fn move_to_line_end(&self, buffer: &Buffer) -> (c: Self)
        requires
            buffer.wf(),
            self.offset <= byte_len(buffer@.text),
        ensures
            c.offset == line_end_spec(buffer@.text, self.offset as int),
    {
        proof {
            buffer.lemma_history_ok();
        }
        let content = buffer.content();
        let ghost t = content@;
        proof {
            lemma_line_of(t, self.offset as int);
            lemma_newline_count_bounds(t);
            lemma_len_le_byte_len(t);
        }
        let current_line = content.byte_to_line(self.offset);
        let line_range = content.line_byte_range(current_line);
        let is_last_line = current_line >= content.line_count() - 1;
        let line_end = if is_last_line {
            line_range.end
        } else if line_range.end >= 1 {
            line_range.end - 1
        } else {
            0
        };
        Self { offset: line_end }
    }

    pub fn move_to_end(&self, buffer: &Buffer) -> (c: Self)
        requires
            buffer.wf(),
        ensures
            c.offset == byte_len(buffer@.text),
    {
        Self::end(buffer)
    }
}

/// A char that words are made of.
pub open spec fn is_word_char(c: char) -> bool {
    is_alphanumeric(c) || c == '_'
}

/// Where the word that ends before char `c` starts.
pub open spec fn word_start(t: Seq<char>, c: int) -> int
    decreases c,
{
    if 0 < c <= t.len() && is_word_char(t[c - 1]) {
        word_start(t, c - 1)
    } else {
        c
    }
}

/// Where the word that goes on from char `e` ends.
pub open spec fn word_end(t: Seq<char>, e: int) -> int
    decreases t.len() - e,
{
    if 0 <= e < t.len() && is_word_char(t[e]) {
        word_end(t, e + 1)
    } else {
        e
    }
}

/// The selection of the word at byte `off`: the char there alone if it is no
/// word char; nothing, at the end of the text.
pub open spec fn word_at_spec(t: Seq<char>, off: int) -> (int, int) {
    let len = byte_len(t);
    if len == 0 || off >= len {
        (min_int(off, len), min_int(off, len))
    } else {
        let c = char_of_byte(t, off);
        if c >= t.len() {
            (off, off)
        } else if !is_word_char(t[c]) {
            (off, min_int(byte_len(t.take(c + 1)), len))
        } else {
            (byte_len(t.take(word_start(t, c))), byte_len(t.take(word_end(t, c + 1))))
        }
    }
}

/// The selection of the line at byte `off`, without its line break.
pub open spec fn line_at_spec(t: Seq<char>, off: int) -> (int, int) {
    let l = line_of(t, off);
    let count = newline_count(t) + 1;
    let start = line_start_byte(t, l);
    let next = if l + 1 < count {
        line_start_byte(t, l + 1)
    } else {
        byte_len(t)
    };
    let end = if next > start && next <= byte_len(t) && l + 1 < count {
        next - 1
    } else {
        next
    };
    (start, end)
}

proof fn lemma_word_start(t: Seq<char>, c: int)
    requires
        0 <= c <= t.len(),
    ensures
        0 <= word_start(t, c) <= c,
    decreases c,
{
    if 0 < c && is_word_char(t[c - 1]) {
        lemma_word_start(t, c - 1);
    }
}

proof fn lemma_word_end(t: Seq<char>, e: int)
    requires
        0 <= e <= t.len(),
    ensures
        e <= word_end(t, e) <= t.len(),
    decreases t.len() - e,
{
    if e < t.len() && is_word_char(t[e]) {
        lemma_word_end(t, e + 1);
    }
}

impl Selection {
    pub fn clamp(&self, buffer: &Buffer) -> (s: Self)
        requires
            buffer.wf(),
        ensures
            s.anchor == min_int(self.anchor as int, byte_len(buffer@.text)),
            s.head == min_int(self.head as int, byte_len(buffer@.text)),
    {
        proof {
            buffer.lemma_history_ok();
        }
        let len = buffer.content().len_bytes();
        Self {
            anchor: if self.anchor <= len { self.anchor } else { len },
            head: if self.head <= len { self.head } else { len },
        }
    }

    pub fn select_all(buffer: &Buffer) -> (s: Self)
        requires
            buffer.wf(),
        ensures
            s.anchor == 0,
            s.head == byte_len(buffer@.text),
    {
        proof {
            buffer.lemma_history_ok();
        }
        Self { anchor: 0, head: buffer.content().len_bytes() }
    }

    /// Select the word at `offset`.
    pub fn select_word_at(offset: usize, buffer: &Buffer) -> (s: Self)
        requires
            buffer.wf(),
        ensures
            (s.anchor as int, s.head as int) == word_at_spec(buffer@.text, offset as int),
    {
        proof {
            buffer.lemma_history_ok();
        }
        let content = buffer.content();
        let ghost t = content@;
        let rope = content.rope();
        let len_bytes = content.len_bytes();
        if len_bytes == 0 || offset >= len_bytes {
            let o = if offset <= len_bytes { offset } else { len_bytes };
            return Self::new(o, o);
        }
        proof {
            lemma_char_of_byte_bounds(t, offset as int);
        }
        let char_idx = rope_byte_to_char(rope, offset);
        let char_count = rope_len_chars(rope);
        if char_idx >= char_count {
            return Self::new(offset, offset);
        }
        let c = rope_char(rope, char_idx);
        if !(char_is_alphanumeric(c) || c == '_') {
            let char_end = rope_char_to_byte(rope, char_idx + 1);
            return Self::new(offset, if char_end <= len_bytes { char_end } else { len_bytes });
        }
        let mut start_char_idx = char_idx;
        while start_char_idx > 0
            invariant
                start_char_idx <= char_idx < t.len(),
                t == rope_chars(*rope),
                word_start(t, start_char_idx as int) == word_start(t, char_idx as int),
            ensures
                word_start(t, char_idx as int) == start_char_idx,
            decreases start_char_idx,
        {
            let p = rope_char(rope, start_char_idx - 1);
            if !(char_is_alphanumeric(p) || p == '_') {
                break;
            }
            start_char_idx -= 1;
        }
        let mut end_char_idx = char_idx + 1;
        while end_char_idx < char_count
            invariant
                char_idx < end_char_idx <= char_count,
                char_count == t.len(),
                t == rope_chars(*rope),
                word_end(t, end_char_idx as int) == word_end(t, char_idx + 1),
            ensures
                word_end(t, char_idx + 1) == end_char_idx,
            decreases char_count - end_char_idx,
        {
            let n = rope_char(rope, end_char_idx);
            if !(char_is_alphanumeric(n) || n == '_') {
                break;
            }
            end_char_idx += 1;
        }
        let start_byte = rope_char_to_byte(rope, start_char_idx);
        let end_byte = rope_char_to_byte(rope, end_char_idx);
        assert(is_word_char(t[char_idx as int]));
        Self::new(start_byte, end_byte)
    }

    /// Select the line at `offset`, without its line break.
    pub fn select_line_at(offset: usize, buffer: &Buffer) -> (s: Self)
        requires
            buffer.wf(),
            offset <= byte_len(buffer@.text),
        ensures
            (s.anchor as int, s.head as int) == line_at_spec(buffer@.text, offset as int),
    {
        proof {
            buffer.lemma_history_ok();
        }
        let content = buffer.content();
        let ghost t = content@;
        proof {
            lemma_line_of(t, offset as int);
            lemma_newline_count_bounds(t);
            lemma_len_le_byte_len(t);
        }
        let line = content.byte_to_line(offset);
        let line_start = content.line_to_byte(line);
        let line_count = content.line_count();
        let len = content.len_bytes();
        let next_line_start = if line < line_count - 1 {
            content.line_to_byte(line + 1)
        } else {
            len
        };
        let line_end = if next_line_start > line_start && next_line_start <= len && line
            < line_count - 1 {
            next_line_start - 1
        } else {
            next_line_start
        };
        Self::new(line_start, line_end)
    }
}

} // verus!
