//! The text storage of a buffer: a `ropey::Rope`, with the facts the buffer
//! relies on stated over the chars it holds.
//!
//! Ropey is built without its `cr_lines`/`unicode_lines` features, so `\n` is
//! the only line break.

use ropey::Rope;
use vstd::prelude::*;
use vstd::utf8::*;

use crate::text::bytes_of;

verus! {

broadcast use vstd::string::group_string_axioms;

#[verifier::external_type_specification]
#[verifier::external_body]
pub struct ExRope(Rope);

/// The chars a rope holds.
pub uninterp spec fn rope_chars(r: Rope) -> Seq<char>;

/// Number of UTF-8 bytes of `s`.
pub open spec fn byte_len(s: Seq<char>) -> int {
    bytes_of(s).len() as int
}

/// Index of the char that byte `b` belongs to (the char count for `b` at or past the end).
pub open spec fn char_of_byte(cs: Seq<char>, b: int) -> int
    decreases cs.len(),
{
    if cs.len() == 0 {
        0
    } else {
        let w = byte_len(seq![cs[0]]);
        if w <= b {
            1 + char_of_byte(cs.drop_first(), b - w)
        } else {
            0
        }
    }
}

/// Number of `\n` in `s`.
pub open spec fn newline_count(s: Seq<char>) -> int
    decreases s.len(),
{
    if s.len() == 0 {
        0
    } else {
        newline_count(s.drop_last()) + if s.last() == '\n' {
            1int
        } else {
            0
        }
    }
}

/// Char index where line `l` starts: just after the `l`-th `\n` (the length
/// when there are fewer).
pub open spec fn line_start_char(s: Seq<char>, l: int) -> int
    decreases s.len(),
{
    if l <= 0 {
        0
    } else if s.len() == 0 {
        0
    } else if newline_count(s.drop_last()) >= l {
        line_start_char(s.drop_last(), l)
    } else if s.last() == '\n' && newline_count(s.drop_last()) == l - 1 {
        s.len() as int
    } else {
        s.len() as int
    }
}

/// `Rope::from_str`: a rope holding `s`.
#[verifier::external_body]
pub(crate) fn rope_from_str(s: &str) -> (r: Rope)
    ensures
        rope_chars(r) == s@,
{
    Rope::from_str(s)
}

/// `Rope::len_bytes`.
#[verifier::external_body]
pub(crate) fn rope_len_bytes(r: &Rope) -> (n: usize)
    ensures
        n == byte_len(rope_chars(*r)),
{
    r.len_bytes()
}

/// `Rope::len_chars`.
#[verifier::external_body]
pub(crate) fn rope_len_chars(r: &Rope) -> (n: usize)
    ensures
        n == rope_chars(*r).len(),
{
    r.len_chars()
}

/// `Rope::len_lines`: one more than the number of line breaks.
#[verifier::external_body]
pub(crate) fn rope_len_lines(r: &Rope) -> (n: usize)
    ensures
        n == newline_count(rope_chars(*r)) + 1,
{
    r.len_lines()
}

/// `Rope::byte_to_char`: the char a byte belongs to; panics past the end.
#[verifier::external_body]
pub(crate) fn rope_byte_to_char(r: &Rope, b: usize) -> (c: usize)
    requires
        b <= byte_len(rope_chars(*r)),
    ensures
        c == char_of_byte(rope_chars(*r), b as int),
{
    r.byte_to_char(b)
}

/// `Rope::char_to_byte`: the byte where a char starts; panics past the end.
#[verifier::external_body]
pub(crate) fn rope_char_to_byte(r: &Rope, c: usize) -> (b: usize)
    requires
        c <= rope_chars(*r).len(),
    ensures
        b == byte_len(rope_chars(*r).take(c as int)),
{
    r.char_to_byte(c)
}

/// `Rope::char_to_line`: the line breaks before a char; panics past the end.
#[verifier::external_body]
pub(crate) fn rope_char_to_line(r: &Rope, c: usize) -> (l: usize)
    requires
        c <= rope_chars(*r).len(),
    ensures
        l == newline_count(rope_chars(*r).take(c as int)),
{
    r.char_to_line(c)
}

/// `Rope::line_to_char`: the char where a line starts; panics past one-past-the-last line.
#[verifier::external_body]
pub(crate) fn rope_line_to_char(r: &Rope, l: usize) -> (c: usize)
    requires
        l <= newline_count(rope_chars(*r)) + 1,
    ensures
        c == line_start_char(rope_chars(*r), l as int),
{
    r.line_to_char(l)
}

/// `Rope::char`: the char at an index; panics out of bounds.
#[verifier::external_body]
pub(crate) fn rope_char(r: &Rope, c: usize) -> (ch: char)
    requires
        c < rope_chars(*r).len(),
    ensures
        ch == rope_chars(*r)[c as int],
{
    r.char(c)
}

/// `Rope::byte`: the byte at an index; panics out of bounds.
#[verifier::external_body]
pub(crate) fn rope_byte(r: &Rope, b: usize) -> (x: u8)
    requires
        b < byte_len(rope_chars(*r)),
    ensures
        x == bytes_of(rope_chars(*r))[b as int],
{
    r.byte(b)
}

/// `Rope::insert`: `s` inserted before char `c`; panics past the end.
#[verifier::external_body]
pub(crate) fn rope_insert(r: &mut Rope, c: usize, s: &str)
    requires
        c <= rope_chars(*old(r)).len(),
    ensures
        rope_chars(*final(r)) == rope_chars(*old(r)).take(c as int) + s@ + rope_chars(
            *old(r),
        ).skip(c as int),
{
    r.insert(c, s)
}

/// `Rope::remove`: the chars `start..end` removed; panics on a bad range.
#[verifier::external_body]
pub(crate) fn rope_remove(r: &mut Rope, start: usize, end: usize)
    requires
        start <= end <= rope_chars(*old(r)).len(),
    ensures
        rope_chars(*final(r)) == rope_chars(*old(r)).take(start as int) + rope_chars(
            *old(r),
        ).skip(end as int),
{
    r.remove(start..end)
}

/// `Rope::slice(start..end).to_string()`: the chars `start..end`; panics on a bad range.
#[verifier::external_body]
pub(crate) fn rope_slice_string(r: &Rope, start: usize, end: usize) -> (s: String)
    requires
        start <= end <= rope_chars(*r).len(),
    ensures
        s@ == rope_chars(*r).subrange(start as int, end as int),
{
    r.slice(start..end).to_string()
}

/// `Rope::clone`: a rope holding the same text.
#[verifier::external_body]
pub(crate) fn rope_clone(r: &Rope) -> (c: Rope)
    ensures
        rope_chars(c) == rope_chars(*r),
{
    r.clone()
}

/// `Rope::to_string`: the rope's text.
#[verifier::external_body]
pub(crate) fn rope_to_string(r: &Rope) -> (s: String)
    ensures
        s@ == rope_chars(*r),
{
    r.to_string()
}

/// The bytes of a concatenation are the concatenated bytes.
pub proof fn lemma_bytes_concat(a: Seq<char>, b: Seq<char>)
    ensures
        bytes_of(a + b) == bytes_of(a) + bytes_of(b),
    decreases a.len(),
{
    if a.len() == 0 {
        assert(a + b =~= b);
        assert(bytes_of(a) =~= Seq::<u8>::empty());
        assert(bytes_of(a) + bytes_of(b) =~= bytes_of(b));
    } else {
        lemma_bytes_concat(a.drop_first(), b);
        assert((a + b).drop_first() =~= a.drop_first() + b);
        assert((a + b)[0] == a[0]);
        assert(bytes_of(a + b) =~= encode_scalar(a[0] as u32) + bytes_of(a.drop_first() + b));
    }
}

/// Every char takes at least one byte.
pub proof fn lemma_char_width(c: char)
    ensures
        1 <= byte_len(seq![c]) <= 4,
{
    let s = seq![c];
    assert(s.drop_first() =~= Seq::<char>::empty());
    assert(bytes_of(s) =~= encode_scalar(c as u32) + bytes_of(s.drop_first()));
}

/// Byte length of the first `k` chars, one char at a time.
pub proof fn lemma_byte_len_take(cs: Seq<char>, k: int)
    requires
        0 <= k < cs.len(),
    ensures
        byte_len(cs.take(k + 1)) == byte_len(cs.take(k)) + byte_len(seq![cs[k]]),
{
    assert(cs.take(k + 1) =~= cs.take(k) + seq![cs[k]]);
    lemma_bytes_concat(cs.take(k), seq![cs[k]]);
}

/// The byte length of a prefix never exceeds that of a longer prefix.
pub proof fn lemma_byte_len_mono(cs: Seq<char>, j: int, k: int)
    requires
        0 <= j <= k <= cs.len(),
    ensures
        byte_len(cs.take(j)) <= byte_len(cs.take(k)),
        j < k ==> byte_len(cs.take(j)) < byte_len(cs.take(k)),
    decreases k - j,
{
    if j < k {
        lemma_byte_len_mono(cs, j, k - 1);
        lemma_byte_len_take(cs, k - 1);
        lemma_char_width(cs[k - 1]);
    }
}

/// The char of the byte where char `k` starts is `k`.
pub proof fn lemma_char_of_char_start(cs: Seq<char>, k: int)
    requires
        0 <= k <= cs.len(),
    ensures
        char_of_byte(cs, byte_len(cs.take(k))) == k,
    decreases cs.len(),
{
    if cs.len() == 0 {
        assert(cs.take(k) =~= Seq::<char>::empty());
        assert(bytes_of(cs.take(k)) =~= Seq::<u8>::empty());
    } else {
        lemma_char_width(cs[0]);
        if k == 0 {
            assert(cs.take(0) =~= Seq::<char>::empty());
            assert(bytes_of(cs.take(0)) =~= Seq::<u8>::empty());
        } else {
            let rest = cs.drop_first();
            assert(cs.take(k) =~= seq![cs[0]] + rest.take(k - 1));
            lemma_bytes_concat(seq![cs[0]], rest.take(k - 1));
            lemma_char_of_char_start(rest, k - 1);
        }
    }
}

/// The char of a byte never exceeds the char count, and grows with the byte.
pub proof fn lemma_char_of_byte_bounds(cs: Seq<char>, b: int)
    ensures
        0 <= char_of_byte(cs, b) <= cs.len(),
        b >= 0 ==> byte_len(cs.take(char_of_byte(cs, b))) <= b,
    decreases cs.len(),
{
    if cs.len() > 0 {
        lemma_char_width(cs[0]);
        let w = byte_len(seq![cs[0]]);
        if w <= b {
            let rest = cs.drop_first();
            lemma_char_of_byte_bounds(rest, b - w);
            let k = char_of_byte(rest, b - w);
            assert(cs.take(k + 1) =~= seq![cs[0]] + rest.take(k));
            lemma_bytes_concat(seq![cs[0]], rest.take(k));
        } else {
            assert(cs.take(0) =~= Seq::<char>::empty());
            assert(bytes_of(cs.take(0)) =~= Seq::<u8>::empty());
        }
    } else {
        assert(cs.take(0) =~= Seq::<char>::empty());
        assert(bytes_of(cs.take(0)) =~= Seq::<u8>::empty());
    }
}

/// The char of a byte grows with the byte.
pub proof fn lemma_char_of_byte_mono(cs: Seq<char>, a: int, b: int)
    requires
        a <= b,
    ensures
        char_of_byte(cs, a) <= char_of_byte(cs, b),
    decreases cs.len(),
{
    lemma_char_of_byte_bounds(cs, b);
    if cs.len() > 0 {
        let w = byte_len(seq![cs[0]]);
        if w <= a {
            lemma_char_of_byte_mono(cs.drop_first(), a - w, b - w);
        }
    }
}

/// A text has no more line breaks than chars.
pub proof fn lemma_newline_count_bounds(s: Seq<char>)
    ensures
        0 <= newline_count(s) <= s.len(),
    decreases s.len(),
{
    if s.len() > 0 {
        lemma_newline_count_bounds(s.drop_last());
    }
}

/// A line starts within the text.
pub proof fn lemma_line_start_bounds(s: Seq<char>, l: int)
    ensures
        0 <= line_start_char(s, l) <= s.len(),
    decreases s.len(),
{
    if l > 0 && s.len() > 0 && newline_count(s.drop_last()) >= l {
        lemma_line_start_bounds(s.drop_last(), l);
    }
}

/// Every char takes at least one byte.
pub proof fn lemma_len_le_byte_len(s: Seq<char>)
    ensures
        s.len() <= byte_len(s),
        byte_len(s) == 0 <==> s.len() == 0,
    decreases s.len(),
{
    if s.len() > 0 {
        lemma_len_le_byte_len(s.drop_first());
        lemma_char_width(s[0]);
        assert(s =~= seq![s[0]] + s.drop_first());
        lemma_bytes_concat(seq![s[0]], s.drop_first());
    } else {
        assert(bytes_of(s) =~= Seq::<u8>::empty());
    }
}

/// A prefix has no more line breaks than the whole text.
pub proof fn lemma_newline_count_prefix(s: Seq<char>, c: int)
    requires
        0 <= c <= s.len(),
    ensures
        newline_count(s.take(c)) <= newline_count(s),
    decreases s.len(),
{
    if c < s.len() {
        let t = s.drop_last();
        assert(s.take(c) =~= t.take(c));
        lemma_newline_count_prefix(t, c);
    } else {
        assert(s.take(c) =~= s);
    }
}

/// The line that char `c` is on starts at or before `c`.
pub proof fn lemma_line_start_before(s: Seq<char>, c: int)
    requires
        0 <= c <= s.len(),
    ensures
        line_start_char(s, newline_count(s.take(c))) <= c,
    decreases s.len(),
{
    if s.len() > 0 {
        let t = s.drop_last();
        if c == s.len() {
            assert(s.take(c) =~= s);
            assert(t.take(c - 1) =~= t);
            if newline_count(s) > 0 && newline_count(t) >= newline_count(s) {
                lemma_line_start_before(t, c - 1);
            }
        } else {
            assert(s.take(c) =~= t.take(c));
            lemma_newline_count_prefix(t, c);
            if newline_count(t.take(c)) > 0 {
                lemma_line_start_before(t, c);
            }
        }
    }
}

/// A line starts no later than the next one.
pub proof fn lemma_line_starts_ordered(s: Seq<char>, l: int)
    ensures
        line_start_char(s, l) <= line_start_char(s, l + 1),
    decreases s.len(),
{
    lemma_line_start_bounds(s, l);
    lemma_line_start_bounds(s, l + 1);
    if l > 0 && s.len() > 0 {
        let t = s.drop_last();
        if newline_count(t) >= l + 1 {
            lemma_line_starts_ordered(t, l);
        } else if newline_count(t) >= l {
            lemma_line_start_bounds(t, l);
        }
    }
}

} // verus!
