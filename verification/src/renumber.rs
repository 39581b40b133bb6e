//! Renumbering of ordered lists: which list markers carry the wrong number,
//! and the text with those markers renumbered.

use ropey::Rope;
use std::ops::Range;
use vstd::prelude::*;

use crate::buffer::{char_start, chars_of_bytes, edit_chars, lemma_edit_at};
use crate::inline::{child_indices, children, text_of};
use crate::rope::{
    byte_len, char_of_byte, lemma_bytes_concat, lemma_char_of_byte_bounds, rope_insert, rope_remove, lemma_char_of_byte_mono, rope_byte_to_char,
    rope_char_to_byte, rope_chars, rope_len_bytes, rope_slice_string,
};
use crate::syntax::{ranges_within, NodeKind, SyntaxNode};
use crate::text::{bytes_of, chars_of, string_from_chars};

verus! {

broadcast use vstd::string::group_string_axioms;

/// A decimal digit.
pub open spec fn is_digit(c: char) -> bool {
    '0' <= c <= '9'
}

/// The value of a decimal digit.
pub open spec fn digit_value(c: char) -> nat {
    (c as u32 - '0' as u32) as nat
}

/// The leading decimal digits of `s`.
pub open spec fn digits_prefix(s: Seq<char>) -> Seq<char>
    decreases s.len(),
{
    if s.len() > 0 && is_digit(s[0]) {
        seq![s[0]] + digits_prefix(s.drop_first())
    } else {
        seq![]
    }
}

/// The number that the decimal digits `d` spell.
pub open spec fn dec_value(d: Seq<char>) -> nat
    decreases d.len(),
{
    if d.len() == 0 {
        0
    } else {
        dec_value(d.drop_last()) * 10 + digit_value(d.last())
    }
}

/// The number a list marker's text carries: its leading digits read as a
/// `usize`, or 1 where there are none or they do not fit.
pub open spec fn marker_number(s: Seq<char>) -> nat {
    let d = digits_prefix(s);
    if d.len() == 0 || dec_value(d) > usize::MAX {
        1
    } else {
        dec_value(d)
    }
}

/// The decimal digits of `n`.
pub open spec fn decimal(n: nat) -> Seq<char>
    decreases n,
{
    if n < 10 {
        seq![('0' as u32 + n) as char]
    } else {
        decimal(n / 10) + seq![('0' as u32 + (n % 10)) as char]
    }
}

/// The marker kinds of ordered lists.
pub open spec fn is_ordered_marker(k: NodeKind) -> bool {
    k is ListMarkerDot || k is ListMarkerParenthesis
}

/// Whether a list is ordered: the first child of its first item that has
/// children is an ordered marker (looking at `cs[i..]`, the list's children).
pub open spec fn ordered_from(nodes: Seq<SyntaxNode>, cs: Seq<int>, i: int) -> bool
    decreases cs.len() - i,
{
    if i < 0 || i >= cs.len() {
        false
    } else if nodes[cs[i]].kind is ListItem && children(nodes, cs[i]).len() > 0 {
        is_ordered_marker(nodes[children(nodes, cs[i])[0]].kind)
    } else {
        ordered_from(nodes, cs, i + 1)
    }
}

/// The first ordered marker among the children `cs[i..]` of a list item.
pub open spec fn first_ordered_marker(nodes: Seq<SyntaxNode>, cs: Seq<int>, i: int) -> Option<int>
    decreases cs.len() - i,
{
    if i < 0 || i >= cs.len() {
        None
    } else if is_ordered_marker(nodes[cs[i]].kind) {
        Some(cs[i])
    } else {
        first_ordered_marker(nodes, cs, i + 1)
    }
}

/// A correction as plain values: the marker's byte range, the number it
/// should carry, and whether it is written with a parenthesis.
pub struct CorrectionV {
    pub start: int,
    pub end: int,
    pub number: int,
    pub paren: bool,
}

/// The corrections of the items `cs[i..]` of an ordered list, the next item
/// with a marker being number `item`.
pub open spec fn item_corrections(
    nodes: Seq<SyntaxNode>,
    cs: Seq<int>,
    i: int,
    item: int,
    t: Seq<char>,
) -> Seq<CorrectionV>
    decreases cs.len() - i,
{
    if i < 0 || i >= cs.len() {
        seq![]
    } else if nodes[cs[i]].kind is ListItem {
        match first_ordered_marker(nodes, children(nodes, cs[i]), 0) {
            Some(m) => {
                let mk = nodes[m];
                let n = marker_number(text_of(t, (mk.start_byte as int, mk.end_byte as int)));
                (if n != item {
                    seq![
                        CorrectionV {
                            start: mk.start_byte as int,
                            end: mk.end_byte as int,
                            number: item,
                            paren: mk.kind is ListMarkerParenthesis,
                        },
                    ]
                } else {
                    seq![]
                }) + item_corrections(nodes, cs, i + 1, item + 1, t)
            },
            None => item_corrections(nodes, cs, i + 1, item, t),
        }
    } else {
        item_corrections(nodes, cs, i + 1, item, t)
    }
}

/// The corrections of the ordered lists among `nodes[..n]`, list by list.
pub open spec fn list_corrections(nodes: Seq<SyntaxNode>, n: int, t: Seq<char>) -> Seq<CorrectionV>
    decreases n,
{
    if n <= 0 {
        seq![]
    } else {
        list_corrections(nodes, n - 1, t) + if nodes[n - 1].kind is List && ordered_from(
            nodes,
            children(nodes, n - 1),
            0,
        ) {
            item_corrections(nodes, children(nodes, n - 1), 0, 1, t)
        } else {
            seq![]
        }
    }
}

/// The view of a correction.
pub open spec fn correction_view(c: (Range<usize>, usize, bool)) -> CorrectionV {
    CorrectionV { start: c.0.start as int, end: c.0.end as int, number: c.1 as int, paren: c.2 }
}

/// The number a marker's text carries.
pub(crate) fn parse_marker_number(s: &str) -> (n: usize)
    ensures
        n == marker_number(s@),
{
    let cs = chars_of(s);
    let ghost v = cs@;
    let mut i: usize = 0;
    let mut value: usize = 0;
    let mut overflow = false;
    proof {
        lemma_digits_prefix(v);
    }
    while i < cs.len() && '0' <= cs[i] && cs[i] <= '9'
        invariant
            i <= v.len(),
            v == cs@,
            i <= digits_prefix(v).len(),
            digits_prefix(v).len() <= v.len(),
            forall|k: int| 0 <= k < digits_prefix(v).len() ==> v[k] == digits_prefix(v)[k],
            forall|k: int| 0 <= k < digits_prefix(v).len() ==> is_digit(#[trigger] v[k]),
            digits_prefix(v).len() < v.len() ==> !is_digit(v[digits_prefix(v).len() as int]),
            !overflow ==> value == dec_value(digits_prefix(v).take(i as int)),
            overflow ==> dec_value(digits_prefix(v).take(i as int)) > usize::MAX,
        decreases v.len() - i,
    {
        let ghost d = digits_prefix(v);
        let ghost before = d.take(i as int);
        let ghost after = d.take(i + 1);
        assert(after.drop_last() =~= before);
        assert(after.last() == v[i as int]);
        let dv = (cs[i] as u32 - '0' as u32) as usize;
        assert(dv == digit_value(v[i as int]));
        if !overflow {
            match value.checked_mul(10) {
                Some(m) => match m.checked_add(dv) {
                    Some(a) => {
                        value = a;
                    },
                    None => {
                        overflow = true;
                    },
                },
                None => {
                    overflow = true;
                    assert(dec_value(after) > usize::MAX) by (nonlinear_arith)
                        requires
                            dec_value(after) == dec_value(before) * 10 + digit_value(v[i as int]),
                            dec_value(before) == value,
                            value * 10 > usize::MAX,
                    ;
                },
            }
        } else {
            assert(dec_value(after) >= dec_value(before)) by (nonlinear_arith)
                requires
                    dec_value(after) == dec_value(before) * 10 + digit_value(v[i as int]),
            ;
        }
        i += 1;
    }
    proof {
        let d = digits_prefix(v);
        assert(i == d.len());
        assert(d.take(i as int) =~= d);
    }
    if i == 0 || overflow {
        1
    } else {
        value
    }
}

/// The leading digits of `s` are a prefix of it, each a digit, and the char
/// after them (if any) is none.
pub(crate) proof fn lemma_digits_prefix(s: Seq<char>)
    ensures
        digits_prefix(s).len() <= s.len(),
        forall|k: int| 0 <= k < digits_prefix(s).len() ==> s[k] == digits_prefix(s)[k],
        forall|k: int| 0 <= k < digits_prefix(s).len() ==> is_digit(#[trigger] s[k]),
        digits_prefix(s).len() < s.len() ==> !is_digit(s[digits_prefix(s).len() as int]),
    decreases s.len(),
{
    if s.len() > 0 && is_digit(s[0]) {
        let r = s.drop_first();
        lemma_digits_prefix(r);
        assert forall|k: int| 0 <= k < digits_prefix(s).len() implies s[k] == digits_prefix(s)[k] by {
            if k > 0 {
                assert(s[k] == r[k - 1]);
            }
        }
        assert forall|k: int| 0 <= k < digits_prefix(s).len() implies is_digit(#[trigger] s[k]) by {
            if k > 0 {
                assert(s[k] == r[k - 1]);
            }
        }
        if digits_prefix(s).len() < s.len() {
            assert(s[digits_prefix(s).len() as int] == r[digits_prefix(r).len() as int]);
        }
    }
}

/// The decimal digits of `n`, as a string.
pub(crate) fn decimal_string(n: usize) -> (s: String)
    ensures
        s@ == decimal(n as nat),
{
    let mut digits: Vec<char> = Vec::new();
    let mut m = n;
    // digits of `n` from the last, down to those of `m`
    let ghost mut rest: Seq<char> = seq![];
    while m >= 10
        invariant
            decimal(n as nat) == decimal(m as nat) + rest,
            digits@ == rest.reverse(),
        decreases m,
    {
        let d = m % 10;
        let c = ((d as u8) + 48u8) as char;
        proof {
            assert(decimal(m as nat) == decimal((m / 10) as nat) + seq![c]);
            assert(decimal(n as nat) =~= decimal((m / 10) as nat) + (seq![c] + rest));
            assert((seq![c] + rest).reverse() =~= rest.reverse().push(c));
            rest = seq![c] + rest;
        }
        digits.push(c);
        m = m / 10;
    }
    let c = ((m as u8) + 48u8) as char;
    proof {
        assert(decimal(m as nat) == seq![c]);
        assert((seq![c] + rest).reverse() =~= rest.reverse().push(c));
        rest = seq![c] + rest;
    }
    digits.push(c);
    let mut out: Vec<char> = Vec::new();
    let mut k = digits.len();
    while k > 0
        invariant
            k <= digits@.len(),
            digits@ == rest.reverse(),
            out@ == rest.take(digits@.len() - k),
            decimal(n as nat) == rest,
        decreases k,
    {
        k -= 1;
        proof {
            let j = digits@.len() - 1 - k;
            assert(digits@[k as int] == rest[j]);
            assert(rest.take(j + 1) =~= rest.take(j).push(rest[j]));
        }
        out.push(digits[k]);
    }
    assert(rest.take(digits@.len() as int) =~= rest);
    string_from_chars(&out)
}

/// The chars of the rope that hold bytes `start..end`.
fn rope_text(rope: &Rope, start: usize, end: usize) -> (s: String)
    requires
        start <= end <= byte_len(rope_chars(*rope)),
    ensures
        s@ == text_of(rope_chars(*rope), (start as int, end as int)),
{
    let ghost t = rope_chars(*rope);
    proof {
        lemma_char_of_byte_mono(t, start as int, end as int);
        lemma_char_of_byte_bounds(t, end as int);
    }
    let a = rope_byte_to_char(rope, start);
    let b = rope_byte_to_char(rope, end);
    rope_slice_string(rope, a, b)
}

fn is_ordered_marker_kind(k: NodeKind) -> (b: bool)
    ensures
        b == is_ordered_marker(k),
{
    matches!(k, NodeKind::ListMarkerDot | NodeKind::ListMarkerParenthesis)
}

/// Whether the list with children `cs` is ordered.
fn is_ordered_list(nodes: &[SyntaxNode], cs: &Vec<usize>) -> (b: bool)
    requires
        forall|q: int| 0 <= q < cs@.len() ==> (#[trigger] cs@[q]) < nodes@.len(),
    ensures
        b == ordered_from(nodes@, cs@.map_values(|k: usize| k as int), 0),
{
    let ghost csv = cs@.map_values(|k: usize| k as int);
    let mut i: usize = 0;
    while i < cs.len()
        invariant
            i <= cs@.len(),
            csv == cs@.map_values(|k: usize| k as int),
            forall|q: int| 0 <= q < cs@.len() ==> (#[trigger] cs@[q]) < nodes@.len(),
            ordered_from(nodes@, csv, i as int) == ordered_from(nodes@, csv, 0),
        decreases cs@.len() - i,
    {
        let c = cs[i];
        if let NodeKind::ListItem = nodes[c].kind {
            let gc = child_indices(nodes, c);
            if gc.len() > 0 {
                proof {
                    assert(gc@.map_values(|k: usize| k as int)[0] == gc@[0] as int);
                }
                return is_ordered_marker_kind(nodes[gc[0]].kind);
            }
        }
        i += 1;
    }
    false
}

/// The first ordered marker among the children `cs` of a list item.
fn first_marker(nodes: &[SyntaxNode], cs: &Vec<usize>) -> (r: Option<usize>)
    requires
        forall|q: int| 0 <= q < cs@.len() ==> (#[trigger] cs@[q]) < nodes@.len(),
    ensures
        match r {
            Some(m) => m < nodes@.len() && first_ordered_marker(
                nodes@,
                cs@.map_values(|k: usize| k as int),
                0,
            ) == Some(m as int),
            None => first_ordered_marker(nodes@, cs@.map_values(|k: usize| k as int), 0) is None,
        },
{
    let ghost csv = cs@.map_values(|k: usize| k as int);
    let mut i: usize = 0;
    while i < cs.len()
        invariant
            i <= cs@.len(),
            csv == cs@.map_values(|k: usize| k as int),
            forall|q: int| 0 <= q < cs@.len() ==> (#[trigger] cs@[q]) < nodes@.len(),
            first_ordered_marker(nodes@, csv, i as int) == first_ordered_marker(nodes@, csv, 0),
        decreases cs@.len() - i,
    {
        if is_ordered_marker_kind(nodes[cs[i]].kind) {
            return Some(cs[i]);
        }
        i += 1;
    }
    None
}

/// Returns corrections as (range, correct_number, is_parenthesis_style): for
/// each ordered list, in node order, the markers of its items that do not
/// carry their place (1, 2, 3, ...) among the items that have a marker.
pub fn find_ordered_list_corrections(nodes: &[SyntaxNode], rope: &Rope) -> (r: Vec<(Range<usize>, usize, bool)>)
    requires
        ranges_within(nodes@, byte_len(rope_chars(*rope))),
        nodes@.len() < usize::MAX,
    ensures
        r@.map_values(|c: (Range<usize>, usize, bool)| correction_view(c)) == list_corrections(
            nodes@,
            nodes@.len() as int,
            rope_chars(*rope),
        ),
{
    let ghost t = rope_chars(*rope);
    let mut out: Vec<(Range<usize>, usize, bool)> = Vec::new();
    let mut l: usize = 0;
    while l < nodes.len()
        invariant
            l <= nodes@.len(),
            nodes@.len() < usize::MAX,
            t == rope_chars(*rope),
            ranges_within(nodes@, byte_len(t)),
            out@.map_values(|c: (Range<usize>, usize, bool)| correction_view(c)) == list_corrections(
                nodes@,
                l as int,
                t,
            ),
        decreases nodes@.len() - l,
    {
        let ghost before = out@.map_values(|c: (Range<usize>, usize, bool)| correction_view(c));
        if let NodeKind::List = nodes[l].kind {
            let cs = child_indices(nodes, l);
            if is_ordered_list(nodes, &cs) {
                let ghost csv = cs@.map_values(|k: usize| k as int);
                let mut item: usize = 1;
                let mut i: usize = 0;
                while i < cs.len()
                    invariant
                        i <= cs@.len(),
                        1 <= item <= i + 1,
                        cs@.len() <= nodes@.len(),
                        nodes@.len() < usize::MAX,
                        csv == cs@.map_values(|k: usize| k as int),
                        csv == children(nodes@, l as int),
                        forall|q: int| 0 <= q < cs@.len() ==> (#[trigger] cs@[q]) < nodes@.len(),
                        t == rope_chars(*rope),
                        ranges_within(nodes@, byte_len(t)),
                        out@.map_values(|c: (Range<usize>, usize, bool)| correction_view(c)) + item_corrections(
                            nodes@,
                            csv,
                            i as int,
                            item as int,
                            t,
                        ) == before + item_corrections(nodes@, csv, 0, 1, t),
                    decreases cs@.len() - i,
                {
                    let ghost o = out@.map_values(|c: (Range<usize>, usize, bool)| correction_view(c));
                    let c = cs[i];
                    if let NodeKind::ListItem = nodes[c].kind {
                        let gc = child_indices(nodes, c);
                        match first_marker(nodes, &gc) {
                            Some(m) => {
                                let mk = nodes[m];
                                assert(mk.start_byte <= mk.end_byte && mk.end_byte <= byte_len(t));
                                let text = rope_text(rope, mk.start_byte, mk.end_byte);
                                let n = parse_marker_number(text.as_str());
                                let paren = matches!(mk.kind, NodeKind::ListMarkerParenthesis);
                                if n != item {
                                    out.push((mk.start_byte..mk.end_byte, item, paren));
                                    assert(out@.map_values(|c: (Range<usize>, usize, bool)| correction_view(c))
                                        =~= o.push(CorrectionV {
                                        start: mk.start_byte as int,
                                        end: mk.end_byte as int,
                                        number: item as int,
                                        paren,
                                    }));
                                }
                                item += 1;
                            },
                            None => {},
                        }
                    }
                    i += 1;
                }
            }
        }
        proof {
            let after = out@.map_values(|c: (Range<usize>, usize, bool)| correction_view(c));
            assert(list_corrections(nodes@, l + 1, t) =~= list_corrections(nodes@, l as int, t) + (
            if nodes@[l as int].kind is List && ordered_from(nodes@, children(nodes@, l as int), 0) {
                item_corrections(nodes@, children(nodes@, l as int), 0, 1, t)
            } else {
                seq![]
            }));
        }
        l += 1;
    }
    out
}

/// The new text of a corrected marker: its number, then `. ` or `) `.
pub open spec fn marker_text(c: CorrectionV) -> Seq<char> {
    decimal(c.number as nat) + if c.paren {
        seq![')', ' ']
    } else {
        seq!['.', ' ']
    }
}

/// `t` with the corrections `cs[..n]` applied, the last first, so that each
/// applies to bytes that the ones after it did not move. A correction whose
/// range does not lie in the text as it then stands, or that would make the
/// text longer than an offset can count, ends the renumbering there.
pub open spec fn apply_corrections(t: Seq<char>, cs: Seq<CorrectionV>, n: int) -> Seq<char>
    decreases n,
{
    if n <= 0 || n > cs.len() {
        t
    } else {
        let c = cs[n - 1];
        if correction_applies(t, c) {
            apply_corrections(edit_chars(t, c.start, c.end - c.start, marker_text(c)), cs, n - 1)
        } else {
            t
        }
    }
}

/// The correction `c` can be made to `t`: its range runs from a char start
/// to a char start of the text, and the text stays within what an offset can
/// count.
pub open spec fn correction_applies(t: Seq<char>, c: CorrectionV) -> bool {
    &&& c.start <= c.end
    &&& char_start(t, c.start)
    &&& char_start(t, c.end)
    &&& byte_len(t) + byte_len(marker_text(c)) <= usize::MAX
}

/// The new text of a corrected marker.
pub fn marker_string(number: usize, paren: bool) -> (s: String)
    ensures
        s@ == marker_text(CorrectionV { start: 0, end: 0, number: number as int, paren }),
{
    let mut s = decimal_string(number);
    if paren {
        crate::text::string_push(&mut s, ')');
    } else {
        crate::text::string_push(&mut s, '.');
    }
    crate::text::string_push(&mut s, ' ');
    assert(s@ =~= decimal(number as nat) + if paren {
        seq![')', ' ']
    } else {
        seq!['.', ' ']
    });
    s
}

/// Whether byte `b` of the rope is where a char starts.
fn rope_char_start(rope: &Rope, b: usize) -> (r: bool)
    ensures
        r == char_start(rope_chars(*rope), b as int),
{
    if b > rope_len_bytes(rope) {
        return false;
    }
    proof {
        lemma_char_of_byte_bounds(rope_chars(*rope), b as int);
    }
    let c = rope_byte_to_char(rope, b);
    rope_char_to_byte(rope, c) == b
}

/// Make the corrections `cs` to the rope's text, the last first (see
/// `apply_corrections`).
pub fn apply_corrections_to_rope(rope: &mut Rope, cs: &Vec<(Range<usize>, usize, bool)>)
    requires
        byte_len(rope_chars(*old(rope))) <= usize::MAX,
    ensures
        rope_chars(*final(rope)) == apply_corrections(
            rope_chars(*old(rope)),
            cs@.map_values(|c: (Range<usize>, usize, bool)| correction_view(c)),
            cs@.len() as int,
        ),
        byte_len(rope_chars(*final(rope))) <= usize::MAX,
{
    let ghost v = cs@.map_values(|c: (Range<usize>, usize, bool)| correction_view(c));
    let ghost t0 = rope_chars(*rope);
    let mut j: usize = cs.len();
    while j > 0
        invariant
            j <= cs@.len(),
            t0 == rope_chars(*old(rope)),
            v == cs@.map_values(|c: (Range<usize>, usize, bool)| correction_view(c)),
            apply_corrections(t0, v, cs@.len() as int) == apply_corrections(
                rope_chars(*rope),
                v,
                j as int,
            ),
            byte_len(rope_chars(*rope)) <= usize::MAX,
        decreases j,
    {
        let ghost t = rope_chars(*rope);
        let start = cs[j - 1].0.start;
        let end = cs[j - 1].0.end;
        let marker = marker_string(cs[j - 1].1, cs[j - 1].2);
        let len = rope_len_bytes(rope);
        let mlen = marker.as_str().as_bytes().len();
        proof {
            assert(v[j - 1] == correction_view(cs@[j - 1]));
            assert(marker@ == marker_text(v[j - 1]));
        }
        if !(start <= end && mlen <= usize::MAX - len && rope_char_start(rope, start)
            && rope_char_start(rope, end)) {
            assert(mlen == byte_len(marker@));
            assert(!correction_applies(t, v[j - 1]));
            return;
        }
        proof {
            lemma_char_of_byte_mono(t, start as int, end as int);
            lemma_char_of_byte_bounds(t, end as int);
            lemma_char_of_byte_bounds(t, start as int);
        }
        let char_start = rope_byte_to_char(rope, start);
        let char_end = rope_byte_to_char(rope, end);
        rope_remove(rope, char_start, char_end);
        let ghost rest = rope_chars(*rope);
        proof {
            lemma_edit_bytes(t, start as int, end as int, marker@);
        }
        let char_offset = rope_byte_to_char(rope, start);
        proof {
            lemma_char_of_byte_bounds(rest, start as int);
        }
        rope_insert(rope, char_offset, marker.as_str());
        j -= 1;
    }
}

/// Removing the chars that hold bytes `s..e`, both char starts, leaves at
/// least `s` bytes, and putting `m` in their place gives a text of the old
/// length less `e - s`, and the length of `m`.
proof fn lemma_edit_bytes(t: Seq<char>, s: int, e: int, m: Seq<char>)
    requires
        s <= e,
        char_start(t, s),
        char_start(t, e),
    ensures
        s <= byte_len(t.take(char_of_byte(t, s)) + t.skip(char_of_byte(t, e))),
        byte_len(edit_chars(t, s, e - s, m)) == byte_len(t) - (e - s) + byte_len(m),
{
    let a = char_of_byte(t, s);
    let z = char_of_byte(t, e);
    lemma_char_of_byte_mono(t, s, e);
    lemma_char_of_byte_bounds(t, e);
    lemma_char_of_byte_bounds(t, s);
    lemma_edit_at(t, a, z - a, m);
    assert(a + (z - a) == z);
}

/// Bytes `from..cs[i].start` of `t`, the new marker of `cs[i]`, and so on for
/// the corrections `cs[i..n]`, then the rest of `t`: the text with each
/// corrected marker replaced by its new number and delimiter.
pub open spec fn replaced(t: Seq<char>, cs: Seq<CorrectionV>, n: int, i: int, from: int) -> Seq<char>
    decreases n - i,
{
    if i < 0 || i >= n {
        chars_of_bytes(t, from, byte_len(t))
    } else {
        chars_of_bytes(t, from, cs[i].start) + marker_text(cs[i]) + replaced(t, cs, n, i + 1, cs[i].end)
    }
}

/// The corrections `cs[..n]` lie in `t` one after another: each range runs
/// from a char start to a char start, and ends where the next can begin.
pub open spec fn corrections_in_order(t: Seq<char>, cs: Seq<CorrectionV>, n: int) -> bool {
    &&& 0 <= n <= cs.len()
    &&& forall|i: int|
        0 <= i < n ==> (#[trigger] cs[i]).start <= cs[i].end && char_start(t, cs[i].start) && char_start(
            t,
            cs[i].end,
        )
    &&& forall|i: int, j: int| 0 <= i < j < n ==> (#[trigger] cs[i]).end <= (#[trigger] cs[j]).start
}

/// The bytes of the new markers of `cs[..n]`.
pub open spec fn markers_bytes(cs: Seq<CorrectionV>, n: int) -> int
    decreases n,
{
    if n <= 0 {
        0
    } else {
        markers_bytes(cs, n - 1) + byte_len(marker_text(cs[n - 1]))
    }
}

/// Where a text is split in two, the char a byte belongs to is found in the
/// first part, or past it in the second.
proof fn lemma_char_of_byte_concat(p: Seq<char>, q: Seq<char>, b: int)
    requires
        0 <= b,
    ensures
        b <= byte_len(p) ==> char_of_byte(p + q, b) == char_of_byte(p, b),
        b >= byte_len(p) ==> char_of_byte(p + q, b) == p.len() + char_of_byte(q, b - byte_len(p)),
    decreases p.len(),
{
    if p.len() == 0 {
        assert(p + q =~= q);
        assert(bytes_of(p) =~= Seq::<u8>::empty());
        if q.len() > 0 {
            crate::rope::lemma_char_width(q[0]);
        }
    } else {
        let w = byte_len(seq![p[0]]);
        crate::rope::lemma_char_width(p[0]);
        assert(p =~= seq![p[0]] + p.drop_first());
        lemma_bytes_concat(seq![p[0]], p.drop_first());
        assert((p + q)[0] == p[0]);
        assert((p + q).drop_first() =~= p.drop_first() + q);
        if w <= b {
            lemma_char_of_byte_concat(p.drop_first(), q, b - w);
        }
    }
}

/// The char of the text's end is the text's length.
proof fn lemma_char_of_end(t: Seq<char>)
    ensures
        char_of_byte(t, byte_len(t)) == t.len(),
        char_of_byte(t, 0) == 0,
        char_start(t, 0),
        char_start(t, byte_len(t)),
{
    crate::rope::lemma_char_of_char_start(t, t.len() as int);
    assert(t.take(t.len() as int) =~= t);
    crate::rope::lemma_char_of_char_start(t, 0);
    assert(t.take(0) =~= Seq::<char>::empty());
    assert(bytes_of(t.take(0)) =~= Seq::<u8>::empty());
}

/// Replacing the chars of bytes `s..e` by `m` keeps the text before `s`:
/// its char starts and its slices up to `s`; and the slice from a char start
/// before `s` to the end is the old slice up to `s`, `m`, then the old rest.
proof fn lemma_replace_keeps_prefix(t: Seq<char>, s: int, e: int, m: Seq<char>, a: int, b: int)
    requires
        s <= e,
        char_start(t, s),
        char_start(t, e),
        0 <= a <= b <= s,
        char_start(t, a),
    ensures
        char_start(edit_chars(t, s, e - s, m), a),
        chars_of_bytes(edit_chars(t, s, e - s, m), a, b) == chars_of_bytes(t, a, b),
        ({
            let t2 = edit_chars(t, s, e - s, m);
            chars_of_bytes(t2, a, byte_len(t2)) == chars_of_bytes(t, a, s) + m + chars_of_bytes(t, e, byte_len(t))
        }),
{
    let ks = char_of_byte(t, s);
    let ke = char_of_byte(t, e);
    lemma_char_of_byte_mono(t, s, e);
    lemma_char_of_byte_bounds(t, e);
    lemma_char_of_byte_bounds(t, s);
    lemma_edit_at(t, ks, ke - ks, m);
    let p = t.take(ks);
    let t2 = edit_chars(t, s, e - s, m);
    assert(t2 == p + m + t.skip(ke));
    assert(t2 =~= p + (m + t.skip(ke)));
    assert(t =~= p + t.skip(ks));
    lemma_char_of_byte_concat(p, m + t.skip(ke), a);
    lemma_char_of_byte_concat(p, m + t.skip(ke), b);
    lemma_char_of_byte_concat(p, t.skip(ks), a);
    lemma_char_of_byte_concat(p, t.skip(ks), b);
    let ca = char_of_byte(t, a);
    lemma_char_of_byte_bounds(p, a);
    lemma_char_of_byte_bounds(p, b);
    lemma_char_of_byte_mono(p, a, b);
    assert(t2.take(ca) =~= t.take(ca));
    assert(t2.subrange(ca, char_of_byte(t, b)) =~= t.subrange(ca, char_of_byte(t, b)));
    lemma_char_of_end(t2);
    lemma_char_of_end(t);
    lemma_char_of_byte_concat(p, t.skip(ks), s);
    lemma_char_of_byte_concat(p, m + t.skip(ke), s);
    assert(t2.subrange(ca, t2.len() as int) =~= t.subrange(ca, ks) + m + t.subrange(ke, t.len() as int));
}

/// Replacing the last correction's marker first leaves the text before it,
/// so the replaced pieces of the text before are those of the text after.
proof fn lemma_replaced_step(t: Seq<char>, cs: Seq<CorrectionV>, n: int, i: int, from: int)
    requires
        corrections_in_order(t, cs, n),
        n > 0,
        0 <= i <= n - 1,
        0 <= from <= cs[n - 1].start,
        char_start(t, from),
        i > 0 ==> from <= cs[i].start,
        i == 0 ==> from <= cs[0].start,
    ensures
        replaced(
            edit_chars(t, cs[n - 1].start, cs[n - 1].end - cs[n - 1].start, marker_text(cs[n - 1])),
            cs,
            n - 1,
            i,
            from,
        ) == replaced(t, cs, n, i, from),
    decreases n - i,
{
    let c = cs[n - 1];
    let t2 = edit_chars(t, c.start, c.end - c.start, marker_text(c));
    assert(c.start <= c.end && char_start(t, c.start) && char_start(t, c.end));
    if i == n - 1 {
        lemma_replace_keeps_prefix(t, c.start, c.end, marker_text(c), from, from);
        assert(replaced(t, cs, n, n, c.end) == chars_of_bytes(t, c.end, byte_len(t)));
    } else {
        let ci = cs[i];
        assert(ci.start <= ci.end && char_start(t, ci.start) && char_start(t, ci.end));
        assert(ci.end <= c.start);
        lemma_replace_keeps_prefix(t, c.start, c.end, marker_text(c), from, ci.start);
        if i + 1 < n - 1 {
            assert(ci.end <= cs[i + 1].start);
        }
        lemma_replaced_step(t, cs, n, i + 1, ci.end);
    }
}

/// Renumbering replaces each corrected marker, and nothing else: on
/// corrections that lie in the text one after another, the renumbered text is
/// the old text with the range of each correction replaced by its item's
/// number and the list's delimiter (`marker_text`), as long as the text
/// stays within what an offset can count.
pub proof fn law_renumbering_replaces_markers(t: Seq<char>, cs: Seq<CorrectionV>, n: int)
    requires
        corrections_in_order(t, cs, n),
        byte_len(t) + markers_bytes(cs, n) <= usize::MAX,
    ensures
        apply_corrections(t, cs, n) == replaced(t, cs, n, 0, 0),
    decreases n,
{
    lemma_char_of_end(t);
    if n == 0 {
        assert(t.subrange(0, t.len() as int) =~= t);
    } else {
        let c = cs[n - 1];
        let m = marker_text(c);
        assert(c.start <= c.end && char_start(t, c.start) && char_start(t, c.end));
        assert(markers_bytes(cs, n) >= byte_len(m)) by {
            assert(markers_bytes(cs, n) == markers_bytes(cs, n - 1) + byte_len(m));
            lemma_markers_bytes_nonneg(cs, n - 1);
        }
        assert(correction_applies(t, c));
        let t2 = edit_chars(t, c.start, c.end - c.start, m);
        lemma_edit_bytes(t, c.start, c.end, m);
        assert forall|i: int| 0 <= i < n - 1 implies (#[trigger] cs[i]).start <= cs[i].end && char_start(
            t2,
            cs[i].start,
        ) && char_start(t2, cs[i].end) by {
            assert(cs[i].start <= cs[i].end && char_start(t, cs[i].start) && char_start(t, cs[i].end));
            assert(cs[i].end <= c.start);
            lemma_replace_keeps_prefix(t, c.start, c.end, m, cs[i].start, cs[i].start);
            lemma_replace_keeps_prefix(t, c.start, c.end, m, cs[i].end, cs[i].end);
        }
        assert(corrections_in_order(t2, cs, n - 1));
        law_renumbering_replaces_markers(t2, cs, n - 1);
        lemma_replaced_step(t, cs, n, 0, 0);
    }
}

/// The bytes of new markers are never negative.
proof fn lemma_markers_bytes_nonneg(cs: Seq<CorrectionV>, n: int)
    ensures
        markers_bytes(cs, n) >= 0,
    decreases n,
{
    if n > 0 {
        lemma_markers_bytes_nonneg(cs, n - 1);
    }
}

/// The ordered markers of the items `cs[i..]` of a list, each with its place
/// among the items that have one, counting on from `item`.
pub open spec fn numbered_markers(nodes: Seq<SyntaxNode>, cs: Seq<int>, i: int, item: int) -> Seq<(int, int)>
    decreases cs.len() - i,
{
    if i < 0 || i >= cs.len() {
        seq![]
    } else if nodes[cs[i]].kind is ListItem {
        match first_ordered_marker(nodes, children(nodes, cs[i]), 0) {
            Some(m) => seq![(m, item)] + numbered_markers(nodes, cs, i + 1, item + 1),
            None => numbered_markers(nodes, cs, i + 1, item),
        }
    } else {
        numbered_markers(nodes, cs, i + 1, item)
    }
}

/// Marker node `p.0` reads the number `p.1`, or a correction in `corr` gives
/// its range that number.
pub open spec fn numbered_or_corrected(nodes: Seq<SyntaxNode>, t: Seq<char>, corr: Seq<CorrectionV>, p: (int, int)) -> bool {
    ||| marker_number(text_of(t, (nodes[p.0].start_byte as int, nodes[p.0].end_byte as int))) == p.1
    ||| exists|k: int|
        0 <= k < corr.len() && (#[trigger] corr[k]).start == nodes[p.0].start_byte && corr[k].end
            == nodes[p.0].end_byte && corr[k].number == p.1
}

/// The correction `c` gives the marker `p.0`, in place `p.1`, its place as
/// number, keeping its delimiter, where it read another number.
pub open spec fn corrects_marker(nodes: Seq<SyntaxNode>, t: Seq<char>, c: CorrectionV, p: (int, int)) -> bool {
    &&& c.start == nodes[p.0].start_byte
    &&& c.end == nodes[p.0].end_byte
    &&& c.number == p.1
    &&& c.paren == (nodes[p.0].kind is ListMarkerParenthesis)
    &&& marker_number(text_of(t, (nodes[p.0].start_byte as int, nodes[p.0].end_byte as int))) != p.1
}

/// Every marker of `nm` reads its place or is corrected to it.
pub open spec fn all_numbered(nodes: Seq<SyntaxNode>, t: Seq<char>, corr: Seq<CorrectionV>, nm: Seq<(int, int)>) -> bool {
    forall|q: int| 0 <= q < nm.len() ==> numbered_or_corrected(nodes, t, corr, #[trigger] nm[q])
}

/// The correction `c` corrects a marker of `nm` to its place.
pub open spec fn justified(nodes: Seq<SyntaxNode>, t: Seq<char>, c: CorrectionV, nm: Seq<(int, int)>) -> bool {
    exists|q: int| 0 <= q < nm.len() && #[trigger] corrects_marker(nodes, t, c, nm[q])
}

/// Every correction of `corr` corrects a marker of `nm` to its place.
pub open spec fn all_justified(nodes: Seq<SyntaxNode>, t: Seq<char>, corr: Seq<CorrectionV>, nm: Seq<(int, int)>) -> bool {
    forall|k: int| 0 <= k < corr.len() ==> #[trigger] justified(nodes, t, corr[k], nm)
}

/// A marker in front keeps every later marker numbered.
proof fn lemma_cons_numbered(
    nodes: Seq<SyntaxNode>,
    t: Seq<char>,
    p: (int, int),
    head: Seq<CorrectionV>,
    rest: Seq<CorrectionV>,
    rest_nm: Seq<(int, int)>,
)
    requires
        all_numbered(nodes, t, rest, rest_nm),
        numbered_or_corrected(nodes, t, head + rest, p),
    ensures
        all_numbered(nodes, t, head + rest, seq![p] + rest_nm),
{
    let corr = head + rest;
    let nm = seq![p] + rest_nm;
    assert forall|q: int| 0 <= q < nm.len() implies numbered_or_corrected(nodes, t, corr, #[trigger] nm[q]) by {
        if q > 0 {
            assert(nm[q] == rest_nm[q - 1]);
            assert(numbered_or_corrected(nodes, t, rest, rest_nm[q - 1]));
            if !(marker_number(text_of(t, (nodes[nm[q].0].start_byte as int, nodes[nm[q].0].end_byte as int)))
                == nm[q].1) {
                let w = choose|w: int|
                    0 <= w < rest.len() && (#[trigger] rest[w]).start == nodes[nm[q].0].start_byte
                        && rest[w].end == nodes[nm[q].0].end_byte && rest[w].number == nm[q].1;
                assert(corr[head.len() + w] == rest[w]);
            }
        }
    }
}

/// Corrections in front, each of the marker in front, keep every correction
/// justified.
proof fn lemma_cons_justified(
    nodes: Seq<SyntaxNode>,
    t: Seq<char>,
    p: (int, int),
    head: Seq<CorrectionV>,
    rest: Seq<CorrectionV>,
    rest_nm: Seq<(int, int)>,
)
    requires
        all_justified(nodes, t, rest, rest_nm),
        forall|k: int| 0 <= k < head.len() ==> corrects_marker(nodes, t, #[trigger] head[k], p),
    ensures
        all_justified(nodes, t, head + rest, seq![p] + rest_nm),
{
    let corr = head + rest;
    let nm = seq![p] + rest_nm;
    assert forall|k: int| 0 <= k < corr.len() implies #[trigger] justified(nodes, t, corr[k], nm) by {
        if k < head.len() {
            assert(corr[k] == head[k]);
            assert(corrects_marker(nodes, t, corr[k], nm[0]));
        } else {
            assert(corr[k] == rest[k - head.len()]);
            assert(justified(nodes, t, rest[k - head.len()], rest_nm));
            let q = choose|q: int| 0 <= q < rest_nm.len() && #[trigger] corrects_marker(nodes, t, rest[k - head.len()], rest_nm[q]);
            assert(nm[q + 1] == rest_nm[q]);
            assert(corrects_marker(nodes, t, corr[k], nm[q + 1]));
        }
    }
}

/// The corrections of an ordered list number its items 1, 2, 3, ...: the
/// item in place `j` among those with a marker either reads `j` already or is
/// corrected to `j`; and every correction is of such an item, one that did
/// not read its place, and keeps its list's delimiter.
pub proof fn law_corrections_number_items(nodes: Seq<SyntaxNode>, cs: Seq<int>, i: int, item: int, t: Seq<char>)
    ensures
        all_numbered(nodes, t, item_corrections(nodes, cs, i, item, t), numbered_markers(nodes, cs, i, item)),
        all_justified(nodes, t, item_corrections(nodes, cs, i, item, t), numbered_markers(nodes, cs, i, item)),
    decreases cs.len() - i,
{
    if !(i < 0 || i >= cs.len()) {
        let skip = !(nodes[cs[i]].kind is ListItem) || first_ordered_marker(nodes, children(nodes, cs[i]), 0) is None;
        if skip {
            law_corrections_number_items(nodes, cs, i + 1, item, t);
            assert(numbered_markers(nodes, cs, i, item) == numbered_markers(nodes, cs, i + 1, item));
            assert(item_corrections(nodes, cs, i, item, t) == item_corrections(nodes, cs, i + 1, item, t));
        } else {
            law_corrections_number_items(nodes, cs, i + 1, item + 1, t);
            let m = first_ordered_marker(nodes, children(nodes, cs[i]), 0)->0;
            let rest_nm = numbered_markers(nodes, cs, i + 1, item + 1);
            let rest = item_corrections(nodes, cs, i + 1, item + 1, t);
            let n = marker_number(text_of(t, (nodes[m].start_byte as int, nodes[m].end_byte as int)));
            let c = CorrectionV {
                start: nodes[m].start_byte as int,
                end: nodes[m].end_byte as int,
                number: item,
                paren: nodes[m].kind is ListMarkerParenthesis,
            };
            let head = if n != item {
                seq![c]
            } else {
                seq![]
            };
            assert(item_corrections(nodes, cs, i, item, t) == head + rest);
            assert(numbered_markers(nodes, cs, i, item) == seq![(m, item)] + rest_nm);
            if n != item {
                assert((head + rest)[0] == c);
            }
            assert(numbered_or_corrected(nodes, t, head + rest, (m, item)));
            lemma_cons_numbered(nodes, t, (m, item), head, rest, rest_nm);
            lemma_cons_justified(nodes, t, (m, item), head, rest, rest_nm);
        }
    }
}

} // verus!
