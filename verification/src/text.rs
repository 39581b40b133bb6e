//! Text helpers shared by the library: byte ranges of UTF-8 text, owned
//! strings built from them, and the character classes the editor relies on.

use vstd::prelude::*;
use vstd::utf8::*;
use vstd::string::StringSliceAdditionalSpecFns;

verus! {

broadcast use vstd::string::group_string_axioms;

/// The UTF-8 bytes of a char sequence.
pub open spec fn bytes_of(s: Seq<char>) -> Seq<u8> {
    encode_utf8(s)
}

/// True when `start..end` is a range of `bytes` whose ends fall on char boundaries,
/// i.e. a range by which a `&str` can be indexed without panicking.
pub open spec fn valid_byte_range(bytes: Seq<u8>, start: int, end: int) -> bool {
    &&& 0 <= start <= end <= bytes.len()
    &&& is_char_boundary(bytes, start)
    &&& is_char_boundary(bytes, end)
}

/// The chars spelled by the bytes `start..end` of `bytes`.
pub open spec fn chars_in(bytes: Seq<u8>, start: int, end: int) -> Seq<char> {
    decode_utf8(bytes.subrange(start, end))
}

/// Unicode `White_Space` property, as `char::is_whitespace` documents it.
pub open spec fn is_ws(c: char) -> bool {
    let u = c as u32;
    ||| (0x09 <= u && u <= 0x0D)
    ||| u == 0x20
    ||| u == 0x85
    ||| u == 0xA0
    ||| u == 0x1680
    ||| (0x2000 <= u && u <= 0x200A)
    ||| u == 0x2028
    ||| u == 0x2029
    ||| u == 0x202F
    ||| u == 0x205F
    ||| u == 0x3000
}

/// Number of leading chars of `s` that are whitespace.
pub open spec fn leading_ws_len(s: Seq<char>) -> nat
    decreases s.len(),
{
    if s.len() == 0 {
        0
    } else if is_ws(s[0]) {
        1 + leading_ws_len(s.drop_first())
    } else {
        0
    }
}

/// True when every char of `s` is whitespace.
pub open spec fn all_ws(s: Seq<char>) -> bool {
    forall|i: int| 0 <= i < s.len() ==> is_ws(#[trigger] s[i])
}

pub proof fn lemma_leading_ws_len(s: Seq<char>)
    ensures
        leading_ws_len(s) <= s.len(),
        forall|i: int| 0 <= i < leading_ws_len(s) ==> is_ws(#[trigger] s[i]),
        leading_ws_len(s) < s.len() ==> !is_ws(s[leading_ws_len(s) as int]),
    decreases s.len(),
{
    if s.len() > 0 && is_ws(s[0]) {
        lemma_leading_ws_len(s.drop_first());
        assert forall|i: int| 0 <= i < leading_ws_len(s) implies is_ws(#[trigger] s[i]) by {
            if i > 0 {
                assert(s[i] == s.drop_first()[i - 1]);
            }
        }
    }
}

/// Whether `c` has the Unicode `White_Space` property (as `char::is_whitespace`).
pub(crate) fn char_is_whitespace(c: char) -> (b: bool)
    ensures
        b == is_ws(c),
{
    let u = c as u32;
    (0x09 <= u && u <= 0x0D) || u == 0x20 || u == 0x85 || u == 0xA0 || u == 0x1680 || (0x2000 <= u && u
        <= 0x200A) || u == 0x2028 || u == 0x2029 || u == 0x202F || u == 0x205F || u == 0x3000
}

/// A char below 0x80 is the one byte of its code.
pub proof fn lemma_ascii_char_bytes(c: char)
    requires
        (c as u32) < 0x80,
    ensures
        bytes_of(seq![c]) == seq![(c as u32) as u8],
{
    let x = c as u32;
    assert((x & 0x7F) as u8 == x as u8) by (bit_vector)
        requires
            x < 0x80,
    ;
    assert(seq![c].drop_first() =~= Seq::<char>::empty());
    assert(bytes_of(seq![c]) =~= encode_scalar(x) + bytes_of(seq![c].drop_first()));
}

/// Whether `c` has the Unicode `Alphabetic` or `Numeric` property, as
/// `char::is_alphanumeric` decides.
pub uninterp spec fn is_alphanumeric(c: char) -> bool;

/// `char::is_alphanumeric` from std: the result is named, not stated.
#[verifier::external_body]
pub(crate) fn char_is_alphanumeric(c: char) -> (b: bool)
    ensures
        b == is_alphanumeric(c),
{
    c.is_alphanumeric()
}

/// `String::push` from std.
#[verifier::external_body]
pub(crate) fn string_push(s: &mut String, c: char)
    ensures
        final(s)@ == old(s)@.push(c),
{
    s.push(c)
}

/// `String::push_str` from std.
#[verifier::external_body]
pub(crate) fn string_push_str(s: &mut String, t: &str)
    ensures
        final(s)@ == old(s)@ + t@,
{
    s.push_str(t)
}

/// `String::from_utf8` from std, on bytes that are valid UTF-8 (where it cannot fail).
#[verifier::external_body]
pub(crate) fn string_from_utf8(bytes: &[u8]) -> (s: String)
    requires
        valid_utf8(bytes@),
    ensures
        s@ == decode_utf8(bytes@),
{
    String::from_utf8(bytes.to_vec()).unwrap()
}

/// The chars of a string slice, in order.
pub fn chars_of(s: &str) -> (v: Vec<char>)
    ensures
        v@ == s@,
{
    let mut v: Vec<char> = Vec::new();
    for c in it: s.chars()
        invariant
            v@ == it.seq().take(it.index() as int),
            it.seq() == s@,
    {
        v.push(c);
    }
    v
}

/// An owned string holding exactly the given chars.
pub fn string_from_chars(v: &Vec<char>) -> (s: String)
    ensures
        s@ == v@,
{
    let mut s = String::new();
    let mut i: usize = 0;
    while i < v.len()
        invariant
            i <= v.len(),
            s@ == v@.take(i as int),
        decreases v.len() - i,
    {
        string_push(&mut s, v[i]);
        assert(v@.take(i as int).push(v@[i as int]) =~= v@.take(i + 1));
        i += 1;
    }
    assert(v@.take(v.len() as int) =~= v@);
    s
}

/// A suffix of a char boundary range of valid UTF-8 keeps the boundary.
pub proof fn lemma_boundary_in_suffix(bytes: Seq<u8>, start: int, end: int)
    requires
        valid_utf8(bytes),
        valid_byte_range(bytes, start, end),
    ensures
        valid_utf8(bytes.subrange(start, bytes.len() as int)),
        is_char_boundary(bytes.subrange(start, bytes.len() as int), end - start),
        valid_utf8(bytes.subrange(start, end)),
{
    let tail = bytes.subrange(start, bytes.len() as int);
    valid_utf8_split(bytes, start);
    if end < bytes.len() {
        is_char_boundary_iff_not_is_continuation_byte(bytes, end);
        is_char_boundary_iff_not_is_continuation_byte(tail, end - start);
        assert(tail[end - start] == bytes[end]);
    } else {
        is_char_boundary_start_end_of_seq(tail);
        assert(tail.len() == end - start);
    }
    valid_utf8_split(tail, end - start);
    assert(tail.subrange(0, end - start) =~= bytes.subrange(start, end));
}

/// The bytes `start..end` of `s` as an owned string (`s[start..end].to_string()`).
pub fn slice_string(s: &str, start: usize, end: usize) -> (r: String)
    requires
        valid_byte_range(s.spec_bytes(), start as int, end as int),
    ensures
        r@ == chars_in(s.spec_bytes(), start as int, end as int),
{
    let bytes = s.as_bytes();
    proof {
        encode_utf8_valid_utf8(s@);
        lemma_boundary_in_suffix(s.spec_bytes(), start as int, end as int);
    }
    let sub = vstd::slice::slice_subrange(bytes, start, end);
    string_from_utf8(sub)
}

} // verus!

verus! {

/// Number of trailing chars of `s` that are whitespace.
pub open spec fn trailing_ws_len(s: Seq<char>) -> nat
    decreases s.len(),
{
    if s.len() == 0 {
        0
    } else if is_ws(s.last()) {
        1 + trailing_ws_len(s.drop_last())
    } else {
        0
    }
}

/// `s` with leading and trailing whitespace removed (`str::trim`).
pub open spec fn trim_spec(s: Seq<char>) -> Seq<char> {
    let a = leading_ws_len(s) as int;
    if a == s.len() {
        seq![]
    } else {
        s.subrange(a, s.len() - trailing_ws_len(s))
    }
}

pub proof fn lemma_trailing_ws_len(s: Seq<char>)
    ensures
        trailing_ws_len(s) <= s.len(),
        trailing_ws_len(s) < s.len() ==> !is_ws(s[s.len() - 1 - trailing_ws_len(s)]),
        forall|i: int| s.len() - trailing_ws_len(s) <= i < s.len() ==> is_ws(#[trigger] s[i]),
    decreases s.len(),
{
    if s.len() > 0 && is_ws(s.last()) {
        lemma_trailing_ws_len(s.drop_last());
        assert forall|i: int| s.len() - trailing_ws_len(s) <= i < s.len() implies is_ws(
            #[trigger] s[i],
        ) by {
            if i < s.len() - 1 {
                assert(s[i] == s.drop_last()[i]);
            }
        }
        if trailing_ws_len(s) < s.len() {
            assert(s[s.len() - 1 - trailing_ws_len(s)] == s.drop_last()[s.drop_last().len() - 1
                - trailing_ws_len(s.drop_last())]);
        }
    }
}

/// Number of leading whitespace chars of `v`.
pub fn count_leading_ws(v: &Vec<char>) -> (n: usize)
    ensures
        n == leading_ws_len(v@),
{
    proof {
        lemma_leading_ws_len(v@);
    }
    let mut k: usize = 0;
    while k < v.len() && char_is_whitespace(v[k])
        invariant
            k <= leading_ws_len(v@),
            k <= v.len(),
            forall|i: int| 0 <= i < leading_ws_len(v@) ==> is_ws(#[trigger] v@[i]),
            leading_ws_len(v@) < v@.len() ==> !is_ws(v@[leading_ws_len(v@) as int]),
            leading_ws_len(v@) <= v@.len(),
        decreases v.len() - k,
    {
        k += 1;
    }
    k
}

/// Number of trailing whitespace chars of `v`.
pub fn count_trailing_ws(v: &Vec<char>) -> (n: usize)
    ensures
        n == trailing_ws_len(v@),
{
    proof {
        lemma_trailing_ws_len(v@);
    }
    let mut k: usize = 0;
    while k < v.len() && char_is_whitespace(v[v.len() - 1 - k])
        invariant
            k <= trailing_ws_len(v@),
            k <= v.len(),
            forall|i: int| v@.len() - trailing_ws_len(v@) <= i < v@.len() ==> is_ws(#[trigger] v@[i]),
            trailing_ws_len(v@) < v@.len() ==> !is_ws(v@[v@.len() - 1 - trailing_ws_len(v@)]),
            trailing_ws_len(v@) <= v@.len(),
        decreases v.len() - k,
    {
        k += 1;
    }
    k
}

/// The chars `v[start..end]`.
pub fn sub_chars(v: &Vec<char>, start: usize, end: usize) -> (r: Vec<char>)
    requires
        start <= end <= v.len(),
    ensures
        r@ == v@.subrange(start as int, end as int),
{
    let mut r: Vec<char> = Vec::new();
    let mut i = start;
    while i < end
        invariant
            start <= i <= end <= v.len(),
            r@ == v@.subrange(start as int, i as int),
        decreases end - i,
    {
        r.push(v[i]);
        assert(v@.subrange(start as int, i as int).push(v@[i as int]) =~= v@.subrange(
            start as int,
            i + 1,
        ));
        i += 1;
    }
    r
}

/// `s.trim()` as chars.
pub fn trim_chars(v: &Vec<char>) -> (r: Vec<char>)
    ensures
        r@ == trim_spec(v@),
{
    let a = count_leading_ws(v);
    if a == v.len() {
        return Vec::new();
    }
    let b = count_trailing_ws(v);
    proof {
        lemma_leading_ws_len(v@);
        lemma_trailing_ws_len(v@);
        // the char at index `a` is not whitespace, so the trailing run stops after it
        if a + b > v.len() {
            assert(is_ws(v@[a as int]));
        }
    }
    sub_chars(v, a, v.len() - b)
}

} // verus!

verus! {

/// `s` begins with `p`.
pub open spec fn has_prefix(s: Seq<char>, p: Seq<char>) -> bool {
    p.len() <= s.len() && s.take(p.len() as int) == p
}

/// `s` ends with `p`.
pub open spec fn has_suffix(s: Seq<char>, p: Seq<char>) -> bool {
    p.len() <= s.len() && s.skip(s.len() - p.len()) == p
}

/// `str::strip_prefix`.
pub open spec fn strip_prefix_spec(s: Seq<char>, p: Seq<char>) -> Option<Seq<char>> {
    if has_prefix(s, p) {
        Some(s.skip(p.len() as int))
    } else {
        None
    }
}

/// `str::strip_suffix`.
pub open spec fn strip_suffix_spec(s: Seq<char>, p: Seq<char>) -> Option<Seq<char>> {
    if has_suffix(s, p) {
        Some(s.take(s.len() - p.len()))
    } else {
        None
    }
}

/// Index of the first `c` in `s` at or after `i`.
pub open spec fn find_char_from(s: Seq<char>, c: char, i: int) -> Option<int>
    decreases s.len() - i,
{
    if i < 0 || i >= s.len() {
        None
    } else if s[i] == c {
        Some(i)
    } else {
        find_char_from(s, c, i + 1)
    }
}

/// `str::split_once` on a char.
pub open spec fn split_once_spec(s: Seq<char>, c: char) -> Option<(Seq<char>, Seq<char>)> {
    match find_char_from(s, c, 0) {
        Some(i) => Some((s.take(i), s.skip(i + 1))),
        None => None,
    }
}

/// The text before the first `c` (all of `s` when there is none): `s.split(c).next()`.
pub open spec fn before_char(s: Seq<char>, c: char) -> Seq<char> {
    match find_char_from(s, c, 0) {
        Some(i) => s.take(i),
        None => s,
    }
}

/// `p` occurs in `s` (`str::contains`).
pub open spec fn contains_seq(s: Seq<char>, p: Seq<char>) -> bool {
    exists|i: int| 0 <= i && i + p.len() <= s.len() && #[trigger] s.subrange(i, i + p.len()) == p
}

pub proof fn lemma_find_char_from(s: Seq<char>, c: char, i: int)
    requires
        0 <= i,
    ensures
        find_char_from(s, c, i) matches Some(k) ==> i <= k < s.len() && s[k] == c && forall|j: int|
            i <= j < k ==> s[j] != c,
        find_char_from(s, c, i) is None ==> forall|j: int| i <= j < s.len() ==> s[j] != c,
    decreases s.len() - i,
{
    if i < s.len() && s[i] != c {
        lemma_find_char_from(s, c, i + 1);
    }
}

/// Whether `s[i..]` begins with `p`.
pub fn matches_at(s: &Vec<char>, i: usize, p: &Vec<char>) -> (b: bool)
    requires
        i <= s.len(),
    ensures
        b == (i + p.len() <= s.len() && s@.subrange(i as int, i + p.len()) == p@),
{
    if p.len() > s.len() - i {
        return false;
    }
    let mut j: usize = 0;
    while j < p.len()
        invariant
            j <= p.len(),
            i + p.len() <= s.len(),
            forall|k: int| 0 <= k < j ==> s@[i + k] == p@[k],
        decreases p.len() - j,
    {
        if s[i + j] != p[j] {
            assert(s@.subrange(i as int, i + p.len())[j as int] != p@[j as int]);
            return false;
        }
        j += 1;
    }
    assert(s@.subrange(i as int, i + p.len()) =~= p@);
    true
}

/// `s.starts_with(p)`.
pub fn starts_with_chars(s: &Vec<char>, p: &Vec<char>) -> (b: bool)
    ensures
        b == has_prefix(s@, p@),
{
    let b = matches_at(s, 0, p);
    assert(s@.take(p@.len() as int) =~= s@.subrange(0, p@.len() as int));
    b
}

/// `s.strip_prefix(p)`.
pub fn strip_prefix_chars(s: &Vec<char>, p: &Vec<char>) -> (r: Option<Vec<char>>)
    ensures
        (match r {
            Some(v) => Some(v@),
            None => None,
        }) == strip_prefix_spec(s@, p@),
{
    if starts_with_chars(s, p) {
        let v = sub_chars(s, p.len(), s.len());
        assert(v@ =~= s@.skip(p@.len() as int));
        Some(v)
    } else {
        None
    }
}

/// `s.strip_suffix(p)`.
pub fn strip_suffix_chars(s: &Vec<char>, p: &Vec<char>) -> (r: Option<Vec<char>>)
    ensures
        (match r {
            Some(v) => Some(v@),
            None => None,
        }) == strip_suffix_spec(s@, p@),
{
    if p.len() > s.len() {
        return None;
    }
    let at = s.len() - p.len();
    let b = matches_at(s, at, p);
    assert(s@.skip(at as int) =~= s@.subrange(at as int, at + p@.len()));
    if b {
        let v = sub_chars(s, 0, at);
        assert(v@ =~= s@.take(at as int));
        Some(v)
    } else {
        None
    }
}

/// Index of the first `c` in `s`.
pub fn find_char(s: &Vec<char>, c: char) -> (r: Option<usize>)
    ensures
        (match r {
            Some(i) => Some(i as int),
            None => None,
        }) == find_char_from(s@, c, 0),
{
    let mut i: usize = 0;
    while i < s.len()
        invariant
            i <= s.len(),
            find_char_from(s@, c, i as int) == find_char_from(s@, c, 0),
        decreases s.len() - i,
    {
        if s[i] == c {
            return Some(i);
        }
        i += 1;
    }
    None
}

/// `s.split_once(c)`.
pub fn split_once_chars(s: &Vec<char>, c: char) -> (r: Option<(Vec<char>, Vec<char>)>)
    ensures
        (match r {
            Some(p) => Some((p.0@, p.1@)),
            None => None,
        }) == split_once_spec(s@, c),
{
    match find_char(s, c) {
        Some(i) => {
            proof {
                lemma_find_char_from(s@, c, 0);
                assert(find_char_from(s@, c, 0) == Some(i as int));
            }
            assert(i < s.len());
            let a = sub_chars(s, 0, i);
            let b = sub_chars(s, i + 1, s.len());
            assert(a@ =~= s@.take(i as int));
            assert(b@ =~= s@.skip(i + 1));
            Some((a, b))
        },
        None => None,
    }
}

/// `s.split(c).next()`: the text before the first `c`.
pub fn before_char_chars(s: &Vec<char>, c: char) -> (r: Vec<char>)
    ensures
        r@ == before_char(s@, c),
{
    match find_char(s, c) {
        Some(i) => {
            proof {
                lemma_find_char_from(s@, c, 0);
                assert(find_char_from(s@, c, 0) == Some(i as int));
            }
            let a = sub_chars(s, 0, i);
            assert(a@ =~= s@.take(i as int));
            a
        },
        None => {
            let a = sub_chars(s, 0, s.len());
            assert(a@ =~= s@);
            a
        },
    }
}

/// `s.contains(p)`.
pub fn contains_chars(s: &Vec<char>, p: &Vec<char>) -> (b: bool)
    ensures
        b == contains_seq(s@, p@),
{
    if p.len() > s.len() {
        return false;
    }
    let last = s.len() - p.len();
    let mut i: usize = 0;
    loop
        invariant
            p.len() <= s.len(),
            last == s.len() - p.len(),
            i <= last,
            forall|k: int|
                0 <= k < i && k + p@.len() <= s@.len() ==> #[trigger] s@.subrange(k, k + p@.len())
                    != p@,
        decreases last - i,
    {
        if matches_at(s, i, p) {
            return true;
        }
        if i == last {
            return false;
        }
        i += 1;
    }
}

} // verus!
