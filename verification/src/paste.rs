//! Context-aware paste handling for markdown.
//!
//! Pasted content gets minimal transformation: line endings are normalized
//! (CRLF → LF), curly quotes become straight quotes, code blocks take content
//! literally, and inside a blockquote continuation lines get the quote prefix.

use vstd::prelude::*;

use crate::buffer::{line_of, Buffer};
use crate::marker::{LineMarkers, MarkerKind};
use crate::rope::byte_len;
use crate::text::{
    chars_of, count_trailing_ws, find_char_from, lemma_find_char_from, string_from_chars,
    string_push, sub_chars, trailing_ws_len, lemma_trailing_ws_len,
};

verus! {

broadcast use vstd::string::group_string_axioms;

/// Context about the cursor position for paste operations.
#[derive(Debug, Clone)]
pub struct PasteContext {
    /// Whether the cursor is inside a code block.
    pub in_code_block: bool,
    /// The blockquote prefix to apply to continuation lines (e.g., "> " or "> > ").
    pub blockquote_prefix: String,
}

/// `s` with every `\r\n` pair replaced by `\n`, scanning left to right.
pub open spec fn replace_crlf(s: Seq<char>) -> Seq<char>
    decreases s.len(),
{
    if s.len() == 0 {
        seq![]
    } else if s.len() >= 2 && s[0] == '\r' && s[1] == '\n' {
        seq!['\n'] + replace_crlf(s.skip(2))
    } else {
        seq![s[0]] + replace_crlf(s.skip(1))
    }
}

/// A lone `\r` becomes `\n`; curly quotes become straight quotes.
pub open spec fn normalize_char(c: char) -> char {
    if c == '\r' {
        '\n'
    } else if c == '\u{201C}' || c == '\u{201D}' {
        '"'
    } else if c == '\u{2018}' || c == '\u{2019}' {
        '\''
    } else {
        c
    }
}

/// Line endings normalized to `\n` and curly quotes straightened.
pub open spec fn normalize_spec(s: Seq<char>) -> Seq<char> {
    replace_crlf(s).map_values(|c: char| normalize_char(c))
}

/// Normalized text holds no `\r` and no curly quote: line endings are all
/// `\n` and quotes are straight.
pub proof fn law_normalized_is_plain(s: Seq<char>)
    ensures
        forall|i: int|
            0 <= i < normalize_spec(s).len() ==> {
                let c = #[trigger] normalize_spec(s)[i];
                &&& c != '\r'
                &&& c != '\u{201C}' && c != '\u{201D}'
                &&& c != '\u{2018}' && c != '\u{2019}'
            },
{
}

/// The lines of `s` as `str::lines` gives them for text without `\r`:
/// split at `\n`, with no empty line after a final newline.
pub open spec fn lines_spec(s: Seq<char>) -> Seq<Seq<char>>
    decreases s.len(),
{
    if s.len() == 0 {
        seq![]
    } else {
        match find_char_from(s, '\n', 0) {
            None => seq![s],
            Some(i) => {
                proof {
                    lemma_find_char_from(s, '\n', 0);
                }
                seq![s.take(i)] + lines_spec(s.skip(i + 1))
            },
        }
    }
}

/// Lines joined with `\n` between them.
pub open spec fn join_lines(ls: Seq<Seq<char>>) -> Seq<char>
    decreases ls.len(),
{
    if ls.len() == 0 {
        seq![]
    } else if ls.len() == 1 {
        ls[0]
    } else {
        join_lines(ls.drop_last()) + seq!['\n'] + ls.last()
    }
}

/// A pasted line inside a blockquote: the first stays as it is, an empty one
/// becomes the bare marker, the others get the prefix.
pub open spec fn quote_line(i: int, line: Seq<char>, prefix: Seq<char>) -> Seq<char> {
    if i == 0 {
        line
    } else if line.len() == 0 {
        prefix.take(prefix.len() - trailing_ws_len(prefix))
    } else {
        prefix + line
    }
}

/// A line of a paste inside a blockquote: the first stays as it is; every
/// other gets the blockquote prefix in front; an empty one becomes the prefix
/// with its trailing whitespace cut, so it keeps the prefix's quote depth:
/// no char but whitespace is cut, and what is left does not end in
/// whitespace.
pub proof fn law_quote_line(i: int, line: Seq<char>, prefix: Seq<char>)
    ensures
        i == 0 ==> quote_line(i, line, prefix) == line,
        i != 0 && line.len() > 0 ==> quote_line(i, line, prefix) == prefix + line,
        i != 0 && line.len() == 0 ==> {
            let r = quote_line(i, line, prefix);
            &&& r.len() <= prefix.len()
            &&& r == prefix.take(r.len() as int)
            &&& r.len() == 0 || !crate::text::is_ws(r.last())
            &&& forall|j: int| r.len() <= j < prefix.len() ==> crate::text::is_ws(#[trigger] prefix[j])
            &&& forall|j: int| r.len() <= j < prefix.len() ==> #[trigger] prefix[j] != '>'
        },
{
    crate::text::lemma_trailing_ws_len(prefix);
    if i != 0 && line.len() == 0 {
        let r = quote_line(i, line, prefix);
        assert(r == prefix.take(r.len() as int));
        if r.len() > 0 {
            assert(r.last() == prefix[prefix.len() - 1 - trailing_ws_len(prefix)]);
        }
    }
}

/// The text a paste inserts.
pub open spec fn transform_paste_spec(text: Seq<char>, in_code_block: bool, prefix: Seq<char>) -> Seq<
    char,
> {
    let normalized = normalize_spec(text);
    if in_code_block || prefix.len() == 0 {
        normalized
    } else {
        let ls = lines_spec(normalized);
        join_lines(Seq::new(ls.len(), |i: int| quote_line(i, ls[i], prefix)))
    }
}

/// Normalize line endings and curly quotes.
pub fn normalize(text: &str) -> (r: String)
    ensures
        r@ == normalize_spec(text@),
{
    let v = chars_of(text);
    let mut out: Vec<char> = Vec::new();
    let mut i: usize = 0;
    assert(v@.skip(0) =~= v@);
    assert(out@ + normalize_spec(v@.skip(0)) =~= normalize_spec(v@));
    while i < v.len()
        invariant
            i <= v.len(),
            out@ + normalize_spec(v@.skip(i as int)) == normalize_spec(v@),
        decreases v.len() - i,
    {
        let ghost rest = v@.skip(i as int);
        let c = v[i];
        let step: usize = if c == '\r' && i + 1 < v.len() && v[i + 1] == '\n' {
            2
        } else {
            1
        };
        let n = if c == '\r' {
            '\n'
        } else if c == '\u{201C}' || c == '\u{201D}' {
            '"'
        } else if c == '\u{2018}' || c == '\u{2019}' {
            '\''
        } else {
            c
        };
        out.push(n);
        proof {
            assert(rest.skip(step as int) =~= v@.skip(i + step));
            assert(replace_crlf(rest) == seq![if step == 2 { '\n' } else { c }] + replace_crlf(
                rest.skip(step as int),
            ));
            assert(normalize_spec(rest) =~= seq![n] + normalize_spec(rest.skip(step as int)));
        }
        i += step;
    }
    assert(v@.skip(v.len() as int) =~= Seq::<char>::empty());
    assert(out@ =~= normalize_spec(v@));
    string_from_chars(&out)
}

/// Transform pasted content based on context.
pub fn transform_paste(text: &str, ctx: &PasteContext) -> (r: String)
    ensures
        r@ == transform_paste_spec(text@, ctx.in_code_block, ctx.blockquote_prefix@),
{
    let normalized = normalize(text);
    // In code block: paste literally; no blockquote: paste as-is
    if ctx.in_code_block || ctx.blockquote_prefix.as_str().is_empty() {
        return normalized;
    }
    let prefix = chars_of(ctx.blockquote_prefix.as_str());
    let trailing = count_trailing_ws(&prefix);
    proof {
        lemma_trailing_ws_len(prefix@);
    }
    let bare_marker = sub_chars(&prefix, 0, prefix.len() - trailing);
    let v = chars_of(normalized.as_str());
    let ghost ls = lines_spec(v@);
    let ghost quoted = Seq::new(ls.len(), |i: int| quote_line(i, ls[i], prefix@));
    // In blockquote: prefix continuation lines
    let mut out: Vec<char> = Vec::new();
    let mut pos: usize = 0;
    let mut idx: usize = 0;
    assert(v@.skip(0) =~= v@);
    assert(quoted.take(0) =~= Seq::<Seq<char>>::empty());
    while pos < v.len()
        invariant
            pos <= v.len(),
            idx <= pos,
            ls == lines_spec(v@),
            quoted == Seq::new(ls.len(), |i: int| quote_line(i, ls[i], prefix@)),
            bare_marker@ == prefix@.take(prefix@.len() - trailing_ws_len(prefix@)),
            idx + lines_spec(v@.skip(pos as int)).len() == ls.len(),
            forall|j: int|
                0 <= j < lines_spec(v@.skip(pos as int)).len() ==> ls[idx + j] == #[trigger] lines_spec(
                    v@.skip(pos as int),
                )[j],
            out@ == join_lines(quoted.take(idx as int)),
            idx == 0 <==> pos == 0,
        decreases v.len() - pos,
    {
        let ghost rest = v@.skip(pos as int);
        // find the end of the current line
        let mut e = pos;
        while e < v.len() && v[e] != '\n'
            invariant
                pos <= e <= v.len(),
                forall|k: int| pos <= k < e ==> v@[k] != '\n',
            decreases v.len() - e,
        {
            e += 1;
        }
        let line = sub_chars(&v, pos, e);
        proof {
            lemma_find_char_from(rest, '\n', 0);
            if e < v.len() {
                assert(rest[e - pos] == '\n');
                assert(find_char_from(rest, '\n', 0) == Some((e - pos) as int)) by {
                    assert forall|k: int| 0 <= k < e - pos implies rest[k] != '\n' by {
                        assert(rest[k] == v@[pos + k]);
                    }
                    lemma_find_first(rest, '\n', (e - pos) as int);
                }
                assert(rest.take(e - pos) =~= line@);
                assert(rest.skip(e - pos + 1) =~= v@.skip(e + 1));
            } else {
                assert(find_char_from(rest, '\n', 0) is None) by {
                    if find_char_from(rest, '\n', 0) is Some {
                        let k = find_char_from(rest, '\n', 0)->0;
                        assert(rest[k] == v@[pos + k]);
                    }
                }
                assert(rest =~= line@);
            }
            assert(lines_spec(rest)[0] == line@);
        }
        let ghost before = out@;
        if idx > 0 {
            out.push('\n');
        }
        if idx == 0 {
            // First line: cursor is already positioned, no prefix needed
            append_chars(&mut out, &line);
        } else if line.len() == 0 {
            // Empty line: just the blockquote marker without trailing space
            append_chars(&mut out, &bare_marker);
        } else {
            append_chars(&mut out, &prefix);
            append_chars(&mut out, &line);
        }
        proof {
            assert(ls[idx as int] == line@);
            assert(quoted[idx as int] == quote_line(idx as int, line@, prefix@));
            let q = quoted.take(idx + 1);
            assert(q.drop_last() =~= quoted.take(idx as int));
            if idx > 0 {
                assert(out@ =~= before + seq!['\n'] + quoted[idx as int]);
            } else {
                assert(quoted.take(1) =~= seq![quoted[0]]);
                assert(out@ =~= quoted[0]);
            }
            if e < v.len() {
                assert(lines_spec(rest) == seq![line@] + lines_spec(v@.skip(e + 1)));
                assert forall|j: int| 0 <= j < lines_spec(v@.skip(e + 1)).len() implies ls[idx + 1
                    + j] == #[trigger] lines_spec(v@.skip(e + 1))[j] by {
                    assert(lines_spec(rest)[j + 1] == lines_spec(v@.skip(e + 1))[j]);
                }
            } else {
                assert(lines_spec(rest) == seq![line@]);
                assert(v@.skip(e as int) =~= Seq::<char>::empty());
            }
        }
        pos = if e < v.len() { e + 1 } else { e };
        idx += 1;
    }
    proof {
        assert(v@.skip(pos as int) =~= Seq::<char>::empty());
        assert(quoted.take(idx as int) =~= quoted);
    }
    string_from_chars(&out)
}

proof fn lemma_find_first(s: Seq<char>, c: char, k: int)
    requires
        0 <= k < s.len(),
        s[k] == c,
        forall|j: int| 0 <= j < k ==> s[j] != c,
    ensures
        find_char_from(s, c, 0) == Some(k),
{
    lemma_find_first_from(s, c, k, 0);
}

proof fn lemma_find_first_from(s: Seq<char>, c: char, k: int, i: int)
    requires
        0 <= i <= k < s.len(),
        s[k] == c,
        forall|j: int| 0 <= j < k ==> s[j] != c,
    ensures
        find_char_from(s, c, i) == Some(k),
    decreases k - i,
{
    if i < k {
        lemma_find_first_from(s, c, k, i + 1);
    }
}

/// Append `src` to `dst`.
fn append_chars(dst: &mut Vec<char>, src: &Vec<char>)
    ensures
        final(dst)@ == old(dst)@ + src@,
{
    let mut i: usize = 0;
    while i < src.len()
        invariant
            i <= src.len(),
            dst@ == old(dst)@ + src@.take(i as int),
        decreases src.len() - i,
    {
        dst.push(src[i]);
        assert(src@.take(i + 1) =~= src@.take(i as int).push(src@[i as int]));
        i += 1;
    }
    assert(src@.take(src.len() as int) =~= src@);
}

/// The code-block state after the fence markers `ms[..n]`, starting from `acc`:
/// each fence opens or closes a block.
pub open spec fn fence_state(ms: Seq<crate::marker::Marker>, n: int, acc: bool) -> bool
    decreases n,
{
    if n <= 0 {
        acc
    } else if ms[n - 1].kind is CodeBlockFence {
        ms[n - 1].kind->is_opening
    } else {
        fence_state(ms, n - 1, acc)
    }
}

/// Whether the lines `lines[..n]` leave a code block open.
pub open spec fn code_state(lines: Seq<LineMarkers>, n: int) -> bool
    decreases n,
{
    if n <= 0 {
        false
    } else {
        fence_state(
            lines[n - 1].markers@,
            lines[n - 1].markers@.len() as int,
            code_state(lines, n - 1),
        )
    }
}

/// The line has a fence marker that opens (or, with `opening` false, closes) a block.
pub open spec fn has_fence(line: LineMarkers, opening: bool) -> bool {
    exists|i: int|
        0 <= i < line.markers@.len() && #[trigger] line.markers@[i].kind is CodeBlockFence
            && line.markers@[i].kind->is_opening == opening
}

/// Whether `target_line` lies inside a code block: after an opening fence line,
/// up to and including the closing fence line.
pub open spec fn in_code_block_spec(lines: Seq<LineMarkers>, target_line: int) -> bool {
    if 0 <= target_line < lines.len() {
        if has_fence(lines[target_line], true) {
            false
        } else if has_fence(lines[target_line], false) {
            true
        } else {
            code_state(lines, target_line + 1)
        }
    } else {
        code_state(lines, lines.len() as int)
    }
}

impl PasteContext {
    /// Check if a line index is inside a code block.
    pub fn is_in_code_block(lines: &[LineMarkers], target_line: usize) -> (b: bool)
        ensures
            b == in_code_block_spec(lines@, target_line as int),
    {
        let mut in_code = false;
        let mut idx: usize = 0;
        while idx < lines.len()
            invariant
                idx <= lines@.len(),
                idx <= target_line,
                in_code == code_state(lines@, idx as int),
            decreases lines.len() - idx,
        {
            let line = &lines[idx];
            let ghost acc0 = in_code;
            let mut j: usize = 0;
            while j < line.markers.len()
                invariant
                    j <= line.markers@.len(),
                    *line == lines@[idx as int],
                    in_code == fence_state(line.markers@, j as int, acc0),
                decreases line.markers.len() - j,
            {
                if let MarkerKind::CodeBlockFence { is_opening, .. } = &line.markers[j].kind {
                    in_code = *is_opening;
                }
                j += 1;
            }
            if idx == target_line {
                // An opening fence line is not yet inside the block
                let mut opening = false;
                let mut closing = false;
                let mut k: usize = 0;
                while k < line.markers.len()
                    invariant
                        k <= line.markers@.len(),
                        *line == lines@[idx as int],
                        opening == exists|i: int|
                            0 <= i < k && #[trigger] line.markers@[i].kind is CodeBlockFence
                                && line.markers@[i].kind->is_opening == true,
                        closing == exists|i: int|
                            0 <= i < k && #[trigger] line.markers@[i].kind is CodeBlockFence
                                && line.markers@[i].kind->is_opening == false,
                    decreases line.markers.len() - k,
                {
                    if let MarkerKind::CodeBlockFence { is_opening, .. } = &line.markers[k].kind {
                        if *is_opening {
                            opening = true;
                        } else {
                            closing = true;
                        }
                    }
                    k += 1;
                }
                if opening {
                    return false;
                }
                // A closing fence line still belongs to the block
                if closing {
                    return true;
                }
                return in_code;
            }
            idx += 1;
        }
        in_code
    }
}

/// Number of blockquote markers among `ms[..n]`.
pub open spec fn quote_depth(ms: Seq<crate::marker::Marker>, n: int) -> int
    decreases n,
{
    if n <= 0 {
        0
    } else {
        quote_depth(ms, n - 1) + if ms[n - 1].kind is BlockQuote {
            1int
        } else {
            0
        }
    }
}

/// `n` copies of `> `.
pub open spec fn quote_prefix(n: nat) -> Seq<char>
    decreases n,
{
    if n == 0 {
        seq![]
    } else {
        quote_prefix((n - 1) as nat) + seq!['>', ' ']
    }
}

impl PasteContext {
    /// Analyze the buffer at the cursor to determine the paste context: whether
    /// the cursor's line is in a code block, and one `> ` per blockquote marker
    /// of that line.
    pub fn from_buffer(buffer: &Buffer, cursor_offset: usize) -> (c: Self)
        requires
            buffer.wf(),
            cursor_offset <= byte_len(buffer@.text),
        ensures
            ({
                let lines = buffer.content_spec().line_list();
                let l = line_of(buffer@.text, cursor_offset as int);
                &&& c.in_code_block == in_code_block_spec(lines, l)
                &&& c.blockquote_prefix@ == (if 0 <= l < lines.len() {
                    quote_prefix(quote_depth(lines[l].markers@, lines[l].markers@.len() as int) as nat)
                } else {
                    Seq::<char>::empty()
                })
            }),
    {
        proof {
            buffer.lemma_history_ok();
            crate::cursor::lemma_line_of(buffer@.text, cursor_offset as int);
        }
        let content = buffer.content();
        let line_idx = content.byte_to_line(cursor_offset);
        let lines = content.lines();
        let in_code_block = Self::is_in_code_block(lines, line_idx);
        let mut prefix = String::new();
        if line_idx < lines.len() {
            let line = &lines[line_idx];
            let ghost ms = line.markers@;
            let mut depth: usize = 0;
            let mut i: usize = 0;
            while i < line.markers.len()
                invariant
                    i <= ms.len(),
                    ms == line.markers@,
                    depth == quote_depth(ms, i as int),
                    depth <= i,
                decreases ms.len() - i,
            {
                if matches!(line.markers[i].kind, MarkerKind::BlockQuote) {
                    depth += 1;
                }
                i += 1;
            }
            let mut k: usize = 0;
            while k < depth
                invariant
                    k <= depth,
                    prefix@ == quote_prefix(k as nat),
                decreases depth - k,
            {
                string_push(&mut prefix, '>');
                string_push(&mut prefix, ' ');
                k += 1;
            }
        }
        PasteContext { in_code_block, blockquote_prefix: prefix }
    }
}

} // verus!
