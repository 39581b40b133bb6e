//! What a line shows: its markdown syntax hidden or shown depending on where
//! the cursor is, block markers replaced by their substitution, and the runs
//! of fonts and colours the display text is drawn in. Fonts and colours are
//! named by their role in the theme; the window layer picks the actual ones.

use std::ops::Range;
use vstd::prelude::*;
use vstd::string::StringSliceAdditionalSpecFns;

use crate::buffer::{clamped_slice, BufferContent};
use crate::inline::StyledRegion;
use crate::line::CollapsedDisplayText;
use crate::marker::{checkbox_from, heading_from, LineMarkers, Marker, MarkerKind};
use crate::rope::byte_len;
use crate::text::{
    chars_of, find_char, find_char_from, string_from_chars, string_push_str, sub_chars,
    valid_byte_range,
};

verus! {

broadcast use vstd::string::group_string_axioms;

/// The font of a run: the code (monospace) face or the text face, and
/// whether it is bold and italic.
#[derive(Clone, Copy, Debug, PartialEq, Eq, Structural)]
pub struct FontRole {
    pub code: bool,
    pub bold: bool,
    pub italic: bool,
}

/// The colour of a run, by its role in the theme.
#[derive(Clone, Copy, Debug, PartialEq, Eq, Structural)]
pub enum ColorRole {
    Text,
    Link,
    Code,
    Fence,
    FenceLanguage,
    Border,
    CheckboxChecked,
    CheckboxUnchecked,
    Transparent,
}

/// A run of the display text: its length in bytes and how it is drawn.
#[derive(Clone, Copy, Debug, PartialEq, Eq, Structural)]
pub struct DisplayRun {
    pub len: usize,
    pub font: FontRole,
    pub color: ColorRole,
    pub underline: bool,
    pub strikethrough: bool,
}

/// A piece of the display: its text and how it is drawn.
pub struct Piece {
    pub text: Seq<char>,
    pub font: FontRole,
    pub color: ColorRole,
    pub underline: bool,
    pub strikethrough: bool,
}

/// A piece with neither underline nor strikethrough.
pub open spec fn plain(t: Seq<char>, font: FontRole, color: ColorRole) -> Piece {
    Piece { text: t, font, color, underline: false, strikethrough: false }
}

/// The monospace face, upright and regular.
pub open spec fn code_face() -> FontRole {
    FontRole { code: true, bold: false, italic: false }
}

/// The text face, upright and regular.
pub open spec fn text_face() -> FontRole {
    FontRole { code: false, bold: false, italic: false }
}

/// The display text of `ps`: their texts one after another.
pub open spec fn pieces_text(ps: Seq<Piece>) -> Seq<char>
    decreases ps.len(),
{
    if ps.len() == 0 {
        seq![]
    } else {
        pieces_text(ps.drop_last()) + ps.last().text
    }
}

/// `run` draws the piece `p`.
pub open spec fn run_of(run: DisplayRun, p: Piece) -> bool {
    &&& run.len == byte_len(p.text)
    &&& run.font == p.font
    &&& run.color == p.color
    &&& run.underline == p.underline
    &&& run.strikethrough == p.strikethrough
}

/// `runs` draw the pieces `ps`, one run each.
pub open spec fn runs_of(runs: Seq<DisplayRun>, ps: Seq<Piece>) -> bool {
    runs.len() == ps.len() && forall|i: int| 0 <= i < ps.len() ==> run_of(#[trigger] runs[i], ps[i])
}

/// The larger of two offsets.
pub open spec fn max_u(a: usize, b: usize) -> usize {
    if a >= b {
        a
    } else {
        b
    }
}

/// The smaller of two offsets.
pub open spec fn min_u(a: usize, b: usize) -> usize {
    if a <= b {
        a
    } else {
        b
    }
}

/// The cursor is on the line (on an empty line: at its start).
pub open spec fn on_line(line: LineMarkers, cursor: usize) -> bool {
    if line.range.start == line.range.end {
        cursor == line.range.start
    } else {
        line.range.start <= cursor <= line.range.end
    }
}

/// The selection overlaps the line.
pub open spec fn selected_on_line(line: LineMarkers, selection: Option<Range<usize>>) -> bool {
    match selection {
        Some(s) => s.start < line.range.end && s.end > line.range.start,
        None => false,
    }
}

/// The cursor is inside the region's full range, delimiters included.
pub open spec fn cursor_in(r: StyledRegion, cursor: usize) -> bool {
    r.full_range.start <= cursor <= r.full_range.end
}

/// The line is a heading.
pub open spec fn is_heading(line: LineMarkers) -> bool {
    heading_from(line.markers@, 0) is Some
}

/// Where the line's content starts: a heading shows its whole line, and so
/// does an ordered list item (its number has no substitution); other lines
/// start after their block markers.
pub open spec fn content_start(line: LineMarkers) -> usize {
    if is_heading(line) || line.markers@.len() == 0 || ordered_from(line.markers@, 0) is Some {
        line.range.start
    } else {
        line.markers@[0].range.end
    }
}

/// Some marker of `ms` is a code fence.
pub open spec fn has_fence(ms: Seq<Marker>) -> bool {
    exists|i: int| 0 <= i < ms.len() && #[trigger] ms[i].kind is CodeBlockFence
}

/// Some marker of `ms` is a thematic break.
pub open spec fn has_break(ms: Seq<Marker>) -> bool {
    exists|i: int| 0 <= i < ms.len() && #[trigger] ms[i].kind is ThematicBreak
}

/// Some marker of `ms` marks code block content.
pub open spec fn has_code_content(ms: Seq<Marker>) -> bool {
    exists|i: int| 0 <= i < ms.len() && #[trigger] ms[i].kind is CodeBlockContent
}

/// The start of the first fence marker among `ms[i..]`, or `dflt`.
pub open spec fn fence_start_from(ms: Seq<Marker>, i: int, dflt: usize) -> usize
    decreases ms.len() - i,
{
    if i < 0 || i >= ms.len() {
        dflt
    } else if ms[i].kind is CodeBlockFence {
        ms[i].range.start
    } else {
        fence_start_from(ms, i + 1, dflt)
    }
}

/// The range of the first ordered list marker among `ms[i..]`.
pub open spec fn ordered_from(ms: Seq<Marker>, i: int) -> Option<Range<usize>>
    decreases ms.len() - i,
{
    if i < 0 || i >= ms.len() {
        None
    } else if ms[i].kind is ListItem && ms[i].kind->ordered {
        Some(ms[i].range)
    } else {
        ordered_from(ms, i + 1)
    }
}

/// The pieces of the substitution prefix `p`: on a task line, a checkbox in
/// brackets is drawn in the link colour; everything else in the code face.
pub open spec fn prefix_pieces(p: Seq<char>, task: bool) -> Seq<Piece> {
    if p.len() == 0 {
        seq![]
    } else if task && find_char_from(p, '[', 0) is Some {
        let b = find_char_from(p, '[', 0)->0;
        let e0 = match find_char_from(p, ']', 0) {
            Some(j) => j + 2,
            None => p.len() as int,
        };
        let e1 = if e0 < p.len() {
            e0
        } else {
            p.len() as int
        };
        let e = if e1 < b {
            b
        } else {
            e1
        };
        (if b > 0 {
            seq![plain(p.take(b), code_face(), ColorRole::Text)]
        } else {
            seq![]
        }) + seq![plain(p.subrange(b, e), code_face(), ColorRole::Link)] + (if e < p.len() {
            seq![plain(p.skip(e), code_face(), ColorRole::Text)]
        } else {
            seq![]
        })
    } else {
        seq![plain(p, code_face(), ColorRole::Text)]
    }
}

/// Index past the fence characters `fc` that `ft` starts with from `i` on
/// (backticks or tildes only).
pub open spec fn fence_run_end(ft: Seq<char>, fc: char, i: int) -> int
    decreases ft.len() - i,
{
    if 0 <= i < ft.len() && ft[i] == fc && (fc == '`' || fc == '~') {
        fence_run_end(ft, fc, i + 1)
    } else {
        i
    }
}

/// The pieces of a fence line's text `ft`: the fence characters in the fence
/// colour, the rest (the language) in its own colour.
pub open spec fn fence_pieces(ft: Seq<char>) -> Seq<Piece> {
    let fc = if ft.len() > 0 {
        ft[0]
    } else {
        '`'
    };
    let n = fence_run_end(ft, fc, 0);
    (if n > 0 {
        seq![plain(ft.take(n), code_face(), ColorRole::Fence)]
    } else {
        seq![]
    }) + (if ft.skip(n).len() > 0 {
        seq![plain(ft.skip(n), code_face(), ColorRole::FenceLanguage)]
    } else {
        seq![]
    })
}

/// The offsets where a region may start or end a run within `cs..ce`:
/// a checkbox region's ends; for a region overlapping the content, its full
/// range when the cursor is inside it, else also its content range.
pub open spec fn region_points(r: StyledRegion, cursor: usize, cs: usize, ce: usize) -> Seq<usize> {
    let fs = r.full_range.start;
    let fe = r.full_range.end;
    (if r.checkbox is Some {
        seq![max_u(fs, cs), min_u(fe, ce)]
    } else {
        seq![]
    }) + (if fe > cs && fs < ce {
        if cursor_in(r, cursor) {
            seq![max_u(fs, cs), min_u(fe, ce)]
        } else {
            seq![
                max_u(fs, cs),
                max_u(r.content_range.start, cs),
                min_u(r.content_range.end, ce),
                min_u(fe, ce),
            ]
        }
    } else {
        seq![]
    })
}

/// The points of the regions `styles[..k]`, in order.
pub open spec fn all_region_points(
    styles: Seq<StyledRegion>,
    k: int,
    cursor: usize,
    cs: usize,
    ce: usize,
) -> Seq<usize>
    decreases k,
{
    if k <= 0 || k > styles.len() {
        seq![]
    } else {
        all_region_points(styles, k - 1, cursor, cs, ce) + region_points(styles[k - 1], cursor, cs, ce)
    }
}

/// The heading marker's ends, on a heading line.
pub open spec fn heading_points(line: LineMarkers) -> Seq<usize> {
    if is_heading(line) && line.markers@.len() > 0 {
        seq![line.markers@.last().range.start, line.markers@[0].range.end]
    } else {
        seq![]
    }
}

/// The smallest point of `bs` after `x` and not after `ce`; `ce` if none.
pub open spec fn next_point(bs: Seq<usize>, x: usize, ce: usize) -> usize
    decreases bs.len(),
{
    if bs.len() == 0 {
        ce
    } else {
        let m = next_point(bs.drop_last(), x, ce);
        let v = bs.last();
        if x < v && v < m {
            v
        } else {
            m
        }
    }
}

/// The region hides `x..n` as part of its opening or closing delimiter,
/// the cursor being outside it.
pub open spec fn region_hides(r: StyledRegion, cursor: usize, cs: usize, ce: usize, x: usize, n: usize) -> bool {
    &&& !cursor_in(r, cursor)
    &&& {
        ||| (max_u(r.full_range.start, cs) <= x && n <= min_u(r.content_range.start, ce))
        ||| (max_u(r.content_range.end, cs) <= x && n <= min_u(r.full_range.end, ce))
    }
}

/// One of `styles[..k]` hides `x..n`.
pub open spec fn any_hides(
    styles: Seq<StyledRegion>,
    k: int,
    cursor: usize,
    cs: usize,
    ce: usize,
    x: usize,
    n: usize,
) -> bool
    decreases k,
{
    if k <= 0 || k > styles.len() {
        false
    } else {
        any_hides(styles, k - 1, cursor, cs, ce, x, n) || region_hides(styles[k - 1], cursor, cs, ce, x, n)
    }
}

/// `x..n` is hidden: inside a heading marker while neither the cursor nor the
/// selection is on the line, or inside a delimiter of a region.
pub open spec fn window_hidden(
    line: LineMarkers,
    styles: Seq<StyledRegion>,
    cursor: usize,
    selection: Option<Range<usize>>,
    cs: usize,
    ce: usize,
    x: usize,
    n: usize,
) -> bool {
    ||| (is_heading(line) && !on_line(line, cursor) && !selected_on_line(line, selection)
        && line.markers@.len() > 0 && line.markers@.last().range.start <= x && n
        <= line.markers@[0].range.end)
    ||| any_hides(styles, styles.len() as int, cursor, cs, ce, x, n)
}

/// The inline styles in force over `x..n`.
pub struct Flags {
    pub bold: bool,
    pub italic: bool,
    pub code: bool,
    pub strike: bool,
    pub link: bool,
    pub checkbox: Option<bool>,
}

/// The region styles `x..n`: its full range when the cursor is inside it,
/// else its content range, covers `x..n`.
pub open spec fn covers(r: StyledRegion, cursor: usize, x: usize, n: usize) -> bool {
    if cursor_in(r, cursor) {
        r.full_range.start <= x && n <= r.full_range.end
    } else {
        r.content_range.start <= x && n <= r.content_range.end
    }
}

/// The styles of `styles[..k]` that cover `x..n`, merged; the checkbox state
/// is the first one found.
pub open spec fn flags_of(styles: Seq<StyledRegion>, k: int, cursor: usize, x: usize, n: usize) -> Flags
    decreases k,
{
    if k <= 0 || k > styles.len() {
        Flags { bold: false, italic: false, code: false, strike: false, link: false, checkbox: None }
    } else {
        let f = flags_of(styles, k - 1, cursor, x, n);
        let r = styles[k - 1];
        if covers(r, cursor, x, n) {
            Flags {
                bold: f.bold || r.style.bold,
                italic: f.italic || r.style.italic,
                code: f.code || r.style.code,
                strike: f.strike || r.style.strikethrough,
                link: f.link || r.link_url is Some,
                checkbox: if f.checkbox is Some {
                    f.checkbox
                } else {
                    r.checkbox
                },
            }
        } else {
            f
        }
    }
}

/// The piece showing the text of `x..n`, in the styles in force there.
pub open spec fn window_piece(
    line: LineMarkers,
    text: Seq<char>,
    styles: Seq<StyledRegion>,
    cursor: usize,
    x: usize,
    n: usize,
) -> Piece {
    let f = flags_of(styles, styles.len() as int, cursor, x, n);
    let code_block = has_code_content(line.markers@);
    let in_ordered = match ordered_from(line.markers@, 0) {
        Some(r) => x < r.end && n > r.start,
        None => false,
    };
    let color = if f.strike {
        ColorRole::Border
    } else if f.checkbox == Some(true) {
        ColorRole::CheckboxChecked
    } else if f.checkbox == Some(false) {
        ColorRole::CheckboxUnchecked
    } else if f.link {
        ColorRole::Link
    } else if f.code && !code_block {
        ColorRole::Code
    } else {
        ColorRole::Text
    };
    Piece {
        text: clamped_slice(text, x as int, n as int),
        font: FontRole {
            code: f.code || code_block || in_ordered || f.checkbox is Some,
            bold: f.bold || is_heading(line),
            italic: f.italic,
        },
        color,
        underline: f.link,
        strikethrough: f.strike,
    }
}

/// The pieces of the windows from `x` to `ce`: each window runs from a
/// point to the next point of `bs`; hidden windows show nothing.
pub open spec fn windows_from(
    line: LineMarkers,
    text: Seq<char>,
    styles: Seq<StyledRegion>,
    cursor: usize,
    selection: Option<Range<usize>>,
    bs: Seq<usize>,
    cs: usize,
    ce: usize,
    x: usize,
) -> Seq<Piece>
    decreases ce - x,
{
    if x >= ce {
        seq![]
    } else {
        let n = next_point(bs, x, ce);
        if n <= x || n > ce {
            seq![]
        } else {
            (if window_hidden(line, styles, cursor, selection, cs, ce, x, n) {
                seq![]
            } else {
                seq![window_piece(line, text, styles, cursor, x, n)]
            }) + windows_from(line, text, styles, cursor, selection, bs, cs, ce, n)
        }
    }
}

/// The boundary points of a line's content `cs..ce`.
pub open spec fn boundary_points(
    line: LineMarkers,
    styles: Seq<StyledRegion>,
    cursor: usize,
    cs: usize,
    ce: usize,
) -> Seq<usize> {
    seq![cs, ce] + heading_points(line) + all_region_points(styles, styles.len() as int, cursor, cs, ce)
}

/// The boundary points with those of the regions `styles[..k]` only.
pub open spec fn boundary_points_upto(
    line: LineMarkers,
    styles: Seq<StyledRegion>,
    cursor: usize,
    cs: usize,
    ce: usize,
    k: int,
) -> Seq<usize> {
    seq![cs, ce] + heading_points(line) + all_region_points(styles, k, cursor, cs, ce)
}

/// What the line shows after its prefix: a fence line its fence and
/// language; a thematic break its text, visible only with the cursor or the
/// selection on the line; any other line the windows of its content.
pub open spec fn body_pieces(
    line: LineMarkers,
    text: Seq<char>,
    cursor: usize,
    selection: Option<Range<usize>>,
    styles: Seq<StyledRegion>,
) -> Seq<Piece> {
    let ms = line.markers@;
    let cs = content_start(line);
    let ce = line.range.end;
    if has_fence(ms) {
        fence_pieces(
            clamped_slice(text, fence_start_from(ms, 0, line.range.start) as int, line.range.end as int),
        )
    } else if has_break(ms) {
        seq![
            plain(
                clamped_slice(text, line.range.start as int, line.range.end as int),
                text_face(),
                if on_line(line, cursor) || selected_on_line(line, selection) {
                    ColorRole::Text
                } else {
                    ColorRole::Transparent
                },
            ),
        ]
    } else if cs >= ce {
        seq![]
    } else {
        windows_from(line, text, styles, cursor, selection, boundary_points(line, styles, cursor, cs, ce), cs, ce, cs)
    }
}

/// All the pieces of the line: its substitution prefix, then its body.
pub open spec fn line_pieces(
    line: LineMarkers,
    text: Seq<char>,
    cursor: usize,
    selection: Option<Range<usize>>,
    styles: Seq<StyledRegion>,
) -> Seq<Piece> {
    prefix_pieces(line.substitution_spec(text), checkbox_from(line.markers@, 0) is Some) + body_pieces(
        line,
        text,
        cursor,
        selection,
        styles,
    )
}

/// Adding a piece adds its text to the display text.
proof fn lemma_pieces_text_push(ps: Seq<Piece>, p: Piece)
    ensures
        pieces_text(ps.push(p)) == pieces_text(ps) + p.text,
{
    assert(ps.push(p).drop_last() =~= ps);
}

/// Append a piece showing `t` to the display text and its runs.
fn push_piece(
    display: &mut String,
    runs: &mut Vec<DisplayRun>,
    Ghost(ps): Ghost<Seq<Piece>>,
    t: &str,
    font: FontRole,
    color: ColorRole,
    underline: bool,
    strikethrough: bool,
) -> (r: Ghost<Seq<Piece>>)
    requires
        old(display)@ == pieces_text(ps),
        runs_of(old(runs)@, ps),
    ensures
        r@ == ps.push(Piece { text: t@, font, color, underline, strikethrough }),
        final(display)@ == pieces_text(r@),
        runs_of(final(runs)@, r@),
{
    let ghost p = Piece { text: t@, font, color, underline, strikethrough };
    string_push_str(display, t);
    runs.push(DisplayRun { len: t.as_bytes().len(), font, color, underline, strikethrough });
    proof {
        lemma_pieces_text_push(ps, p);
        let n = ps.push(p);
        assert forall|i: int| 0 <= i < n.len() implies run_of(#[trigger] runs@[i], n[i]) by {
            if i < ps.len() {
                assert(runs@[i] == old(runs)@[i]);
            }
        }
    }
    Ghost(ps.push(p))
}

/// The next point lies after `x` and not after `ce`.
proof fn lemma_next_point_bounds(bs: Seq<usize>, x: usize, ce: usize)
    requires
        x < ce,
    ensures
        x < next_point(bs, x, ce) <= ce,
    decreases bs.len(),
{
    if bs.len() > 0 {
        lemma_next_point_bounds(bs.drop_last(), x, ce);
    }
}

/// The smallest point of `bs` after `x` and not after `ce`; `ce` if none.
fn next_point_of(bs: &Vec<usize>, x: usize, ce: usize) -> (n: usize)
    ensures
        n == next_point(bs@, x, ce),
{
    let mut m = ce;
    let mut i: usize = 0;
    assert(bs@.take(0) =~= Seq::<usize>::empty());
    while i < bs.len()
        invariant
            i <= bs@.len(),
            m == next_point(bs@.take(i as int), x, ce),
        decreases bs@.len() - i,
    {
        let v = bs[i];
        assert(bs@.take(i + 1).drop_last() =~= bs@.take(i as int));
        if x < v && v < m {
            m = v;
        }
        i += 1;
    }
    assert(bs@.take(bs@.len() as int) =~= bs@);
    m
}

/// Whether the cursor is inside the region's full range.
fn cursor_inside(r: &StyledRegion, cursor: usize) -> (b: bool)
    ensures
        b == cursor_in(*r, cursor),
{
    cursor >= r.full_range.start && cursor <= r.full_range.end
}

/// Append the points of `r` to `bs`.
fn push_region_points(bs: &mut Vec<usize>, r: &StyledRegion, cursor: usize, cs: usize, ce: usize)
    ensures
        final(bs)@ == old(bs)@ + region_points(*r, cursor, cs, ce),
{
    let fs = r.full_range.start;
    let fe = r.full_range.end;
    let ghost before = bs@;
    let lo = if fs >= cs { fs } else { cs };
    let hi = if fe <= ce { fe } else { ce };
    if r.checkbox.is_some() {
        bs.push(lo);
        bs.push(hi);
    }
    let ghost mid = bs@;
    if fe > cs && fs < ce {
        if cursor_inside(r, cursor) {
            bs.push(lo);
            bs.push(hi);
        } else {
            let a = if r.content_range.start >= cs { r.content_range.start } else { cs };
            let b = if r.content_range.end <= ce { r.content_range.end } else { ce };
            bs.push(lo);
            bs.push(a);
            bs.push(b);
            bs.push(hi);
        }
    }
    assert(bs@ =~= before + region_points(*r, cursor, cs, ce));
}

/// Whether `x..n` is hidden by a delimiter of one of the regions.
fn regions_hide(styles: &[StyledRegion], cursor: usize, cs: usize, ce: usize, x: usize, n: usize) -> (b: bool)
    ensures
        b == any_hides(styles@, styles@.len() as int, cursor, cs, ce, x, n),
{
    let mut i: usize = 0;
    let mut hidden = false;
    while i < styles.len()
        invariant
            i <= styles@.len(),
            hidden == any_hides(styles@, i as int, cursor, cs, ce, x, n),
        decreases styles@.len() - i,
    {
        let r = &styles[i];
        if !cursor_inside(r, cursor) {
            let os = if r.full_range.start >= cs { r.full_range.start } else { cs };
            let oe = if r.content_range.start <= ce { r.content_range.start } else { ce };
            let cl = if r.content_range.end >= cs { r.content_range.end } else { cs };
            let cle = if r.full_range.end <= ce { r.full_range.end } else { ce };
            if (os <= x && n <= oe) || (cl <= x && n <= cle) {
                hidden = true;
            }
        }
        i += 1;
    }
    hidden
}

/// The inline styles in force over `x..n`: bold, italic, code,
/// strikethrough, link, and the first checkbox state.
fn flags_over(styles: &[StyledRegion], cursor: usize, x: usize, n: usize) -> (f: (bool, bool, bool, bool, bool, Option<bool>))
    ensures
        ({
            let g = flags_of(styles@, styles@.len() as int, cursor, x, n);
            f == (g.bold, g.italic, g.code, g.strike, g.link, g.checkbox)
        }),
{
    let mut bold = false;
    let mut italic = false;
    let mut code = false;
    let mut strike = false;
    let mut link = false;
    let mut checkbox: Option<bool> = None;
    let mut i: usize = 0;
    while i < styles.len()
        invariant
            i <= styles@.len(),
            ({
                let g = flags_of(styles@, i as int, cursor, x, n);
                (bold, italic, code, strike, link, checkbox) == (g.bold, g.italic, g.code, g.strike, g.link, g.checkbox)
            }),
        decreases styles@.len() - i,
    {
        let r = &styles[i];
        let inside = cursor_inside(r, cursor);
        let covered = if inside {
            r.full_range.start <= x && n <= r.full_range.end
        } else {
            r.content_range.start <= x && n <= r.content_range.end
        };
        if covered {
            bold = bold || r.style.bold;
            italic = italic || r.style.italic;
            code = code || r.style.code;
            strike = strike || r.style.strikethrough;
            link = link || r.link_url.is_some();
            if checkbox.is_none() {
                checkbox = r.checkbox;
            }
        }
        i += 1;
    }
    (bold, italic, code, strike, link, checkbox)
}

/// Whether some marker of the line is a thematic break.
fn line_has_break(line: &LineMarkers) -> (b: bool)
    ensures
        b == has_break(line.markers@),
{
    let mut i: usize = 0;
    while i < line.markers.len()
        invariant
            i <= line.markers@.len(),
            forall|j: int| 0 <= j < i ==> !(#[trigger] line.markers@[j].kind is ThematicBreak),
        decreases line.markers@.len() - i,
    {
        if matches!(line.markers[i].kind, MarkerKind::ThematicBreak) {
            return true;
        }
        i += 1;
    }
    false
}

/// The start of the line's first fence marker, or its start.
fn fence_start(line: &LineMarkers) -> (b: usize)
    ensures
        b == fence_start_from(line.markers@, 0, line.range.start),
{
    let mut i: usize = 0;
    while i < line.markers.len()
        invariant
            i <= line.markers@.len(),
            fence_start_from(line.markers@, i as int, line.range.start) == fence_start_from(
                line.markers@,
                0,
                line.range.start,
            ),
        decreases line.markers@.len() - i,
    {
        if let MarkerKind::CodeBlockFence { .. } = line.markers[i].kind {
            return line.markers[i].range.start;
        }
        i += 1;
    }
    line.range.start
}

/// The range of the line's first ordered list marker.
fn ordered_marker(line: &LineMarkers) -> (r: Option<Range<usize>>)
    ensures
        r == ordered_from(line.markers@, 0),
{
    let mut i: usize = 0;
    while i < line.markers.len()
        invariant
            i <= line.markers@.len(),
            ordered_from(line.markers@, i as int) == ordered_from(line.markers@, 0),
        decreases line.markers@.len() - i,
    {
        if let MarkerKind::ListItem { ordered } = line.markers[i].kind {
            if ordered {
                let m = &line.markers[i];
                return Some(m.range.start..m.range.end);
            }
        }
        i += 1;
    }
    None
}

/// Append the pieces of the substitution prefix `p`.
fn push_prefix(
    display: &mut String,
    runs: &mut Vec<DisplayRun>,
    Ghost(ps): Ghost<Seq<Piece>>,
    p: &str,
    task: bool,
) -> (r: Ghost<Seq<Piece>>)
    requires
        old(display)@ == pieces_text(ps),
        runs_of(old(runs)@, ps),
    ensures
        r@ == ps + prefix_pieces(p@, task),
        final(display)@ == pieces_text(r@),
        runs_of(final(runs)@, r@),
{
    let cs = chars_of(p);
    let len = cs.len();
    if len == 0 {
        assert(ps + prefix_pieces(p@, task) =~= ps);
        return Ghost(ps);
    }
    if task {
        proof {
            crate::text::lemma_find_char_from(p@, '[', 0);
            crate::text::lemma_find_char_from(p@, ']', 0);
        }
        if let Some(b) = find_char(&cs, '[') {
            let e1 = match find_char(&cs, ']') {
                Some(j) => if len - j > 2 {
                    j + 2
                } else {
                    len
                },
                None => len,
            };
            let e = if e1 < b {
                b
            } else {
                e1
            };
            let ghost pv = p@;
            let ghost mut acc = ps;
            let ghost head: Seq<Piece> = seq![];
            if b > 0 {
                let before = string_from_chars(&sub_chars(&cs, 0, b));
                let Ghost(a) = push_piece(display, runs, Ghost(acc), before.as_str(), FontRole { code: true, bold: false, italic: false }, ColorRole::Text, false, false);
                proof {
                    assert(before@ =~= pv.take(b as int));
                    head = seq![plain(pv.take(b as int), code_face(), ColorRole::Text)];
                    acc = a;
                }
            }
            let boxed = string_from_chars(&sub_chars(&cs, b, e));
            let Ghost(a2) = push_piece(display, runs, Ghost(acc), boxed.as_str(), FontRole { code: true, bold: false, italic: false }, ColorRole::Link, false, false);
            let ghost mid = seq![plain(pv.subrange(b as int, e as int), code_face(), ColorRole::Link)];
            proof {
                assert(boxed@ =~= pv.subrange(b as int, e as int));
                acc = a2;
            }
            let ghost mut tail: Seq<Piece> = seq![];
            if e < len {
                let after = string_from_chars(&sub_chars(&cs, e, len));
                let Ghost(a3) = push_piece(display, runs, Ghost(acc), after.as_str(), FontRole { code: true, bold: false, italic: false }, ColorRole::Text, false, false);
                proof {
                    assert(after@ =~= pv.skip(e as int));
                    tail = seq![plain(pv.skip(e as int), code_face(), ColorRole::Text)];
                    acc = a3;
                }
            }
            proof {
                assert(prefix_pieces(pv, task) == head + mid + tail);
                assert(acc =~= ps + (head + mid + tail));
            }
            return Ghost(acc);
        }
    }
    let r = push_piece(display, runs, Ghost(ps), p, FontRole { code: true, bold: false, italic: false }, ColorRole::Text, false, false);
    assert(r@ =~= ps + prefix_pieces(p@, task));
    r
}

/// Append the pieces of a fence line's text `ft`.
fn push_fence(
    display: &mut String,
    runs: &mut Vec<DisplayRun>,
    Ghost(ps): Ghost<Seq<Piece>>,
    ft: &str,
) -> (r: Ghost<Seq<Piece>>)
    requires
        old(display)@ == pieces_text(ps),
        runs_of(old(runs)@, ps),
    ensures
        r@ == ps + fence_pieces(ft@),
        final(display)@ == pieces_text(r@),
        runs_of(final(runs)@, r@),
{
    let cs = chars_of(ft);
    let len = cs.len();
    let fc = if len > 0 {
        cs[0]
    } else {
        '`'
    };
    let mut n: usize = 0;
    while n < len && cs[n] == fc && (fc == '`' || fc == '~')
        invariant
            n <= len,
            len == cs@.len(),
            cs@ == ft@,
            fence_run_end(ft@, fc, n as int) == fence_run_end(ft@, fc, 0),
        decreases len - n,
    {
        n += 1;
    }
    let ghost mut acc = ps;
    let ghost mut head: Seq<Piece> = seq![];
    if n > 0 {
        let marks = string_from_chars(&sub_chars(&cs, 0, n));
        let Ghost(a) = push_piece(display, runs, Ghost(acc), marks.as_str(), FontRole { code: true, bold: false, italic: false }, ColorRole::Fence, false, false);
        proof {
            assert(marks@ =~= ft@.take(n as int));
            head = seq![plain(ft@.take(n as int), code_face(), ColorRole::Fence)];
            acc = a;
        }
    }
    let ghost mut tail: Seq<Piece> = seq![];
    if n < len {
        let lang = string_from_chars(&sub_chars(&cs, n, len));
        let Ghost(a) = push_piece(display, runs, Ghost(acc), lang.as_str(), FontRole { code: true, bold: false, italic: false }, ColorRole::FenceLanguage, false, false);
        proof {
            assert(lang@ =~= ft@.skip(n as int));
            tail = seq![plain(ft@.skip(n as int), code_face(), ColorRole::FenceLanguage)];
            acc = a;
        }
    }
    proof {
        assert(fence_pieces(ft@) == head + tail);
        assert(acc =~= ps + (head + tail));
    }
    Ghost(acc)
}

/// What the line shows with the cursor at `cursor` and the selection
/// `selection`, given the inline regions `styles` of the text: the display
/// text, the runs it is drawn in, and the regions shown collapsed.
///
/// Block markers are replaced by their substitution (a bullet, a checkbox);
/// a heading's marker and each region's delimiters are hidden unless the
/// cursor is on the heading line or inside the region; a fence line shows
/// its fence and language; a thematic break shows only with the cursor or
/// the selection on its line. The regions carry no shortened text of their
/// own, so nothing is shown collapsed.
pub fn line_display(
    line: &LineMarkers,
    text: &str,
    cursor: usize,
    selection: Option<Range<usize>>,
    styles: &[StyledRegion],
) -> (r: (String, Vec<DisplayRun>, Vec<CollapsedDisplayText>))
    requires
        valid_byte_range(text.spec_bytes(), line.range.start as int, line.range.end as int),
    ensures
        r.0@ == pieces_text(line_pieces(*line, text@, cursor, selection, styles@)),
        runs_of(r.1@, line_pieces(*line, text@, cursor, selection, styles@)),
        r.2@.len() == 0,
{
    let ghost all = line_pieces(*line, text@, cursor, selection, styles@);
    let mut display = String::new();
    let mut runs: Vec<DisplayRun> = Vec::new();
    let collapsed: Vec<CollapsedDisplayText> = Vec::new();
    proof {
        reveal_strlit("");
        assert(display@ == pieces_text(Seq::<Piece>::empty()));
    }
    let prefix = line.substitution(text);
    let task = line.checkbox().is_some();
    let Ghost(mut ps) = push_prefix(&mut display, &mut runs, Ghost(Seq::<Piece>::empty()), prefix.as_str(), task);
    assert(ps =~= prefix_pieces(prefix@, task));
    let content = BufferContent::from_text(text);
    if line.is_fence() {
        let fs = fence_start(line);
        let ft = content.slice_cow(fs..line.range.end);
        let Ghost(p2) = push_fence(&mut display, &mut runs, Ghost(ps), ft.as_str());
        return (display, runs, collapsed);
    }
    let on = if line.range.start == line.range.end {
        cursor == line.range.start
    } else {
        cursor >= line.range.start && cursor <= line.range.end
    };
    let selected = match &selection {
        Some(sel) => sel.start < line.range.end && sel.end > line.range.start,
        None => false,
    };
    if line_has_break(line) {
        let t = content.slice_cow(line.range.start..line.range.end);
        let color = if on || selected {
            ColorRole::Text
        } else {
            ColorRole::Transparent
        };
        let Ghost(p2) = push_piece(&mut display, &mut runs, Ghost(ps), t.as_str(), FontRole { code: false, bold: false, italic: false }, color, false, false);
        assert(p2 =~= all);
        return (display, runs, collapsed);
    }
    let heading = line.heading_level().is_some();
    let ordered = ordered_marker(line);
    let cs = if heading || line.markers.len() == 0 || ordered.is_some() {
        line.range.start
    } else {
        line.markers[0].range.end
    };
    let ce = line.range.end;
    if cs >= ce {
        assert(ps =~= all);
        return (display, runs, collapsed);
    }
    let mut bs: Vec<usize> = Vec::new();
    bs.push(cs);
    bs.push(ce);
    if heading && line.markers.len() > 0 {
        bs.push(line.markers[line.markers.len() - 1].range.start);
        bs.push(line.markers[0].range.end);
    }
    let mut i: usize = 0;
    assert(bs@ =~= boundary_points_upto(*line, styles@, cursor, cs, ce, 0));
    while i < styles.len()
        invariant
            i <= styles@.len(),
            bs@ == boundary_points_upto(*line, styles@, cursor, cs, ce, i as int),
        decreases styles@.len() - i,
    {
        push_region_points(&mut bs, &styles[i], cursor, cs, ce);
        assert(bs@ =~= boundary_points_upto(*line, styles@, cursor, cs, ce, i + 1));
        i += 1;
    }
    let ghost pts = boundary_points(*line, styles@, cursor, cs, ce);
    assert(bs@ == pts);
    let hide_heading = heading && !on && !selected && line.markers.len() > 0;
    let hs = if line.markers.len() > 0 {
        line.markers[line.markers.len() - 1].range.start
    } else {
        0
    };
    let he = if line.markers.len() > 0 {
        line.markers[0].range.end
    } else {
        0
    };
    let code_block = line.is_code_block_content();
    let mut x = cs;
    assert(all == ps + windows_from(*line, text@, styles@, cursor, selection, pts, cs, ce, x));
    while x < ce
        invariant
            cs <= x <= ce,
            bs@ == pts,
            content@ == text@,
            display@ == pieces_text(ps),
            runs_of(runs@, ps),
            all == ps + windows_from(*line, text@, styles@, cursor, selection, pts, cs, ce, x),
            hide_heading == (is_heading(*line) && !on_line(*line, cursor) && !selected_on_line(*line, selection)
                && line.markers@.len() > 0),
            line.markers@.len() > 0 ==> hs == line.markers@.last().range.start && he == line.markers@[0].range.end,
            code_block == has_code_content(line.markers@),
            ordered == ordered_from(line.markers@, 0),
            heading == is_heading(*line),
        decreases ce - x,
    {
        let n = next_point_of(&bs, x, ce);
        proof {
            lemma_next_point_bounds(pts, x, ce);
        }
        let hidden = (hide_heading && hs <= x && n <= he) || regions_hide(styles, cursor, cs, ce, x, n);
        let ghost rest = windows_from(*line, text@, styles@, cursor, selection, pts, cs, ce, n);
        if !hidden {
            let (bold, italic, code, strike, link, checkbox) = flags_over(styles, cursor, x, n);
            let in_ordered = match &ordered {
                Some(r) => x < r.end && n > r.start,
                None => false,
            };
            let font = FontRole {
                code: code || code_block || in_ordered || checkbox.is_some(),
                bold: bold || heading,
                italic,
            };
            let color = if strike {
                ColorRole::Border
            } else if checkbox == Some(true) {
                ColorRole::CheckboxChecked
            } else if checkbox == Some(false) {
                ColorRole::CheckboxUnchecked
            } else if link {
                ColorRole::Link
            } else if code && !code_block {
                ColorRole::Code
            } else {
                ColorRole::Text
            };
            let t = content.slice_cow(x..n);
            let Ghost(p2) = push_piece(&mut display, &mut runs, Ghost(ps), t.as_str(), font, color, link, strike);
            proof {
                assert(p2.last() == window_piece(*line, text@, styles@, cursor, x, n));
                assert(all =~= p2 + rest);
                ps = p2;
            }
        } else {
            assert(all =~= ps + rest);
        }
        x = n;
    }
    assert(all =~= ps);
    (display, runs, collapsed)
}

/// A line without block markers or inline regions shows its text as it is,
/// in one run of the text face, wherever the cursor and the selection are.
pub proof fn law_plain_line_shown_as_is(
    line: LineMarkers,
    text: Seq<char>,
    cursor: usize,
    selection: Option<Range<usize>>,
)
    requires
        line.markers@.len() == 0,
        line.range.start < line.range.end,
    ensures
        line_pieces(line, text, cursor, selection, seq![]) == seq![
            plain(clamped_slice(text, line.range.start as int, line.range.end as int), text_face(), ColorRole::Text),
        ],
        pieces_text(line_pieces(line, text, cursor, selection, seq![])) == clamped_slice(
            text,
            line.range.start as int,
            line.range.end as int,
        ),
{
    let cs = line.range.start;
    let ce = line.range.end;
    let styles = Seq::<StyledRegion>::empty();
    let bs = boundary_points(line, styles, cursor, cs, ce);
    assert(bs =~= seq![cs, ce]);
    assert(next_point(bs, cs, ce) == ce) by {
        assert(bs.drop_last() =~= seq![cs]);
        assert(bs.drop_last().drop_last() =~= Seq::<usize>::empty());
        reveal_with_fuel(next_point, 3);
    }
    assert(!window_hidden(line, styles, cursor, selection, cs, ce, cs, ce));
    assert(windows_from(line, text, styles, cursor, selection, bs, cs, ce, ce) =~= Seq::<Piece>::empty());
    let p = plain(clamped_slice(text, cs as int, ce as int), text_face(), ColorRole::Text);
    assert(window_piece(line, text, styles, cursor, cs, ce) == p);
    assert(windows_from(line, text, styles, cursor, selection, bs, cs, ce, cs) =~= seq![p]);
    assert(line.substitution_spec(text) =~= Seq::<char>::empty());
    assert(line_pieces(line, text, cursor, selection, styles) =~= seq![p]);
    assert(seq![p].drop_last() =~= Seq::<Piece>::empty());
    assert(pieces_text(seq![p]) == pieces_text(Seq::<Piece>::empty()) + p.text);
    assert(pieces_text(Seq::<Piece>::empty()) + p.text =~= p.text);
}

} // verus!
