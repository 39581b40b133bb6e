//! Line markers for markdown block-level elements.
//!
//! A line carries a stack of markers (blockquote `>`, list bullets, task
//! checkboxes, heading `#`s, code fences...), stored innermost to outermost.

use std::ops::Range;
use vstd::prelude::*;
use vstd::utf8::*;
use vstd::string::StringSliceAdditionalSpecFns;

use crate::syntax::{parents_in_bounds, ranges_within, NodeKind, SyntaxNode};
use crate::text::{
    string_from_chars, trim_chars, trim_spec,
    all_ws, bytes_of, chars_in, char_is_whitespace, chars_of, is_ws, leading_ws_len, lemma_leading_ws_len,
    slice_string, string_push, string_push_str, valid_byte_range,
};

verus! {

broadcast use vstd::string::group_string_axioms;

/// The type of marker on a line.
#[derive(Debug, Clone, PartialEq)]
pub enum MarkerKind {
    BlockQuote,
    ListItem { ordered: bool },
    Checkbox { checked: bool },
    Heading(u8),
    CodeBlockFence { language: Option<String>, is_opening: bool },
    CodeBlockContent,
    ThematicBreak,
    Indent,
}

/// A marker on a line with its byte range.
#[derive(Debug, PartialEq)]
pub struct Marker {
    pub kind: MarkerKind,
    pub range: Range<usize>,
}

/// A line with its markers and metadata.
#[derive(Debug, PartialEq)]
pub struct LineMarkers {
    pub range: Range<usize>,
    pub line_number: usize,
    pub markers: Vec<Marker>,
}

impl Clone for Marker {
    fn clone(&self) -> (r: Self)
        ensures
            r.range == self.range,
    {
        Marker { kind: self.kind.clone(), range: self.range.start..self.range.end }
    }
}

impl Clone for LineMarkers {
    fn clone(&self) -> (r: Self)
        ensures
            r.range == self.range,
            r.line_number == self.line_number,
            r.markers@.len() == self.markers@.len(),
    {
        LineMarkers {
            range: self.range.start..self.range.end,
            line_number: self.line_number,
            markers: self.markers.clone(),
        }
    }
}

impl MarkerKind {
    /// The visual substitution text of this marker kind.
    pub open spec fn substitution_spec(&self) -> Seq<char> {
        match self {
            MarkerKind::BlockQuote => seq![' ', ' '],
            MarkerKind::ListItem { ordered } => if *ordered {
                seq![]
            } else {
                seq!['\u{2022}', ' ']
            },
            MarkerKind::Checkbox { checked } => if *checked {
                seq!['[', 'x', ']', ' ']
            } else {
                seq!['[', ' ', ']', ' ']
            },
            MarkerKind::Indent => seq![' ', ' '],
            _ => seq![],
        }
    }

    /// The continuation text of this marker kind (inserted on Shift+Enter).
    pub open spec fn continuation_spec(&self) -> Seq<char> {
        match self {
            MarkerKind::BlockQuote => seq!['>', ' '],
            MarkerKind::ListItem { ordered } => if *ordered {
                seq!['1', '.', ' ']
            } else {
                seq!['-', ' ']
            },
            MarkerKind::Checkbox { .. } => seq!['[', ' ', ']', ' '],
            _ => seq![],
        }
    }

    /// Visual substitution text for this marker kind.
    pub fn substitution(&self) -> (s: &'static str)
        ensures
            s@ == self.substitution_spec(),
    {
        match self {
            MarkerKind::BlockQuote => {
                proof {
                    reveal_strlit("  ");
                }
                "  "
            },
            MarkerKind::ListItem { ordered } => {
                if *ordered {
                    proof {
                        reveal_strlit("");
                    }
                    ""
                } else {
                    proof {
                        reveal_strlit("\u{2022} ");
                    }
                    "\u{2022} "
                }
            },
            MarkerKind::Checkbox { checked } => {
                if *checked {
                    proof {
                        reveal_strlit("[x] ");
                    }
                    "[x] "
                } else {
                    proof {
                        reveal_strlit("[ ] ");
                    }
                    "[ ] "
                }
            },
            MarkerKind::Indent => {
                proof {
                    reveal_strlit("  ");
                }
                "  "
            },
            _ => {
                proof {
                    reveal_strlit("");
                }
                ""
            },
        }
    }

    /// Continuation text to insert on Enter.
    pub fn continuation(&self) -> (s: &'static str)
        ensures
            s@ == self.continuation_spec(),
    {
        match self {
            MarkerKind::BlockQuote => {
                proof {
                    reveal_strlit("> ");
                }
                "> "
            },
            MarkerKind::ListItem { ordered } => {
                if *ordered {
                    proof {
                        reveal_strlit("1. ");
                    }
                    "1. "
                } else {
                    proof {
                        reveal_strlit("- ");
                    }
                    "- "
                }
            },
            MarkerKind::Checkbox { .. } => {
                proof {
                    reveal_strlit("[ ] ");
                }
                "[ ] "
            },
            _ => {
                proof {
                    reveal_strlit("");
                }
                ""
            },
        }
    }

    /// Whether this marker has a left border.
    pub fn has_border(&self) -> (b: bool)
        ensures
            b == (*self is BlockQuote),
    {
        matches!(self, MarkerKind::BlockQuote)
    }
}

/// A checkbox is drawn with its state: `[x] ` when checked, `[ ] ` when not;
/// its second char is `x` exactly when it is checked.
pub proof fn law_checkbox_substitution_shows_state(checked: bool)
    ensures
        (MarkerKind::Checkbox { checked }).substitution_spec().len() == 4,
        (MarkerKind::Checkbox { checked }).substitution_spec()[0] == '[',
        (MarkerKind::Checkbox { checked }).substitution_spec()[2] == ']',
        (MarkerKind::Checkbox { checked }).substitution_spec()[3] == ' ',
        ((MarkerKind::Checkbox { checked }).substitution_spec()[1] == 'x') == checked,
        !checked ==> (MarkerKind::Checkbox { checked }).substitution_spec()[1] == ' ',
{
}

/// What each marker is drawn as: a block quote or an indent as two spaces (a
/// border shows the quote), an unordered list item as a bullet `• `, a task
/// as its checkbox; an ordered list item keeps its number, and headings,
/// fences, code and breaks show nothing in place of their markers.
pub proof fn law_marker_substitutions(k: MarkerKind)
    ensures
        (k is BlockQuote || k is Indent) ==> k.substitution_spec() == seq![' ', ' '],
        k == (MarkerKind::ListItem { ordered: false }) ==> k.substitution_spec() == seq!['\u{2022}', ' '],
        k == (MarkerKind::ListItem { ordered: true }) ==> k.substitution_spec() == Seq::<char>::empty(),
        (k is Heading || k is CodeBlockFence || k is CodeBlockContent || k is ThematicBreak)
            ==> k.substitution_spec() == Seq::<char>::empty(),
{
}

/// What Shift+Enter continues each marker with: a block quote with `> `, an
/// unordered item with `- `, an ordered one with `1. ` (renumbering fixes the
/// number), and nothing for the other markers.
pub proof fn law_marker_continuations(k: MarkerKind)
    ensures
        k is BlockQuote ==> k.continuation_spec() == seq!['>', ' '],
        k == (MarkerKind::ListItem { ordered: false }) ==> k.continuation_spec() == seq!['-', ' '],
        k == (MarkerKind::ListItem { ordered: true }) ==> k.continuation_spec() == seq!['1', '.', ' '],
        (k is Heading || k is CodeBlockFence || k is CodeBlockContent || k is ThematicBreak || k is Indent)
            ==> k.continuation_spec() == Seq::<char>::empty(),
{
}

/// Continuing a task gives a new, unchecked task whatever the state of the
/// one continued: the continuation of every checkbox is `[ ] `.
pub proof fn law_checkbox_continuation_unchecked(checked: bool)
    ensures
        (MarkerKind::Checkbox { checked }).continuation_spec() == seq!['[', ' ', ']', ' '],
{
}

/// Concatenated substitutions of `ms[n-1], ..., ms[0]`, skipping indents.
pub open spec fn substitutions_rev(ms: Seq<Marker>, n: int) -> Seq<char>
    decreases n,
{
    if n <= 0 {
        seq![]
    } else {
        (if ms[n - 1].kind is Indent {
            Seq::<char>::empty()
        } else {
            ms[n - 1].kind.substitution_spec()
        }) + substitutions_rev(ms, n - 1)
    }
}

/// The continuation piece of one marker: indents and list markers keep their own text.
pub open spec fn continuation_piece(m: Marker, bytes: Seq<u8>) -> Seq<char> {
    if m.kind is Indent || m.kind is ListItem {
        chars_in(bytes, m.range.start as int, m.range.end as int)
    } else {
        m.kind.continuation_spec()
    }
}

/// Concatenated continuation pieces of `ms[n-1], ..., ms[0]`.
pub open spec fn continuations_rev(ms: Seq<Marker>, n: int, bytes: Seq<u8>) -> Seq<char>
    decreases n,
{
    if n <= 0 {
        seq![]
    } else {
        continuation_piece(ms[n - 1], bytes) + continuations_rev(ms, n - 1, bytes)
    }
}

/// Concatenated continuation pieces of `ms[n-1], ..., ms[k]`.
pub open spec fn continuations_down(ms: Seq<Marker>, n: int, k: int, bytes: Seq<u8>) -> Seq<char>
    decreases n - k,
{
    if n <= k || n <= 0 {
        seq![]
    } else {
        continuation_piece(ms[n - 1], bytes) + continuations_down(ms, n - 1, k, bytes)
    }
}

/// Index past the markers from `ms[i]` on that belong to a list item (its
/// list marker or checkbox): from 0, how many of the innermost markers do.
pub open spec fn list_run(ms: Seq<Marker>, i: int) -> int
    decreases ms.len() - i,
{
    if 0 <= i < ms.len() && (ms[i].kind is ListItem || ms[i].kind is Checkbox) {
        list_run(ms, i + 1)
    } else {
        i
    }
}

/// The bytes from `start` to `end`, none if `end` comes first.
pub open spec fn marker_span(end: int, start: int) -> int {
    if end >= start {
        end - start
    } else {
        0
    }
}

/// All markers are blockquote markers, and there is one.
pub open spec fn blockquote_only(ms: Seq<Marker>) -> bool {
    ms.len() > 0 && forall|j: int| 0 <= j < ms.len() ==> (#[trigger] ms[j]).kind is BlockQuote
}

/// The first checkbox state among `ms[i..]`.
pub open spec fn checkbox_from(ms: Seq<Marker>, i: int) -> Option<bool>
    decreases ms.len() - i,
{
    if i < 0 || i >= ms.len() {
        None
    } else if ms[i].kind is Checkbox {
        Some(ms[i].kind->checked)
    } else {
        checkbox_from(ms, i + 1)
    }
}

/// The first heading level among `ms[i..]`.
pub open spec fn heading_from(ms: Seq<Marker>, i: int) -> Option<u8>
    decreases ms.len() - i,
{
    if i < 0 || i >= ms.len() {
        None
    } else if ms[i].kind is Heading {
        Some(ms[i].kind->0)
    } else {
        heading_from(ms, i + 1)
    }
}

impl LineMarkers {
    /// Returns the combined byte range of all markers, or None if no markers.
    pub fn marker_range(&self) -> (r: Option<Range<usize>>)
        ensures
            r is None <==> self.markers@.len() == 0,
            r matches Some(rg) ==> rg.start == self.markers@.last().range.start && rg.end
                == self.markers@[0].range.end,
    {
        if self.markers.len() == 0 {
            return None;
        }
        // Markers are ordered innermost to outermost.
        // Outermost (last) has earliest start, innermost (first) has latest end.
        let start = self.markers[self.markers.len() - 1].range.start;
        let end = self.markers[0].range.end;
        Some(start..end)
    }

    /// Returns the width of the marker (including trailing space) relative to line start.
    /// E.g., "- " = 2, "1. " = 3, "10. " = 4
    pub fn marker_width(&self) -> (w: usize)
        requires
            self.markers@.len() > 0 ==> self.markers@[0].range.end >= self.range.start,
        ensures
            w == if self.markers@.len() == 0 {
                0
            } else {
                self.markers@[0].range.end - self.range.start
            },
    {
        if let Some(range) = self.marker_range() {
            range.end - self.range.start
        } else {
            0
        }
    }

    /// The substitution text of this line over `text`.
    pub open spec fn substitution_spec(&self, text: Seq<char>) -> Seq<char> {
        let ms = self.markers@;
        if ms.len() == 0 || (ms.len() == 1 && ms[0].kind is Indent) {
            seq![]
        } else {
            let line = chars_in(bytes_of(text), self.range.start as int, self.range.end as int);
            line.take(leading_ws_len(line) as int) + substitutions_rev(ms, ms.len() as int)
        }
    }

    /// Returns the visual substitution text for all markers, after the leading
    /// whitespace of the line (to respect manual indentation).
    pub fn substitution(&self, text: &str) -> (s: String)
        requires
            self.markers@.len() > 0 && !(self.markers@.len() == 1 && self.markers@[0].kind is Indent)
                ==> valid_byte_range(
                text.spec_bytes(),
                self.range.start as int,
                self.range.end as int,
            ),
        ensures
            s@ == self.substitution_spec(text@),
    {
        if self.markers.len() == 0 {
            return String::new();
        }
        if self.markers.len() == 1 && matches!(self.markers[0].kind, MarkerKind::Indent) {
            return String::new();
        }
        let line_text = slice_string(text, self.range.start, self.range.end);
        let line = chars_of(line_text.as_str());
        let ghost lseq = line@;
        proof {
            lemma_leading_ws_len(lseq);
        }
        let mut result = String::new();
        let mut k: usize = 0;
        while k < line.len() && char_is_whitespace(line[k])
            invariant
                lseq == line@,
                k <= leading_ws_len(lseq),
                k <= line.len(),
                result@ == lseq.take(k as int),
                forall|i: int| 0 <= i < leading_ws_len(lseq) ==> is_ws(#[trigger] lseq[i]),
                leading_ws_len(lseq) < lseq.len() ==> !is_ws(lseq[leading_ws_len(lseq) as int]),
                leading_ws_len(lseq) <= lseq.len(),
            decreases line.len() - k,
        {
            string_push(&mut result, line[k]);
            assert(lseq.take(k as int).push(lseq[k as int]) =~= lseq.take(k + 1));
            k += 1;
        }
        assert(k == leading_ws_len(lseq));
        let ghost ms = self.markers@;
        let ghost prefix = result@;
        let mut i = self.markers.len();
        assert(prefix + substitutions_rev(ms, ms.len() as int) =~= prefix + substitutions_rev(
            ms,
            ms.len() as int,
        ));
        while i > 0
            invariant
                ms == self.markers@,
                i <= ms.len(),
                result@ + substitutions_rev(ms, i as int) =~= prefix + substitutions_rev(
                    ms,
                    ms.len() as int,
                ),
            decreases i,
        {
            let m = &self.markers[i - 1];
            let ghost before = result@;
            if !matches!(m.kind, MarkerKind::Indent) {
                string_push_str(&mut result, m.kind.substitution());
            }
            assert(before + substitutions_rev(ms, i as int) =~= result@ + substitutions_rev(
                ms,
                i - 1,
            ));
            i -= 1;
        }
        result
    }

    /// The continuation text of this line over `text`.
    pub open spec fn continuation_spec(&self, text: Seq<char>) -> Seq<char> {
        continuations_rev(self.markers@, self.markers@.len() as int, bytes_of(text))
    }

    /// Returns the continuation text to insert on Enter, in text order
    /// (outermost to innermost). Indent and list markers keep their own text.
    pub fn continuation(&self, text: &str) -> (s: String)
        requires
            forall|i: int|
                0 <= i < self.markers@.len() && (self.markers@[i].kind is Indent
                    || self.markers@[i].kind is ListItem) ==> valid_byte_range(
                    text.spec_bytes(),
                    #[trigger] self.markers@[i].range.start as int,
                    self.markers@[i].range.end as int,
                ),
        ensures
            s@ == self.continuation_spec(text@),
    {
        let ghost ms = self.markers@;
        let ghost bytes = text.spec_bytes();
        let mut result = String::new();
        let mut i = self.markers.len();
        while i > 0
            invariant
                ms == self.markers@,
                bytes == text.spec_bytes(),
                i <= ms.len(),
                forall|j: int|
                    0 <= j < ms.len() && (ms[j].kind is Indent || ms[j].kind is ListItem)
                        ==> valid_byte_range(
                        bytes,
                        #[trigger] ms[j].range.start as int,
                        ms[j].range.end as int,
                    ),
                result@ + continuations_rev(ms, i as int, bytes) =~= continuations_rev(
                    ms,
                    ms.len() as int,
                    bytes,
                ),
            decreases i,
        {
            let m = &self.markers[i - 1];
            let ghost before = result@;
            match &m.kind {
                MarkerKind::Indent | MarkerKind::ListItem { .. } => {
                    let piece = slice_string(text, m.range.start, m.range.end);
                    string_push_str(&mut result, piece.as_str());
                },
                _ => {
                    string_push_str(&mut result, m.kind.continuation());
                },
            }
            assert(before + continuations_rev(ms, i as int, bytes) =~= result@ + continuations_rev(
                ms,
                i - 1,
                bytes,
            ));
            i -= 1;
        }
        result
    }

    /// Returns true if any marker has a left border (blockquotes).
    pub fn has_border(&self) -> (b: bool)
        ensures
            b == exists|i: int| 0 <= i < self.markers@.len() && #[trigger] self.markers@[i].kind is BlockQuote,
    {
        let mut i: usize = 0;
        while i < self.markers.len()
            invariant
                i <= self.markers@.len(),
                forall|j: int| 0 <= j < i ==> !(#[trigger] self.markers@[j].kind is BlockQuote),
            decreases self.markers.len() - i,
        {
            if self.markers[i].kind.has_border() {
                return true;
            }
            i += 1;
        }
        false
    }

    /// Returns the checkbox state if this line has a task list marker.
    pub fn checkbox(&self) -> (c: Option<bool>)
        ensures
            c == checkbox_from(self.markers@, 0),
    {
        let mut i: usize = 0;
        while i < self.markers.len()
            invariant
                i <= self.markers@.len(),
                checkbox_from(self.markers@, i as int) == checkbox_from(self.markers@, 0),
            decreases self.markers.len() - i,
        {
            if let MarkerKind::Checkbox { checked } = self.markers[i].kind {
                return Some(checked);
            }
            i += 1;
        }
        None
    }

    /// The leading whitespace of this line over `text`.
    pub open spec fn leading_whitespace_spec(&self, text: Seq<char>) -> Seq<char> {
        if self.markers@.len() > 0 && self.markers@[0].range.start > self.range.start {
            chars_in(bytes_of(text), self.range.start as int, self.markers@[0].range.start as int)
        } else {
            seq![]
        }
    }

    /// Returns the text between the line start and the first marker.
    pub fn leading_whitespace(&self, text: &str) -> (s: String)
        requires
            self.markers@.len() > 0 && self.markers@[0].range.start > self.range.start
                ==> valid_byte_range(
                text.spec_bytes(),
                self.range.start as int,
                self.markers@[0].range.start as int,
            ),
        ensures
            s@ == self.leading_whitespace_spec(text@),
    {
        if self.markers.len() > 0 && self.markers[0].range.start > self.range.start {
            return slice_string(text, self.range.start, self.markers[0].range.start);
        }
        String::new()
    }

    /// Returns true if this line is code block content (not a fence line).
    pub fn is_code_block_content(&self) -> (b: bool)
        ensures
            b == exists|i: int|
                0 <= i < self.markers@.len() && #[trigger] self.markers@[i].kind is CodeBlockContent,
    {
        let mut i: usize = 0;
        while i < self.markers.len()
            invariant
                i <= self.markers@.len(),
                forall|j: int| 0 <= j < i ==> !(#[trigger] self.markers@[j].kind is CodeBlockContent),
            decreases self.markers.len() - i,
        {
            if matches!(self.markers[i].kind, MarkerKind::CodeBlockContent) {
                return true;
            }
            i += 1;
        }
        false
    }

    /// Returns true if this line is a code block fence (opening or closing).
    pub fn is_fence(&self) -> (b: bool)
        ensures
            b == exists|i: int|
                0 <= i < self.markers@.len() && #[trigger] self.markers@[i].kind is CodeBlockFence,
    {
        let mut i: usize = 0;
        while i < self.markers.len()
            invariant
                i <= self.markers@.len(),
                forall|j: int| 0 <= j < i ==> !(#[trigger] self.markers@[j].kind is CodeBlockFence),
            decreases self.markers.len() - i,
        {
            if matches!(self.markers[i].kind, MarkerKind::CodeBlockFence { .. }) {
                return true;
            }
            i += 1;
        }
        false
    }

    /// Whether the line's markers are all blockquote markers (and there is one).
    pub fn is_blockquote_only(&self) -> (b: bool)
        ensures
            b == blockquote_only(self.markers@),
    {
        if self.markers.len() == 0 {
            return false;
        }
        let mut i: usize = 0;
        while i < self.markers.len()
            invariant
                i <= self.markers@.len(),
                forall|j: int| 0 <= j < i ==> (#[trigger] self.markers@[j]).kind is BlockQuote,
            decreases self.markers@.len() - i,
        {
            if !matches!(self.markers[i].kind, MarkerKind::BlockQuote) {
                return false;
            }
            i += 1;
        }
        true
    }

    /// The indent that starts a paragraph nested in the line's innermost list
    /// item: the continuation of the markers around the item, then a space
    /// for each byte of the item's own markers (list marker and checkbox).
    pub open spec fn nested_indent_spec(&self, text: Seq<char>) -> Seq<char> {
        let ms = self.markers@;
        let k = list_run(ms, 0);
        continuations_down(ms, ms.len() as int, k, bytes_of(text)) + if k > 0 {
            Seq::new(marker_span(ms[0].range.end as int, ms[k - 1].range.start as int) as nat, |i: int| ' ')
        } else {
            seq![]
        }
    }

    /// The indent that starts a paragraph nested in the line's innermost list item.
    pub fn nested_paragraph_indent(&self, text: &str) -> (s: String)
        requires
            forall|i: int|
                0 <= i < self.markers@.len() && (self.markers@[i].kind is Indent
                    || self.markers@[i].kind is ListItem) ==> valid_byte_range(
                    text.spec_bytes(),
                    #[trigger] self.markers@[i].range.start as int,
                    self.markers@[i].range.end as int,
                ),
        ensures
            s@ == self.nested_indent_spec(text@),
    {
        let ghost ms = self.markers@;
        let ghost bytes = text.spec_bytes();
        let mut k: usize = 0;
        while k < self.markers.len() && matches!(self.markers[k].kind, MarkerKind::ListItem { .. } | MarkerKind::Checkbox { .. })
            invariant
                k <= ms.len(),
                ms == self.markers@,
                list_run(ms, k as int) == list_run(ms, 0),
            decreases ms.len() - k,
        {
            k += 1;
        }
        let mut result = String::new();
        let mut i = self.markers.len();
        proof {
            reveal_strlit("");
        }
        while i > k
            invariant
                ms == self.markers@,
                bytes == text.spec_bytes(),
                k <= i <= ms.len(),
                k == list_run(ms, 0),
                forall|j: int|
                    0 <= j < ms.len() && (ms[j].kind is Indent || ms[j].kind is ListItem)
                        ==> valid_byte_range(
                        bytes,
                        #[trigger] ms[j].range.start as int,
                        ms[j].range.end as int,
                    ),
                result@ + continuations_down(ms, i as int, k as int, bytes) =~= continuations_down(
                    ms,
                    ms.len() as int,
                    k as int,
                    bytes,
                ),
            decreases i,
        {
            let m = &self.markers[i - 1];
            let ghost before = result@;
            match &m.kind {
                MarkerKind::Indent | MarkerKind::ListItem { .. } => {
                    let piece = slice_string(text, m.range.start, m.range.end);
                    string_push_str(&mut result, piece.as_str());
                },
                _ => {
                    string_push_str(&mut result, m.kind.continuation());
                },
            }
            assert(before + continuations_down(ms, i as int, k as int, bytes) =~= result@
                + continuations_down(ms, i - 1, k as int, bytes));
            i -= 1;
        }
        if k > 0 {
            let end = self.markers[0].range.end;
            let start = self.markers[k - 1].range.start;
            let width = if end >= start {
                end - start
            } else {
                0
            };
            let ghost prefix = result@;
            let mut n: usize = 0;
            while n < width
                invariant
                    n <= width,
                    result@ == prefix + Seq::new(n as nat, |j: int| ' '),
                decreases width - n,
            {
                string_push(&mut result, ' ');
                assert(Seq::new((n + 1) as nat, |j: int| ' ') =~= Seq::new(n as nat, |j: int| ' ').push(' '));
                n += 1;
            }
        } else {
            assert(result@ =~= result@ + Seq::<char>::empty());
        }
        result
    }

    /// Returns the heading level if this line is a heading.
    pub fn heading_level(&self) -> (h: Option<u8>)
        ensures
            h == heading_from(self.markers@, 0),
    {
        let mut i: usize = 0;
        while i < self.markers.len()
            invariant
                i <= self.markers@.len(),
                heading_from(self.markers@, i as int) == heading_from(self.markers@, 0),
            decreases self.markers.len() - i,
        {
            if let MarkerKind::Heading(level) = self.markers[i].kind {
                return Some(level);
            }
            i += 1;
        }
        None
    }
}

/// A marker kind as a mathematical value.
pub enum KindV {
    BlockQuote,
    ListItem { ordered: bool },
    Checkbox { checked: bool },
    Heading(u8),
    CodeBlockFence { language: Option<Seq<char>>, is_opening: bool },
    CodeBlockContent,
    ThematicBreak,
    Indent,
}

/// A marker as a mathematical value.
pub struct MarkerV {
    pub kind: KindV,
    pub start: int,
    pub end: int,
}

impl MarkerKind {
    pub open spec fn view_kind(&self) -> KindV {
        match self {
            MarkerKind::BlockQuote => KindV::BlockQuote,
            MarkerKind::ListItem { ordered } => KindV::ListItem { ordered: *ordered },
            MarkerKind::Checkbox { checked } => KindV::Checkbox { checked: *checked },
            MarkerKind::Heading(l) => KindV::Heading(*l),
            MarkerKind::CodeBlockFence { language, is_opening } => KindV::CodeBlockFence {
                language: match language {
                    Some(s) => Some(s@),
                    None => None,
                },
                is_opening: *is_opening,
            },
            MarkerKind::CodeBlockContent => KindV::CodeBlockContent,
            MarkerKind::ThematicBreak => KindV::ThematicBreak,
            MarkerKind::Indent => KindV::Indent,
        }
    }

    /// A copy of this kind.
    pub fn duplicate(&self) -> (r: MarkerKind)
        ensures
            r.view_kind() == self.view_kind(),
    {
        match self {
            MarkerKind::BlockQuote => MarkerKind::BlockQuote,
            MarkerKind::ListItem { ordered } => MarkerKind::ListItem { ordered: *ordered },
            MarkerKind::Checkbox { checked } => MarkerKind::Checkbox { checked: *checked },
            MarkerKind::Heading(l) => MarkerKind::Heading(*l),
            MarkerKind::CodeBlockFence { language, is_opening } => {
                let language = match language {
                    Some(s) => Some(s.clone()),
                    None => None,
                };
                MarkerKind::CodeBlockFence { language, is_opening: *is_opening }
            },
            MarkerKind::CodeBlockContent => MarkerKind::CodeBlockContent,
            MarkerKind::ThematicBreak => MarkerKind::ThematicBreak,
            MarkerKind::Indent => MarkerKind::Indent,
        }
    }
}

impl View for Marker {
    type V = MarkerV;

    open spec fn view(&self) -> MarkerV {
        MarkerV {
            kind: self.kind.view_kind(),
            start: self.range.start as int,
            end: self.range.end as int,
        }
    }
}

/// The views of a sequence of markers.
pub open spec fn marker_views(ms: Seq<Marker>) -> Seq<MarkerV> {
    ms.map_values(|m: Marker| m@)
}

/// True when the bytes `start..end` hold a `>`.
pub open spec fn has_gt(bytes: Seq<u8>, start: int, end: int) -> bool {
    exists|i: int| start <= i < end && 0 <= i < bytes.len() && #[trigger] bytes[i] == 0x3E
}

/// `end`, extended by one when the byte there is a space.
pub open spec fn end_with_space(bytes: Seq<u8>, end: int) -> int {
    if 0 <= end < bytes.len() && bytes[end] == 0x20 {
        end + 1
    } else {
        end
    }
}

/// The first fence language recorded among `ms[i..]`.
pub open spec fn fence_language_from(ms: Seq<MarkerV>, i: int) -> Option<Seq<char>>
    decreases ms.len() - i,
{
    if i < 0 || i >= ms.len() {
        None
    } else if ms[i].kind is CodeBlockFence && ms[i].kind->language is Some {
        ms[i].kind->language
    } else {
        fence_language_from(ms, i + 1)
    }
}

/// `ms` without its fence markers.
pub open spec fn without_fences(ms: Seq<MarkerV>) -> Seq<MarkerV>
    decreases ms.len(),
{
    if ms.len() == 0 {
        seq![]
    } else if ms.last().kind is CodeBlockFence {
        without_fences(ms.drop_last())
    } else {
        without_fences(ms.drop_last()).push(ms.last())
    }
}

/// True when `n` is the opening delimiter of its fenced code block.
pub open spec fn opens_block(nodes: Seq<SyntaxNode>, n: SyntaxNode) -> bool {
    n.parent matches Some(p) && (nodes[p as int].kind is FencedCodeBlock && nodes[p as int].start_byte
        == n.start_byte)
}

/// The language named by an info string: its trimmed text, if not empty.
pub open spec fn info_language(bytes: Seq<u8>, start: int, end: int) -> Option<Seq<char>> {
    let t = trim_spec(chars_in(bytes, start, end));
    if t.len() == 0 {
        None
    } else {
        Some(t)
    }
}

/// The markers after processing node `n` on top of `ms`.
pub open spec fn marker_step(
    ms: Seq<MarkerV>,
    nodes: Seq<SyntaxNode>,
    n: SyntaxNode,
    bytes: Seq<u8>,
) -> Seq<MarkerV> {
    let s = n.start_byte as int;
    let e = n.end_byte as int;
    match n.kind {
        NodeKind::BlockQuoteMarker | NodeKind::BlockContinuation => {
            if n.kind is BlockContinuation && (n.parent matches Some(p)
                && nodes[p as int].kind is IndentedCodeBlock) {
                ms
            } else if has_gt(bytes, s, e) {
                ms.push(MarkerV { kind: KindV::BlockQuote, start: s, end: e })
            } else if chars_in(bytes, s, e).len() > 0 && all_ws(chars_in(bytes, s, e)) {
                ms.push(MarkerV { kind: KindV::Indent, start: s, end: e })
            } else {
                ms
            }
        },
        NodeKind::ListMarkerMinus | NodeKind::ListMarkerPlus | NodeKind::ListMarkerStar => ms.push(
            MarkerV { kind: KindV::ListItem { ordered: false }, start: s, end: e },
        ),
        NodeKind::ListMarkerDot | NodeKind::ListMarkerParenthesis => ms.push(
            MarkerV { kind: KindV::ListItem { ordered: true }, start: s, end: e },
        ),
        NodeKind::TaskListMarkerUnchecked => ms.push(
            MarkerV { kind: KindV::Checkbox { checked: false }, start: s, end: end_with_space(bytes, e) },
        ),
        NodeKind::TaskListMarkerChecked => ms.push(
            MarkerV { kind: KindV::Checkbox { checked: true }, start: s, end: end_with_space(bytes, e) },
        ),
        NodeKind::AtxMarker(level) => ms.push(
            MarkerV { kind: KindV::Heading(level), start: s, end: end_with_space(bytes, e) },
        ),
        NodeKind::ThematicBreak => ms.push(MarkerV { kind: KindV::ThematicBreak, start: s, end: e }),
        NodeKind::FencedCodeBlockDelimiter => without_fences(ms).push(
            MarkerV {
                kind: KindV::CodeBlockFence {
                    language: fence_language_from(ms, 0),
                    is_opening: opens_block(nodes, n),
                },
                start: s,
                end: e,
            },
        ),
        NodeKind::InfoString => ms.push(
            MarkerV {
                kind: KindV::CodeBlockFence { language: info_language(bytes, s, e), is_opening: true },
                start: s,
                end: e,
            },
        ),
        _ => ms,
    }
}

/// The markers found by walking `nodes[..j]` backwards from index `j - 1`,
/// stopping at the first node that starts before `line_start`.
pub open spec fn markers_walk(
    ms: Seq<MarkerV>,
    nodes: Seq<SyntaxNode>,
    j: int,
    line_start: int,
    bytes: Seq<u8>,
) -> Seq<MarkerV>
    decreases j,
{
    if j <= 0 || j > nodes.len() || nodes[j - 1].start_byte < line_start {
        ms
    } else {
        markers_walk(marker_step(ms, nodes, nodes[j - 1], bytes), nodes, j - 1, line_start, bytes)
    }
}

/// Every marker of `ms` starts within `lo..=hi`.
pub open spec fn starts_within(ms: Seq<MarkerV>, lo: int, hi: int) -> bool {
    forall|i: int| 0 <= i < ms.len() ==> lo <= #[trigger] ms[i].start <= hi
}

/// Innermost first: the markers' starts never increase along `ms`.
pub open spec fn innermost_first(ms: Seq<MarkerV>) -> bool {
    forall|i: int, j: int| 0 <= i <= j < ms.len() ==> ms[i].start >= ms[j].start
}

/// Dropping the fence markers keeps the order and the bounds of the rest.
proof fn lemma_without_fences_keeps(ms: Seq<MarkerV>, lo: int, hi: int)
    requires
        innermost_first(ms),
        starts_within(ms, lo, hi),
    ensures
        innermost_first(without_fences(ms)),
        starts_within(without_fences(ms), lo, hi),
    decreases ms.len(),
{
    if ms.len() > 0 {
        let dl = ms.drop_last();
        let last = ms.last();
        assert(starts_within(dl, last.start, hi)) by {
            assert forall|i: int| 0 <= i < dl.len() implies last.start <= #[trigger] dl[i].start <= hi by {
                assert(dl[i] == ms[i]);
            }
        }
        lemma_without_fences_keeps(dl, last.start, hi);
        assert(starts_within(ms, lo, hi) ==> lo <= ms[ms.len() - 1].start);
    }
}

/// Some node of `nodes` starts at `x`, at or after `ls`.
pub open spec fn node_starts_at(nodes: Seq<SyntaxNode>, ls: int, x: int) -> bool {
    exists|i: int| 0 <= i < nodes.len() && (#[trigger] nodes[i]).start_byte >= ls && nodes[i].start_byte == x
}

/// Every marker of `ms` starts where a node of `nodes` starts, at or after `ls`.
pub open spec fn from_nodes(ms: Seq<MarkerV>, nodes: Seq<SyntaxNode>, ls: int) -> bool {
    forall|k: int| 0 <= k < ms.len() ==> #[trigger] node_starts_at(nodes, ls, ms[k].start)
}

/// Dropping the fence markers keeps the others, each one of `ms`.
proof fn lemma_without_fences_from(ms: Seq<MarkerV>, nodes: Seq<SyntaxNode>, ls: int)
    requires
        from_nodes(ms, nodes, ls),
    ensures
        from_nodes(without_fences(ms), nodes, ls),
    decreases ms.len(),
{
    if ms.len() > 0 {
        let dl = ms.drop_last();
        assert(from_nodes(dl, nodes, ls)) by {
            assert forall|k: int| 0 <= k < dl.len() implies #[trigger] node_starts_at(nodes, ls, dl[k].start) by {
                assert(dl[k] == ms[k]);
            }
        }
        lemma_without_fences_from(dl, nodes, ls);
        let w = without_fences(ms);
        let wd = without_fences(dl);
        if !(ms.last().kind is CodeBlockFence) {
            assert forall|k: int| 0 <= k < w.len() implies #[trigger] node_starts_at(nodes, ls, w[k].start) by {
                if k < wd.len() {
                    assert(w[k] == wd[k]);
                } else {
                    assert(w[k] == ms[ms.len() - 1]);
                }
            }
        }
    }
}

/// Walking the nodes gives markers that each start where a node on the line starts.
proof fn lemma_walk_from_nodes(ms: Seq<MarkerV>, nodes: Seq<SyntaxNode>, j: int, ls: int, bytes: Seq<u8>)
    requires
        from_nodes(ms, nodes, ls),
    ensures
        from_nodes(markers_walk(ms, nodes, j, ls, bytes), nodes, ls),
    decreases j,
{
    if !(j <= 0 || j > nodes.len() || nodes[j - 1].start_byte < ls) {
        let n = nodes[j - 1];
        let next = marker_step(ms, nodes, n, bytes);
        let base = if n.kind is FencedCodeBlockDelimiter {
            without_fences(ms)
        } else {
            ms
        };
        if n.kind is FencedCodeBlockDelimiter {
            lemma_without_fences_from(ms, nodes, ls);
        }
        assert(next == base || (next.len() == base.len() + 1 && next.drop_last() == base
            && next.last().start == n.start_byte)) by {
            if next != base {
                assert(next.drop_last() =~= base);
            }
        }
        assert(from_nodes(next, nodes, ls)) by {
            if next != base {
                assert forall|k: int| 0 <= k < next.len() implies #[trigger] node_starts_at(nodes, ls, next[k].start) by {
                    if k < base.len() {
                        assert(next[k] == base[k]);
                    } else {
                        assert(next[k].start == nodes[j - 1].start_byte);
                        assert(nodes[j - 1].start_byte >= ls);
                    }
                }
            }
        }
        lemma_walk_from_nodes(next, nodes, j - 1, ls, bytes);
    }
}

/// Walking nodes sorted by start from index `j - 1` down gives markers that
/// start within `line_start..=hi`, innermost first.
proof fn lemma_walk_innermost_first(
    ms: Seq<MarkerV>,
    nodes: Seq<SyntaxNode>,
    j: int,
    line_start: int,
    hi: int,
    bytes: Seq<u8>,
)
    requires
        sorted_by_start(nodes),
        0 <= j <= nodes.len(),
        forall|i: int| 0 <= i < j ==> #[trigger] nodes[i].start_byte <= hi,
        innermost_first(ms),
        starts_within(ms, line_start, hi),
        j > 0 ==> starts_within(ms, nodes[j - 1].start_byte as int, hi),
    ensures
        innermost_first(markers_walk(ms, nodes, j, line_start, bytes)),
        starts_within(markers_walk(ms, nodes, j, line_start, bytes), line_start, hi),
    decreases j,
{
    if !(j <= 0 || j > nodes.len() || nodes[j - 1].start_byte < line_start) {
        let n = nodes[j - 1];
        let s = n.start_byte as int;
        let next = marker_step(ms, nodes, n, bytes);
        let base = if n.kind is FencedCodeBlockDelimiter {
            without_fences(ms)
        } else {
            ms
        };
        if n.kind is FencedCodeBlockDelimiter {
            lemma_without_fences_keeps(ms, s, hi);
        }
        assert(innermost_first(base) && starts_within(base, s, hi));
        assert(next == base || (next.len() == base.len() + 1 && next.drop_last() == base
            && next.last().start == s)) by {
            if next != base {
                assert(next.drop_last() =~= base);
            }
        }
        assert(innermost_first(next)) by {
            if next != base {
                assert forall|a: int, b: int| 0 <= a <= b < next.len() implies next[a].start
                    >= next[b].start by {
                    if b < base.len() {
                        assert(next[a] == base[a] && next[b] == base[b]);
                    } else if a < base.len() {
                        assert(next[a] == base[a]);
                    }
                }
            }
        }
        assert(starts_within(next, s, hi)) by {
            if next != base {
                assert forall|a: int| 0 <= a < next.len() implies s <= #[trigger] next[a].start <= hi by {
                    if a < base.len() {
                        assert(next[a] == base[a]);
                    }
                }
            }
        }
        if j - 1 > 0 {
            assert(nodes[j - 2].start_byte <= nodes[j - 1].start_byte);
            assert(starts_within(next, nodes[j - 2].start_byte as int, hi)) by {
                assert forall|a: int| 0 <= a < next.len() implies nodes[j - 2].start_byte
                    <= #[trigger] next[a].start <= hi by {
                    assert(s <= next[a].start);
                }
            }
        }
        assert(starts_within(next, line_start, hi)) by {
            assert forall|a: int| 0 <= a < next.len() implies line_start
                <= #[trigger] next[a].start <= hi by {
                assert(s <= next[a].start);
            }
        }
        lemma_walk_innermost_first(next, nodes, j - 1, line_start, hi, bytes);
    }
}

/// `k` splits `nodes` at `x`: the node before starts at or before `x`, the node at `k` after it.
pub open spec fn splits_at(nodes: Seq<SyntaxNode>, x: int, k: int) -> bool {
    &&& 0 <= k <= nodes.len()
    &&& (k == 0 || nodes[k - 1].start_byte <= x)
    &&& (k == nodes.len() || nodes[k].start_byte > x)
}

/// Nodes are in document order: their starts never decrease.
pub open spec fn sorted_by_start(nodes: Seq<SyntaxNode>) -> bool {
    forall|i: int, j: int| 0 <= i <= j < nodes.len() ==> nodes[i].start_byte <= nodes[j].start_byte
}

/// Number of nodes that start at or before `x`.
pub open spec fn count_starting_by(nodes: Seq<SyntaxNode>, x: int) -> int
    decreases nodes.len(),
{
    if nodes.len() == 0 {
        0
    } else {
        count_starting_by(nodes.drop_last(), x) + if nodes.last().start_byte <= x {
            1int
        } else {
            0
        }
    }
}

pub proof fn lemma_split_unique(nodes: Seq<SyntaxNode>, x: int, k: int)
    requires
        sorted_by_start(nodes),
        splits_at(nodes, x, k),
    ensures
        k == count_starting_by(nodes, x),
    decreases nodes.len(),
{
    if nodes.len() > 0 {
        let init = nodes.drop_last();
        if k == nodes.len() {
            if k - 1 > 0 {
                assert(init[k - 2].start_byte <= nodes[k - 1].start_byte);
            }
            lemma_split_unique(init, x, k - 1);
        } else {
            assert(nodes.last().start_byte >= nodes[k].start_byte);
            lemma_split_unique(init, x, k);
        }
    }
}

/// Index that splits `nodes` at `x` (binary search; on sorted nodes, the first node starting after `x`).
pub fn split_index(nodes: &[SyntaxNode], x: usize) -> (k: usize)
    ensures
        splits_at(nodes@, x as int, k as int),
{
    let mut lo: usize = 0;
    let mut hi: usize = nodes.len();
    while lo < hi
        invariant
            0 <= lo <= hi <= nodes@.len(),
            lo == 0 || nodes@[lo - 1].start_byte <= x,
            hi == nodes@.len() || nodes@[hi as int].start_byte > x,
        decreases hi - lo,
    {
        let mid = lo + (hi - lo) / 2;
        if nodes[mid].start_byte <= x {
            lo = mid + 1;
        } else {
            hi = mid;
        }
    }
    lo
}

/// True when the bytes `start..end` of `bytes` hold a `>`.
fn bytes_have_gt(bytes: &[u8], start: usize, end: usize) -> (b: bool)
    requires
        end <= bytes@.len(),
    ensures
        b == has_gt(bytes@, start as int, end as int),
{
    let mut i = start;
    while i < end
        invariant
            start <= i,
            end <= bytes@.len(),
            forall|j: int| start <= j < i && j < end ==> bytes@[j] != 0x3E,
        decreases end - i,
    {
        if bytes[i] == 0x3Eu8 {
            assert(start <= i < end && 0 <= i < bytes@.len() && bytes@[i as int] == 0x3E);
            return true;
        }
        i += 1;
    }
    false
}

/// True when `v` is not empty and all whitespace.
pub(crate) fn nonempty_all_ws(v: &Vec<char>) -> (b: bool)
    ensures
        b == (v@.len() > 0 && all_ws(v@)),
{
    if v.len() == 0 {
        return false;
    }
    let mut i: usize = 0;
    while i < v.len()
        invariant
            i <= v.len(),
            forall|j: int| 0 <= j < i ==> is_ws(#[trigger] v@[j]),
        decreases v.len() - i,
    {
        if !char_is_whitespace(v[i]) {
            return false;
        }
        i += 1;
    }
    true
}

/// The end of a marker range, extended over one trailing space.
fn end_over_space(bytes: &[u8], end: usize) -> (e: usize)
    ensures
        e == end_with_space(bytes@, end as int),
{
    if end < bytes.len() && bytes[end] == 0x20u8 {
        end + 1
    } else {
        end
    }
}

/// The first fence language among `ms`.
fn fence_language(ms: &Vec<Marker>) -> (r: Option<String>)
    ensures
        (match r {
            Some(s) => Some(s@),
            None => None,
        }) == fence_language_from(marker_views(ms@), 0),
{
    let ghost vs = marker_views(ms@);
    let mut i: usize = 0;
    while i < ms.len()
        invariant
            i <= ms@.len(),
            vs == marker_views(ms@),
            fence_language_from(vs, i as int) == fence_language_from(vs, 0),
        decreases ms.len() - i,
    {
        if let MarkerKind::CodeBlockFence { language: Some(lang), .. } = &ms[i].kind {
            return Some(lang.clone());
        }
        i += 1;
    }
    None
}

/// `ms` without its fence markers.
fn drop_fences(ms: &Vec<Marker>) -> (r: Vec<Marker>)
    ensures
        marker_views(r@) == without_fences(marker_views(ms@)),
{
    let ghost vs = marker_views(ms@);
    let mut r: Vec<Marker> = Vec::new();
    let mut i: usize = 0;
    while i < ms.len()
        invariant
            i <= ms@.len(),
            vs == marker_views(ms@),
            marker_views(r@) == without_fences(vs.take(i as int)),
        decreases ms.len() - i,
    {
        assert(vs.take(i + 1).drop_last() =~= vs.take(i as int));
        if !matches!(ms[i].kind, MarkerKind::CodeBlockFence { .. }) {
            let m = Marker { kind: ms[i].kind.duplicate(), range: ms[i].range.start..ms[i].range.end };
            r.push(m);
            assert(marker_views(r@) =~= without_fences(vs.take(i as int)).push(vs[i as int]));
        } else {
            assert(marker_views(r@) =~= without_fences(vs.take(i as int)));
        }
        i += 1;
    }
    assert(vs.take(ms.len() as int) =~= vs);
    r
}

/// Node kinds whose text is read by slicing it out of the text.
pub open spec fn sliced_kind(k: NodeKind) -> bool {
    k is BlockQuoteMarker || k is BlockContinuation || k is InfoString || k is ListMarkerDot
        || k is ListMarkerParenthesis
}

/// The nodes hand `markers_at` ranges of `bytes` it can read.
pub open spec fn nodes_fit_text(nodes: Seq<SyntaxNode>, bytes: Seq<u8>) -> bool {
    &&& parents_in_bounds(nodes)
    &&& ranges_within(nodes, bytes.len() as int)
    &&& forall|i: int|
        0 <= i < nodes.len() && sliced_kind(#[trigger] nodes[i].kind) ==> valid_byte_range(
            bytes,
            nodes[i].start_byte as int,
            nodes[i].end_byte as int,
        )
}

/// Whether `nodes` fit `text`: every parent index points into the list, every
/// range lies within the text, and every node whose text is read spans whole
/// chars of `text`.
pub fn nodes_fit(nodes: &[SyntaxNode], text: &str) -> (b: bool)
    ensures
        b == nodes_fit_text(nodes@, text.spec_bytes()),
{
    let len = text.as_bytes().len();
    let mut i: usize = 0;
    while i < nodes.len()
        invariant
            i <= nodes@.len(),
            len == text.spec_bytes().len(),
            forall|j: int|
                0 <= j < i ==> (#[trigger] nodes@[j].parent matches Some(p) ==> p < nodes@.len()),
            forall|j: int|
                0 <= j < i ==> #[trigger] nodes@[j].start_byte <= nodes@[j].end_byte
                    && nodes@[j].end_byte <= len,
            forall|j: int|
                0 <= j < i && sliced_kind(#[trigger] nodes@[j].kind) ==> valid_byte_range(
                    text.spec_bytes(),
                    nodes@[j].start_byte as int,
                    nodes@[j].end_byte as int,
                ),
        decreases nodes@.len() - i,
    {
        let n = nodes[i];
        match n.parent {
            Some(p) => {
                if p >= nodes.len() {
                    return false;
                }
            },
            None => {},
        }
        if !(n.start_byte <= n.end_byte && n.end_byte <= len) {
            return false;
        }
        let sliced = match n.kind {
            NodeKind::BlockQuoteMarker | NodeKind::BlockContinuation | NodeKind::InfoString
            | NodeKind::ListMarkerDot | NodeKind::ListMarkerParenthesis => true,
            _ => false,
        };
        if sliced {
            if !(n.start_byte <= n.end_byte && n.end_byte <= len && text.is_char_boundary(
                n.start_byte,
            ) && text.is_char_boundary(n.end_byte)) {
                return false;
            }
        }
        i += 1;
    }
    true
}

/// Find all markers for a line by scanning nodes that start within the line.
/// Returns markers innermost to outermost (reverse document order).
pub fn markers_at(nodes: &[SyntaxNode], text: &str, line_start: usize, line_end: usize) -> (r: Vec<Marker>)
    requires
        nodes_fit_text(nodes@, text.spec_bytes()),
    ensures
        exists|k: int|
            splits_at(nodes@, line_end as int, k) && marker_views(r@) == markers_walk(
                seq![],
                nodes@,
                k,
                line_start as int,
                text.spec_bytes(),
            ),
        sorted_by_start(nodes@) ==> marker_views(r@) == markers_walk(
            seq![],
            nodes@,
            count_starting_by(nodes@, line_end as int),
            line_start as int,
            text.spec_bytes(),
        ),
        from_nodes(marker_views(r@), nodes@, line_start as int),
        sorted_by_start(nodes@) ==> innermost_first(marker_views(r@)) && starts_within(
            marker_views(r@),
            line_start as int,
            line_end as int,
        ),
{
    let bytes = text.as_bytes();
    let ghost bs = text.spec_bytes();
    let end_idx = split_index(nodes, line_end);
    proof {
        if sorted_by_start(nodes@) {
            lemma_split_unique(nodes@, line_end as int, end_idx as int);
        }
    }
    let mut markers: Vec<Marker> = Vec::new();
    assert(marker_views(markers@) =~= seq![]);
    let mut j = end_idx;
    // Walk back from the last node that starts within the line; stop once before the line
    while j > 0 && nodes[j - 1].start_byte >= line_start
        invariant
            j <= end_idx <= nodes@.len(),
            bs == bytes@,
            bs == text.spec_bytes(),
            nodes_fit_text(nodes@, bs),
            markers_walk(marker_views(markers@), nodes@, j as int, line_start as int, bs)
                == markers_walk(seq![], nodes@, end_idx as int, line_start as int, bs),
        decreases j,
    {
        let node = nodes[j - 1];
        let start = node.start_byte;
        let end = node.end_byte;
        let ghost before = marker_views(markers@);
        match node.kind {
            NodeKind::BlockQuoteMarker | NodeKind::BlockContinuation => {
                let mut skip = false;
                if let NodeKind::BlockContinuation = node.kind {
                    if let Some(p) = node.parent {
                        if let NodeKind::IndentedCodeBlock = nodes[p].kind {
                            skip = true;
                        }
                    }
                }
                if !skip {
                    assert(sliced_kind(nodes@[j - 1].kind));
                    if bytes_have_gt(bytes, start, end) {
                        markers.push(Marker { kind: MarkerKind::BlockQuote, range: start..end });
                    } else {
                        let content = slice_string(text, start, end);
                        let cs = chars_of(content.as_str());
                        if nonempty_all_ws(&cs) {
                            markers.push(Marker { kind: MarkerKind::Indent, range: start..end });
                        }
                    }
                }
            },
            NodeKind::ListMarkerMinus | NodeKind::ListMarkerPlus | NodeKind::ListMarkerStar => {
                markers.push(
                    Marker { kind: MarkerKind::ListItem { ordered: false }, range: start..end },
                );
            },
            NodeKind::ListMarkerDot | NodeKind::ListMarkerParenthesis => {
                markers.push(Marker { kind: MarkerKind::ListItem { ordered: true }, range: start..end });
            },
            NodeKind::TaskListMarkerUnchecked => {
                // Include trailing space after ] if present
                let range_end = end_over_space(bytes, end);
                markers.push(
                    Marker { kind: MarkerKind::Checkbox { checked: false }, range: start..range_end },
                );
            },
            NodeKind::TaskListMarkerChecked => {
                let range_end = end_over_space(bytes, end);
                markers.push(
                    Marker { kind: MarkerKind::Checkbox { checked: true }, range: start..range_end },
                );
            },
            NodeKind::AtxMarker(level) => {
                // Include trailing space after # if present
                let range_end = end_over_space(bytes, end);
                markers.push(Marker { kind: MarkerKind::Heading(level), range: start..range_end });
            },
            NodeKind::ThematicBreak => {
                markers.push(Marker { kind: MarkerKind::ThematicBreak, range: start..end });
            },
            NodeKind::FencedCodeBlockDelimiter => {
                // Pick up a language recorded from the info string, then drop that placeholder
                let language = fence_language(&markers);
                let is_opening = match node.parent {
                    Some(p) => match nodes[p].kind {
                        NodeKind::FencedCodeBlock => nodes[p].start_byte == start,
                        _ => false,
                    },
                    None => false,
                };
                let mut kept = drop_fences(&markers);
                kept.push(
                    Marker {
                        kind: MarkerKind::CodeBlockFence { language, is_opening },
                        range: start..end,
                    },
                );
                markers = kept;
            },
            NodeKind::InfoString => {
                assert(sliced_kind(nodes@[j - 1].kind));
                let raw = slice_string(text, start, end);
                let cs = chars_of(raw.as_str());
                let trimmed = trim_chars(&cs);
                let language = if trimmed.len() == 0 {
                    None
                } else {
                    Some(string_from_chars(&trimmed))
                };
                // Placeholder, picked up by the delimiter
                markers.push(
                    Marker {
                        kind: MarkerKind::CodeBlockFence { language, is_opening: true },
                        range: start..end,
                    },
                );
            },
            _ => {},
        }
        assert(marker_views(markers@) =~= marker_step(before, nodes@, nodes@[j - 1], bs));
        j -= 1;
    }
    assert(splits_at(nodes@, line_end as int, end_idx as int));
    proof {
        lemma_walk_from_nodes(seq![], nodes@, end_idx as int, line_start as int, bs);
        if sorted_by_start(nodes@) {
            assert forall|i: int| 0 <= i < end_idx implies #[trigger] nodes@[i].start_byte
                <= line_end by {
                assert(nodes@[i].start_byte <= nodes@[end_idx - 1].start_byte);
            }
            lemma_walk_innermost_first(
                seq![],
                nodes@,
                end_idx as int,
                line_start as int,
                line_end as int,
                bs,
            );
        }
    }
    markers
}

/// Index of the last line starting at or before `pos` among `lines[..n]`, or 0.
pub open spec fn line_index_at(lines: Seq<LineMarkers>, pos: int, n: int) -> int
    decreases n,
{
    if n <= 0 || n > lines.len() {
        0
    } else if lines[n - 1].range.start <= pos {
        n - 1
    } else {
        line_index_at(lines, pos, n - 1)
    }
}

/// True for the markers that open a container (list item or blockquote).
pub open spec fn is_container(k: MarkerKind) -> bool {
    k is ListItem || k is BlockQuote
}

/// Width of the first container marker among `ms[i..]`.
pub open spec fn container_width_from(ms: Seq<Marker>, i: int) -> Option<int>
    decreases ms.len() - i,
{
    if i < 0 || i >= ms.len() {
        None
    } else if is_container(ms[i].kind) {
        Some(ms[i].range.end - ms[i].range.start)
    } else {
        container_width_from(ms, i + 1)
    }
}

/// Width of the first container marker on `lines[k]`, `lines[k-1]`, ..., `lines[0]`.
pub open spec fn container_width_upward(lines: Seq<LineMarkers>, k: int) -> Option<int>
    decreases k + 1,
{
    if k < 0 || k >= lines.len() {
        None
    } else {
        match container_width_from(lines[k].markers@, 0) {
            Some(w) => Some(w),
            None => container_width_upward(lines, k - 1),
        }
    }
}

/// Index of the line the cursor is on (the last line starting at or before it).
fn line_index_for(lines: &[LineMarkers], pos: usize) -> (k: usize)
    ensures
        k == line_index_at(lines@, pos as int, lines@.len() as int),
{
    let mut n = lines.len();
    while n > 0 && lines[n - 1].range.start > pos
        invariant
            n <= lines@.len(),
            line_index_at(lines@, pos as int, n as int) == line_index_at(
                lines@,
                pos as int,
                lines@.len() as int,
            ),
        decreases n,
    {
        n -= 1;
    }
    if n == 0 {
        0
    } else {
        n - 1
    }
}

/// Find the nearest container to the left of cursor position.
/// Returns the marker width needed to nest into that container.
pub fn find_container_indent_from_lines(lines: &[LineMarkers], cursor_pos: usize) -> (r: Option<usize>)
    requires
        lines@.len() > 0,
        container_width_upward(lines@, line_index_at(lines@, cursor_pos as int, lines@.len() as int))
            matches Some(w) ==> w >= 0,
    ensures
        (match r {
            Some(w) => Some(w as int),
            None => None,
        }) == container_width_upward(
            lines@,
            line_index_at(lines@, cursor_pos as int, lines@.len() as int),
        ),
{
    let line_idx = line_index_for(lines, cursor_pos);
    proof {
        lemma_line_index_bounded(lines@, cursor_pos as int, lines@.len() as int);
        assert(line_idx < lines.len());
    }
    // Walk backwards from cursor line looking for a container marker
    let mut k = line_idx + 1;
    while k > 0
        invariant
            k <= line_idx + 1,
            line_idx < lines@.len(),
            line_idx == line_index_at(lines@, cursor_pos as int, lines@.len() as int),
            container_width_upward(lines@, line_idx as int) matches Some(w) ==> w >= 0,
            container_width_upward(lines@, k - 1) == container_width_upward(lines@, line_idx as int),
        decreases k,
    {
        let line = &lines[k - 1];
        let mut j: usize = 0;
        while j < line.markers.len()
            invariant
                j <= line.markers@.len(),
                k - 1 < lines@.len(),
                *line == lines@[k - 1],
                container_width_upward(lines@, line_idx as int) matches Some(w) ==> w >= 0,
                container_width_upward(lines@, k - 1) == container_width_upward(lines@, line_idx as int),
                k - 1 >= 0,
                line_idx == line_index_at(lines@, cursor_pos as int, lines@.len() as int),
                container_width_from(line.markers@, j as int) == container_width_from(
                    line.markers@,
                    0,
                ),
            decreases line.markers.len() - j,
        {
            let marker = &line.markers[j];
            match &marker.kind {
                MarkerKind::ListItem { .. } | MarkerKind::BlockQuote => {
                    assert(is_container(lines@[k - 1].markers@[j as int].kind));
                    assert(container_width_from(line.markers@, j as int) == Some(
                        marker.range.end - marker.range.start,
                    ));
                    assert(container_width_upward(lines@, k - 1) == container_width_from(
                        line.markers@,
                        0,
                    ));
                    assert(marker.range.start <= marker.range.end);
                    let w = marker.range.end - marker.range.start;
                    assert(container_width_upward(lines@, line_idx as int) == Some(w as int));
                    return Some(w);
                },
                _ => {},
            }
            j += 1;
        }
        assert(container_width_upward(lines@, k - 1) == container_width_upward(lines@, k - 2));
        k -= 1;
    }
    None
}

proof fn lemma_line_index_bounded(lines: Seq<LineMarkers>, pos: int, n: int)
    requires
        lines.len() > 0,
        0 <= n <= lines.len(),
    ensures
        0 <= line_index_at(lines, pos, n) < lines.len(),
    decreases n,
{
    if n > 0 && lines[n - 1].range.start > pos {
        lemma_line_index_bounded(lines, pos, n - 1);
    }
}

/// `ms` are the markers `markers_at` finds for the line `start..end` among `nodes`.
pub open spec fn found_markers(
    nodes: Seq<SyntaxNode>,
    bytes: Seq<u8>,
    start: int,
    end: int,
    ms: Seq<MarkerV>,
) -> bool {
    &&& exists|k: int| splits_at(nodes, end, k) && ms == markers_walk(seq![], nodes, k, start, bytes)
    &&& sorted_by_start(nodes) ==> ms == markers_walk(
        seq![],
        nodes,
        count_starting_by(nodes, end),
        start,
        bytes,
    )
}

} // verus!
