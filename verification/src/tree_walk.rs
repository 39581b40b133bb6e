//! Markers of a line found by walking up the parse from the node at a byte
//! of the line (`markers_at`), and the text they stand for, with the
//! rendering of task-list checkboxes as symbols.

use std::ops::Range;
use vstd::prelude::*;
use vstd::string::StringSliceAdditionalSpecFns;

use crate::cycle::{descend, descend_at, find_prev_sibling, parent_before, parent_of, prev_sibling};
use crate::marker::{nodes_fit_text, nonempty_all_ws, sliced_kind};
use crate::syntax::{NodeKind, SyntaxNode};
use crate::text::{
    all_ws, bytes_of, chars_in, chars_of, slice_string, string_from_chars, string_push_str, trim_chars, trim_spec,
    valid_byte_range,
};

verus! {

broadcast use vstd::string::group_string_axioms;

/// The type of marker on a line.
#[derive(Debug, Clone, PartialEq)]
pub enum MarkerKind {
    BlockQuote,
    ListItem { ordered: bool },
    Checkbox { checked: bool },
    Heading(u8),
    CodeBlockFence { language: Option<String> },
    CodeBlockContent,
    ThematicBreak,
    Indent,
}

/// A marker on a line with its byte range.
#[derive(Debug, PartialEq)]
pub struct Marker {
    pub kind: MarkerKind,
    pub range: Range<usize>,
}

/// A line with its markers and metadata.
#[derive(Debug, PartialEq)]
pub struct Line {
    pub range: Range<usize>,
    pub line_number: usize,
    pub markers: Vec<Marker>,
}

impl MarkerKind {
    /// The visual substitution text of this marker kind.
    pub open spec fn substitution_spec(&self) -> Seq<char> {
        match self {
            MarkerKind::ListItem { ordered } => if *ordered {
                seq![]
            } else {
                seq!['\u{2022}', ' ']
            },
            MarkerKind::Checkbox { checked } => if *checked {
                seq!['\u{2611}', ' ']
            } else {
                seq!['\u{2610}', ' ']
            },
            _ => seq![],
        }
    }

    /// The continuation text of this marker kind.
    pub open spec fn continuation_spec(&self) -> Seq<char> {
        match self {
            MarkerKind::BlockQuote => seq!['>', ' '],
            MarkerKind::ListItem { ordered } => if *ordered {
                seq!['1', '.', ' ']
            } else {
                seq!['-', ' ']
            },
            MarkerKind::Checkbox { .. } => seq!['[', ' ', ']', ' '],
            _ => seq![],
        }
    }

    /// Visual substitution text for this marker kind.
    pub fn substitution(&self) -> (s: &'static str)
        ensures
            s@ == self.substitution_spec(),
    {
        match self {
            MarkerKind::ListItem { ordered } => {
                if *ordered {
                    proof {
                        reveal_strlit("");
                    }
                    ""
                } else {
                    proof {
                        reveal_strlit("\u{2022} ");
                    }
                    "\u{2022} "
                }
            },
            MarkerKind::Checkbox { checked } => {
                if *checked {
                    proof {
                        reveal_strlit("\u{2611} ");
                    }
                    "\u{2611} "
                } else {
                    proof {
                        reveal_strlit("\u{2610} ");
                    }
                    "\u{2610} "
                }
            },
            _ => {
                proof {
                    reveal_strlit("");
                }
                ""
            },
        }
    }

    /// Continuation text to insert on Enter.
    pub fn continuation(&self) -> (s: &'static str)
        ensures
            s@ == self.continuation_spec(),
    {
        match self {
            MarkerKind::BlockQuote => {
                proof {
                    reveal_strlit("> ");
                }
                "> "
            },
            MarkerKind::ListItem { ordered } => {
                if *ordered {
                    proof {
                        reveal_strlit("1. ");
                    }
                    "1. "
                } else {
                    proof {
                        reveal_strlit("- ");
                    }
                    "- "
                }
            },
            MarkerKind::Checkbox { .. } => {
                proof {
                    reveal_strlit("[ ] ");
                }
                "[ ] "
            },
            _ => {
                proof {
                    reveal_strlit("");
                }
                ""
            },
        }
    }

    /// Whether this marker has a left border.
    pub fn has_border(&self) -> (b: bool)
        ensures
            b == (*self is BlockQuote),
    {
        matches!(self, MarkerKind::BlockQuote)
    }
}

/// Concatenated substitutions of `ms[i..]`, in order.
pub open spec fn substitutions_from(ms: Seq<Marker>, i: int) -> Seq<char>
    decreases ms.len() - i,
{
    if i < 0 || i >= ms.len() {
        seq![]
    } else {
        ms[i].kind.substitution_spec() + substitutions_from(ms, i + 1)
    }
}

/// The continuation piece of one marker: indents and list markers keep their own text.
pub open spec fn continuation_piece(m: Marker, bytes: Seq<u8>) -> Seq<char> {
    if m.kind is Indent || m.kind is ListItem {
        chars_in(bytes, m.range.start as int, m.range.end as int)
    } else {
        m.kind.continuation_spec()
    }
}

/// Concatenated continuation pieces of `ms[n-1], ..., ms[0]`.
pub open spec fn continuations_rev(ms: Seq<Marker>, n: int, bytes: Seq<u8>) -> Seq<char>
    decreases n,
{
    if n <= 0 {
        seq![]
    } else {
        continuation_piece(ms[n - 1], bytes) + continuations_rev(ms, n - 1, bytes)
    }
}

/// The first checkbox state among `ms[i..]`.
pub open spec fn line_checkbox_from(ms: Seq<Marker>, i: int) -> Option<bool>
    decreases ms.len() - i,
{
    if i < 0 || i >= ms.len() {
        None
    } else if ms[i].kind is Checkbox {
        Some(ms[i].kind->checked)
    } else {
        line_checkbox_from(ms, i + 1)
    }
}

/// The first heading level among `ms[i..]`.
pub open spec fn line_heading_from(ms: Seq<Marker>, i: int) -> Option<u8>
    decreases ms.len() - i,
{
    if i < 0 || i >= ms.len() {
        None
    } else if ms[i].kind is Heading {
        Some(ms[i].kind->0)
    } else {
        line_heading_from(ms, i + 1)
    }
}

impl Line {
    /// Returns the combined byte range of all markers, or None if no markers.
    pub fn marker_range(&self) -> (r: Option<Range<usize>>)
        ensures
            r is None <==> self.markers@.len() == 0,
            r matches Some(rg) ==> rg.start == self.markers@.last().range.start && rg.end
                == self.markers@[0].range.end,
    {
        if self.markers.len() == 0 {
            return None;
        }
        // Markers are ordered innermost to outermost.
        // Outermost (last) has earliest start, innermost (first) has latest end.
        let start = self.markers[self.markers.len() - 1].range.start;
        let end = self.markers[0].range.end;
        Some(start..end)
    }

    /// Returns the visual substitution text for all markers, in order.
    /// E.g., "\u{2022} " for unordered list, "\u{2610} " for unchecked task.
    pub fn substitution(&self) -> (s: String)
        ensures
            s@ == substitutions_from(self.markers@, 0),
    {
        let ghost ms = self.markers@;
        let mut result = String::new();
        let mut i: usize = 0;
        while i < self.markers.len()
            invariant
                ms == self.markers@,
                i <= ms.len(),
                result@ + substitutions_from(ms, i as int) =~= substitutions_from(ms, 0),
            decreases ms.len() - i,
        {
            let ghost before = result@;
            string_push_str(&mut result, self.markers[i].kind.substitution());
            assert(before + substitutions_from(ms, i as int) =~= result@ + substitutions_from(
                ms,
                i + 1,
            ));
            i += 1;
        }
        result
    }

    /// The continuation text of this line over `text`.
    pub open spec fn continuation_spec(&self, text: Seq<char>) -> Seq<char> {
        continuations_rev(self.markers@, self.markers@.len() as int, bytes_of(text))
    }

    /// Returns the continuation text to insert on Enter, in text order
    /// (outermost to innermost). Indent and list markers keep their own text.
    pub fn continuation(&self, text: &str) -> (s: String)
        requires
            forall|i: int|
                0 <= i < self.markers@.len() && (self.markers@[i].kind is Indent
                    || self.markers@[i].kind is ListItem) ==> valid_byte_range(
                    text.spec_bytes(),
                    #[trigger] self.markers@[i].range.start as int,
                    self.markers@[i].range.end as int,
                ),
        ensures
            s@ == self.continuation_spec(text@),
    {
        let ghost ms = self.markers@;
        let ghost bytes = text.spec_bytes();
        let mut result = String::new();
        let mut i = self.markers.len();
        while i > 0
            invariant
                ms == self.markers@,
                bytes == text.spec_bytes(),
                i <= ms.len(),
                forall|j: int|
                    0 <= j < ms.len() && (ms[j].kind is Indent || ms[j].kind is ListItem)
                        ==> valid_byte_range(
                        bytes,
                        #[trigger] ms[j].range.start as int,
                        ms[j].range.end as int,
                    ),
                result@ + continuations_rev(ms, i as int, bytes) =~= continuations_rev(
                    ms,
                    ms.len() as int,
                    bytes,
                ),
            decreases i,
        {
            let m = &self.markers[i - 1];
            let ghost before = result@;
            match &m.kind {
                MarkerKind::Indent | MarkerKind::ListItem { .. } => {
                    let piece = slice_string(text, m.range.start, m.range.end);
                    string_push_str(&mut result, piece.as_str());
                },
                _ => {
                    string_push_str(&mut result, m.kind.continuation());
                },
            }
            assert(before + continuations_rev(ms, i as int, bytes) =~= result@ + continuations_rev(
                ms,
                i - 1,
                bytes,
            ));
            i -= 1;
        }
        result
    }

    /// Returns true if any marker has a left border (blockquotes).
    pub fn has_border(&self) -> (b: bool)
        ensures
            b == exists|i: int| 0 <= i < self.markers@.len() && #[trigger] self.markers@[i].kind is BlockQuote,
    {
        let mut i: usize = 0;
        while i < self.markers.len()
            invariant
                i <= self.markers@.len(),
                forall|j: int| 0 <= j < i ==> !(#[trigger] self.markers@[j].kind is BlockQuote),
            decreases self.markers.len() - i,
        {
            if self.markers[i].kind.has_border() {
                return true;
            }
            i += 1;
        }
        false
    }

    /// Returns the checkbox state if this line has a task list marker.
    pub fn checkbox(&self) -> (c: Option<bool>)
        ensures
            c == line_checkbox_from(self.markers@, 0),
    {
        let mut i: usize = 0;
        while i < self.markers.len()
            invariant
                i <= self.markers@.len(),
                line_checkbox_from(self.markers@, i as int) == line_checkbox_from(self.markers@, 0),
            decreases self.markers.len() - i,
        {
            if let MarkerKind::Checkbox { checked } = self.markers[i].kind {
                return Some(checked);
            }
            i += 1;
        }
        None
    }

    /// The leading whitespace of this line over `text`.
    pub open spec fn leading_whitespace_spec(&self, text: Seq<char>) -> Seq<char> {
        if self.markers@.len() > 0 && self.markers@[0].range.start > self.range.start {
            chars_in(bytes_of(text), self.range.start as int, self.markers@[0].range.start as int)
        } else {
            seq![]
        }
    }

    /// Returns the text between the line start and the first marker.
    pub fn leading_whitespace(&self, text: &str) -> (s: String)
        requires
            self.markers@.len() > 0 && self.markers@[0].range.start > self.range.start
                ==> valid_byte_range(
                text.spec_bytes(),
                self.range.start as int,
                self.markers@[0].range.start as int,
            ),
        ensures
            s@ == self.leading_whitespace_spec(text@),
    {
        if self.markers.len() > 0 && self.markers[0].range.start > self.range.start {
            return slice_string(text, self.range.start, self.markers[0].range.start);
        }
        String::new()
    }

    /// Returns true if this line is code block content (not a fence line).
    pub fn is_code_block_content(&self) -> (b: bool)
        ensures
            b == exists|i: int|
                0 <= i < self.markers@.len() && #[trigger] self.markers@[i].kind is CodeBlockContent,
    {
        let mut i: usize = 0;
        while i < self.markers.len()
            invariant
                i <= self.markers@.len(),
                forall|j: int| 0 <= j < i ==> !(#[trigger] self.markers@[j].kind is CodeBlockContent),
            decreases self.markers.len() - i,
        {
            if matches!(self.markers[i].kind, MarkerKind::CodeBlockContent) {
                return true;
            }
            i += 1;
        }
        false
    }

    /// Returns true if this line is a code block fence (opening or closing).
    pub fn is_fence(&self) -> (b: bool)
        ensures
            b == exists|i: int|
                0 <= i < self.markers@.len() && #[trigger] self.markers@[i].kind is CodeBlockFence,
    {
        let mut i: usize = 0;
        while i < self.markers.len()
            invariant
                i <= self.markers@.len(),
                forall|j: int| 0 <= j < i ==> !(#[trigger] self.markers@[j].kind is CodeBlockFence),
            decreases self.markers.len() - i,
        {
            if matches!(self.markers[i].kind, MarkerKind::CodeBlockFence { .. }) {
                return true;
            }
            i += 1;
        }
        false
    }

    /// Returns the heading level if this line is a heading.
    pub fn heading_level(&self) -> (h: Option<u8>)
        ensures
            h == line_heading_from(self.markers@, 0),
    {
        let mut i: usize = 0;
        while i < self.markers.len()
            invariant
                i <= self.markers@.len(),
                line_heading_from(self.markers@, i as int) == line_heading_from(self.markers@, 0),
            decreases self.markers.len() - i,
        {
            if let MarkerKind::Heading(level) = self.markers[i].kind {
                return Some(level);
            }
            i += 1;
        }
        None
    }
}

/// A marker kind of the upward walk as plain values.
pub enum WalkKind {
    BlockQuote,
    ListItem { ordered: bool },
    Checkbox { checked: bool },
    Heading(u8),
    CodeBlockFence { language: Option<Seq<char>> },
    CodeBlockContent,
    ThematicBreak,
    Indent,
}

/// A marker of the upward walk as plain values.
pub struct WalkMarker {
    pub kind: WalkKind,
    pub start: int,
    pub end: int,
}

/// The plain value of a marker kind.
pub open spec fn walk_kind(k: MarkerKind) -> WalkKind {
    match k {
        MarkerKind::BlockQuote => WalkKind::BlockQuote,
        MarkerKind::ListItem { ordered } => WalkKind::ListItem { ordered },
        MarkerKind::Checkbox { checked } => WalkKind::Checkbox { checked },
        MarkerKind::Heading(l) => WalkKind::Heading(l),
        MarkerKind::CodeBlockFence { language } => WalkKind::CodeBlockFence {
            language: match language {
                Some(s) => Some(s@),
                None => None,
            },
        },
        MarkerKind::CodeBlockContent => WalkKind::CodeBlockContent,
        MarkerKind::ThematicBreak => WalkKind::ThematicBreak,
        MarkerKind::Indent => WalkKind::Indent,
    }
}

/// The plain values of markers.
pub open spec fn walk_views(ms: Seq<Marker>) -> Seq<WalkMarker> {
    ms.map_values(|m: Marker| WalkMarker { kind: walk_kind(m.kind), start: m.range.start as int, end: m.range.end as int })
}

/// The first child of node `p` among `nodes[j..]`.
pub open spec fn first_child_from(nodes: Seq<SyntaxNode>, p: int, j: int) -> Option<int>
    decreases nodes.len() - j,
{
    if j < 0 || j >= nodes.len() {
        None
    } else if nodes[j].parent == Some(p as usize) {
        Some(j)
    } else {
        first_child_from(nodes, p, j + 1)
    }
}

/// A marker over the range of node `n`.
pub open spec fn marker_over(kind: WalkKind, n: SyntaxNode) -> WalkMarker {
    WalkMarker { kind, start: n.start_byte as int, end: n.end_byte as int }
}

/// The language an info string names: its trimmed text, if not empty.
pub open spec fn language_of(bytes: Seq<u8>, n: SyntaxNode) -> Option<Seq<char>> {
    let t = trim_spec(chars_in(bytes, n.start_byte as int, n.end_byte as int));
    if t.len() == 0 {
        None
    } else {
        Some(t)
    }
}

/// The indent marker of node `i`: its previous sibling, where that is a block
/// continuation on the line (from `ls`), not empty and all whitespace.
pub open spec fn indent_before(nodes: Seq<SyntaxNode>, bytes: Seq<u8>, ls: int, i: int) -> Seq<WalkMarker> {
    match prev_sibling(nodes, i) {
        Some(s) => if 0 <= s < nodes.len() && nodes[s].kind is BlockContinuation && nodes[s].start_byte >= ls
            && nodes[s].start_byte < nodes[s].end_byte && chars_in(
            bytes,
            nodes[s].start_byte as int,
            nodes[s].end_byte as int,
        ).len() > 0 && all_ws(chars_in(bytes, nodes[s].start_byte as int, nodes[s].end_byte as int)) {
            seq![marker_over(WalkKind::Indent, nodes[s])]
        } else {
            seq![]
        },
        None => seq![],
    }
}

/// The markers that node `i` adds on top of `acc`, the markers of the nodes
/// below it: a block quote its marker; a list item whose marker is on the
/// line its checkbox and its marker; a heading its marker; a fence delimiter
/// or an info string the fence with its language; a thematic break itself;
/// a code block, where no fence was found below, the content of the block.
pub open spec fn node_markers(nodes: Seq<SyntaxNode>, bytes: Seq<u8>, ls: int, i: int, acc: Seq<WalkMarker>) -> Seq<WalkMarker> {
    let a = acc + indent_before(nodes, bytes, ls, i);
    let n = nodes[i];
    let c0 = first_child_from(nodes, i, 0);
    match n.kind {
        NodeKind::BlockQuote => match c0 {
            Some(c) => if 0 <= c < nodes.len() && nodes[c].kind is BlockQuoteMarker {
                a.push(marker_over(WalkKind::BlockQuote, nodes[c]))
            } else {
                a
            },
            None => a,
        },
        NodeKind::ListItem => match c0 {
            Some(c) => if 0 <= c < nodes.len() && nodes[c].start_byte >= ls {
                let ordered = nodes[c].kind is ListMarkerDot || nodes[c].kind is ListMarkerParenthesis;
                let cb = match first_child_from(nodes, i, c + 1) {
                    Some(d) => if 0 <= d < nodes.len() && nodes[d].kind is TaskListMarkerUnchecked {
                        seq![marker_over(WalkKind::Checkbox { checked: false }, nodes[d])]
                    } else if 0 <= d < nodes.len() && nodes[d].kind is TaskListMarkerChecked {
                        seq![marker_over(WalkKind::Checkbox { checked: true }, nodes[d])]
                    } else {
                        seq![]
                    },
                    None => seq![],
                };
                (a + cb).push(marker_over(WalkKind::ListItem { ordered }, nodes[c]))
            } else {
                a
            },
            None => a,
        },
        NodeKind::AtxHeading => match c0 {
            Some(c) => if 0 <= c < nodes.len() && nodes[c].kind is AtxMarker {
                a.push(marker_over(WalkKind::Heading(nodes[c].kind->0), nodes[c]))
            } else {
                a
            },
            None => a,
        },
        NodeKind::FencedCodeBlockDelimiter => {
            let lang = match parent_before(nodes, i) {
                Some(p) => match first_child_from(nodes, p, i + 1) {
                    Some(d) => if 0 <= d < nodes.len() && nodes[d].kind is InfoString {
                        language_of(bytes, nodes[d])
                    } else {
                        None
                    },
                    None => None,
                },
                None => None,
            };
            a.push(marker_over(WalkKind::CodeBlockFence { language: lang }, n))
        },
        NodeKind::InfoString => match parent_before(nodes, i) {
            Some(p) => match first_child_from(nodes, p, 0) {
                Some(d) => if 0 <= d < nodes.len() {
                    a.push(marker_over(WalkKind::CodeBlockFence { language: language_of(bytes, n) }, nodes[d]))
                } else {
                    a
                },
                None => a,
            },
            None => a,
        },
        NodeKind::ThematicBreak => a.push(marker_over(WalkKind::ThematicBreak, n)),
        NodeKind::FencedCodeBlock => if exists|k: int| 0 <= k < a.len() && (#[trigger] a[k]).kind is CodeBlockFence {
            a
        } else {
            a.push(marker_over(WalkKind::CodeBlockContent, n))
        },
        NodeKind::IndentedCodeBlock => a.push(marker_over(WalkKind::CodeBlockContent, n)),
        _ => a,
    }
}

/// The markers found walking up from node `i` to the root, on top of `acc`.
pub open spec fn walk_up(nodes: Seq<SyntaxNode>, bytes: Seq<u8>, ls: int, i: int, acc: Seq<WalkMarker>) -> Seq<WalkMarker>
    decreases i,
{
    if i < 0 || i >= nodes.len() {
        acc
    } else {
        let a = node_markers(nodes, bytes, ls, i, acc);
        match parent_before(nodes, i) {
            Some(p) => if p < i {
                walk_up(nodes, bytes, ls, p, a)
            } else {
                a
            },
            None => a,
        }
    }
}

/// Adding a marker adds its plain value.
proof fn lemma_walk_views_push(ms: Seq<Marker>, m: Marker)
    ensures
        walk_views(ms.push(m)) == walk_views(ms).push(
            WalkMarker { kind: walk_kind(m.kind), start: m.range.start as int, end: m.range.end as int },
        ),
{
    assert(walk_views(ms.push(m)) =~= walk_views(ms).push(
        WalkMarker { kind: walk_kind(m.kind), start: m.range.start as int, end: m.range.end as int },
    ));
}

/// Push a marker of `kind` over `start..end`.
fn push_marker(ms: &mut Vec<Marker>, kind: MarkerKind, start: usize, end: usize)
    ensures
        walk_views(final(ms)@) == walk_views(old(ms)@).push(
            WalkMarker { kind: walk_kind(kind), start: start as int, end: end as int },
        ),
{
    let ghost k = kind;
    ms.push(Marker { kind, range: start..end });
    proof {
        lemma_walk_views_push(old(ms)@, Marker { kind: k, range: start..end });
    }
}

/// The first child of node `p` among `nodes[j..]`.
fn first_child(nodes: &[SyntaxNode], p: usize, j: usize) -> (r: Option<usize>)
    ensures
        match r {
            Some(c) => first_child_from(nodes@, p as int, j as int) == Some(c as int) && c < nodes@.len(),
            None => first_child_from(nodes@, p as int, j as int) is None,
        },
{
    let mut k = j;
    while k < nodes.len()
        invariant
            j <= k,
            first_child_from(nodes@, p as int, j as int) == first_child_from(nodes@, p as int, k as int),
        decreases nodes@.len() - k,
    {
        if nodes[k].parent == Some(p) {
            return Some(k);
        }
        k += 1;
    }
    None
}

/// The language an info string node names.
fn language_in(text: &str, n: &SyntaxNode) -> (r: Option<String>)
    requires
        valid_byte_range(text.spec_bytes(), n.start_byte as int, n.end_byte as int),
    ensures
        match r {
            Some(s) => language_of(text.spec_bytes(), *n) == Some(s@),
            None => language_of(text.spec_bytes(), *n) is None,
        },
{
    let raw = slice_string(text, n.start_byte, n.end_byte);
    let cs = chars_of(raw.as_str());
    let t = trim_chars(&cs);
    if t.len() == 0 {
        None
    } else {
        Some(string_from_chars(&t))
    }
}

/// Whether some marker of `ms` is a code fence.
fn has_fence_marker(ms: &Vec<Marker>) -> (b: bool)
    ensures
        b == exists|k: int| 0 <= k < walk_views(ms@).len() && (#[trigger] walk_views(ms@)[k]).kind is CodeBlockFence,
{
    let mut i: usize = 0;
    while i < ms.len()
        invariant
            i <= ms@.len(),
            forall|k: int| 0 <= k < i ==> !((#[trigger] walk_views(ms@)[k]).kind is CodeBlockFence),
        decreases ms@.len() - i,
    {
        assert(walk_views(ms@)[i as int].kind == walk_kind(ms@[i as int].kind));
        if let MarkerKind::CodeBlockFence { .. } = ms[i].kind {
            return true;
        }
        i += 1;
    }
    false
}

/// Push the markers node `i` adds (see `node_markers`).
fn push_node_markers(nodes: &[SyntaxNode], text: &str, ls: usize, i: usize, ms: &mut Vec<Marker>)
    requires
        i < nodes@.len(),
        nodes_fit_text(nodes@, text.spec_bytes()),
    ensures
        walk_views(final(ms)@) == node_markers(nodes@, text.spec_bytes(), ls as int, i as int, walk_views(old(ms)@)),
{
    let ghost bytes = text.spec_bytes();
    let ghost acc = walk_views(ms@);
    // An all-whitespace block continuation just before the node, on the line
    let found = find_prev_sibling(nodes, i);
    let mut pushed = false;
    match found {
        Some(sb) => {
            let sib = &nodes[sb];
            if matches!(sib.kind, NodeKind::BlockContinuation) && sib.start_byte >= ls && sib.start_byte < sib.end_byte {
                assert(sliced_kind(nodes@[sb as int].kind));
                let raw = slice_string(text, sib.start_byte, sib.end_byte);
                let cs = chars_of(raw.as_str());
                if nonempty_all_ws(&cs) {
                    push_marker(ms, MarkerKind::Indent, sib.start_byte, sib.end_byte);
                    pushed = true;
                }
            }
        },
        None => {},
    }
    proof {
        if !pushed {
            assert(acc + indent_before(nodes@, bytes, ls as int, i as int) =~= acc);
        }
    }
    assert(walk_views(ms@) =~= acc + indent_before(nodes@, bytes, ls as int, i as int));
    let ghost a = walk_views(ms@);
    let n = &nodes[i];
    let c0 = first_child(nodes, i, 0);
    match n.kind {
        NodeKind::BlockQuote => {
            if let Some(c) = c0 {
                if matches!(nodes[c].kind, NodeKind::BlockQuoteMarker) {
                    push_marker(ms, MarkerKind::BlockQuote, nodes[c].start_byte, nodes[c].end_byte);
                }
            }
        },
        NodeKind::ListItem => {
            if let Some(c) = c0 {
                if nodes[c].start_byte >= ls {
                    let ordered = matches!(nodes[c].kind, NodeKind::ListMarkerDot | NodeKind::ListMarkerParenthesis);
                    let ghost before = walk_views(ms@);
                    match first_child(nodes, i, c + 1) {
                        Some(d) => {
                            if matches!(nodes[d].kind, NodeKind::TaskListMarkerUnchecked) {
                                push_marker(ms, MarkerKind::Checkbox { checked: false }, nodes[d].start_byte, nodes[d].end_byte);
                            } else if matches!(nodes[d].kind, NodeKind::TaskListMarkerChecked) {
                                push_marker(ms, MarkerKind::Checkbox { checked: true }, nodes[d].start_byte, nodes[d].end_byte);
                            }
                        },
                        None => {},
                    }
                    let ghost mid = walk_views(ms@);
                    push_marker(ms, MarkerKind::ListItem { ordered }, nodes[c].start_byte, nodes[c].end_byte);
                    proof {
                        if mid == before {
                            assert(mid =~= before + Seq::<WalkMarker>::empty());
                        }
                    }
                }
            }
        },
        NodeKind::AtxHeading => {
            if let Some(c) = c0 {
                if let NodeKind::AtxMarker(level) = nodes[c].kind {
                    push_marker(ms, MarkerKind::Heading(level), nodes[c].start_byte, nodes[c].end_byte);
                }
            }
        },
        NodeKind::FencedCodeBlockDelimiter => {
            let language = match parent_of(nodes, i) {
                Some(p) => match first_child(nodes, p, i + 1) {
                    Some(d) => if matches!(nodes[d].kind, NodeKind::InfoString) {
                        assert(sliced_kind(nodes@[d as int].kind));
                        language_in(text, &nodes[d])
                    } else {
                        None
                    },
                    None => None,
                },
                None => None,
            };
            let ghost lv = match &language {
                Some(s) => Some(s@),
                None => None::<Seq<char>>,
            };
            push_marker(ms, MarkerKind::CodeBlockFence { language }, n.start_byte, n.end_byte);
        },
        NodeKind::InfoString => {
            if let Some(p) = parent_of(nodes, i) {
                if let Some(d) = first_child(nodes, p, 0) {
                    assert(sliced_kind(nodes@[i as int].kind));
                    let language = language_in(text, n);
                    push_marker(ms, MarkerKind::CodeBlockFence { language }, nodes[d].start_byte, nodes[d].end_byte);
                }
            }
        },
        NodeKind::ThematicBreak => {
            push_marker(ms, MarkerKind::ThematicBreak, n.start_byte, n.end_byte);
        },
        NodeKind::FencedCodeBlock => {
            if !has_fence_marker(ms) {
                push_marker(ms, MarkerKind::CodeBlockContent, n.start_byte, n.end_byte);
            }
        },
        NodeKind::IndentedCodeBlock => {
            push_marker(ms, MarkerKind::CodeBlockContent, n.start_byte, n.end_byte);
        },
        _ => {},
    }
}

/// Find all markers for a line by probing at `probe_pos` and walking up
/// ancestors: the markers that the nodes on the way add, innermost first.
pub fn markers_at(nodes: &[SyntaxNode], text: &str, line_start: usize, probe_pos: usize) -> (r: Vec<Marker>)
    requires
        nodes_fit_text(nodes@, text.spec_bytes()),
    ensures
        nodes@.len() == 0 ==> r@.len() == 0,
        nodes@.len() > 0 ==> walk_views(r@) == walk_up(
            nodes@,
            text.spec_bytes(),
            line_start as int,
            descend(nodes@, 0, probe_pos as int),
            seq![],
        ),
{
    let mut markers: Vec<Marker> = Vec::new();
    if nodes.len() == 0 {
        return markers;
    }
    let leaf = descend_at(nodes, probe_pos);
    let ghost bytes = text.spec_bytes();
    let mut cur = leaf;
    assert(walk_views(markers@) =~= Seq::<WalkMarker>::empty());
    loop
        invariant
            cur < nodes@.len(),
            leaf < nodes@.len(),
            leaf == descend(nodes@, 0, probe_pos as int),
            nodes_fit_text(nodes@, text.spec_bytes()),
            bytes == text.spec_bytes(),
            walk_up(nodes@, bytes, line_start as int, leaf as int, seq![]) == walk_up(
                nodes@,
                bytes,
                line_start as int,
                cur as int,
                walk_views(markers@),
            ),
        decreases cur,
    {
        let ghost before = walk_views(markers@);
        push_node_markers(nodes, text, line_start, cur, &mut markers);
        assert(walk_up(nodes@, bytes, line_start as int, cur as int, before) == match parent_before(nodes@, cur as int) {
            Some(p) => if p < cur {
                walk_up(nodes@, bytes, line_start as int, p, walk_views(markers@))
            } else {
                walk_views(markers@)
            },
            None => walk_views(markers@),
        });
        match parent_of(nodes, cur) {
            Some(p) => {
                cur = p;
            },
            None => {
                return markers;
            },
        }
    }
}

} // verus!
