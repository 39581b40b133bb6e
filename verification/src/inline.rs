//! Styled regions of inline text (bold, italic, code, links, images), and
//! the GitHub references that inline text can mention.

use ropey::Rope;
use std::ops::Range;
use vstd::prelude::*;

pub use crate::render::TextStyle;
use crate::rope::{
    byte_len, char_of_byte, lemma_char_of_byte_bounds, lemma_char_of_byte_mono, rope_byte_to_char,
    rope_chars, rope_slice_string,
};
use crate::syntax::{ranges_within, NodeKind, SyntaxNode};

verus! {

/// A styled region of inline text with its delimiters.
#[derive(Debug, PartialEq)]
pub struct StyledRegion {
    /// The full range including delimiters (e.g., `**bold**` → 0..8)
    pub full_range: Range<usize>,
    /// The content range excluding delimiters (e.g., `**bold**` → 2..6)
    pub content_range: Range<usize>,
    pub style: TextStyle,
    pub link_url: Option<String>,
    pub is_image: bool,
    /// If Some, this is a checkbox. The bool indicates checked state.
    pub checkbox: Option<bool>,
}

impl Clone for StyledRegion {
    fn clone(&self) -> (r: Self)
        ensures
            r.full_range == self.full_range,
            r.content_range == self.content_range,
            r.style == self.style,
            r.is_image == self.is_image,
            r.checkbox == self.checkbox,
            r.link_url is Some <==> self.link_url is Some,
            r.link_url matches Some(u) ==> u@ == self.link_url->0@,
    {
        StyledRegion {
            full_range: self.full_range.start..self.full_range.end,
            content_range: self.content_range.start..self.content_range.end,
            style: self.style,
            link_url: match &self.link_url {
                Some(u) => Some(u.clone()),
                None => None,
            },
            is_image: self.is_image,
            checkbox: self.checkbox,
        }
    }
}

/// The regions are sorted by the start of their full range.
pub open spec fn sorted_by_full_start(styles: Seq<StyledRegion>) -> bool {
    forall|i: int, j: int|
        0 <= i <= j < styles.len() ==> styles[i].full_range.start <= styles[j].full_range.start
}

/// Whether a region's full range overlaps `range`.
pub open spec fn overlaps(s: StyledRegion, range: Range<usize>) -> bool {
    s.full_range.start < range.end && s.full_range.end > range.start
}

/// The regions of `styles` that overlap `range`, in their order.
pub open spec fn overlapping(styles: Seq<StyledRegion>, range: Range<usize>) -> Seq<StyledRegion> {
    styles.filter(|s: StyledRegion| overlaps(s, range))
}

/// The regions that `refs` point to.
pub open spec fn derefs(refs: Seq<&StyledRegion>) -> Seq<StyledRegion> {
    refs.map_values(|x: &StyledRegion| *x)
}

/// On sorted regions, none from index `i` on overlaps a range that ends at
/// or before the start of region `i`, so the overlapping ones all lie
/// before `i`.
proof fn lemma_overlapping_stops(styles: Seq<StyledRegion>, range: Range<usize>, i: int, k: int)
    requires
        sorted_by_full_start(styles),
        0 <= i < styles.len(),
        i <= k <= styles.len(),
        styles[i].full_range.start >= range.end,
    ensures
        overlapping(styles.take(k), range) == overlapping(styles.take(i), range),
    decreases k - i,
{
    if k > i {
        lemma_overlapping_stops(styles, range, i, k - 1);
        assert(styles.take(k) =~= styles.take(k - 1).push(styles[k - 1]));
        styles.take(k - 1).lemma_filter_push(styles[k - 1], |s: StyledRegion| overlaps(s, range));
    }
}

/// Get inline styles that overlap with a byte range, from styles sorted by
/// start: every region whose full range overlaps `range`, in order.
pub fn styles_in_range<'a>(styles: &'a [StyledRegion], range: &Range<usize>) -> (r: Vec<&'a StyledRegion>)
    requires
        sorted_by_full_start(styles@),
    ensures
        derefs(r@) == overlapping(styles@, *range),
{
    let mut result: Vec<&'a StyledRegion> = Vec::new();
    assert(styles@.take(0) =~= Seq::<StyledRegion>::empty());
    assert(derefs(result@) =~= overlapping(styles@.take(0), *range));
    let mut i: usize = 0;
    while i < styles.len()
        invariant
            i <= styles@.len(),
            sorted_by_full_start(styles@),
            derefs(result@) == overlapping(styles@.take(i as int), *range),
        ensures
            derefs(result@) == overlapping(styles@.take(styles@.len() as int), *range),
        decreases styles@.len() - i,
    {
        if styles[i].full_range.start >= range.end {
            proof {
                lemma_overlapping_stops(styles@, *range, i as int, styles@.len() as int);
            }
            break;
        }
        let ghost before = derefs(result@);
        proof {
            assert(styles@.take(i + 1) =~= styles@.take(i as int).push(styles@[i as int]));
            styles@.take(i as int).lemma_filter_push(
                styles@[i as int],
                |s: StyledRegion| overlaps(s, *range),
            );
        }
        if styles[i].full_range.end > range.start {
            result.push(&styles[i]);
            assert(derefs(result@) =~= before.push(styles@[i as int]));
        }
        i += 1;
    }
    assert(styles@.take(styles@.len() as int) =~= styles@);
    result
}

/// A reference to something on GitHub that inline text can mention.
#[derive(Debug, Clone, PartialEq, Eq, Hash)]
pub enum GitHubRef {
    Issue { owner: String, repo: String, number: u64 },
    User { username: String },
    Team { org: String, team: String },
    Commit { owner: String, repo: String, sha: String },
    Compare { owner: String, repo: String, base: String, head: String },
    File { owner: String, repo: String, path: String },
}

/// A GitHub reference as plain values.
pub enum RefV {
    Issue { owner: Seq<char>, repo: Seq<char>, number: u64 },
    User { username: Seq<char> },
    Team { org: Seq<char>, team: Seq<char> },
    Commit { owner: Seq<char>, repo: Seq<char>, sha: Seq<char> },
    Compare { owner: Seq<char>, repo: Seq<char>, base: Seq<char>, head: Seq<char> },
    File { owner: Seq<char>, repo: Seq<char>, path: Seq<char> },
}

impl View for GitHubRef {
    type V = RefV;

    open spec fn view(&self) -> RefV {
        match self {
            GitHubRef::Issue { owner, repo, number } => RefV::Issue {
                owner: owner@,
                repo: repo@,
                number: *number,
            },
            GitHubRef::User { username } => RefV::User { username: username@ },
            GitHubRef::Team { org, team } => RefV::Team { org: org@, team: team@ },
            GitHubRef::Commit { owner, repo, sha } => RefV::Commit {
                owner: owner@,
                repo: repo@,
                sha: sha@,
            },
            GitHubRef::Compare { owner, repo, base, head } => RefV::Compare {
                owner: owner@,
                repo: repo@,
                base: base@,
                head: head@,
            },
            GitHubRef::File { owner, repo, path } => RefV::File {
                owner: owner@,
                repo: repo@,
                path: path@,
            },
        }
    }
}

impl GitHubRef {
    /// Whether two references name the same thing.
    pub fn same_as(&self, other: &GitHubRef) -> (b: bool)
        ensures
            b == (self@ == other@),
    {
        match (self, other) {
            (
                GitHubRef::Issue { owner: o1, repo: r1, number: n1 },
                GitHubRef::Issue { owner: o2, repo: r2, number: n2 },
            ) => *o1 == *o2 && *r1 == *r2 && *n1 == *n2,
            (GitHubRef::User { username: u1 }, GitHubRef::User { username: u2 }) => *u1 == *u2,
            (GitHubRef::Team { org: o1, team: t1 }, GitHubRef::Team { org: o2, team: t2 }) => *o1
                == *o2 && *t1 == *t2,
            (
                GitHubRef::Commit { owner: o1, repo: r1, sha: s1 },
                GitHubRef::Commit { owner: o2, repo: r2, sha: s2 },
            ) => *o1 == *o2 && *r1 == *r2 && *s1 == *s2,
            (
                GitHubRef::Compare { owner: o1, repo: r1, base: b1, head: h1 },
                GitHubRef::Compare { owner: o2, repo: r2, base: b2, head: h2 },
            ) => *o1 == *o2 && *r1 == *r2 && *b1 == *b2 && *h1 == *h2,
            (
                GitHubRef::File { owner: o1, repo: r1, path: p1 },
                GitHubRef::File { owner: o2, repo: r2, path: p2 },
            ) => *o1 == *o2 && *r1 == *r2 && *p1 == *p2,
            _ => false,
        }
    }

    /// A copy of the reference.
    pub fn duplicate(&self) -> (r: GitHubRef)
        ensures
            r@ == self@,
    {
        match self {
            GitHubRef::Issue { owner, repo, number } => GitHubRef::Issue {
                owner: owner.clone(),
                repo: repo.clone(),
                number: *number,
            },
            GitHubRef::User { username } => GitHubRef::User { username: username.clone() },
            GitHubRef::Team { org, team } => GitHubRef::Team { org: org.clone(), team: team.clone() },
            GitHubRef::Commit { owner, repo, sha } => GitHubRef::Commit {
                owner: owner.clone(),
                repo: repo.clone(),
                sha: sha.clone(),
            },
            GitHubRef::Compare { owner, repo, base, head } => GitHubRef::Compare {
                owner: owner.clone(),
                repo: repo.clone(),
                base: base.clone(),
                head: head.clone(),
            },
            GitHubRef::File { owner, repo, path } => GitHubRef::File {
                owner: owner.clone(),
                repo: repo.clone(),
                path: path.clone(),
            },
        }
    }
}

/// Indices of the children of node `p` among `nodes[j..]`, in list order.
pub open spec fn children_from(nodes: Seq<SyntaxNode>, p: int, j: int) -> Seq<int>
    decreases nodes.len() - j,
{
    if j < 0 || j >= nodes.len() {
        seq![]
    } else {
        (if nodes[j].parent == Some(p as usize) {
            seq![j]
        } else {
            seq![]
        }) + children_from(nodes, p, j + 1)
    }
}

/// Indices of the children of node `p`, in list order.
pub open spec fn children(nodes: Seq<SyntaxNode>, p: int) -> Seq<int> {
    children_from(nodes, p, 0)
}

/// Delimiter nodes of emphasis-like spans.
pub open spec fn is_delimiter(k: NodeKind) -> bool {
    k is EmphasisDelimiter || k is CodeSpanDelimiter || k is OtherDelimiter
}

/// The content start after the opening delimiters among `cs[i..]`.
pub open spec fn open_fold(nodes: Seq<SyntaxNode>, cs: Seq<int>, i: int, acc: int) -> int
    decreases cs.len() - i,
{
    if i < 0 || i >= cs.len() {
        acc
    } else {
        let d = nodes[cs[i]];
        open_fold(
            nodes,
            cs,
            i + 1,
            if is_delimiter(d.kind) && d.start_byte == acc {
                d.end_byte as int
            } else {
                acc
            },
        )
    }
}

/// The content end before the closing delimiters among `cs[..n]`, last first.
pub open spec fn close_fold(nodes: Seq<SyntaxNode>, cs: Seq<int>, n: int, acc: int) -> int
    decreases n,
{
    if n <= 0 || n > cs.len() {
        acc
    } else {
        let d = nodes[cs[n - 1]];
        close_fold(
            nodes,
            cs,
            n - 1,
            if is_delimiter(d.kind) && d.end_byte == acc {
                d.start_byte as int
            } else {
                acc
            },
        )
    }
}

/// The content range of a code span after its children `cs[i..]`.
pub open spec fn code_fold(
    nodes: Seq<SyntaxNode>,
    cs: Seq<int>,
    i: int,
    full: (int, int),
    acc: (int, int),
) -> (int, int)
    decreases cs.len() - i,
{
    if i < 0 || i >= cs.len() {
        acc
    } else {
        let d = nodes[cs[i]];
        let next = if d.kind is CodeSpanDelimiter {
            if d.start_byte == full.0 {
                (d.end_byte as int, acc.1)
            } else if d.end_byte == full.1 {
                (acc.0, d.start_byte as int)
            } else {
                acc
            }
        } else {
            acc
        };
        code_fold(nodes, cs, i + 1, full, next)
    }
}

/// After the children `cs[i..]` of a link or image: the range of its text (or
/// description, for `image`), and the range of its destination if it has one.
pub open spec fn link_fold(
    nodes: Seq<SyntaxNode>,
    cs: Seq<int>,
    i: int,
    image: bool,
    acc: ((int, int), Option<(int, int)>),
) -> ((int, int), Option<(int, int)>)
    decreases cs.len() - i,
{
    if i < 0 || i >= cs.len() {
        acc
    } else {
        let d = nodes[cs[i]];
        let r = (d.start_byte as int, d.end_byte as int);
        let next = if (!image && d.kind is LinkText) || (image && d.kind is ImageDescription) {
            (r, acc.1)
        } else if d.kind is LinkDestination {
            (acc.0, Some(r))
        } else {
            acc
        };
        link_fold(nodes, cs, i + 1, image, next)
    }
}

/// The content range of a link without destination after its brackets among `cs[i..]`.
pub open spec fn bracket_fold(nodes: Seq<SyntaxNode>, cs: Seq<int>, i: int, acc: (int, int)) -> (int, int)
    decreases cs.len() - i,
{
    if i < 0 || i >= cs.len() {
        acc
    } else {
        let d = nodes[cs[i]];
        let next = if d.kind is OpenBracket {
            (d.end_byte as int, acc.1)
        } else if d.kind is CloseBracket {
            (acc.0, d.start_byte as int)
        } else {
            acc
        };
        bracket_fold(nodes, cs, i + 1, next)
    }
}

/// A styled region as plain values.
pub struct RegionV {
    pub full: (int, int),
    pub content: (int, int),
    pub style: TextStyle,
    pub link_url: Option<Seq<char>>,
    pub is_image: bool,
    pub checkbox: Option<bool>,
}

impl View for StyledRegion {
    type V = RegionV;

    open spec fn view(&self) -> RegionV {
        RegionV {
            full: (self.full_range.start as int, self.full_range.end as int),
            content: (self.content_range.start as int, self.content_range.end as int),
            style: self.style,
            link_url: match self.link_url {
                Some(u) => Some(u@),
                None => None,
            },
            is_image: self.is_image,
            checkbox: self.checkbox,
        }
    }
}

/// The region of an emphasis-like node `p`, styled `style`.
pub open spec fn emphasis_region(nodes: Seq<SyntaxNode>, p: int, style: TextStyle) -> RegionV {
    let n = nodes[p];
    let cs = children(nodes, p);
    RegionV {
        full: (n.start_byte as int, n.end_byte as int),
        content: (
            open_fold(nodes, cs, 0, n.start_byte as int),
            close_fold(nodes, cs, cs.len() as int, n.end_byte as int),
        ),
        style,
        link_url: None,
        is_image: false,
        checkbox: None,
    }
}

/// The region of a code span node `p`.
pub open spec fn code_region(nodes: Seq<SyntaxNode>, p: int) -> RegionV {
    let n = nodes[p];
    let full = (n.start_byte as int, n.end_byte as int);
    RegionV {
        full,
        content: code_fold(nodes, children(nodes, p), 0, full, full),
        style: TextStyle { code: true, ..crate::render::plain_style() },
        link_url: None,
        is_image: false,
        checkbox: None,
    }
}

/// The chars of the text `t` that hold bytes `r.0..r.1`.
pub open spec fn text_of(t: Seq<char>, r: (int, int)) -> Seq<char> {
    t.subrange(char_of_byte(t, r.0), char_of_byte(t, r.1))
}

/// A shortcut link whose text is a task checkbox (`[ ]`, `[x]`, `[X]`).
pub open spec fn is_checkbox_text(s: Seq<char>) -> bool {
    s == seq!['[', ' ', ']'] || s == seq!['[', 'x', ']'] || s == seq!['[', 'X', ']']
}

/// The region of a link node `p` over the text `t`, if it is one.
pub open spec fn link_region(nodes: Seq<SyntaxNode>, p: int, t: Seq<char>) -> Option<RegionV> {
    let n = nodes[p];
    let full = (n.start_byte as int, n.end_byte as int);
    if n.kind is ShortcutLink && is_checkbox_text(text_of(t, full)) {
        None
    } else {
        let cs = children(nodes, p);
        let (content, dest) = link_fold(nodes, cs, 0, false, (full, None));
        Some(
            RegionV {
                full,
                content: if dest is None {
                    bracket_fold(nodes, cs, 0, content)
                } else {
                    content
                },
                style: crate::render::plain_style(),
                link_url: match dest {
                    Some(d) => Some(text_of(t, d)),
                    None => None,
                },
                is_image: false,
                checkbox: None,
            },
        )
    }
}

/// The region of an image node `p` over the text `t`, if it has a destination.
pub open spec fn image_region(nodes: Seq<SyntaxNode>, p: int, t: Seq<char>) -> Option<RegionV> {
    let n = nodes[p];
    let full = (n.start_byte as int, n.end_byte as int);
    let (alt, dest) = link_fold(nodes, children(nodes, p), 0, true, (full, None));
    match dest {
        Some(d) => Some(
            RegionV {
                full,
                content: alt,
                style: crate::render::plain_style(),
                link_url: Some(text_of(t, d)),
                is_image: true,
                checkbox: None,
            },
        ),
        None => None,
    }
}

/// The link kinds.
pub open spec fn is_link_kind(k: NodeKind) -> bool {
    k is InlineLink || k is FullReferenceLink || k is CollapsedReferenceLink || k is ShortcutLink
}

/// The region that node `p` makes, if any.
pub open spec fn node_region(nodes: Seq<SyntaxNode>, p: int, t: Seq<char>) -> Option<RegionV> {
    match nodes[p].kind {
        NodeKind::Emphasis => Some(emphasis_region(nodes, p, TextStyle { italic: true, ..crate::render::plain_style() })),
        NodeKind::StrongEmphasis => Some(emphasis_region(nodes, p, TextStyle { bold: true, ..crate::render::plain_style() })),
        NodeKind::CodeSpan => Some(code_region(nodes, p)),
        NodeKind::Strikethrough => Some(emphasis_region(nodes, p, TextStyle { strikethrough: true, ..crate::render::plain_style() })),
        NodeKind::Image => image_region(nodes, p, t),
        k => if is_link_kind(k) {
            link_region(nodes, p, t)
        } else {
            None
        },
    }
}

/// An emphasis node makes a region styled italic and nothing else; strong
/// emphasis bold and nothing else; a strikethrough struck through and nothing
/// else; a code span code and nothing else. None of them is a heading, a link,
/// an image or a checkbox, and each covers its node's whole range.
pub proof fn law_inline_region_styles(nodes: Seq<SyntaxNode>, p: int, t: Seq<char>)
    requires
        0 <= p < nodes.len(),
    ensures
        nodes[p].kind is Emphasis ==> (node_region(nodes, p, t) matches Some(r) && r.style == TextStyle {
            italic: true,
            bold: false,
            code: false,
            strikethrough: false,
            heading_level: 0,
        }),
        nodes[p].kind is StrongEmphasis ==> (node_region(nodes, p, t) matches Some(r) && r.style == TextStyle {
            italic: false,
            bold: true,
            code: false,
            strikethrough: false,
            heading_level: 0,
        }),
        nodes[p].kind is Strikethrough ==> (node_region(nodes, p, t) matches Some(r) && r.style == TextStyle {
            italic: false,
            bold: false,
            code: false,
            strikethrough: true,
            heading_level: 0,
        }),
        nodes[p].kind is CodeSpan ==> (node_region(nodes, p, t) matches Some(r) && r.style == TextStyle {
            italic: false,
            bold: false,
            code: true,
            strikethrough: false,
            heading_level: 0,
        }),
        (nodes[p].kind is Emphasis || nodes[p].kind is StrongEmphasis || nodes[p].kind is Strikethrough
            || nodes[p].kind is CodeSpan) ==> (node_region(nodes, p, t) matches Some(r) && r.full == (
            nodes[p].start_byte as int,
            nodes[p].end_byte as int,
        ) && r.link_url is None && !r.is_image && r.checkbox is None),
        nodes[p].kind is Image ==> (node_region(nodes, p, t) matches Some(r) ==> r.is_image && r.link_url is Some
            && r.style == crate::render::plain_style()),
        is_link_kind(nodes[p].kind) ==> (node_region(nodes, p, t) matches Some(r) ==> !r.is_image
            && r.style == crate::render::plain_style()),
        !(nodes[p].kind is Emphasis || nodes[p].kind is StrongEmphasis || nodes[p].kind is Strikethrough
            || nodes[p].kind is CodeSpan || nodes[p].kind is Image || is_link_kind(nodes[p].kind))
            ==> node_region(nodes, p, t) is None,
{
}

/// The regions that `nodes[..n]` make, in list order.
pub open spec fn regions_upto(nodes: Seq<SyntaxNode>, n: int, t: Seq<char>) -> Seq<RegionV>
    decreases n,
{
    if n <= 0 {
        seq![]
    } else {
        regions_upto(nodes, n - 1, t) + match node_region(nodes, n - 1, t) {
            Some(r) => seq![r],
            None => seq![],
        }
    }
}

/// `rs` with `r` put after every region that starts no later than it.
pub open spec fn insert_by_start(rs: Seq<RegionV>, r: RegionV) -> Seq<RegionV>
    decreases rs.len(),
{
    if rs.len() == 0 {
        seq![r]
    } else if rs.last().full.0 <= r.full.0 {
        rs.push(r)
    } else {
        insert_by_start(rs.drop_last(), r).push(rs.last())
    }
}

/// `rs` sorted by start, keeping the order of regions that start together.
pub open spec fn sort_by_start(rs: Seq<RegionV>) -> Seq<RegionV>
    decreases rs.len(),
{
    if rs.len() == 0 {
        seq![]
    } else {
        insert_by_start(sort_by_start(rs.drop_last()), rs.last())
    }
}

/// Indices of the children of node `p`, in list order.
pub(crate) fn child_indices(nodes: &[SyntaxNode], p: usize) -> (r: Vec<usize>)
    ensures
        r@.map_values(|k: usize| k as int) == children(nodes@, p as int),
        forall|i: int| 0 <= i < r@.len() ==> (#[trigger] r@[i]) < nodes@.len(),
        r@.len() <= nodes@.len(),
{
    let mut r: Vec<usize> = Vec::new();
    let mut j = nodes.len();
    let ghost ns = nodes@;
    assert(r@.map_values(|k: usize| k as int) =~= children_from(ns, p as int, ns.len() as int));
    while j > 0
        invariant
            j <= ns.len(),
            ns == nodes@,
            r@.map_values(|k: usize| k as int) == children_from(ns, p as int, j as int),
            forall|i: int| 0 <= i < r@.len() ==> (#[trigger] r@[i]) < ns.len(),
            r@.len() <= ns.len() - j,
        decreases j,
    {
        j -= 1;
        if nodes[j].parent == Some(p) {
            r.insert(0, j);
            assert(r@.map_values(|k: usize| k as int) =~= seq![j as int] + children_from(
                ns,
                p as int,
                j + 1,
            ));
        } else {
            assert(children_from(ns, p as int, j as int) =~= children_from(ns, p as int, j + 1));
        }
    }
    r
}

/// The region of an emphasis-like node.
pub(crate) fn extract_emphasis_region(nodes: &[SyntaxNode], p: usize, style: TextStyle) -> (r: StyledRegion)
    requires
        p < nodes@.len(),
    ensures
        r@ == emphasis_region(nodes@, p as int, style),
{
    let n = nodes[p];
    let cs = child_indices(nodes, p);
    let ghost csv = cs@.map_values(|k: usize| k as int);
    let mut content_start = n.start_byte;
    let mut i: usize = 0;
    while i < cs.len()
        invariant
            i <= cs@.len(),
            csv == cs@.map_values(|k: usize| k as int),
            forall|q: int| 0 <= q < cs@.len() ==> (#[trigger] cs@[q]) < nodes@.len(),
            open_fold(nodes@, csv, i as int, content_start as int) == open_fold(
                nodes@,
                csv,
                0,
                n.start_byte as int,
            ),
        decreases cs@.len() - i,
    {
        let d = nodes[cs[i]];
        if is_delimiter_kind(d.kind) && d.start_byte == content_start {
            content_start = d.end_byte;
        }
        i += 1;
    }
    let mut content_end = n.end_byte;
    let mut k = cs.len();
    while k > 0
        invariant
            k <= cs@.len(),
            csv == cs@.map_values(|k: usize| k as int),
            forall|q: int| 0 <= q < cs@.len() ==> (#[trigger] cs@[q]) < nodes@.len(),
            close_fold(nodes@, csv, k as int, content_end as int) == close_fold(
                nodes@,
                csv,
                cs@.len() as int,
                n.end_byte as int,
            ),
        decreases k,
    {
        let d = nodes[cs[k - 1]];
        if is_delimiter_kind(d.kind) && d.end_byte == content_end {
            content_end = d.start_byte;
        }
        k -= 1;
    }
    StyledRegion {
        full_range: n.start_byte..n.end_byte,
        content_range: content_start..content_end,
        style,
        link_url: None,
        is_image: false,
        checkbox: None,
    }
}

fn is_delimiter_kind(k: NodeKind) -> (b: bool)
    ensures
        b == is_delimiter(k),
{
    matches!(k, NodeKind::EmphasisDelimiter | NodeKind::CodeSpanDelimiter | NodeKind::OtherDelimiter)
}

/// The region of a code span node.
pub(crate) fn extract_code_span_region(nodes: &[SyntaxNode], p: usize) -> (r: StyledRegion)
    requires
        p < nodes@.len(),
    ensures
        r@ == code_region(nodes@, p as int),
{
    let n = nodes[p];
    let cs = child_indices(nodes, p);
    let ghost csv = cs@.map_values(|k: usize| k as int);
    let ghost full = (n.start_byte as int, n.end_byte as int);
    let mut content_start = n.start_byte;
    let mut content_end = n.end_byte;
    let mut i: usize = 0;
    while i < cs.len()
        invariant
            i <= cs@.len(),
            csv == cs@.map_values(|k: usize| k as int),
            forall|q: int| 0 <= q < cs@.len() ==> (#[trigger] cs@[q]) < nodes@.len(),
            full == (n.start_byte as int, n.end_byte as int),
            code_fold(nodes@, csv, i as int, full, (content_start as int, content_end as int))
                == code_fold(nodes@, csv, 0, full, full),
        decreases cs@.len() - i,
    {
        let d = nodes[cs[i]];
        if let NodeKind::CodeSpanDelimiter = d.kind {
            if d.start_byte == n.start_byte {
                content_start = d.end_byte;
            } else if d.end_byte == n.end_byte {
                content_end = d.start_byte;
            }
        }
        i += 1;
    }
    StyledRegion {
        full_range: n.start_byte..n.end_byte,
        content_range: content_start..content_end,
        style: TextStyle::code(),
        link_url: None,
        is_image: false,
        checkbox: None,
    }
}

/// The text that holds the bytes `start..end` of the rope.
fn rope_text(rope: &Rope, start: usize, end: usize) -> (s: String)
    requires
        start <= end <= byte_len(rope_chars(*rope)),
    ensures
        s@ == text_of(rope_chars(*rope), (start as int, end as int)),
{
    let ghost t = rope_chars(*rope);
    proof {
        lemma_char_of_byte_mono(t, start as int, end as int);
        lemma_char_of_byte_bounds(t, end as int);
    }
    let a = rope_byte_to_char(rope, start);
    let b = rope_byte_to_char(rope, end);
    rope_slice_string(rope, a, b)
}

/// The text and destination ranges of a link or image node.
pub(crate) fn link_parts(nodes: &[SyntaxNode], cs: &Vec<usize>, p: usize, image: bool) -> (r: ((usize, usize), Option<(usize, usize)>))
    requires
        p < nodes@.len(),
        forall|q: int| 0 <= q < cs@.len() ==> (#[trigger] cs@[q]) < nodes@.len(),
    ensures
        ({
            let n = nodes@[p as int];
            let full = (n.start_byte as int, n.end_byte as int);
            let f = link_fold(nodes@, cs@.map_values(|k: usize| k as int), 0, image, (full, None));
            &&& f.0 == (r.0.0 as int, r.0.1 as int)
            &&& f.1 == (match r.1 {
                Some(d) => Some((d.0 as int, d.1 as int)),
                None => None,
            })
        }),
{
    let n = nodes[p];
    let ghost csv = cs@.map_values(|k: usize| k as int);
    let ghost full = (n.start_byte as int, n.end_byte as int);
    let mut content = (n.start_byte, n.end_byte);
    let mut dest: Option<(usize, usize)> = None;
    let mut i: usize = 0;
    while i < cs.len()
        invariant
            i <= cs@.len(),
            csv == cs@.map_values(|k: usize| k as int),
            forall|q: int| 0 <= q < cs@.len() ==> (#[trigger] cs@[q]) < nodes@.len(),
            link_fold(
                nodes@,
                csv,
                i as int,
                image,
                (
                    (content.0 as int, content.1 as int),
                    match dest {
                        Some(d) => Some((d.0 as int, d.1 as int)),
                        None => None,
                    },
                ),
            ) == link_fold(nodes@, csv, 0, image, (full, None)),
        decreases cs@.len() - i,
    {
        let d = nodes[cs[i]];
        let is_text = match d.kind {
            NodeKind::LinkText => !image,
            NodeKind::ImageDescription => image,
            _ => false,
        };
        if is_text {
            content = (d.start_byte, d.end_byte);
        } else if let NodeKind::LinkDestination = d.kind {
            dest = Some((d.start_byte, d.end_byte));
        }
        i += 1;
    }
    (content, dest)
}

/// The region of a link node, unless it is a task checkbox.
fn extract_link_region(nodes: &[SyntaxNode], p: usize, rope: &Rope) -> (r: Option<StyledRegion>)
    requires
        p < nodes@.len(),
        ranges_within(nodes@, byte_len(rope_chars(*rope))),
    ensures
        match r {
            Some(x) => link_region(nodes@, p as int, rope_chars(*rope)) == Some(x@),
            None => link_region(nodes@, p as int, rope_chars(*rope)) is None,
        },
{
    let n = nodes[p];
    let ghost t = rope_chars(*rope);
    assert(n.start_byte <= n.end_byte && n.end_byte <= byte_len(t));
    if let NodeKind::ShortcutLink = n.kind {
        let text = rope_text(rope, n.start_byte, n.end_byte);
        let s = text.as_str();
        proof {
            reveal_strlit("[ ]");
            reveal_strlit("[x]");
            reveal_strlit("[X]");
            assert("[ ]"@ =~= seq!['[', ' ', ']']);
            assert("[x]"@ =~= seq!['[', 'x', ']']);
            assert("[X]"@ =~= seq!['[', 'X', ']']);
        }
        if text == "[ ]".to_string() || text == "[x]".to_string() || text == "[X]".to_string() {
            return None;
        }
    }
    let cs = child_indices(nodes, p);
    let ghost csv = cs@.map_values(|k: usize| k as int);
    let (content, dest) = link_parts(nodes, &cs, p, false);
    let (mut cstart, mut cend) = content;
    let url = match dest {
        Some((a, b)) => {
            assert(a <= b && b <= byte_len(t)) by {
                link_fold_dest_in(nodes@, csv, 0, false, ((n.start_byte as int, n.end_byte as int), None), byte_len(t));
            }
            Some(rope_text(rope, a, b))
        },
        None => None,
    };
    if dest.is_none() {
        let c = bracket_content(nodes, &cs, content);
        cstart = c.0;
        cend = c.1;
    }
    Some(
        StyledRegion {
            full_range: n.start_byte..n.end_byte,
            content_range: cstart..cend,
            style: TextStyle::default(),
            link_url: url,
            is_image: false,
            checkbox: None,
        },
    )
}

/// The content range of a link without destination, after its brackets.
pub(crate) fn bracket_content(nodes: &[SyntaxNode], cs: &Vec<usize>, content: (usize, usize)) -> (r: (usize, usize))
    requires
        forall|q: int| 0 <= q < cs@.len() ==> (#[trigger] cs@[q]) < nodes@.len(),
    ensures
        (r.0 as int, r.1 as int) == bracket_fold(
            nodes@,
            cs@.map_values(|k: usize| k as int),
            0,
            (content.0 as int, content.1 as int),
        ),
{
    let ghost csv = cs@.map_values(|k: usize| k as int);
    let (mut cstart, mut cend) = content;
    let mut i: usize = 0;
    while i < cs.len()
        invariant
            i <= cs@.len(),
            csv == cs@.map_values(|k: usize| k as int),
            forall|q: int| 0 <= q < cs@.len() ==> (#[trigger] cs@[q]) < nodes@.len(),
            bracket_fold(nodes@, csv, i as int, (cstart as int, cend as int)) == bracket_fold(
                nodes@,
                csv,
                0,
                (content.0 as int, content.1 as int),
            ),
        decreases cs@.len() - i,
    {
        let d = nodes[cs[i]];
        match d.kind {
            NodeKind::OpenBracket => {
                cstart = d.end_byte;
            },
            NodeKind::CloseBracket => {
                cend = d.start_byte;
            },
            _ => {},
        }
        i += 1;
    }
    (cstart, cend)
}

/// A destination found among the children lies within the text, as every node does.
pub(crate) proof fn link_fold_dest_in(
    nodes: Seq<SyntaxNode>,
    cs: Seq<int>,
    i: int,
    image: bool,
    acc: ((int, int), Option<(int, int)>),
    len: int,
)
    requires
        ranges_within(nodes, len),
        forall|q: int| 0 <= q < cs.len() ==> 0 <= #[trigger] cs[q] < nodes.len(),
        acc.1 matches Some(d) ==> 0 <= d.0 <= d.1 <= len,
    ensures
        link_fold(nodes, cs, i, image, acc).1 matches Some(d) ==> 0 <= d.0 <= d.1 <= len,
    decreases cs.len() - i,
{
    if 0 <= i < cs.len() {
        let d = nodes[cs[i]];
        let r = (d.start_byte as int, d.end_byte as int);
        let next = if (!image && d.kind is LinkText) || (image && d.kind is ImageDescription) {
            (r, acc.1)
        } else if d.kind is LinkDestination {
            (acc.0, Some(r))
        } else {
            acc
        };
        link_fold_dest_in(nodes, cs, i + 1, image, next, len);
    }
}

/// The region of an image node, if it has a destination.
fn extract_image_region(nodes: &[SyntaxNode], p: usize, rope: &Rope) -> (r: Option<StyledRegion>)
    requires
        p < nodes@.len(),
        ranges_within(nodes@, byte_len(rope_chars(*rope))),
    ensures
        match r {
            Some(x) => image_region(nodes@, p as int, rope_chars(*rope)) == Some(x@),
            None => image_region(nodes@, p as int, rope_chars(*rope)) is None,
        },
{
    let n = nodes[p];
    let ghost t = rope_chars(*rope);
    let cs = child_indices(nodes, p);
    let ghost csv = cs@.map_values(|k: usize| k as int);
    let (alt, dest) = link_parts(nodes, &cs, p, true);
    match dest {
        Some((a, b)) => {
            assert(a <= b && b <= byte_len(t)) by {
                link_fold_dest_in(nodes@, csv, 0, true, ((n.start_byte as int, n.end_byte as int), None), byte_len(t));
            }
            let url = rope_text(rope, a, b);
            Some(
                StyledRegion {
                    full_range: n.start_byte..n.end_byte,
                    content_range: alt.0..alt.1,
                    style: TextStyle::default(),
                    link_url: Some(url),
                    is_image: true,
                    checkbox: None,
                },
            )
        },
        None => None,
    }
}

/// The region that node `p` makes, if any.
fn extract_node_region(nodes: &[SyntaxNode], p: usize, rope: &Rope) -> (r: Option<StyledRegion>)
    requires
        p < nodes@.len(),
        ranges_within(nodes@, byte_len(rope_chars(*rope))),
    ensures
        match r {
            Some(x) => node_region(nodes@, p as int, rope_chars(*rope)) == Some(x@),
            None => node_region(nodes@, p as int, rope_chars(*rope)) is None,
        },
{
    match nodes[p].kind {
        NodeKind::Emphasis => Some(extract_emphasis_region(nodes, p, TextStyle::italic())),
        NodeKind::StrongEmphasis => Some(extract_emphasis_region(nodes, p, TextStyle::bold())),
        NodeKind::CodeSpan => Some(extract_code_span_region(nodes, p)),
        NodeKind::Strikethrough => Some(extract_emphasis_region(nodes, p, TextStyle::strikethrough())),
        NodeKind::Image => extract_image_region(nodes, p, rope),
        NodeKind::InlineLink | NodeKind::FullReferenceLink | NodeKind::CollapsedReferenceLink
        | NodeKind::ShortcutLink => extract_link_region(nodes, p, rope),
        _ => None,
    }
}

/// Put `r` into `rs`, which is sorted by start, after every region that starts no later.
fn insert_sorted(rs: &mut Vec<StyledRegion>, r: StyledRegion)
    ensures
        final(rs)@.map_values(|x: StyledRegion| x@) == insert_by_start(
            old(rs)@.map_values(|x: StyledRegion| x@),
            r@,
        ),
{
    let ghost v = old(rs)@.map_values(|x: StyledRegion| x@);
    let mut k = rs.len();
    assert(v.take(k as int) =~= v);
    assert(v.skip(k as int) =~= Seq::<RegionV>::empty());
    assert(insert_by_start(v, r@) + Seq::<RegionV>::empty() =~= insert_by_start(v, r@));
    while k > 0 && rs[k - 1].full_range.start > r.full_range.start
        invariant
            k <= rs@.len(),
            rs@ == old(rs)@,
            v == old(rs)@.map_values(|x: StyledRegion| x@),
            insert_by_start(v, r@) == insert_by_start(v.take(k as int), r@) + v.skip(k as int),
        decreases k,
    {
        proof {
            let w = v.take(k as int);
            assert(w.drop_last() =~= v.take(k - 1));
            assert(w.last() == v[k - 1]);
            assert(insert_by_start(w, r@) == insert_by_start(v.take(k - 1), r@).push(v[k - 1]));
            assert(insert_by_start(v.take(k - 1), r@).push(v[k - 1]) + v.skip(k as int)
                =~= insert_by_start(v.take(k - 1), r@) + v.skip(k - 1));
        }
        k -= 1;
    }
    proof {
        let w = v.take(k as int);
        if k > 0 {
            assert(w.last() == v[k - 1]);
        }
        assert(insert_by_start(w, r@) =~= w.push(r@));
    }
    rs.insert(k, r);
    assert(rs@.map_values(|x: StyledRegion| x@) =~= v.take(k as int).push(r@) + v.skip(k as int));
}

/// Extract all inline styles from the nodes of the inline trees (given in
/// document order, each node after its parent), over the text of `rope`.
/// Returns them sorted by start; those that start together stay in node order.
pub fn extract_all_inline_styles(nodes: &[SyntaxNode], rope: &Rope) -> (r: Vec<StyledRegion>)
    requires
        ranges_within(nodes@, byte_len(rope_chars(*rope))),
    ensures
        r@.map_values(|x: StyledRegion| x@) == sort_by_start(
            regions_upto(nodes@, nodes@.len() as int, rope_chars(*rope)),
        ),
{
    let ghost t = rope_chars(*rope);
    let mut found: Vec<StyledRegion> = Vec::new();
    let mut sorted: Vec<StyledRegion> = Vec::new();
    let mut p: usize = 0;
    while p < nodes.len()
        invariant
            p <= nodes@.len(),
            t == rope_chars(*rope),
            ranges_within(nodes@, byte_len(t)),
            sorted@.map_values(|x: StyledRegion| x@) == sort_by_start(regions_upto(nodes@, p as int, t)),
        decreases nodes@.len() - p,
    {
        let ghost before = regions_upto(nodes@, p as int, t);
        match extract_node_region(nodes, p, rope) {
            Some(region) => {
                let ghost rv = region@;
                insert_sorted(&mut sorted, region);
                proof {
                    let after = regions_upto(nodes@, p + 1, t);
                    assert(after == before + seq![rv]);
                    assert(after.drop_last() =~= before);
                }
            },
            None => {
                assert(regions_upto(nodes@, p + 1, t) =~= before);
            },
        }
        p += 1;
    }
    sorted
}

} // verus!
