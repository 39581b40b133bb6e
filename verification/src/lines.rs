//! Splitting a document into lines and finding the markers of each line.

use vstd::prelude::*;
use vstd::string::StringSliceAdditionalSpecFns;

use crate::inline::{
    bracket_fold, child_indices, children, code_region, emphasis_region, extract_code_span_region,
    extract_emphasis_region, is_link_kind, link_fold, link_parts,
    RegionV, StyledRegion, TextStyle, bracket_content,
};
use crate::marker::{found_markers, marker_views, markers_at, nodes_fit_text, LineMarkers, Marker};
use crate::syntax::{parents_before, NodeKind, SyntaxNode};
use crate::buffer::Buffer;
use crate::text::{bytes_of, chars_in, slice_string, valid_byte_range};

verus! {

broadcast use vstd::string::group_string_axioms;

/// Index of the first newline byte at or after `i`, or the length.
pub open spec fn next_newline(bytes: Seq<u8>, i: int) -> int
    decreases bytes.len() - i,
{
    if i < 0 || i >= bytes.len() {
        bytes.len() as int
    } else if bytes[i] == 0x0A {
        i
    } else {
        next_newline(bytes, i + 1)
    }
}

/// Byte ranges of the lines that begin at `start`: each line runs up to (not
/// including) its newline; text ending in a newline has an empty last line.
pub open spec fn line_ranges_from(bytes: Seq<u8>, start: int) -> Seq<(int, int)>
    decreases bytes.len() - start,
{
    let e = next_newline(bytes, start);
    if start < 0 || start > bytes.len() || e >= bytes.len() {
        seq![(start, bytes.len() as int)]
    } else {
        proof {
            lemma_next_newline(bytes, start);
        }
        seq![(start, e)] + line_ranges_from(bytes, e + 1)
    }
}

/// Byte ranges of all lines of `bytes`.
pub open spec fn line_ranges(bytes: Seq<u8>) -> Seq<(int, int)> {
    line_ranges_from(bytes, 0)
}

pub proof fn lemma_next_newline(bytes: Seq<u8>, i: int)
    requires
        0 <= i <= bytes.len(),
    ensures
        i <= next_newline(bytes, i) <= bytes.len(),
        next_newline(bytes, i) < bytes.len() ==> bytes[next_newline(bytes, i)] == 0x0A,
        forall|j: int| i <= j < next_newline(bytes, i) ==> bytes[j] != 0x0A,
    decreases bytes.len() - i,
{
    if i < bytes.len() && bytes[i] != 0x0A {
        lemma_next_newline(bytes, i + 1);
    }
}

/// The view of an optional node slice.
pub open spec fn opt_view(nodes: Option<&[SyntaxNode]>) -> Option<Seq<SyntaxNode>> {
    match nodes {
        Some(ns) => Some(ns@),
        None => None,
    }
}

/// `line` is line `i` of `bytes`, with the markers that `nodes` (the parse
/// of `bytes`, if there is one) put on it.
pub open spec fn line_ok(bytes: Seq<u8>, nodes: Option<Seq<SyntaxNode>>, line: LineMarkers, i: int) -> bool {
    &&& line.range.start == line_ranges(bytes)[i].0
    &&& line.range.end == line_ranges(bytes)[i].1
    &&& line.line_number == i
    &&& match nodes {
        None => line.markers@.len() == 0,
        Some(ns) => found_markers(
            ns,
            bytes,
            line.range.start as int,
            line.range.end as int,
            marker_views(line.markers@),
        ),
    }
}

/// `lines` are the lines of `bytes`, in order, each with its number and the
/// markers that `nodes` (the parse of `bytes`, if there is one) put on it.
pub open spec fn lines_match(
    bytes: Seq<u8>,
    nodes: Option<Seq<SyntaxNode>>,
    lines: Seq<LineMarkers>,
) -> bool {
    &&& lines.len() == line_ranges(bytes).len()
    &&& forall|i: int| 0 <= i < lines.len() ==> #[trigger] line_ok(bytes, nodes, lines[i], i)
}

/// Split `text` into lines, and give each line the markers that `nodes` (the
/// parse of `text`, if there is one) put on it.
pub fn extract_lines_from_parts(text: &str, nodes: Option<&[SyntaxNode]>) -> (r: Vec<LineMarkers>)
    requires
        nodes matches Some(ns) ==> nodes_fit_text(ns@, text.spec_bytes()),
    ensures
        lines_match(text.spec_bytes(), opt_view(nodes), r@),
        text.spec_bytes().len() <= usize::MAX,
{
    let bytes = text.as_bytes();
    let ghost bs = text.spec_bytes();
    let len = bytes.len();
    let mut lines: Vec<LineMarkers> = Vec::new();
    let mut line_start: usize = 0;
    let mut i: usize = 0;
    proof {
        lemma_next_newline(bs, 0);
    }
    loop
        invariant_except_break
            lines@.len() + line_ranges_from(bs, line_start as int).len() == line_ranges(bs).len(),
            forall|j: int|
                0 <= j < line_ranges_from(bs, line_start as int).len() ==> #[trigger] line_ranges(
                    bs,
                )[lines@.len() + j] == line_ranges_from(bs, line_start as int)[j],
        invariant
            bs == bytes@,
            bs == text.spec_bytes(),
            len == bs.len(),
            line_start <= i <= len,
            next_newline(bs, line_start as int) == next_newline(bs, i as int),
            i <= next_newline(bs, line_start as int),
            nodes matches Some(ns) ==> nodes_fit_text(ns@, bs),
            forall|j: int| 0 <= j < lines@.len() ==> #[trigger] line_ok(bs, opt_view(nodes), lines@[j], j),
        ensures
            lines@.len() == line_ranges(bs).len(),
        decreases len - i, len - line_start,
    {
        if i < len && bytes[i] != 0x0Au8 {
            proof {
                lemma_next_newline(bs, line_start as int);
            }
            i += 1;
            continue;
        }
        // `i` ends the line that begins at `line_start`
        proof {
            lemma_next_newline(bs, line_start as int);
            if i < len {
                lemma_next_newline(bs, i as int);
            }
            assert(i == next_newline(bs, line_start as int));
        }
        let markers: Vec<Marker> = match nodes {
            Some(ns) => markers_at(ns, text, line_start, i),
            None => Vec::new(),
        };
        let line_number = lines.len();
        let ghost k: int = lines@.len() as int;
        lines.push(LineMarkers { range: line_start..i, line_number, markers });
        assert(line_ranges_from(bs, line_start as int)[0] == (line_start as int, i as int));
        assert(line_ranges(bs)[k + 0] == (line_start as int, i as int));
        if i >= len {
            assert(line_ranges_from(bs, line_start as int).len() == 1);
            break;
        }
        let ghost old_start = line_start;
        line_start = i + 1;
        i = i + 1;
        proof {
            lemma_next_newline(bs, line_start as int);
            let rest = line_ranges_from(bs, old_start as int);
            assert(rest == seq![(old_start as int, (i - 1) as int)] + line_ranges_from(
                bs,
                line_start as int,
            ));
            assert forall|j: int| 0 <= j < line_ranges_from(bs, line_start as int).len() implies #[trigger] line_ranges(
                bs,
            )[lines@.len() + j] == line_ranges_from(bs, line_start as int)[j] by {
                assert(line_ranges(bs)[k + (j + 1)] == rest[j + 1]);
            }
        }
    }
    assert(lines_match(bs, opt_view(nodes), lines@));
    lines
}

/// Node `n` overlaps the bytes `s..e`.
pub open spec fn overlaps(n: SyntaxNode, s: int, e: int) -> bool {
    !(n.end_byte <= s || n.start_byte >= e)
}

/// The nearest node at or above node `j` that holds an inline tree.
pub open spec fn inline_host(nodes: Seq<SyntaxNode>, j: int) -> Option<int>
    decreases j,
{
    if j < 0 || j >= nodes.len() {
        None
    } else if nodes[j].kind is Inline || nodes[j].kind is PipeTableCell {
        Some(j)
    } else {
        match nodes[j].parent {
            Some(p) => if p < j {
                inline_host(nodes, p as int)
            } else {
                None
            },
            None => None,
        }
    }
}

/// Node `j` and every node above it overlap the bytes `s..e`.
pub open spec fn path_overlaps(nodes: Seq<SyntaxNode>, j: int, s: int, e: int) -> bool
    decreases j,
{
    if j < 0 || j >= nodes.len() {
        false
    } else {
        overlaps(nodes[j], s, e) && match nodes[j].parent {
            Some(p) => p < j && path_overlaps(nodes, p as int, s, e),
            None => true,
        }
    }
}

/// The walk over the blocks that overlap `s..e` reaches node `j`: its inline
/// tree hangs under an `inline` block node that overlaps, as do the blocks above it.
pub open spec fn in_line_walk(nodes: Seq<SyntaxNode>, j: int, s: int, e: int) -> bool {
    match inline_host(nodes, j) {
        Some(b) => nodes[b].kind is Inline && path_overlaps(nodes, b, s, e),
        None => false,
    }
}

/// The region that node `p` makes over the text bytes `bytes`, links and
/// images taking their destination's text.
pub open spec fn text_node_region(nodes: Seq<SyntaxNode>, p: int, bytes: Seq<u8>) -> Option<RegionV> {
    let n = nodes[p];
    let full = (n.start_byte as int, n.end_byte as int);
    let plain = crate::render::plain_style();
    match n.kind {
        NodeKind::Emphasis => Some(emphasis_region(nodes, p, TextStyle { italic: true, ..plain })),
        NodeKind::StrongEmphasis => Some(emphasis_region(nodes, p, TextStyle { bold: true, ..plain })),
        NodeKind::CodeSpan => Some(code_region(nodes, p)),
        NodeKind::Strikethrough => Some(emphasis_region(nodes, p, TextStyle { strikethrough: true, ..plain })),
        NodeKind::Image => {
            let (alt, dest) = link_fold(nodes, children(nodes, p), 0, true, (full, None));
            match dest {
                Some(d) => Some(
                    RegionV {
                        full,
                        content: alt,
                        style: plain,
                        link_url: Some(chars_in(bytes, d.0, d.1)),
                        is_image: true,
                        checkbox: None,
                    },
                ),
                None => None,
            }
        },
        k => if is_link_kind(k) {
            let cs = children(nodes, p);
            let (content, dest) = link_fold(nodes, cs, 0, false, (full, None));
            Some(
                RegionV {
                    full,
                    content: if dest is None {
                        bracket_fold(nodes, cs, 0, content)
                    } else {
                        content
                    },
                    style: plain,
                    link_url: match dest {
                        Some(d) => Some(chars_in(bytes, d.0, d.1)),
                        None => None,
                    },
                    is_image: false,
                    checkbox: None,
                },
            )
        } else {
            None
        },
    }
}

/// The regions of the nodes among `nodes[..n]` that the walk over the
/// blocks overlapping `s..e` reaches, in list order.
pub open spec fn line_regions(nodes: Seq<SyntaxNode>, n: int, bytes: Seq<u8>, s: int, e: int) -> Seq<RegionV>
    decreases n,
{
    if n <= 0 {
        seq![]
    } else {
        line_regions(nodes, n - 1, bytes, s, e) + if in_line_walk(nodes, n - 1, s, e) {
            match text_node_region(nodes, n - 1, bytes) {
                Some(r) => seq![r],
                None => seq![],
            }
        } else {
            seq![]
        }
    }
}

/// Every destination node spans whole chars of the text.
pub open spec fn destinations_fit(nodes: Seq<SyntaxNode>, bytes: Seq<u8>) -> bool {
    forall|i: int|
        0 <= i < nodes.len() && (#[trigger] nodes[i]).kind is LinkDestination ==> valid_byte_range(
            bytes,
            nodes[i].start_byte as int,
            nodes[i].end_byte as int,
        )
}

fn inline_host_exec(nodes: &[SyntaxNode], j: usize) -> (r: Option<usize>)
    requires
        j < nodes@.len(),
        parents_before(nodes@),
    ensures
        match r {
            Some(b) => b < nodes@.len() && inline_host(nodes@, j as int) == Some(b as int),
            None => inline_host(nodes@, j as int) is None,
        },
{
    let mut k = j;
    loop
        invariant
            k < nodes@.len(),
            parents_before(nodes@),
            inline_host(nodes@, k as int) == inline_host(nodes@, j as int),
        decreases k,
    {
        match nodes[k].kind {
            NodeKind::Inline | NodeKind::PipeTableCell => {
                return Some(k);
            },
            _ => {},
        }
        match nodes[k].parent {
            Some(p) => {
                assert(p < k);
                k = p;
            },
            None => {
                return None;
            },
        }
    }
}

fn path_overlaps_exec(nodes: &[SyntaxNode], j: usize, s: usize, e: usize) -> (b: bool)
    requires
        j < nodes@.len(),
        parents_before(nodes@),
    ensures
        b == path_overlaps(nodes@, j as int, s as int, e as int),
{
    let mut k = j;
    loop
        invariant
            k < nodes@.len(),
            parents_before(nodes@),
            path_overlaps(nodes@, k as int, s as int, e as int) == path_overlaps(
                nodes@,
                j as int,
                s as int,
                e as int,
            ),
        decreases k,
    {
        let n = nodes[k];
        if n.end_byte <= s || n.start_byte >= e {
            return false;
        }
        match n.parent {
            Some(p) => {
                assert(p < k);
                k = p;
            },
            None => {
                return true;
            },
        }
    }
}

/// The region that node `p` makes, links and images taking their
/// destination's text from `text`.
fn text_node_region_exec(nodes: &[SyntaxNode], p: usize, text: &str) -> (r: Option<StyledRegion>)
    requires
        p < nodes@.len(),
        destinations_fit(nodes@, text.spec_bytes()),
    ensures
        match r {
            Some(x) => text_node_region(nodes@, p as int, text.spec_bytes()) == Some(x@),
            None => text_node_region(nodes@, p as int, text.spec_bytes()) is None,
        },
{
    let n = nodes[p];
    match n.kind {
        NodeKind::Emphasis => Some(extract_emphasis_region(nodes, p, TextStyle::italic())),
        NodeKind::StrongEmphasis => Some(extract_emphasis_region(nodes, p, TextStyle::bold())),
        NodeKind::CodeSpan => Some(extract_code_span_region(nodes, p)),
        NodeKind::Strikethrough => Some(extract_emphasis_region(nodes, p, TextStyle::strikethrough())),
        NodeKind::Image => {
            let cs = child_indices(nodes, p);
            let (alt, dest) = link_parts(nodes, &cs, p, true);
            match dest {
                Some((a, b)) => {
                    proof {
                        lemma_destination_fits(nodes@, cs@.map_values(|k: usize| k as int), 0, true, ((n.start_byte as int, n.end_byte as int), None), text.spec_bytes());
                    }
                    let url = slice_string(text, a, b);
                    Some(
                        StyledRegion {
                            full_range: n.start_byte..n.end_byte,
                            content_range: alt.0..alt.1,
                            style: TextStyle::default(),
                            link_url: Some(url),
                            is_image: true,
                            checkbox: None,
                        },
                    )
                },
                None => None,
            }
        },
        NodeKind::InlineLink | NodeKind::FullReferenceLink | NodeKind::CollapsedReferenceLink
        | NodeKind::ShortcutLink => {
            let cs = child_indices(nodes, p);
            let (content, dest) = link_parts(nodes, &cs, p, false);
            let url = match dest {
                Some((a, b)) => {
                    proof {
                        lemma_destination_fits(nodes@, cs@.map_values(|k: usize| k as int), 0, false, ((n.start_byte as int, n.end_byte as int), None), text.spec_bytes());
                    }
                    Some(slice_string(text, a, b))
                },
                None => None,
            };
            let c = if dest.is_none() {
                bracket_content(nodes, &cs, content)
            } else {
                content
            };
            Some(
                StyledRegion {
                    full_range: n.start_byte..n.end_byte,
                    content_range: c.0..c.1,
                    style: TextStyle::default(),
                    link_url: url,
                    is_image: false,
                    checkbox: None,
                },
            )
        },
        _ => None,
    }
}

/// A destination that the children give is one of the nodes, so it spans whole chars.
proof fn lemma_destination_fits(
    nodes: Seq<SyntaxNode>,
    cs: Seq<int>,
    i: int,
    image: bool,
    acc: ((int, int), Option<(int, int)>),
    bytes: Seq<u8>,
)
    requires
        destinations_fit(nodes, bytes),
        forall|q: int| 0 <= q < cs.len() ==> 0 <= #[trigger] cs[q] < nodes.len(),
        acc.1 matches Some(d) ==> valid_byte_range(bytes, d.0, d.1),
    ensures
        link_fold(nodes, cs, i, image, acc).1 matches Some(d) ==> valid_byte_range(bytes, d.0, d.1),
    decreases cs.len() - i,
{
    if 0 <= i < cs.len() {
        let d = nodes[cs[i]];
        let r = (d.start_byte as int, d.end_byte as int);
        let next = if (!image && d.kind is LinkText) || (image && d.kind is ImageDescription) {
            (r, acc.1)
        } else if d.kind is LinkDestination {
            (acc.0, Some(r))
        } else {
            acc
        };
        lemma_destination_fits(nodes, cs, i + 1, image, next, bytes);
    }
}

/// The lines of the buffer's text, each with the markers that its parse (if
/// there is one) puts on it.
pub fn extract_lines(buffer: &Buffer) -> (r: Vec<LineMarkers>)
    requires
        buffer.wf(),
    ensures
        lines_match(bytes_of(buffer@.text), buffer.content_spec().syntax(), r@),
{
    let content = buffer.content();
    proof {
        content.lemma_syntax_fits();
    }
    let text = content.text();
    match content.tree() {
        Some(nodes) => extract_lines_from_parts(text.as_str(), Some(nodes.as_slice())),
        None => extract_lines_from_parts(text.as_str(), None),
    }
}

/// The inline styles on `line`: those of the inline trees under the `inline`
/// block nodes reached by walking down the blocks that overlap the line, in
/// node order. No parse gives no styles.
pub fn extract_inline_styles_from_parts(
    text: &str,
    tree: Option<&[SyntaxNode]>,
    line: &LineMarkers,
) -> (r: Vec<StyledRegion>)
    requires
        tree matches Some(ns) ==> parents_before(ns@) && destinations_fit(ns@, text.spec_bytes()),
    ensures
        match tree {
            None => r@.len() == 0,
            Some(ns) => r@.map_values(|x: StyledRegion| x@) == line_regions(
                ns@,
                ns@.len() as int,
                text.spec_bytes(),
                line.range.start as int,
                line.range.end as int,
            ),
        },
{
    let nodes = match tree {
        Some(ns) => ns,
        None => {
            return Vec::new();
        },
    };
    let ghost bytes = text.spec_bytes();
    let s = line.range.start;
    let e = line.range.end;
    let mut styles: Vec<StyledRegion> = Vec::new();
    let mut j: usize = 0;
    while j < nodes.len()
        invariant
            j <= nodes@.len(),
            bytes == text.spec_bytes(),
            parents_before(nodes@),
            destinations_fit(nodes@, bytes),
            styles@.map_values(|x: StyledRegion| x@) == line_regions(nodes@, j as int, bytes, s as int, e as int),
        decreases nodes@.len() - j,
    {
        let ghost before = styles@.map_values(|x: StyledRegion| x@);
        let reached = match inline_host_exec(nodes, j) {
            Some(b) => {
                let is_inline = matches!(nodes[b].kind, NodeKind::Inline);
                is_inline && path_overlaps_exec(nodes, b, s, e)
            },
            None => false,
        };
        if reached {
            match text_node_region_exec(nodes, j, text) {
                Some(region) => {
                    styles.push(region);
                    assert(styles@.map_values(|x: StyledRegion| x@) =~= before.push(region@));
                },
                None => {},
            }
        }
        assert(styles@.map_values(|x: StyledRegion| x@) =~= line_regions(nodes@, j + 1, bytes, s as int, e as int));
        j += 1;
    }
    styles
}

} // verus!
