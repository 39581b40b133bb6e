//! The nesting states that Tab and Shift+Tab cycle a line's prefix through.
//!
//! They come from the parse of the text above the cursor's line: the block
//! quotes and list items around the node just before the line give a quote
//! prefix and one level per list, and each level gives a sibling marker and,
//! where a paragraph continues it, an indent.

use vstd::prelude::*;

use crate::buffer::{clamped_slice, line_of, line_start_byte, BufferContent};
use crate::inline::{child_indices, children};
use crate::renumber::{
    decimal, decimal_string, digits_prefix, is_digit, lemma_digits_prefix, marker_number, parse_marker_number,
};
use crate::rope::byte_len;
use crate::syntax::{ranges_within, NodeKind, SyntaxNode};
use crate::text::{chars_of, string_from_chars, string_push, string_push_str, sub_chars};

verus! {

/// An optional node index as a spec integer.
pub open spec fn as_index(o: Option<usize>) -> Option<int> {
    match o {
        Some(i) => Some(i as int),
        None => None,
    }
}

/// The parent of node `i`, where it is listed before `i`, as a preorder
/// listing lists it; a parent listed after its child is not followed.
pub open spec fn parent_before(nodes: Seq<SyntaxNode>, i: int) -> Option<int> {
    match nodes[i].parent {
        Some(p) => if (p as int) < i {
            Some(p as int)
        } else {
            None
        },
        None => None,
    }
}

/// The first child of `p` among `nodes[j..]` whose range ends after byte `a`.
pub open spec fn child_ending_after(nodes: Seq<SyntaxNode>, p: int, a: int, j: int) -> Option<int>
    decreases nodes.len() - j,
{
    if j < 0 || j >= nodes.len() {
        None
    } else if nodes[j].parent == Some(p as usize) && nodes[j].end_byte > a {
        Some(j)
    } else {
        child_ending_after(nodes, p, a, j + 1)
    }
}

/// The smallest node at byte `a` at or under node `i`, found as tree-sitter
/// finds it: down into the first child (listed after its parent) that ends
/// after `a`, as long as that child starts at or before `a`.
pub open spec fn descend(nodes: Seq<SyntaxNode>, i: int, a: int) -> int
    decreases nodes.len() - i,
{
    if 0 <= i < nodes.len() {
        match child_ending_after(nodes, i, a, i + 1) {
            Some(c) => if i < c < nodes.len() && nodes[c].start_byte <= a {
                descend(nodes, c, a)
            } else {
                i
            },
            None => i,
        }
    } else {
        i
    }
}

/// The nearest `ERROR` node from node `i` up, `i` itself included.
pub open spec fn error_ancestor(nodes: Seq<SyntaxNode>, i: int) -> Option<int>
    decreases i,
{
    if i < 0 || i >= nodes.len() {
        None
    } else if nodes[i].kind is Error {
        Some(i)
    } else {
        match parent_before(nodes, i) {
            Some(p) => if 0 <= p < i {
                error_ancestor(nodes, p)
            } else {
                None
            },
            None => None,
        }
    }
}

/// The child of `p` listed last among `nodes[p + 1..j]`.
pub open spec fn last_child_before(nodes: Seq<SyntaxNode>, p: int, j: int) -> Option<int>
    decreases j,
{
    if p < 0 || j <= p + 1 || j > nodes.len() {
        None
    } else if nodes[j - 1].parent == Some(p as usize) {
        Some(j - 1)
    } else {
        last_child_before(nodes, p, j - 1)
    }
}

/// The sibling listed just before node `e`.
pub open spec fn prev_sibling(nodes: Seq<SyntaxNode>, e: int) -> Option<int> {
    match parent_before(nodes, e) {
        Some(p) => last_child_before(nodes, p, e),
        None => None,
    }
}

/// The last list item in the subtree of node `x`, `x` included: the one
/// found in the last child that has one, else `x` itself if it is a list item.
pub open spec fn last_list_item(nodes: Seq<SyntaxNode>, x: int) -> Option<int>
    decreases nodes.len() - x, nodes.len() + 1,
{
    if 0 <= x < nodes.len() {
        match last_item_among(nodes, x, nodes.len() as int) {
            Some(f) => Some(f),
            None => if nodes[x].kind is ListItem {
                Some(x)
            } else {
                None
            },
        }
    } else {
        None
    }
}

/// The last list item in the subtrees of the children of `x` among
/// `nodes[x + 1..j]`, looking from the last child.
pub open spec fn last_item_among(nodes: Seq<SyntaxNode>, x: int, j: int) -> Option<int>
    decreases nodes.len() - x, j,
{
    if x < 0 || j <= x + 1 || j > nodes.len() {
        None
    } else if nodes[j - 1].parent == Some(x as usize) {
        match last_list_item(nodes, j - 1) {
            Some(f) => Some(f),
            None => last_item_among(nodes, x, j - 1),
        }
    } else {
        last_item_among(nodes, x, j - 1)
    }
}

/// The node whose containers make the cycle's context: `node`, or, when it
/// lies in an `ERROR` node, the last list item of the sibling before that.
pub open spec fn context_node(nodes: Seq<SyntaxNode>, node: int) -> int {
    match error_ancestor(nodes, node) {
        Some(e) => match prev_sibling(nodes, e) {
            Some(s) => match last_list_item(nodes, s) {
                Some(f) => f,
                None => node,
            },
            None => node,
        },
        None => node,
    }
}

/// The first of `cs[k..]` that is a block-quote marker.
pub open spec fn first_quote_marker(nodes: Seq<SyntaxNode>, cs: Seq<int>, k: int) -> Option<int>
    decreases cs.len() - k,
{
    if k < 0 || k >= cs.len() {
        None
    } else if nodes[cs[k]].kind is BlockQuoteMarker {
        Some(cs[k])
    } else {
        first_quote_marker(nodes, cs, k + 1)
    }
}

/// The text of block quote `q`'s marker, empty if it has none.
pub open spec fn quote_marker(nodes: Seq<SyntaxNode>, t: Seq<char>, q: int) -> Seq<char> {
    match first_quote_marker(nodes, children(nodes, q), 0) {
        Some(m) => clamped_slice(t, nodes[m].start_byte as int, nodes[m].end_byte as int),
        None => Seq::empty(),
    }
}

/// The markers of the block quotes from the outermost one around node `i`
/// down to `i`, in text order.
pub open spec fn quote_prefix(nodes: Seq<SyntaxNode>, t: Seq<char>, i: int) -> Seq<char>
    decreases i,
{
    if i < 0 || i >= nodes.len() {
        Seq::empty()
    } else {
        let up = match parent_before(nodes, i) {
            Some(p) => if 0 <= p < i {
                quote_prefix(nodes, t, p)
            } else {
                Seq::empty()
            },
            None => Seq::empty(),
        };
        up + if nodes[i].kind is BlockQuote {
            quote_marker(nodes, t, i)
        } else {
            Seq::empty()
        }
    }
}

/// The list items from node `i` up, innermost first.
pub open spec fn items_up(nodes: Seq<SyntaxNode>, i: int) -> Seq<int>
    decreases i,
{
    if i < 0 || i >= nodes.len() {
        Seq::empty()
    } else {
        (if nodes[i].kind is ListItem {
            seq![i]
        } else {
            Seq::empty()
        }) + match parent_before(nodes, i) {
            Some(p) => if 0 <= p < i {
                items_up(nodes, p)
            } else {
                Seq::empty()
            },
            None => Seq::empty(),
        }
    }
}

/// A list item's marker: where its list marker starts, its text, and
/// whether the list is ordered.
pub struct ItemMarker {
    pub start: int,
    pub text: Seq<char>,
    pub ordered: bool,
}

/// The marker read from the children `cs[..k]` of a list item: list markers
/// give their text and position, task-list markers their text and a space.
pub open spec fn item_marker(nodes: Seq<SyntaxNode>, t: Seq<char>, cs: Seq<int>, k: int) -> ItemMarker
    decreases k,
{
    if k <= 0 || k > cs.len() {
        ItemMarker { start: 0, text: Seq::empty(), ordered: false }
    } else {
        let m = item_marker(nodes, t, cs, k - 1);
        let c = nodes[cs[k - 1]];
        let text = clamped_slice(t, c.start_byte as int, c.end_byte as int);
        if c.kind is ListMarkerMinus || c.kind is ListMarkerPlus || c.kind is ListMarkerStar {
            ItemMarker { start: c.start_byte as int, text: m.text + text, ordered: m.ordered }
        } else if c.kind is ListMarkerDot || c.kind is ListMarkerParenthesis {
            ItemMarker { start: c.start_byte as int, text: m.text + text, ordered: true }
        } else if c.kind is TaskListMarkerChecked || c.kind is TaskListMarkerUnchecked {
            ItemMarker { start: m.start, text: m.text + text + seq![' '], ordered: m.ordered }
        } else {
            m
        }
    }
}

/// The column of byte `b` of `t`: its distance from the start of its line.
pub open spec fn column(t: Seq<char>, b: int) -> int {
    b - line_start_byte(t, line_of(t, b))
}

/// A nesting level of the cycle: the indent of its marker under the quote
/// prefix, the marker's text, and whether the list is ordered.
pub struct LevelV {
    pub indent: int,
    pub marker: Seq<char>,
    pub ordered: bool,
}

/// The level of a list item whose marker starts at column `col`, under a
/// quote prefix of `q` bytes.
pub open spec fn level_of(col: int, m: ItemMarker, q: int) -> LevelV {
    LevelV {
        indent: if col > q {
            col - q
        } else {
            0
        },
        marker: m.text,
        ordered: m.ordered,
    }
}

/// The levels of the list items `items[..k]` (innermost first) that have a
/// marker, outermost first, under a quote prefix of `q` bytes.
pub open spec fn outer_levels(
    nodes: Seq<SyntaxNode>,
    t: Seq<char>,
    items: Seq<int>,
    q: int,
    k: int,
) -> Seq<LevelV>
    decreases k,
{
    if k <= 0 || k > items.len() {
        Seq::empty()
    } else {
        let cs = children(nodes, items[k - 1]);
        let m = item_marker(nodes, t, cs, cs.len() as int);
        (if m.text.len() > 0 {
            seq![level_of(column(t, m.start), m, q)]
        } else {
            Seq::empty()
        }) + outer_levels(nodes, t, items, q, k - 1)
    }
}

/// `n` spaces.
pub open spec fn spaces(n: int) -> Seq<char> {
    Seq::new(n as nat, |i: int| ' ')
}

/// `n`, capped at the largest offset.
pub open spec fn capped(n: int) -> int {
    if n > usize::MAX {
        usize::MAX as int
    } else {
        n
    }
}

/// An ordered marker with its number one higher (wrapping at the largest
/// offset); a marker without leading digits unchanged.
pub open spec fn next_number_marker(m: Seq<char>) -> Seq<char> {
    let d = digits_prefix(m);
    if d.len() == 0 {
        m
    } else {
        let n = marker_number(m);
        decimal(
            if n == usize::MAX {
                0
            } else {
                n + 1
            },
        ) + m.skip(d.len() as int)
    }
}

/// An ordered marker numbered 1; a marker without leading digits unchanged.
pub open spec fn first_number_marker(m: Seq<char>) -> Seq<char> {
    let d = digits_prefix(m);
    if d.len() == 0 {
        m
    } else {
        seq!['1'] + m.skip(d.len() as int)
    }
}

/// The marker of a new sibling item at a level.
pub open spec fn sibling_marker(l: LevelV) -> Seq<char> {
    if l.ordered {
        next_number_marker(l.marker)
    } else {
        l.marker
    }
}

/// The marker of a new item nested under a level.
pub open spec fn nested_marker(l: LevelV) -> Seq<char> {
    if l.ordered {
        first_number_marker(l.marker)
    } else {
        l.marker
    }
}

/// The indent of a paragraph continuing an item at a level.
pub open spec fn para_indent(l: LevelV) -> int {
    capped(l.indent + byte_len(l.marker))
}

/// The states of the levels `levels[..k]`: for each, a sibling marker, then,
/// when paragraphs continue items, the paragraph indent.
pub open spec fn level_states(p: Seq<char>, levels: Seq<LevelV>, k: int, para: bool) -> Seq<Seq<char>>
    decreases k,
{
    if k <= 0 || k > levels.len() {
        Seq::empty()
    } else {
        let l = levels[k - 1];
        level_states(p, levels, k - 1, para) + seq![p + spaces(l.indent) + sibling_marker(l)] + if para {
            seq![p + spaces(para_indent(l))]
        } else {
            Seq::empty()
        }
    }
}

/// The cycle for a quote prefix `p` and list levels: the prefix alone (if
/// there is one), the states of each level, a marker nested under the
/// deepest level, and the empty prefix.
pub open spec fn states_for(p: Seq<char>, levels: Seq<LevelV>, para: bool) -> Seq<Seq<char>> {
    (if p.len() > 0 {
        seq![p]
    } else {
        Seq::empty()
    }) + level_states(p, levels, levels.len() as int, para) + (if levels.len() > 0 {
        seq![p + spaces(para_indent(levels.last())) + nested_marker(levels.last())]
    } else {
        Seq::empty()
    }) + seq![Seq::<char>::empty()]
}

/// The prefixes that Tab cycles the cursor's line through, for text `t` with
/// the parse `syntax`: found from the node at the byte before the line.
pub open spec fn cycle_states(t: Seq<char>, syntax: Option<Seq<SyntaxNode>>, cursor: int) -> Seq<
    Seq<char>,
> {
    match syntax {
        Some(nodes) => if nodes.len() > 0 {
            let line = line_of(t, cursor);
            let ls = line_start_byte(t, line);
            let node = descend(nodes, 0, if ls > 0 { ls - 1 } else { 0 });
            let ctx = context_node(nodes, node);
            let para = line > line_of(t, nodes[ctx].start_byte as int) + 1 || nodes[ctx].kind is ListItem;
            let p = quote_prefix(nodes, t, ctx);
            let items = items_up(nodes, ctx);
            states_for(p, outer_levels(nodes, t, items, byte_len(p), items.len() as int), para)
        } else {
            seq![Seq::<char>::empty()]
        },
        None => seq![Seq::<char>::empty()],
    }
}

/// A level with a marker, at an indent that is not negative.
pub open spec fn marked(l: LevelV) -> bool {
    l.marker.len() > 0 && l.indent >= 0
}

/// Every level of `outer_levels` has a marker.
proof fn lemma_outer_levels_marked(nodes: Seq<SyntaxNode>, t: Seq<char>, items: Seq<int>, q: int, k: int)
    ensures
        forall|i: int|
            0 <= i < outer_levels(nodes, t, items, q, k).len() ==> marked(
                #[trigger] outer_levels(nodes, t, items, q, k)[i],
            ),
    decreases k,
{
    if !(k <= 0 || k > items.len()) {
        lemma_outer_levels_marked(nodes, t, items, q, k - 1);
        let cs = children(nodes, items[k - 1]);
        let m = item_marker(nodes, t, cs, cs.len() as int);
        let head = if m.text.len() > 0 {
            seq![level_of(column(t, m.start), m, q)]
        } else {
            Seq::empty()
        };
        let rest = outer_levels(nodes, t, items, q, k - 1);
        let all = outer_levels(nodes, t, items, q, k);
        assert(all == head + rest);
        assert forall|i: int| 0 <= i < all.len() implies marked(#[trigger] all[i]) by {
            if i < head.len() {
                assert(all[i] == head[i]);
            } else {
                assert(all[i] == rest[i - head.len()]);
            }
        }
    }
}

/// A marker renumbered for a sibling or a nested item is not empty.
proof fn lemma_markers_nonempty(l: LevelV)
    requires
        marked(l),
    ensures
        sibling_marker(l).len() > 0,
        nested_marker(l).len() > 0,
        para_indent(l) > 0,
{
    crate::rope::lemma_len_le_byte_len(l.marker);
    let n = marker_number(l.marker);
    let m = if n == usize::MAX {
        0nat
    } else {
        (n + 1) as nat
    };
    assert(decimal(m).len() > 0) by {
        reveal_with_fuel(decimal, 1);
    }
}

/// Every state of `level_states` puts something on the line.
proof fn lemma_level_states_nonempty(p: Seq<char>, levels: Seq<LevelV>, k: int, para: bool)
    requires
        forall|i: int| 0 <= i < levels.len() ==> marked(#[trigger] levels[i]),
    ensures
        forall|i: int|
            0 <= i < level_states(p, levels, k, para).len() ==> #[trigger] level_states(
                p,
                levels,
                k,
                para,
            )[i].len() > 0,
    decreases k,
{
    if !(k <= 0 || k > levels.len()) {
        let l = levels[k - 1];
        lemma_level_states_nonempty(p, levels, k - 1, para);
        lemma_markers_nonempty(l);
        let prev = level_states(p, levels, k - 1, para);
        let sib = p + spaces(l.indent) + sibling_marker(l);
        let tail = if para {
            seq![p + spaces(para_indent(l))]
        } else {
            Seq::empty()
        };
        let all = level_states(p, levels, k, para);
        assert(all == prev + seq![sib] + tail);
        assert forall|i: int| 0 <= i < all.len() implies #[trigger] all[i].len() > 0 by {
            if i < prev.len() {
                assert(all[i] == prev[i]);
            } else if i == prev.len() {
                assert(all[i] == sib);
            } else {
                assert(all[i] == tail[0]);
            }
        }
    }
}

/// Every cycle ends with the empty prefix, and each state before it puts
/// something on the line.
pub proof fn lemma_cycle_states_shape(t: Seq<char>, syntax: Option<Seq<SyntaxNode>>, cursor: int)
    ensures
        cycle_states(t, syntax, cursor).len() >= 1,
        cycle_states(t, syntax, cursor).last() == Seq::<char>::empty(),
        forall|i: int|
            0 <= i < cycle_states(t, syntax, cursor).len() - 1 ==> #[trigger] cycle_states(
                t,
                syntax,
                cursor,
            )[i].len() > 0,
{
    match syntax {
        Some(nodes) => if nodes.len() > 0 {
            let line = line_of(t, cursor);
            let ls = line_start_byte(t, line);
            let node = descend(nodes, 0, if ls > 0 { ls - 1 } else { 0 });
            let ctx = context_node(nodes, node);
            let para = line > line_of(t, nodes[ctx].start_byte as int) + 1 || nodes[ctx].kind is ListItem;
            let p = quote_prefix(nodes, t, ctx);
            let items = items_up(nodes, ctx);
            let levels = outer_levels(nodes, t, items, byte_len(p), items.len() as int);
            lemma_outer_levels_marked(nodes, t, items, byte_len(p), items.len() as int);
            lemma_level_states_nonempty(p, levels, levels.len() as int, para);
            let head = if p.len() > 0 {
                seq![p]
            } else {
                Seq::empty()
            };
            let mid = level_states(p, levels, levels.len() as int, para);
            let nest = if levels.len() > 0 {
                seq![p + spaces(para_indent(levels.last())) + nested_marker(levels.last())]
            } else {
                Seq::empty()
            };
            if levels.len() > 0 {
                lemma_markers_nonempty(levels.last());
            }
            let all = cycle_states(t, syntax, cursor);
            assert(all == head + mid + nest + seq![Seq::<char>::empty()]);
            assert forall|i: int| 0 <= i < all.len() - 1 implies #[trigger] all[i].len() > 0 by {
                if i < head.len() {
                    assert(all[i] == head[i]);
                } else if i < head.len() + mid.len() {
                    assert(all[i] == mid[i - head.len()]);
                } else {
                    assert(all[i] == nest[i - head.len() - mid.len()]);
                }
            }
        },
        None => {},
    }
}

/// The parent of node `i`, where it is listed before `i`.
pub(crate) fn parent_of(nodes: &[SyntaxNode], i: usize) -> (r: Option<usize>)
    requires
        i < nodes@.len(),
    ensures
        as_index(r) == parent_before(nodes@, i as int),
        r matches Some(p) ==> p < i,
{
    match nodes[i].parent {
        Some(p) => if p < i {
            Some(p)
        } else {
            None
        },
        None => None,
    }
}

/// The first child of `p` listed after it whose range ends after byte `a`.
fn find_child_ending_after(nodes: &[SyntaxNode], p: usize, a: usize) -> (r: Option<usize>)
    requires
        p < nodes@.len(),
    ensures
        as_index(r) == child_ending_after(nodes@, p as int, a as int, p + 1),
        r matches Some(c) ==> p < c < nodes@.len(),
{
    let n = nodes.len();
    let mut j = p + 1;
    while j < n
        invariant
            n == nodes@.len(),
            p < j <= nodes@.len(),
            child_ending_after(nodes@, p as int, a as int, p + 1) == child_ending_after(
                nodes@,
                p as int,
                a as int,
                j as int,
            ),
        decreases nodes@.len() - j,
    {
        if nodes[j].parent == Some(p) && nodes[j].end_byte > a {
            return Some(j);
        }
        j += 1;
    }
    None
}

/// The smallest node at byte `a`, found down from the first node.
pub(crate) fn descend_at(nodes: &[SyntaxNode], a: usize) -> (r: usize)
    requires
        nodes@.len() > 0,
    ensures
        r == descend(nodes@, 0, a as int),
        r < nodes@.len(),
{
    let mut cur: usize = 0;
    loop
        invariant
            cur < nodes@.len(),
            descend(nodes@, 0, a as int) == descend(nodes@, cur as int, a as int),
        decreases nodes@.len() - cur,
    {
        match find_child_ending_after(nodes, cur, a) {
            Some(c) => {
                if nodes[c].start_byte <= a {
                    cur = c;
                } else {
                    return cur;
                }
            },
            None => {
                return cur;
            },
        }
    }
}

/// The nearest `ERROR` node from node `i` up.
fn find_error_ancestor(nodes: &[SyntaxNode], i: usize) -> (r: Option<usize>)
    requires
        i < nodes@.len(),
    ensures
        as_index(r) == error_ancestor(nodes@, i as int),
        r matches Some(e) ==> e < nodes@.len(),
{
    let mut cur = i;
    loop
        invariant
            cur < nodes@.len(),
            error_ancestor(nodes@, i as int) == error_ancestor(nodes@, cur as int),
        decreases cur,
    {
        if matches!(nodes[cur].kind, NodeKind::Error) {
            return Some(cur);
        }
        match parent_of(nodes, cur) {
            Some(p) => {
                cur = p;
            },
            None => {
                return None;
            },
        }
    }
}

/// The sibling listed just before node `e`.
pub(crate) fn find_prev_sibling(nodes: &[SyntaxNode], e: usize) -> (r: Option<usize>)
    requires
        e < nodes@.len(),
    ensures
        as_index(r) == prev_sibling(nodes@, e as int),
        r matches Some(s) ==> s < nodes@.len(),
{
    match parent_of(nodes, e) {
        None => None,
        Some(p) => {
            let mut j = e;
            while j > p + 1
                invariant
                    p < e < nodes@.len(),
                    parent_before(nodes@, e as int) == Some(p as int),
                    p + 1 <= j <= e,
                    last_child_before(nodes@, p as int, e as int) == last_child_before(
                        nodes@,
                        p as int,
                        j as int,
                    ),
                decreases j,
            {
                if nodes[j - 1].parent == Some(p) {
                    return Some(j - 1);
                }
                j -= 1;
            }
            None
        },
    }
}

/// The last list item in the subtree of node `x`.
fn find_last_list_item(nodes: &[SyntaxNode], x: usize) -> (r: Option<usize>)
    requires
        x < nodes@.len(),
    ensures
        as_index(r) == last_list_item(nodes@, x as int),
        r matches Some(f) ==> f < nodes@.len(),
    decreases nodes@.len() - x, nodes@.len() + 1,
{
    match last_item_in_children(nodes, x, nodes.len()) {
        Some(f) => Some(f),
        None => if matches!(nodes[x].kind, NodeKind::ListItem) {
            Some(x)
        } else {
            None
        },
    }
}

/// The last list item in the subtrees of the children of `x` listed before
/// `nodes[j]`, looking from the last child.
fn last_item_in_children(nodes: &[SyntaxNode], x: usize, j: usize) -> (r: Option<usize>)
    requires
        x < nodes@.len(),
        j <= nodes@.len(),
    ensures
        as_index(r) == last_item_among(nodes@, x as int, j as int),
        r matches Some(f) ==> f < nodes@.len(),
    decreases nodes@.len() - x, j,
{
    let n = nodes.len();
    let mut k = j;
    while k > x + 1
        invariant
            n == nodes@.len(),
            x < nodes@.len(),
            k <= j <= nodes@.len(),
            last_item_among(nodes@, x as int, j as int) == last_item_among(nodes@, x as int, k as int),
        decreases k,
    {
        if nodes[k - 1].parent == Some(x) {
            match find_last_list_item(nodes, k - 1) {
                Some(f) => {
                    return Some(f);
                },
                None => {},
            }
        }
        k -= 1;
    }
    None
}

/// The node whose containers make the cycle's context.
fn find_context(nodes: &[SyntaxNode], node: usize) -> (r: usize)
    requires
        node < nodes@.len(),
    ensures
        r == context_node(nodes@, node as int),
        r < nodes@.len(),
{
    match find_error_ancestor(nodes, node) {
        Some(e) => match find_prev_sibling(nodes, e) {
            Some(s) => match find_last_list_item(nodes, s) {
                Some(f) => f,
                None => node,
            },
            None => node,
        },
        None => node,
    }
}

/// The text of block quote `q`'s marker.
fn quote_marker_text(content: &BufferContent, nodes: &[SyntaxNode], q: usize) -> (s: String)
    requires
        q < nodes@.len(),
    ensures
        s@ == quote_marker(nodes@, content@, q as int),
{
    let cs = child_indices(nodes, q);
    let ghost kids = children(nodes@, q as int);
    let mut k: usize = 0;
    while k < cs.len()
        invariant
            k <= cs@.len(),
            kids == children(nodes@, q as int),
            cs@.map_values(|k: usize| k as int) == kids,
            forall|i: int| 0 <= i < cs@.len() ==> (#[trigger] cs@[i]) < nodes@.len(),
            first_quote_marker(nodes@, kids, 0) == first_quote_marker(nodes@, kids, k as int),
        decreases cs@.len() - k,
    {
        let c = cs[k];
        assert(kids[k as int] == c as int);
        if matches!(nodes[c].kind, NodeKind::BlockQuoteMarker) {
            return content.slice_cow(nodes[c].start_byte..nodes[c].end_byte);
        }
        k += 1;
    }
    String::new()
}

/// The quote prefix from an optional node up.
pub open spec fn quote_prefix_from(nodes: Seq<SyntaxNode>, t: Seq<char>, o: Option<int>) -> Seq<char> {
    match o {
        Some(i) => quote_prefix(nodes, t, i),
        None => Seq::empty(),
    }
}

/// The list items from an optional node up.
pub open spec fn items_from(nodes: Seq<SyntaxNode>, o: Option<int>) -> Seq<int> {
    match o {
        Some(i) => items_up(nodes, i),
        None => Seq::empty(),
    }
}

/// The quote prefix around node `ctx` and the list items from it up,
/// innermost first.
fn containers_up(content: &BufferContent, nodes: &[SyntaxNode], ctx: usize) -> (r: (String, Vec<usize>))
    requires
        ctx < nodes@.len(),
    ensures
        r.0@ == quote_prefix(nodes@, content@, ctx as int),
        r.1@.map_values(|k: usize| k as int) == items_up(nodes@, ctx as int),
        forall|i: int| 0 <= i < r.1@.len() ==> (#[trigger] r.1@[i]) < nodes@.len(),
{
    let ghost t = content@;
    let mut prefix = String::new();
    let mut items: Vec<usize> = Vec::new();
    let mut cur: Option<usize> = Some(ctx);
    loop
        invariant
            t == content@,
            cur matches Some(i) ==> i < nodes@.len(),
            quote_prefix(nodes@, t, ctx as int) == quote_prefix_from(nodes@, t, as_index(cur)) + prefix@,
            items_up(nodes@, ctx as int) == items@.map_values(|k: usize| k as int) + items_from(
                nodes@,
                as_index(cur),
            ),
            forall|i: int| 0 <= i < items@.len() ==> (#[trigger] items@[i]) < nodes@.len(),
        decreases match cur {
            Some(i) => i + 1,
            None => 0,
        },
    {
        match cur {
            None => {
                assert(quote_prefix_from(nodes@, t, None) + prefix@ =~= prefix@);
                assert(items@.map_values(|k: usize| k as int) + items_from(nodes@, None) =~= items@.map_values(
                    |k: usize| k as int,
                ));
                return (prefix, items);
            },
            Some(i) => {
                let ghost old_prefix = prefix@;
                let ghost old_items = items@.map_values(|k: usize| k as int);
                let up = parent_of(nodes, i);
                if matches!(nodes[i].kind, NodeKind::BlockQuote) {
                    let m = quote_marker_text(content, nodes, i);
                    let mut np = m;
                    string_push_str(&mut np, prefix.as_str());
                    prefix = np;
                    assert(quote_prefix_from(nodes@, t, as_index(up)) + prefix@ =~= quote_prefix_from(
                        nodes@,
                        t,
                        as_index(up),
                    ) + quote_marker(nodes@, t, i as int) + old_prefix);
                } else {
                    if matches!(nodes[i].kind, NodeKind::ListItem) {
                        items.push(i);
                        assert(items@.map_values(|k: usize| k as int) =~= old_items + seq![i as int]);
                        assert(old_items + seq![i as int] + items_from(nodes@, as_index(up)) =~= old_items + (
                        seq![i as int] + items_from(nodes@, as_index(up))));
                    } else {
                        assert(Seq::<int>::empty() + items_from(nodes@, as_index(up)) =~= items_from(
                            nodes@,
                            as_index(up),
                        ));
                    }
                    assert(quote_prefix_from(nodes@, t, as_index(up)) + Seq::<char>::empty() =~= quote_prefix_from(
                        nodes@,
                        t,
                        as_index(up),
                    ));
                }
                cur = up;
            },
        }
    }
}

/// The marker of list item `item`, read from its children.
fn item_marker_of(content: &BufferContent, nodes: &[SyntaxNode], item: usize) -> (r: (
    usize,
    String,
    bool,
))
    requires
        item < nodes@.len(),
        ranges_within(nodes@, byte_len(content@)),
    ensures
        ({
            let cs = children(nodes@, item as int);
            let m = item_marker(nodes@, content@, cs, cs.len() as int);
            r.0 == m.start && r.1@ == m.text && r.2 == m.ordered
        }),
        r.0 <= byte_len(content@),
{
    let cs = child_indices(nodes, item);
    let ghost kids = children(nodes@, item as int);
    let ghost t = content@;
    let mut start: usize = 0;
    let mut text = String::new();
    let mut ordered = false;
    let mut k: usize = 0;
    while k < cs.len()
        invariant
            t == content@,
            k <= cs@.len(),
            kids == children(nodes@, item as int),
            cs@.map_values(|k: usize| k as int) == kids,
            forall|i: int| 0 <= i < cs@.len() ==> (#[trigger] cs@[i]) < nodes@.len(),
            ranges_within(nodes@, byte_len(t)),
            start <= byte_len(t),
            ({
                let m = item_marker(nodes@, t, kids, k as int);
                start == m.start && text@ == m.text && ordered == m.ordered
            }),
        decreases cs@.len() - k,
    {
        let c = cs[k];
        assert(kids[k as int] == c as int);
        let node = &nodes[c];
        match node.kind {
            NodeKind::ListMarkerMinus | NodeKind::ListMarkerPlus | NodeKind::ListMarkerStar => {
                start = node.start_byte;
                let piece = content.slice_cow(node.start_byte..node.end_byte);
                string_push_str(&mut text, piece.as_str());
            },
            NodeKind::ListMarkerDot | NodeKind::ListMarkerParenthesis => {
                start = node.start_byte;
                let piece = content.slice_cow(node.start_byte..node.end_byte);
                string_push_str(&mut text, piece.as_str());
                ordered = true;
            },
            NodeKind::TaskListMarkerChecked | NodeKind::TaskListMarkerUnchecked => {
                let piece = content.slice_cow(node.start_byte..node.end_byte);
                string_push_str(&mut text, piece.as_str());
                string_push(&mut text, ' ');
                assert(text@ =~= item_marker(nodes@, t, kids, k as int).text + piece@ + seq![' ']);
            },
            _ => {},
        }
        k += 1;
    }
    assert(cs@.len() == kids.len());
    (start, text, ordered)
}

/// The view of a level.
pub open spec fn level_view(l: (usize, String, bool)) -> LevelV {
    LevelV { indent: l.0 as int, marker: l.1@, ordered: l.2 }
}

/// The levels of the list items `items` (innermost first) that have a
/// marker, outermost first, under a quote prefix of `q` bytes.
fn levels_of(content: &BufferContent, nodes: &[SyntaxNode], items: &Vec<usize>, q: usize) -> (r: Vec<
    (usize, String, bool),
>)
    requires
        forall|i: int| 0 <= i < items@.len() ==> (#[trigger] items@[i]) < nodes@.len(),
        ranges_within(nodes@, byte_len(content@)),
    ensures
        r@.map_values(|l: (usize, String, bool)| level_view(l)) == outer_levels(
            nodes@,
            content@,
            items@.map_values(|k: usize| k as int),
            q as int,
            items@.len() as int,
        ),
{
    let ghost t = content@;
    let ghost its = items@.map_values(|k: usize| k as int);
    let mut levels: Vec<(usize, String, bool)> = Vec::new();
    let mut k: usize = 0;
    while k < items.len()
        invariant
            t == content@,
            k <= items@.len(),
            its == items@.map_values(|k: usize| k as int),
            forall|i: int| 0 <= i < items@.len() ==> (#[trigger] items@[i]) < nodes@.len(),
            ranges_within(nodes@, byte_len(t)),
            levels@.map_values(|l: (usize, String, bool)| level_view(l)) == outer_levels(
                nodes@,
                t,
                its,
                q as int,
                k as int,
            ),
        decreases items@.len() - k,
    {
        let item = items[k];
        assert(its[k as int] == item as int);
        let (start, marker, ordered) = item_marker_of(content, nodes, item);
        let ghost old_levels = levels@.map_values(|l: (usize, String, bool)| level_view(l));
        if marker.as_str().unicode_len() > 0 {
            proof {
                crate::cursor::lemma_line_of(t, start as int);
            }
            let line = content.byte_to_line(start);
            let ls = content.line_to_byte(line);
            let col = start - ls;
            let indent = if col > q {
                col - q
            } else {
                0
            };
            levels.insert(0, (indent, marker, ordered));
            assert(levels@.map_values(|l: (usize, String, bool)| level_view(l)) =~= seq![
                level_of(column(t, start as int), item_marker(nodes@, t, children(nodes@, item as int), children(nodes@, item as int).len() as int), q as int),
            ] + old_levels);
        } else {
            assert(Seq::<LevelV>::empty() + old_levels =~= old_levels);
        }
        k += 1;
    }
    levels
}

/// `n` spaces, as a string.
fn spaces_string(n: usize) -> (s: String)
    ensures
        s@ == spaces(n as int),
{
    let mut s = String::new();
    let mut i: usize = 0;
    while i < n
        invariant
            i <= n,
            s@ == spaces(i as int),
        decreases n - i,
    {
        string_push(&mut s, ' ');
        assert(s@ =~= spaces(i + 1));
        i += 1;
    }
    s
}

/// The number of leading decimal digits of `cs`.
fn digit_count(cs: &Vec<char>) -> (k: usize)
    ensures
        k == digits_prefix(cs@).len(),
        k <= cs@.len(),
{
    proof {
        lemma_digits_prefix(cs@);
    }
    let mut k: usize = 0;
    while k < cs.len() && '0' <= cs[k] && cs[k] <= '9'
        invariant
            k <= digits_prefix(cs@).len() <= cs@.len(),
            forall|i: int| 0 <= i < digits_prefix(cs@).len() ==> is_digit(#[trigger] cs@[i]),
            digits_prefix(cs@).len() < cs@.len() ==> !is_digit(cs@[digits_prefix(cs@).len() as int]),
        decreases cs@.len() - k,
    {
        k += 1;
    }
    k
}

/// An ordered marker with its number one higher.
fn next_number_marker_string(m: &str) -> (r: String)
    ensures
        r@ == next_number_marker(m@),
{
    let cs = chars_of(m);
    let k = digit_count(&cs);
    if k == 0 {
        return string_from_chars(&cs);
    }
    let n = parse_marker_number(m);
    let next = if n == usize::MAX {
        0
    } else {
        n + 1
    };
    let mut s = decimal_string(next);
    let rest = sub_chars(&cs, k, cs.len());
    let rest_s = string_from_chars(&rest);
    string_push_str(&mut s, rest_s.as_str());
    assert(rest@ =~= m@.skip(k as int));
    s
}

/// An ordered marker numbered 1.
fn first_number_marker_string(m: &str) -> (r: String)
    ensures
        r@ == first_number_marker(m@),
{
    let cs = chars_of(m);
    let k = digit_count(&cs);
    if k == 0 {
        return string_from_chars(&cs);
    }
    let mut s = String::new();
    string_push(&mut s, '1');
    let rest = sub_chars(&cs, k, cs.len());
    let rest_s = string_from_chars(&rest);
    string_push_str(&mut s, rest_s.as_str());
    assert(rest@ =~= m@.skip(k as int));
    assert(s@ =~= seq!['1'] + m@.skip(k as int));
    s
}

/// A copy of `s`.
fn copy_string(s: &str) -> (r: String)
    ensures
        r@ == s@,
{
    let mut r = String::new();
    string_push_str(&mut r, s);
    r
}

/// The state `p`, then `n` spaces, then `m`.
fn state_string(p: &str, n: usize, m: &str) -> (r: String)
    ensures
        r@ == p@ + spaces(n as int) + m@,
{
    let mut r = copy_string(p);
    let sp = spaces_string(n);
    string_push_str(&mut r, sp.as_str());
    string_push_str(&mut r, m);
    r
}

/// The indent of a paragraph continuing an item at the level
/// `(indent, marker, ordered)`.
fn para_indent_of(indent: usize, marker: &str) -> (n: usize)
    ensures
        n == capped(indent + byte_len(marker@)),
{
    let len = marker.as_bytes().len();
    if indent > usize::MAX - len {
        usize::MAX
    } else {
        indent + len
    }
}

/// The cycle for quote prefix `p` and the list levels, outermost first.
fn states_of(p: &str, levels: &Vec<(usize, String, bool)>, para: bool) -> (r: Vec<String>)
    ensures
        r@.map_values(|s: String| s@) == states_for(
            p@,
            levels@.map_values(|l: (usize, String, bool)| level_view(l)),
            para,
        ),
{
    let ghost lv = levels@.map_values(|l: (usize, String, bool)| level_view(l));
    let ghost head: Seq<Seq<char>> = if p@.len() > 0 {
        seq![p@]
    } else {
        Seq::empty()
    };
    let mut states: Vec<String> = Vec::new();
    if p.unicode_len() > 0 {
        states.push(copy_string(p));
    }
    assert(states@.map_values(|s: String| s@) =~= head + level_states(p@, lv, 0, para));
    let mut k: usize = 0;
    while k < levels.len()
        invariant
            k <= levels@.len(),
            lv == levels@.map_values(|l: (usize, String, bool)| level_view(l)),
            head == (if p@.len() > 0 {
                seq![p@]
            } else {
                Seq::<Seq<char>>::empty()
            }),
            states@.map_values(|s: String| s@) == head + level_states(p@, lv, k as int, para),
        decreases levels@.len() - k,
    {
        let ghost before = states@.map_values(|s: String| s@);
        let level = &levels[k];
        assert(lv[k as int] == level_view(*level));
        let sib = if level.2 {
            next_number_marker_string(level.1.as_str())
        } else {
            copy_string(level.1.as_str())
        };
        states.push(state_string(p, level.0, sib.as_str()));
        if para {
            let w = para_indent_of(level.0, level.1.as_str());
            states.push(state_string(p, w, ""));
            proof {
                reveal_strlit("");
            }
            assert(states@.map_values(|s: String| s@) =~= before + seq![
                p@ + spaces(lv[k as int].indent) + sibling_marker(lv[k as int]),
            ] + seq![p@ + spaces(para_indent(lv[k as int]))]);
        } else {
            assert(states@.map_values(|s: String| s@) =~= before + seq![
                p@ + spaces(lv[k as int].indent) + sibling_marker(lv[k as int]),
            ] + Seq::<Seq<char>>::empty());
        }
        k += 1;
    }
    let ghost mid = states@.map_values(|s: String| s@);
    if levels.len() > 0 {
        let last = &levels[levels.len() - 1];
        assert(lv.last() == level_view(*last));
        let nested = if last.2 {
            first_number_marker_string(last.1.as_str())
        } else {
            copy_string(last.1.as_str())
        };
        let w = para_indent_of(last.0, last.1.as_str());
        states.push(state_string(p, w, nested.as_str()));
    }
    let ghost tail: Seq<Seq<char>> = if lv.len() > 0 {
        seq![p@ + spaces(para_indent(lv.last())) + nested_marker(lv.last())]
    } else {
        Seq::empty()
    };
    assert(states@.map_values(|s: String| s@) =~= mid + tail);
    states.push(String::new());
    assert(states@.map_values(|s: String| s@) =~= mid + tail + seq![Seq::<char>::empty()]);
    states
}

/// The prefixes that Tab cycles the cursor's line through, found from the
/// parse of the text (see `cycle_states`).
pub fn cycle_states_at(content: &BufferContent, cursor: usize) -> (r: Vec<String>)
    requires
        content.wf(),
        cursor <= byte_len(content@),
    ensures
        r@.map_values(|s: String| s@) == cycle_states(content@, content.syntax(), cursor as int),
        r@.len() >= 1,
        r@.last()@ == Seq::<char>::empty(),
        forall|i: int| 0 <= i < r@.len() - 1 ==> (#[trigger] r@[i])@.len() > 0,
{
    let r = cycle_states_of(content, cursor);
    proof {
        lemma_cycle_states_shape(content@, content.syntax(), cursor as int);
        let m = r@.map_values(|s: String| s@);
        assert(m.len() == r@.len());
        assert(r@.last()@ == m[m.len() - 1]);
        assert forall|i: int| 0 <= i < r@.len() - 1 implies (#[trigger] r@[i])@.len() > 0 by {
            assert(r@[i]@ == m[i]);
        }
    }
    r
}

/// The states of `cycle_states`, computed from the parse.
fn cycle_states_of(content: &BufferContent, cursor: usize) -> (r: Vec<String>)
    requires
        content.wf(),
        cursor <= byte_len(content@),
    ensures
        r@.map_values(|s: String| s@) == cycle_states(content@, content.syntax(), cursor as int),
{
    let ghost t = content@;
    proof {
        content.lemma_syntax_fits();
    }
    let nodes = match content.tree() {
        Some(v) => v,
        None => {
            let mut r: Vec<String> = Vec::new();
            r.push(String::new());
            assert(r@.map_values(|s: String| s@) =~= seq![Seq::<char>::empty()]);
            return r;
        },
    };
    if nodes.len() == 0 {
        let mut r: Vec<String> = Vec::new();
        r.push(String::new());
        assert(r@.map_values(|s: String| s@) =~= seq![Seq::<char>::empty()]);
        return r;
    }
    proof {
        crate::cursor::lemma_line_of(t, cursor as int);
    }
    let line = content.byte_to_line(cursor);
    let ls = content.line_to_byte(line);
    let lookup = if ls > 0 {
        ls - 1
    } else {
        0
    };
    let node = descend_at(nodes.as_slice(), lookup);
    let ctx = find_context(nodes.as_slice(), node);
    let ctx_line = content.byte_to_line(nodes[ctx].start_byte);
    let para = (line > ctx_line && line - ctx_line > 1) || matches!(nodes[ctx].kind, NodeKind::ListItem);
    let (prefix, items) = containers_up(content, nodes.as_slice(), ctx);
    let q = prefix.as_str().as_bytes().len();
    let levels = levels_of(content, nodes.as_slice(), &items, q);
    states_of(prefix.as_str(), &levels, para)
}

} // verus!
