//! What the status bar shows: the context markers of the cursor's line, with
//! the depth that colours each, and where the view is in the document.

use vstd::prelude::*;

use crate::renumber::{decimal, decimal_string};
use crate::text::{string_push, string_push_str};

verus! {

broadcast use vstd::string::group_string_axioms;

/// Unordered list marker character for status bar display.
#[derive(Clone, Copy, Debug, PartialEq)]
pub enum UnorderedListMarker {
    Minus,
    Star,
    Plus,
}

/// Ordered list marker style for status bar display.
#[derive(Clone, Copy, Debug, PartialEq)]
pub enum OrderedListStyle {
    Dot,
    Parenthesis,
}

/// A single context marker for the status bar.
#[derive(Clone, Debug)]
pub enum ContextMarker {
    BlockQuote,
    UnorderedList(UnorderedListMarker),
    OrderedList { number: u32, style: OrderedListStyle },
    CheckboxUnchecked,
    CheckboxChecked,
    /// A code block, with its language.
    CodeBlock(Option<String>),
}

/// The text of a context marker.
pub open spec fn marker_str(m: ContextMarker) -> Seq<char> {
    match m {
        ContextMarker::BlockQuote => seq!['>'],
        ContextMarker::UnorderedList(k) => match k {
            UnorderedListMarker::Minus => seq!['-'],
            UnorderedListMarker::Star => seq!['*'],
            UnorderedListMarker::Plus => seq!['+'],
        },
        ContextMarker::OrderedList { number, style } => decimal(number as nat) + match style {
            OrderedListStyle::Dot => seq!['.'],
            OrderedListStyle::Parenthesis => seq![')'],
        },
        ContextMarker::CheckboxUnchecked => seq!['[', ' ', ']'],
        ContextMarker::CheckboxChecked => seq!['[', 'x', ']'],
        ContextMarker::CodeBlock(lang) => seq!['`', '`', '`'] + match lang {
            Some(l) => l@,
            None => Seq::<char>::empty(),
        },
    }
}

impl ContextMarker {
    /// Convert marker to its string representation.
    pub fn as_str(&self) -> (s: String)
        ensures
            s@ == marker_str(*self),
    {
        let mut s = String::new();
        match self {
            ContextMarker::BlockQuote => string_push(&mut s, '>'),
            ContextMarker::UnorderedList(marker) => match marker {
                UnorderedListMarker::Minus => string_push(&mut s, '-'),
                UnorderedListMarker::Star => string_push(&mut s, '*'),
                UnorderedListMarker::Plus => string_push(&mut s, '+'),
            },
            ContextMarker::OrderedList { number, style } => {
                s = decimal_string(*number as usize);
                match style {
                    OrderedListStyle::Dot => string_push(&mut s, '.'),
                    OrderedListStyle::Parenthesis => string_push(&mut s, ')'),
                }
            },
            ContextMarker::CheckboxUnchecked => {
                string_push(&mut s, '[');
                string_push(&mut s, ' ');
                string_push(&mut s, ']');
            },
            ContextMarker::CheckboxChecked => {
                string_push(&mut s, '[');
                string_push(&mut s, 'x');
                string_push(&mut s, ']');
            },
            ContextMarker::CodeBlock(lang) => {
                string_push(&mut s, '`');
                string_push(&mut s, '`');
                string_push(&mut s, '`');
                match lang {
                    Some(l) => string_push_str(&mut s, l.as_str()),
                    None => {},
                }
            },
        }
        assert(s@ =~= marker_str(*self));
        s
    }
}

/// Status bar information updated by the editor on each render.
#[derive(Clone, Default)]
pub struct StatusBarInfo {
    /// Context markers for the current line
    pub context_markers: Vec<ContextMarker>,
    /// Current heading level (1-6), if cursor is under a heading
    pub heading_level: Option<u8>,
    /// Cursor line (1-indexed)
    pub cursor_line: usize,
    /// Cursor column (1-indexed)
    pub cursor_col: usize,
    /// Total number of lines in the document
    pub total_lines: usize,
    /// First visible line (0-indexed), for scroll percentage
    pub first_visible_line: usize,
    /// Last visible line (0-indexed), for scroll percentage
    pub last_visible_line: usize,
}

/// A list marker (ordered or not).
pub open spec fn is_list_marker(m: ContextMarker) -> bool {
    m is UnorderedList || m is OrderedList
}

/// A marker that opens a level: a quote, a list or a code block.
pub open spec fn is_level_marker(m: ContextMarker) -> bool {
    m is BlockQuote || m is UnorderedList || m is OrderedList || m is CodeBlock
}

/// A task-list checkbox.
pub open spec fn is_checkbox(m: ContextMarker) -> bool {
    m is CheckboxUnchecked || m is CheckboxChecked
}

/// The display of the markers read so far: its entries (text and depth),
/// the current depth, and whether the last marker shown was a checkbox.
pub struct DisplayV {
    pub entries: Seq<(Seq<char>, int)>,
    pub depth: int,
    pub prev_checkbox: bool,
}

/// The display of `ms[..k]`. Each quote, list or code block after the first
/// marker goes one level deeper; a list marker right after a checkbox is
/// not shown (its level still counts), and the checkbox after it shows
/// compacted, as ` ]` or `x]`.
pub open spec fn display_upto(ms: Seq<ContextMarker>, k: int) -> DisplayV
    decreases k,
{
    if k <= 0 || k > ms.len() {
        DisplayV { entries: Seq::empty(), depth: 0, prev_checkbox: false }
    } else {
        let s = display_upto(ms, k - 1);
        let m = ms[k - 1];
        if is_list_marker(m) && s.prev_checkbox {
            DisplayV {
                entries: s.entries,
                depth: if k - 1 > 0 {
                    s.depth + 1
                } else {
                    s.depth
                },
                prev_checkbox: s.prev_checkbox,
            }
        } else {
            let d = if k - 1 > 0 && is_level_marker(m) {
                s.depth + 1
            } else {
                s.depth
            };
            let text = if s.prev_checkbox && m is CheckboxUnchecked {
                seq![' ', ']']
            } else if s.prev_checkbox && m is CheckboxChecked {
                seq!['x', ']']
            } else {
                marker_str(m)
            };
            DisplayV { entries: s.entries.push((text, d)), depth: d, prev_checkbox: is_checkbox(m) }
        }
    }
}

/// The view of a display entry.
pub open spec fn entry_view(e: (String, usize)) -> (Seq<char>, int) {
    (e.0@, e.1 as int)
}

/// Build the display string for context markers, handling nested checkbox compaction.
/// Returns a vector of (display_string, depth) tuples for testing/inspection.
pub fn build_context_display(markers: &[ContextMarker]) -> (r: Vec<(String, usize)>)
    ensures
        r@.map_values(|e: (String, usize)| entry_view(e)) == display_upto(
            markers@,
            markers@.len() as int,
        ).entries,
{
    let mut result: Vec<(String, usize)> = Vec::new();
    let mut depth: usize = 0;
    let mut prev_was_checkbox = false;
    let mut i: usize = 0;
    while i < markers.len()
        invariant
            i <= markers@.len(),
            depth <= i,
            ({
                let s = display_upto(markers@, i as int);
                &&& result@.map_values(|e: (String, usize)| entry_view(e)) == s.entries
                &&& depth == s.depth
                &&& prev_was_checkbox == s.prev_checkbox
            }),
        decreases markers@.len() - i,
    {
        let marker = &markers[i];
        let is_list_marker = match marker {
            ContextMarker::UnorderedList(_) | ContextMarker::OrderedList { .. } => true,
            _ => false,
        };
        if is_list_marker && prev_was_checkbox {
            if i > 0 {
                depth += 1;
            }
            i += 1;
            continue;
        }
        if i > 0 {
            match marker {
                ContextMarker::BlockQuote
                | ContextMarker::UnorderedList(_)
                | ContextMarker::OrderedList { .. }
                | ContextMarker::CodeBlock(_) => {
                    depth += 1;
                },
                _ => {},
            }
        }
        let mut display_str = String::new();
        match marker {
            ContextMarker::CheckboxUnchecked if prev_was_checkbox => {
                string_push(&mut display_str, ' ');
                string_push(&mut display_str, ']');
            },
            ContextMarker::CheckboxChecked if prev_was_checkbox => {
                string_push(&mut display_str, 'x');
                string_push(&mut display_str, ']');
            },
            _ => {
                display_str = marker.as_str();
            },
        }
        let ghost before = result@.map_values(|e: (String, usize)| entry_view(e));
        let ghost entry = (display_str@, depth as int);
        result.push((display_str, depth));
        assert(result@.map_values(|e: (String, usize)| entry_view(e)) =~= before.push(entry));
        prev_was_checkbox = match marker {
            ContextMarker::CheckboxChecked | ContextMarker::CheckboxUnchecked => true,
            _ => false,
        };
        proof {
            let s0 = display_upto(markers@, i as int);
            let s1 = display_upto(markers@, i + 1);
            assert(entry.0 == s1.entries.last().0);
            assert(s1.entries == s0.entries.push(entry));
        }
        i += 1;
    }
    result
}

/// Where the view is: `All` when the whole document shows, `Top` at its
/// start, `Bot` at its end, else how far down the last visible line is, in
/// percent.
pub open spec fn scroll_text(total: int, first: int, last: int) -> Seq<char> {
    if total <= 1 || (first == 0 && last >= total - 1) {
        seq!['A', 'l', 'l']
    } else if first == 0 {
        seq!['T', 'o', 'p']
    } else if last >= total - 1 {
        seq!['B', 'o', 't']
    } else {
        decimal((((last + 1) * 100) / total) as nat) + seq!['%']
    }
}

/// The scroll indicator of the status bar.
pub fn scroll_indicator(total_lines: usize, first_visible_line: usize, last_visible_line: usize) -> (s: String)
    requires
        !(total_lines <= 1 || first_visible_line == 0 || last_visible_line >= total_lines - 1) ==> (
        last_visible_line + 1) * 100 <= usize::MAX,
    ensures
        s@ == scroll_text(total_lines as int, first_visible_line as int, last_visible_line as int),
{
    let mut s = String::new();
    if total_lines <= 1 || (first_visible_line == 0 && last_visible_line >= total_lines - 1) {
        string_push(&mut s, 'A');
        string_push(&mut s, 'l');
        string_push(&mut s, 'l');
    } else if first_visible_line == 0 {
        string_push(&mut s, 'T');
        string_push(&mut s, 'o');
        string_push(&mut s, 'p');
    } else if last_visible_line >= total_lines - 1 {
        string_push(&mut s, 'B');
        string_push(&mut s, 'o');
        string_push(&mut s, 't');
    } else {
        let pct = ((last_visible_line + 1) * 100) / total_lines;
        s = decimal_string(pct);
        string_push(&mut s, '%');
    }
    assert(s@ =~= scroll_text(total_lines as int, first_visible_line as int, last_visible_line as int));
    s
}

} // verus!
