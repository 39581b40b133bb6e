//! Positions on a rendered line: the rendered text hides some markdown
//! syntax, so a position in it maps back to a later position in the buffer.

use std::ops::Range;
use vstd::prelude::*;

verus! {

/// (opening_start, opening_end, closing_start, closing_end) for collapsed markdown syntax.
pub type HiddenRegion = (usize, usize, usize, usize);

/// A display_text region that is currently shown in collapsed form.
/// Used for click position mapping when the user clicks on shortened text.
pub struct CollapsedDisplayText {
    /// Visual range in the display string (byte offsets)
    pub visual_range: Range<usize>,
    /// Buffer range of the full content
    pub buffer_range: Range<usize>,
    /// The shortened display text being shown
    pub display_text: String,
    /// The full buffer text (e.g., the full URL)
    pub buffer_text: String,
}

impl Clone for CollapsedDisplayText {
    fn clone(&self) -> (r: Self)
        ensures
            r.visual_range == self.visual_range,
            r.buffer_range == self.buffer_range,
            r.display_text@ == self.display_text@,
            r.buffer_text@ == self.buffer_text@,
    {
        CollapsedDisplayText {
            visual_range: self.visual_range.start..self.visual_range.end,
            buffer_range: self.buffer_range.start..self.buffer_range.end,
            display_text: self.display_text.clone(),
            buffer_text: self.buffer_text.clone(),
        }
    }
}

/// Byte `pos` lies in the opening or the closing syntax of one of `regions`.
pub open spec fn is_hidden(regions: Seq<HiddenRegion>, pos: int) -> bool {
    exists|i: int|
        0 <= i < regions.len() && ({
            let r = #[trigger] regions[i];
            (r.0 <= pos < r.1) || (r.2 <= pos < r.3)
        })
}

/// The buffer position reached by walking from `pos` until `visual_index`
/// visible bytes (`count` of them seen so far) have been passed or `end` is
/// reached.
pub open spec fn walk_visible(regions: Seq<HiddenRegion>, end: int, visual_index: int, pos: int, count: int) -> int
    decreases end - pos,
{
    if pos < end && count < visual_index {
        walk_visible(
            regions,
            end,
            visual_index,
            pos + 1,
            if is_hidden(regions, pos) {
                count
            } else {
                count + 1
            },
        )
    } else {
        pos
    }
}

/// The smaller of two integers.
pub open spec fn min_int(a: int, b: int) -> int {
    if a <= b {
        a
    } else {
        b
    }
}

/// The buffer offset of visual position `visual_index` of a line's content
/// (after its heading marker, if shown hidden): the visible bytes are
/// counted from the content's start, skipping the hidden syntax; never past
/// the line's end.
pub open spec fn visual_to_buffer(
    visual_index: int,
    content: (int, int),
    heading_marker_len: int,
    regions: Seq<HiddenRegion>,
    line_end: int,
) -> int {
    if content.0 >= content.1 {
        content.0
    } else if regions.len() == 0 {
        min_int(content.0 + heading_marker_len + visual_index, line_end)
    } else {
        min_int(walk_visible(regions, content.1, visual_index, content.0 + heading_marker_len, 0), line_end)
    }
}

/// Whether byte `pos` is hidden syntax of one of `regions`.
fn in_hidden_region(regions: &[HiddenRegion], pos: usize) -> (b: bool)
    ensures
        b == is_hidden(regions@, pos as int),
{
    let mut i: usize = 0;
    while i < regions.len()
        invariant
            i <= regions@.len(),
            forall|k: int|
                0 <= k < i ==> !({
                    let r = #[trigger] regions@[k];
                    (r.0 <= pos < r.1) || (r.2 <= pos < r.3)
                }),
        decreases regions@.len() - i,
    {
        let (opening_start, opening_end, closing_start, closing_end) = regions[i];
        if (pos >= opening_start && pos < opening_end) || (pos >= closing_start && pos < closing_end) {
            assert({
                let r = regions@[i as int];
                (r.0 <= pos < r.1) || (r.2 <= pos < r.3)
            });
            return true;
        }
        i += 1;
    }
    false
}

/// Convert a visual position (index into display text, after prefix) to a buffer offset.
pub fn visual_to_buffer_pos(
    visual_index: usize,
    content_range: &Range<usize>,
    heading_marker_len: usize,
    hidden_regions: &[HiddenRegion],
    line_end: usize,
) -> (r: usize)
    requires
        content_range.start < content_range.end ==> content_range.start + heading_marker_len
            <= usize::MAX,
        content_range.start < content_range.end && hidden_regions@.len() == 0
            ==> content_range.start + heading_marker_len + visual_index <= usize::MAX,
    ensures
        r == visual_to_buffer(
            visual_index as int,
            (content_range.start as int, content_range.end as int),
            heading_marker_len as int,
            hidden_regions@,
            line_end as int,
        ),
{
    if content_range.start >= content_range.end {
        return content_range.start;
    }
    if hidden_regions.len() == 0 {
        let p = content_range.start + heading_marker_len + visual_index;
        return if p < line_end {
            p
        } else {
            line_end
        };
    }
    let ghost start = content_range.start + heading_marker_len;
    let mut buffer_pos = content_range.start + heading_marker_len;
    let mut visible_count: usize = 0;
    while buffer_pos < content_range.end && visible_count < visual_index
        invariant
            visible_count <= visual_index,
            walk_visible(
                hidden_regions@,
                content_range.end as int,
                visual_index as int,
                start,
                0,
            ) == walk_visible(
                hidden_regions@,
                content_range.end as int,
                visual_index as int,
                buffer_pos as int,
                visible_count as int,
            ),
        decreases content_range.end - buffer_pos,
    {
        if !in_hidden_region(hidden_regions, buffer_pos) {
            visible_count += 1;
        }
        buffer_pos += 1;
    }
    if buffer_pos < line_end {
        buffer_pos
    } else {
        line_end
    }
}

} // verus!
