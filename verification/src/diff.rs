//! Diff state for agent edits: the line hunks between the text before an
//! edit and after it, and which of them are still under review.

use imara_diff::{Algorithm, Diff, InternedInput};
use std::ops::Range;
use vstd::prelude::*;

use crate::buffer::RenderSnapshot;

verus! {

/// Status of a diff hunk.
#[derive(Debug, Clone, Copy, PartialEq, Eq, Structural)]
pub enum HunkStatus {
    /// Hunk is pending review.
    Pending,
}

/// A single diff hunk representing a contiguous change.
#[derive(Debug)]
pub struct DiffHunk {
    /// Line range in the old snapshot (deletions).
    pub old_lines: Range<usize>,
    /// Line range in the current buffer (additions).
    pub new_lines: Range<usize>,
    /// Current status of this hunk.
    pub status: HunkStatus,
}

impl Clone for DiffHunk {
    fn clone(&self) -> (h: Self)
        ensures
            h == *self,
    {
        DiffHunk {
            old_lines: self.old_lines.start..self.old_lines.end,
            new_lines: self.new_lines.start..self.new_lines.end,
            status: self.status,
        }
    }
}

/// The changed line ranges that a histogram line diff of `old` and `new`
/// finds, after its line post-processing: for each hunk, the start and end of
/// its lines in `old`, then in `new`.
pub uninterp spec fn line_diff(old: Seq<char>, new: Seq<char>) -> Seq<(u32, u32, u32, u32)>;

/// The line hunks of imara-diff: `InternedInput::new` on the two texts,
/// `Diff::compute` with the histogram algorithm, `Diff::postprocess_lines`,
/// and the ranges of each hunk of `Diff::hunks`. The result is named, not stated.
#[verifier::external_body]
fn imara_line_hunks(old_text: &str, new_text: &str) -> (r: Vec<(u32, u32, u32, u32)>)
    ensures
        r@ == line_diff(old_text@, new_text@),
{
    let input = InternedInput::new(old_text, new_text);
    let mut diff = Diff::compute(Algorithm::Histogram, &input);
    diff.postprocess_lines(&input);
    diff.hunks().map(|h| (h.before.start, h.before.end, h.after.start, h.after.end)).collect()
}

/// The pending hunk of one changed range.
pub open spec fn hunk_of(r: (u32, u32, u32, u32)) -> DiffHunk {
    DiffHunk {
        old_lines: Range { start: r.0 as usize, end: r.1 as usize },
        new_lines: Range { start: r.2 as usize, end: r.3 as usize },
        status: HunkStatus::Pending,
    }
}

/// Pending hunks for the changed ranges `ranges`, in order.
pub fn hunks_from_ranges(ranges: &Vec<(u32, u32, u32, u32)>) -> (hs: Vec<DiffHunk>)
    ensures
        hs@ == ranges@.map_values(|r: (u32, u32, u32, u32)| hunk_of(r)),
{
    let mut hs: Vec<DiffHunk> = Vec::new();
    let mut i: usize = 0;
    while i < ranges.len()
        invariant
            i <= ranges@.len(),
            hs@ == ranges@.take(i as int).map_values(|r: (u32, u32, u32, u32)| hunk_of(r)),
        decreases ranges@.len() - i,
    {
        let r = ranges[i];
        hs.push(
            DiffHunk {
                old_lines: r.0 as usize..r.1 as usize,
                new_lines: r.2 as usize..r.3 as usize,
                status: HunkStatus::Pending,
            },
        );
        assert(ranges@.take(i + 1) =~= ranges@.take(i as int).push(r));
        i += 1;
    }
    assert(ranges@.take(ranges@.len() as int) =~= ranges@);
    hs
}

/// Compute line-level hunks between old and new text.
pub fn compute_line_hunks(old_text: &str, new_text: &str) -> (hs: Vec<DiffHunk>)
    ensures
        hs@ == line_diff(old_text@, new_text@).map_values(|r: (u32, u32, u32, u32)| hunk_of(r)),
{
    let ranges = imara_line_hunks(old_text, new_text);
    hunks_from_ranges(&ranges)
}

/// State for an active diff review session.
pub struct DiffState {
    /// Snapshot of the document before the agent edit.
    /// Used for rendering ghost lines with proper markdown styling.
    pub old_snapshot: RenderSnapshot,
    /// The hunks representing changes.
    pub hunks: Vec<DiffHunk>,
}

/// The old lines shown before new line `new_line`: those of the first
/// pending hunk among `hs[i..]` that starts there and removed lines.
pub open spec fn ghost_lines_from(hs: Seq<DiffHunk>, new_line: usize, i: int) -> Option<Range<usize>>
    decreases hs.len() - i,
{
    if i < 0 || i >= hs.len() {
        None
    } else if hs[i].status == HunkStatus::Pending && hs[i].new_lines.start == new_line
        && hs[i].old_lines.start < hs[i].old_lines.end {
        Some(hs[i].old_lines)
    } else {
        ghost_lines_from(hs, new_line, i + 1)
    }
}

impl DiffState {
    /// Compute diff state from old snapshot and new text.
    pub fn compute(old_snapshot: RenderSnapshot, old_text: &str, new_text: &str) -> (d: Self)
        ensures
            d.hunks@ == line_diff(old_text@, new_text@).map_values(
                |r: (u32, u32, u32, u32)| hunk_of(r),
            ),
            d.old_snapshot == old_snapshot,
    {
        let hunks = compute_line_hunks(old_text, new_text);
        DiffState { old_snapshot, hunks }
    }

    /// Check if there are any pending hunks.
    pub fn has_pending_hunks(&self) -> (b: bool)
        ensures
            b == exists|i: int|
                0 <= i < self.hunks@.len() && (#[trigger] self.hunks@[i]).status == HunkStatus::Pending,
    {
        let mut i: usize = 0;
        while i < self.hunks.len()
            invariant
                i <= self.hunks@.len(),
                forall|j: int| 0 <= j < i ==> (#[trigger] self.hunks@[j]).status != HunkStatus::Pending,
            decreases self.hunks@.len() - i,
        {
            if self.hunks[i].status == HunkStatus::Pending {
                return true;
            }
            i += 1;
        }
        false
    }

    /// Accept a hunk by index. Since changes are already applied, just remove it.
    pub fn accept_hunk(&mut self, index: usize)
        ensures
            index < old(self).hunks@.len() ==> final(self).hunks@ == old(self).hunks@.remove(
                index as int,
            ),
            index >= old(self).hunks@.len() ==> final(self).hunks@ == old(self).hunks@,
            final(self).old_snapshot == old(self).old_snapshot,
    {
        if index < self.hunks.len() {
            self.hunks.remove(index);
        }
    }

    /// Accept all pending hunks.
    pub fn accept_all(&mut self)
        ensures
            final(self).hunks@.len() == 0,
            final(self).old_snapshot == old(self).old_snapshot,
    {
        self.hunks.clear();
    }

    /// The old line range of the first pending hunk that starts at `new_line`
    /// and removed lines, for rendering ghost lines.
    pub fn ghost_lines_before(&self, new_line: usize) -> (r: Option<Range<usize>>)
        ensures
            r == ghost_lines_from(self.hunks@, new_line, 0),
    {
        let mut i: usize = 0;
        while i < self.hunks.len()
            invariant
                i <= self.hunks@.len(),
                ghost_lines_from(self.hunks@, new_line, i as int) == ghost_lines_from(
                    self.hunks@,
                    new_line,
                    0,
                ),
            decreases self.hunks@.len() - i,
        {
            let hunk = &self.hunks[i];
            if hunk.status == HunkStatus::Pending && hunk.new_lines.start == new_line {
                if hunk.old_lines.start < hunk.old_lines.end {
                    return Some(hunk.old_lines.start..hunk.old_lines.end);
                }
            }
            i += 1;
        }
        None
    }

    /// Check if a line in the new buffer is an addition (part of a hunk's new_lines).
    pub fn is_addition(&self, new_line: usize) -> (b: bool)
        ensures
            b == exists|i: int|
                0 <= i < self.hunks@.len() && (#[trigger] self.hunks@[i]).status == HunkStatus::Pending
                    && self.hunks@[i].new_lines.start <= new_line < self.hunks@[i].new_lines.end,
    {
        let mut i: usize = 0;
        while i < self.hunks.len()
            invariant
                i <= self.hunks@.len(),
                forall|j: int|
                    0 <= j < i ==> !((#[trigger] self.hunks@[j]).status == HunkStatus::Pending
                        && self.hunks@[j].new_lines.start <= new_line
                        < self.hunks@[j].new_lines.end),
            decreases self.hunks@.len() - i,
        {
            let h = &self.hunks[i];
            if h.status == HunkStatus::Pending && h.new_lines.start <= new_line && new_line
                < h.new_lines.end {
                return true;
            }
            i += 1;
        }
        false
    }
}

} // verus!
