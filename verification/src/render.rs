//! Shared types for text styling and rendering.

use std::ops::Range;
use vstd::prelude::*;

verus! {

/// A text style to apply during rendering.
#[derive(Debug, Clone, Copy, PartialEq, Eq, Structural)]
pub struct TextStyle {
    pub bold: bool,
    pub italic: bool,
    pub code: bool,
    pub strikethrough: bool,
    /// Heading level (1-6), or 0 for non-heading text
    pub heading_level: u8,
}

/// The style with no attribute set.
pub open spec fn plain_style() -> TextStyle {
    TextStyle { bold: false, italic: false, code: false, strikethrough: false, heading_level: 0 }
}

impl Default for TextStyle {
    fn default() -> (s: Self)
        ensures
            s == plain_style(),
    {
        TextStyle { bold: false, italic: false, code: false, strikethrough: false, heading_level: 0 }
    }
}

impl TextStyle {
    pub fn bold() -> (s: Self)
        ensures
            s == (TextStyle { bold: true, ..plain_style() }),
    {
        Self { bold: true, ..Default::default() }
    }

    pub fn italic() -> (s: Self)
        ensures
            s == (TextStyle { italic: true, ..plain_style() }),
    {
        Self { italic: true, ..Default::default() }
    }

    pub fn code() -> (s: Self)
        ensures
            s == (TextStyle { code: true, ..plain_style() }),
    {
        Self { code: true, ..Default::default() }
    }

    pub fn strikethrough() -> (s: Self)
        ensures
            s == (TextStyle { strikethrough: true, ..plain_style() }),
    {
        Self { strikethrough: true, ..Default::default() }
    }

    /// Create a heading style. Headings are bold.
    pub fn heading(level: u8) -> (s: Self)
        ensures
            s == (TextStyle { heading_level: level, bold: true, ..plain_style() }),
    {
        Self { heading_level: level, bold: true, ..Default::default() }
    }

    /// The style with every attribute of `self` or `other`, and the higher heading level.
    pub open spec fn merge_spec(&self, other: &TextStyle) -> TextStyle {
        TextStyle {
            bold: self.bold || other.bold,
            italic: self.italic || other.italic,
            code: self.code || other.code,
            strikethrough: self.strikethrough || other.strikethrough,
            heading_level: if self.heading_level >= other.heading_level {
                self.heading_level
            } else {
                other.heading_level
            },
        }
    }

    /// Merge another style into this one.
    pub fn merge(&self, other: &TextStyle) -> (s: Self)
        ensures
            s == self.merge_spec(other),
    {
        Self {
            bold: self.bold || other.bold,
            italic: self.italic || other.italic,
            code: self.code || other.code,
            strikethrough: self.strikethrough || other.strikethrough,
            heading_level: if self.heading_level >= other.heading_level {
                self.heading_level
            } else {
                other.heading_level
            },
        }
    }
}

/// A styled region within inline content.
#[derive(Debug, PartialEq)]
pub struct StyledRegion {
    /// The full range including markers (e.g., "**bold**")
    pub full_range: Range<usize>,
    /// The content range without markers (e.g., "bold")
    pub content_range: Range<usize>,
    /// The style to apply
    pub style: TextStyle,
    /// URL for links (None for non-link regions)
    pub link_url: Option<String>,
}

impl Clone for StyledRegion {
    fn clone(&self) -> (r: Self)
        ensures
            r.full_range == self.full_range,
            r.content_range == self.content_range,
            r.style == self.style,
            r.link_url is Some <==> self.link_url is Some,
            r.link_url matches Some(u) ==> u@ == self.link_url->0@,
    {
        StyledRegion {
            full_range: self.full_range.start..self.full_range.end,
            content_range: self.content_range.start..self.content_range.end,
            style: self.style,
            link_url: match &self.link_url {
                Some(u) => Some(u.clone()),
                None => None,
            },
        }
    }
}

} // verus!
