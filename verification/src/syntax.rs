//! Syntax nodes of a parsed markdown document, as plain values.
//!
//! A parse of the block structure is handed to the library as the list of its
//! nodes in document order (preorder), each with its kind, byte range and the
//! index of its parent node.

use vstd::prelude::*;

verus! {

/// The kinds of block-tree nodes that the editor reads.
#[derive(Debug, Clone, Copy, PartialEq, Eq)]
pub enum NodeKind {
    Document,
    Section,
    Paragraph,
    Inline,
    BlockQuote,
    BlockQuoteMarker,
    BlockContinuation,
    List,
    ListItem,
    ListMarkerMinus,
    ListMarkerPlus,
    ListMarkerStar,
    ListMarkerDot,
    ListMarkerParenthesis,
    TaskListMarkerUnchecked,
    TaskListMarkerChecked,
    AtxHeading,
    /// `atx_h1_marker` .. `atx_h6_marker`, with the level.
    AtxMarker(u8),
    ThematicBreak,
    FencedCodeBlock,
    FencedCodeBlockDelimiter,
    InfoString,
    CodeFenceContent,
    IndentedCodeBlock,
    PipeTableCell,
    Error,
    // Kinds of the inline trees.
    Emphasis,
    StrongEmphasis,
    CodeSpan,
    Strikethrough,
    InlineLink,
    FullReferenceLink,
    CollapsedReferenceLink,
    ShortcutLink,
    Image,
    EmphasisDelimiter,
    CodeSpanDelimiter,
    /// Any other `*_delimiter` node.
    OtherDelimiter,
    LinkText,
    LinkDestination,
    ImageDescription,
    /// `[`
    OpenBracket,
    /// `]`
    CloseBracket,
    Other,
}

/// One node of the block tree.
#[derive(Debug, Clone, Copy, PartialEq, Eq)]
pub struct SyntaxNode {
    pub kind: NodeKind,
    pub start_byte: usize,
    pub end_byte: usize,
    /// Index of the parent node in the same list, `None` for the root.
    pub parent: Option<usize>,
}

/// True when every parent index of `nodes` points into `nodes`.
pub open spec fn parents_in_bounds(nodes: Seq<SyntaxNode>) -> bool {
    forall|i: int|
        0 <= i < nodes.len() ==> (#[trigger] nodes[i].parent matches Some(p) ==> p < nodes.len())
}

/// Every node's parent comes before it in the list, as in a preorder listing.
pub open spec fn parents_before(nodes: Seq<SyntaxNode>) -> bool {
    forall|i: int|
        0 <= i < nodes.len() ==> (#[trigger] nodes[i].parent matches Some(p) ==> p < i)
}

/// The nodes' ranges run forwards and lie within `len` bytes.
pub open spec fn ranges_within(nodes: Seq<SyntaxNode>, len: int) -> bool {
    forall|i: int|
        0 <= i < nodes.len() ==> #[trigger] nodes[i].start_byte <= nodes[i].end_byte && nodes[i].end_byte
            <= len
}

} // verus!
