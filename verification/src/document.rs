//! A rich-text document model: blocks of text with formatting spans, and its
//! markdown serialization.

use std::ops::Range;
use vstd::prelude::*;

use crate::text::{bytes_of, chars_of, string_push, string_push_str};
use pulldown_cmark::{Event, Parser as MarkdownParser, Tag, TagEnd};

verus! {

broadcast use vstd::string::group_string_axioms;

#[derive(Debug, Clone, PartialEq)]
pub enum SpanStyle {
    Bold,
    Italic,
    Code,
    Link { url: String },
    Strikethrough,
}

impl SpanStyle {
    /// The markdown that opens a span of this style.
    pub open spec fn start_marker_spec(&self) -> Seq<char> {
        match self {
            SpanStyle::Bold => seq!['*', '*'],
            SpanStyle::Italic => seq!['*'],
            SpanStyle::Code => seq!['`'],
            SpanStyle::Link { .. } => seq!['['],
            SpanStyle::Strikethrough => seq!['~', '~'],
        }
    }

    /// The markdown that closes a span of this style.
    pub open spec fn end_marker_spec(&self) -> Seq<char> {
        match self {
            SpanStyle::Bold => seq!['*', '*'],
            SpanStyle::Italic => seq!['*'],
            SpanStyle::Code => seq!['`'],
            SpanStyle::Link { url } => seq![']', '('] + url@ + seq![')'],
            SpanStyle::Strikethrough => seq!['~', '~'],
        }
    }

    pub fn start_marker(&self) -> (s: String)
        ensures
            s@ == self.start_marker_spec(),
    {
        let lit = match self {
            SpanStyle::Bold => {
                proof {
                    reveal_strlit("**");
                }
                "**"
            },
            SpanStyle::Italic => {
                proof {
                    reveal_strlit("*");
                }
                "*"
            },
            SpanStyle::Code => {
                proof {
                    reveal_strlit("`");
                }
                "`"
            },
            SpanStyle::Link { .. } => {
                proof {
                    reveal_strlit("[");
                }
                "["
            },
            SpanStyle::Strikethrough => {
                proof {
                    reveal_strlit("~~");
                }
                "~~"
            },
        };
        lit.to_owned()
    }

    pub fn end_marker(&self) -> (s: String)
        ensures
            s@ == self.end_marker_spec(),
    {
        match self {
            SpanStyle::Link { url } => {
                let mut s = String::new();
                string_push(&mut s, ']');
                string_push(&mut s, '(');
                string_push_str(&mut s, url.as_str());
                string_push(&mut s, ')');
                assert(s@ =~= seq![']', '('] + url@ + seq![')']);
                s
            },
            SpanStyle::Bold => {
                proof {
                    reveal_strlit("**");
                }
                "**".to_owned()
            },
            SpanStyle::Italic => {
                proof {
                    reveal_strlit("*");
                }
                "*".to_owned()
            },
            SpanStyle::Code => {
                proof {
                    reveal_strlit("`");
                }
                "`".to_owned()
            },
            SpanStyle::Strikethrough => {
                proof {
                    reveal_strlit("~~");
                }
                "~~".to_owned()
            },
        }
    }
}

#[derive(Debug)]
pub struct FormatSpan {
    pub range: Range<usize>,
    pub style: SpanStyle,
}

#[derive(Debug)]
pub struct RichText {
    pub text: String,
    pub spans: Vec<FormatSpan>,
}

/// The markers emitted at char position `p`: closing markers of the spans that
/// end there, then opening markers of the spans that start there, each in span order.
pub open spec fn closes_at(spans: Seq<FormatSpan>, p: int, n: int) -> Seq<char>
    decreases n,
{
    if n <= 0 {
        seq![]
    } else {
        closes_at(spans, p, n - 1) + if spans[n - 1].range.end == p {
            spans[n - 1].style.end_marker_spec()
        } else {
            seq![]
        }
    }
}

pub open spec fn opens_at(spans: Seq<FormatSpan>, p: int, n: int) -> Seq<char>
    decreases n,
{
    if n <= 0 {
        seq![]
    } else {
        opens_at(spans, p, n - 1) + if spans[n - 1].range.start == p {
            spans[n - 1].style.start_marker_spec()
        } else {
            seq![]
        }
    }
}

pub open spec fn events_at(spans: Seq<FormatSpan>, p: int) -> Seq<char> {
    closes_at(spans, p, spans.len() as int) + opens_at(spans, p, spans.len() as int)
}

/// The markdown of positions `0..n`: at each position its markers, then the
/// char there (if the text is that long).
pub open spec fn markdown_upto(text: Seq<char>, spans: Seq<FormatSpan>, n: int) -> Seq<char>
    decreases n,
{
    if n <= 0 {
        seq![]
    } else {
        markdown_upto(text, spans, n - 1) + events_at(spans, n - 1) + if n - 1 < text.len() {
            seq![text[n - 1]]
        } else {
            seq![]
        }
    }
}

/// The largest position any span touches, or 0.
pub open spec fn max_endpoint(spans: Seq<FormatSpan>, n: int) -> int
    decreases n,
{
    if n <= 0 {
        0
    } else {
        let m = max_endpoint(spans, n - 1);
        let e = spans[n - 1].range.end as int;
        let s = spans[n - 1].range.start as int;
        let a = if e > s {
            e
        } else {
            s
        };
        if a > m {
            a
        } else {
            m
        }
    }
}

impl RichText {
    /// The markdown of this rich text: text with span markers interleaved, at
    /// each char position closing markers first, then opening markers.
    pub open spec fn markdown_spec(&self) -> Seq<char> {
        let spans = self.spans@;
        let text = self.text@;
        if spans.len() == 0 {
            text
        } else {
            let last = if max_endpoint(spans, spans.len() as int) > text.len() {
                max_endpoint(spans, spans.len() as int)
            } else {
                text.len() as int
            };
            markdown_upto(text, spans, last + 1)
        }
    }

    pub fn new() -> (r: Self)
        ensures
            r.text@ == Seq::<char>::empty(),
            r.spans@.len() == 0,
    {
        Self { text: String::new(), spans: Vec::new() }
    }

    /// Markdown with the span markers placed around their text.
    pub fn to_markdown(&self) -> (s: String)
        ensures
            s@ == self.markdown_spec(),
    {
        if self.spans.len() == 0 {
            return self.text.clone();
        }
        let text = chars_of(self.text.as_str());
        let ghost spans = self.spans@;
        let mut out = String::new();
        // Positions inside the text, one char at a time
        let mut p: usize = 0;
        while p < text.len()
            invariant
                p <= text.len(),
                text@ == self.text@,
                spans == self.spans@,
                spans.len() > 0,
                out@ == markdown_upto(text@, spans, p as int),
            decreases text.len() - p,
        {
            self.push_events_at(&mut out, p);
            string_push(&mut out, text[p]);
            assert(out@ =~= markdown_upto(text@, spans, p + 1));
            p += 1;
        }
        // Positions at or past the end of the text: only span markers remain
        let ghost last = if max_endpoint(spans, spans.len() as int) > text@.len() {
            max_endpoint(spans, spans.len() as int)
        } else {
            text@.len() as int
        };
        proof {
            lemma_max_endpoint(spans, spans.len() as int);
        }
        loop
            invariant
                text@.len() <= p <= last,
                text@ == self.text@,
                spans == self.spans@,
                spans.len() > 0,
                last == if max_endpoint(spans, spans.len() as int) > text@.len() {
                    max_endpoint(spans, spans.len() as int)
                } else {
                    text@.len() as int
                },
                forall|i: int|
                    0 <= i < spans.len() ==> #[trigger] spans[i].range.end <= max_endpoint(
                        spans,
                        spans.len() as int,
                    ) && spans[i].range.start <= max_endpoint(spans, spans.len() as int),
                out@ == markdown_upto(text@, spans, p as int),
            decreases last - p,
        {
            self.push_events_at(&mut out, p);
            assert(out@ =~= markdown_upto(text@, spans, p + 1));
            // Jump to the next position where a span starts or ends
            let next = self.next_endpoint_after(p);
            match next {
                None => {
                    proof {
                        lemma_no_events_between(text@, spans, p + 1, last + 1);
                    }
                    return out;
                },
                Some(q) => {
                    proof {
                        lemma_no_events_between(text@, spans, p + 1, q as int);
                        let k = choose|k: int|
                            0 <= k < spans.len() && (#[trigger] spans[k].range.start == q
                                || spans[k].range.end == q);
                        assert(spans[k].range.end <= max_endpoint(spans, spans.len() as int));
                    }
                    p = q;
                },
            }
        }
    }

    /// Append the markers at position `p`.
    fn push_events_at(&self, out: &mut String, p: usize)
        ensures
            final(out)@ == old(out)@ + events_at(self.spans@, p as int),
    {
        let mut i: usize = 0;
        while i < self.spans.len()
            invariant
                i <= self.spans@.len(),
                out@ == old(out)@ + closes_at(self.spans@, p as int, i as int),
            decreases self.spans.len() - i,
        {
            if self.spans[i].range.end == p {
                let m = self.spans[i].style.end_marker();
                string_push_str(out, m.as_str());
            }
            assert(out@ =~= old(out)@ + closes_at(self.spans@, p as int, i + 1));
            i += 1;
        }
        let ghost mid = out@;
        let mut j: usize = 0;
        while j < self.spans.len()
            invariant
                j <= self.spans@.len(),
                out@ == mid + opens_at(self.spans@, p as int, j as int),
            decreases self.spans.len() - j,
        {
            if self.spans[j].range.start == p {
                let m = self.spans[j].style.start_marker();
                string_push_str(out, m.as_str());
            }
            assert(out@ =~= mid + opens_at(self.spans@, p as int, j + 1));
            j += 1;
        }
        assert(out@ =~= old(out)@ + events_at(self.spans@, p as int));
    }

    /// The smallest span start or end after `p`.
    fn next_endpoint_after(&self, p: usize) -> (r: Option<usize>)
        ensures
            r matches Some(q) ==> q > p && exists|i: int|
                0 <= i < self.spans@.len() && (#[trigger] self.spans@[i].range.start == q
                    || self.spans@[i].range.end == q),
            forall|i: int|
                0 <= i < self.spans@.len() ==> (#[trigger] self.spans@[i].range.start > p
                    ==> (r matches Some(q) && q <= self.spans@[i].range.start)),
            forall|i: int|
                0 <= i < self.spans@.len() ==> (#[trigger] self.spans@[i].range.end > p ==> (r matches Some(
                    q,
                ) && q <= self.spans@[i].range.end)),
    {
        let mut best: Option<usize> = None;
        let ghost mut wit: int = 0;
        let mut i: usize = 0;
        while i < self.spans.len()
            invariant
                i <= self.spans@.len(),
                best matches Some(q) ==> q > p && 0 <= wit < i && (self.spans@[wit].range.start == q
                    || self.spans@[wit].range.end == q),
                forall|k: int|
                    0 <= k < i ==> (#[trigger] self.spans@[k].range.start > p ==> (best matches Some(q)
                        && q <= self.spans@[k].range.start)),
                forall|k: int|
                    0 <= k < i ==> (#[trigger] self.spans@[k].range.end > p ==> (best matches Some(q)
                        && q <= self.spans@[k].range.end)),
            decreases self.spans.len() - i,
        {
            let s = self.spans[i].range.start;
            let e = self.spans[i].range.end;
            if s > p {
                let take = match best {
                    Some(q) => s < q,
                    None => true,
                };
                if take {
                    best = Some(s);
                    proof {
                        wit = i as int;
                    }
                }
            }
            if e > p {
                let take = match best {
                    Some(q) => e < q,
                    None => true,
                };
                if take {
                    best = Some(e);
                    proof {
                        wit = i as int;
                    }
                }
            }
            i += 1;
        }
        proof {
            if best is Some {
                let q = best->0;
                assert(0 <= wit < self.spans@.len());
                assert(self.spans@[wit].range.start == q || self.spans@[wit].range.end == q);
                assert(exists|i: int|
                    0 <= i < self.spans@.len() && (#[trigger] self.spans@[i].range.start == q
                        || self.spans@[i].range.end == q));
            }
        }
        best
    }
}

proof fn lemma_max_endpoint(spans: Seq<FormatSpan>, n: int)
    requires
        0 <= n <= spans.len(),
    ensures
        forall|i: int|
            0 <= i < n ==> #[trigger] spans[i].range.end <= max_endpoint(spans, n)
                && spans[i].range.start <= max_endpoint(spans, n),
        max_endpoint(spans, n) >= 0,
    decreases n,
{
    if n > 0 {
        lemma_max_endpoint(spans, n - 1);
    }
}

proof fn lemma_events_empty(spans: Seq<FormatSpan>, p: int, n: int)
    requires
        0 <= n <= spans.len(),
        forall|i: int|
            0 <= i < spans.len() ==> #[trigger] spans[i].range.start != p && spans[i].range.end != p,
    ensures
        closes_at(spans, p, n) == Seq::<char>::empty(),
        opens_at(spans, p, n) == Seq::<char>::empty(),
    decreases n,
{
    if n > 0 {
        lemma_events_empty(spans, p, n - 1);
        assert(spans[n - 1].range.start != p && spans[n - 1].range.end != p);
        assert(closes_at(spans, p, n) =~= closes_at(spans, p, n - 1));
        assert(opens_at(spans, p, n) =~= opens_at(spans, p, n - 1));
    }
}

/// Positions `a..b` past the text where no span starts or ends add nothing.
proof fn lemma_no_events_between(text: Seq<char>, spans: Seq<FormatSpan>, a: int, b: int)
    requires
        text.len() <= a,
        forall|i: int|
            0 <= i < spans.len() ==> (#[trigger] spans[i].range.start >= a ==> spans[i].range.start
                >= b) && (spans[i].range.end >= a ==> spans[i].range.end >= b),
    ensures
        a <= b ==> markdown_upto(text, spans, b) == markdown_upto(text, spans, a),
    decreases b - a,
{
    if a < b {
        lemma_no_events_between(text, spans, a, b - 1);
        assert forall|i: int| 0 <= i < spans.len() implies #[trigger] spans[i].range.start != b - 1
            && spans[i].range.end != b - 1 by {}
        lemma_events_empty(spans, b - 1, spans.len() as int);
        assert(markdown_upto(text, spans, b) =~= markdown_upto(text, spans, b - 1));
    }
}

#[derive(Debug, Clone, PartialEq)]
pub enum BlockKind {
    Paragraph,
    Heading { level: u8, id: Option<String> },
    CodeBlock { language: Option<String> },
    BulletList,
    NumberedList,
    Quote,
}

#[derive(Debug)]
pub struct Block {
    pub kind: BlockKind,
    pub content: RichText,
}

/// `n` copies of `c`.
pub open spec fn repeat_char(c: char, n: nat) -> Seq<char> {
    Seq::new(n, |i: int| c)
}

impl Block {
    /// Block kinds that have a markdown form.
    pub open spec fn writable(&self) -> bool {
        self.kind is Paragraph || self.kind is Heading
    }

    /// The markdown of this block.
    pub open spec fn markdown_spec(&self) -> Seq<char> {
        match self.kind {
            BlockKind::Heading { level, .. } => repeat_char('#', level as nat) + seq![' ']
                + self.content.markdown_spec(),
            _ => self.content.markdown_spec(),
        }
    }

    pub fn new_paragraph() -> (b: Self)
        ensures
            b.kind is Paragraph,
            b.content.text@ == Seq::<char>::empty(),
            b.content.spans@.len() == 0,
    {
        Self { kind: BlockKind::Paragraph, content: RichText { text: String::new(), spans: Vec::new() } }
    }

    pub fn to_markdown(&self) -> (s: String)
        requires
            self.writable(),
        ensures
            s@ == self.markdown_spec(),
    {
        let md = self.content.to_markdown();
        match &self.kind {
            BlockKind::Heading { level, .. } => {
                let mut s = String::new();
                let mut k: u8 = 0;
                while k < *level
                    invariant
                        k <= *level,
                        s@ == repeat_char('#', k as nat),
                    decreases *level - k,
                {
                    string_push(&mut s, '#');
                    assert(s@ =~= repeat_char('#', (k + 1) as nat));
                    k += 1;
                }
                string_push(&mut s, ' ');
                string_push_str(&mut s, md.as_str());
                s
            },
            _ => md,
        }
    }
}

impl Default for Block {
    fn default() -> (b: Self)
        ensures
            b.kind is Paragraph,
            b.content.text@ == Seq::<char>::empty(),
            b.content.spans@.len() == 0,
    {
        Self::new_paragraph()
    }
}

#[derive(Debug)]
pub struct Document {
    pub blocks: Vec<Block>,
}

/// Markdown of `blocks[..n]`, separated by blank lines.
pub open spec fn blocks_markdown(blocks: Seq<Block>, n: int) -> Seq<char>
    decreases n,
{
    if n <= 0 {
        seq![]
    } else if n == 1 {
        blocks[0].markdown_spec()
    } else {
        blocks_markdown(blocks, n - 1) + seq!['\n', '\n'] + blocks[n - 1].markdown_spec()
    }
}

impl Document {
    pub fn new() -> (d: Self)
        ensures
            d.blocks@.len() == 1,
            d.blocks@[0].kind is Paragraph,
            d.blocks@[0].content.text@ == Seq::<char>::empty(),
            d.blocks@[0].content.spans@.len() == 0,
    {
        Document { blocks: vec![Block::default()] }
    }

    /// The markdown of the document: its blocks separated by blank lines.
    pub fn to_markdown(&self) -> (s: String)
        requires
            forall|i: int| 0 <= i < self.blocks@.len() ==> (#[trigger] self.blocks@[i]).writable(),
        ensures
            s@ == blocks_markdown(self.blocks@, self.blocks@.len() as int),
    {
        let mut s = String::new();
        let mut i: usize = 0;
        while i < self.blocks.len()
            invariant
                i <= self.blocks@.len(),
                forall|k: int| 0 <= k < self.blocks@.len() ==> (#[trigger] self.blocks@[k]).writable(),
                s@ == blocks_markdown(self.blocks@, i as int),
            decreases self.blocks.len() - i,
        {
            if i > 0 {
                string_push(&mut s, '\n');
                string_push(&mut s, '\n');
            }
            let md = self.blocks[i].to_markdown();
            string_push_str(&mut s, md.as_str());
            assert(s@ =~= blocks_markdown(self.blocks@, i + 1));
            i += 1;
        }
        s
    }
}

impl Default for Document {
    fn default() -> (d: Self)
        ensures
            d.blocks@.len() == 1,
    {
        Self::new()
    }
}

impl Default for RichText {
    fn default() -> (r: Self)
        ensures
            r.text@ == Seq::<char>::empty(),
            r.spans@.len() == 0,
    {
        Self::new()
    }
}

/// A span style as plain values.
pub enum SpanStyleV {
    Bold,
    Italic,
    Code,
    Link { url: Seq<char> },
    Strikethrough,
}

impl View for SpanStyle {
    type V = SpanStyleV;

    open spec fn view(&self) -> SpanStyleV {
        match self {
            SpanStyle::Bold => SpanStyleV::Bold,
            SpanStyle::Italic => SpanStyleV::Italic,
            SpanStyle::Code => SpanStyleV::Code,
            SpanStyle::Link { url } => SpanStyleV::Link { url: url@ },
            SpanStyle::Strikethrough => SpanStyleV::Strikethrough,
        }
    }
}

/// A block kind as plain values.
pub enum BlockKindV {
    Paragraph,
    Heading { level: u8, id: Option<Seq<char>> },
    CodeBlock { language: Option<Seq<char>> },
    BulletList,
    NumberedList,
    Quote,
}

/// The view of an optional string.
pub open spec fn opt_str(s: Option<String>) -> Option<Seq<char>> {
    match s {
        Some(t) => Some(t@),
        None => None,
    }
}

impl View for BlockKind {
    type V = BlockKindV;

    open spec fn view(&self) -> BlockKindV {
        match self {
            BlockKind::Paragraph => BlockKindV::Paragraph,
            BlockKind::Heading { level, id } => BlockKindV::Heading { level: *level, id: opt_str(*id) },
            BlockKind::CodeBlock { language } => BlockKindV::CodeBlock { language: opt_str(*language) },
            BlockKind::BulletList => BlockKindV::BulletList,
            BlockKind::NumberedList => BlockKindV::NumberedList,
            BlockKind::Quote => BlockKindV::Quote,
        }
    }
}

/// A formatting span as plain values.
pub struct SpanV {
    pub start: int,
    pub end: int,
    pub style: SpanStyleV,
}

impl View for FormatSpan {
    type V = SpanV;

    open spec fn view(&self) -> SpanV {
        SpanV { start: self.range.start as int, end: self.range.end as int, style: self.style@ }
    }
}

/// A block as plain values.
pub struct BlockV {
    pub kind: BlockKindV,
    pub text: Seq<char>,
    pub spans: Seq<SpanV>,
}

impl View for Block {
    type V = BlockV;

    open spec fn view(&self) -> BlockV {
        BlockV {
            kind: self.kind@,
            text: self.content.text@,
            spans: self.content.spans@.map_values(|f: FormatSpan| f@),
        }
    }
}

/// A markdown event that the parser reads.
#[derive(Debug)]
pub enum MdEvent {
    StartParagraph,
    StartHeading { level: u8, id: Option<String> },
    StartEmphasis,
    StartStrong,
    StartStrikethrough,
    EndParagraph,
    EndHeading,
    /// The end of an emphasis, strong or strikethrough span.
    EndSpan,
    Text(String),
    Code(String),
    /// Any other markdown element; the parser has no block or span for it.
    Unsupported,
}

/// A markdown event as plain values.
pub enum MdEventV {
    StartParagraph,
    StartHeading { level: u8, id: Option<Seq<char>> },
    StartEmphasis,
    StartStrong,
    StartStrikethrough,
    EndParagraph,
    EndHeading,
    EndSpan,
    Text(Seq<char>),
    Code(Seq<char>),
    Unsupported,
}

impl View for MdEvent {
    type V = MdEventV;

    open spec fn view(&self) -> MdEventV {
        match self {
            MdEvent::StartParagraph => MdEventV::StartParagraph,
            MdEvent::StartHeading { level, id } => MdEventV::StartHeading { level: *level, id: opt_str(*id) },
            MdEvent::StartEmphasis => MdEventV::StartEmphasis,
            MdEvent::StartStrong => MdEventV::StartStrong,
            MdEvent::StartStrikethrough => MdEventV::StartStrikethrough,
            MdEvent::EndParagraph => MdEventV::EndParagraph,
            MdEvent::EndHeading => MdEventV::EndHeading,
            MdEvent::EndSpan => MdEventV::EndSpan,
            MdEvent::Text(t) => MdEventV::Text(t@),
            MdEvent::Code(t) => MdEventV::Code(t@),
            MdEvent::Unsupported => MdEventV::Unsupported,
        }
    }
}

/// The events that pulldown-cmark's parser, with its default options, yields
/// for `markdown`, each as the event it stands for.
pub uninterp spec fn markdown_events_of(markdown: Seq<char>) -> Seq<MdEventV>;

/// `pulldown_cmark::Parser::new(markdown)`, its events collected, each taken
/// to the `MdEvent` of its kind. The result is named, not stated. With the
/// default options that `Parser::new` uses, strikethrough is off, so no
/// strikethrough event comes.
#[verifier::external_body]
fn markdown_events(markdown: &str) -> (r: Vec<MdEvent>)
    ensures
        r@.map_values(|e: MdEvent| e@) == markdown_events_of(markdown@),
{
    MarkdownParser::new(markdown).map(|e| match e {
        Event::Start(Tag::Paragraph) => MdEvent::StartParagraph,
        Event::Start(Tag::Heading { level, id, .. }) => MdEvent::StartHeading { level: level as u8, id: id.map(|i| i.to_string()) },
        Event::Start(Tag::Emphasis) => MdEvent::StartEmphasis,
        Event::Start(Tag::Strong) => MdEvent::StartStrong,
        Event::End(TagEnd::Paragraph) => MdEvent::EndParagraph,
        Event::End(TagEnd::Heading(_)) => MdEvent::EndHeading,
        Event::End(TagEnd::Emphasis | TagEnd::Strong) => MdEvent::EndSpan,
        Event::Text(t) => MdEvent::Text(t.to_string()),
        Event::Code(t) => MdEvent::Code(t.to_string()),
        _ => MdEvent::Unsupported,
    }).collect()
}

/// The parser's state as plain values.
pub struct ParserV {
    pub blocks: Seq<BlockV>,
    pub block: BlockV,
    pub stack: Seq<int>,
}

/// An empty paragraph.
pub open spec fn empty_paragraph() -> BlockV {
    BlockV { kind: BlockKindV::Paragraph, text: seq![], spans: seq![] }
}

/// The state after opening a span of `style` at the end of the text.
pub open spec fn open_span_spec(p: ParserV, style: SpanStyleV) -> ParserV {
    let n = bytes_of(p.block.text).len() as int;
    ParserV {
        block: BlockV { spans: p.block.spans.push(SpanV { start: n, end: n, style }), ..p.block },
        stack: p.stack.push(p.block.spans.len() as int),
        ..p
    }
}

/// The state after closing the innermost open span at the end of the text.
pub open spec fn close_span_spec(p: ParserV) -> ParserV {
    if p.stack.len() == 0 {
        p
    } else {
        let i = p.stack.last();
        let n = bytes_of(p.block.text).len() as int;
        ParserV {
            block: BlockV {
                spans: p.block.spans.update(i, SpanV { end: n, ..p.block.spans[i] }),
                ..p.block
            },
            stack: p.stack.drop_last(),
            ..p
        }
    }
}

/// The state after finishing the current block.
pub open spec fn push_block_spec(p: ParserV) -> ParserV {
    ParserV { blocks: p.blocks.push(p.block), block: empty_paragraph(), stack: seq![] }
}

/// The state after appending `t` to the current block's text.
pub open spec fn push_text_spec(p: ParserV, t: Seq<char>) -> ParserV {
    ParserV { block: BlockV { text: p.block.text + t, ..p.block }, ..p }
}

/// The state after one event.
pub open spec fn parse_step(p: ParserV, e: MdEventV) -> ParserV {
    match e {
        MdEventV::StartParagraph => ParserV {
            block: BlockV { kind: BlockKindV::Paragraph, ..p.block },
            ..p
        },
        MdEventV::StartHeading { level, id } => ParserV {
            block: BlockV { kind: BlockKindV::Heading { level, id }, ..p.block },
            ..p
        },
        MdEventV::StartEmphasis => open_span_spec(p, SpanStyleV::Italic),
        MdEventV::StartStrong => open_span_spec(p, SpanStyleV::Bold),
        MdEventV::StartStrikethrough => open_span_spec(p, SpanStyleV::Strikethrough),
        MdEventV::EndParagraph | MdEventV::EndHeading => push_block_spec(p),
        MdEventV::EndSpan => close_span_spec(p),
        MdEventV::Text(t) => push_text_spec(p, t),
        MdEventV::Code(t) => close_span_spec(push_text_spec(open_span_spec(p, SpanStyleV::Code), t)),
        MdEventV::Unsupported => p,
    }
}

/// The state after the events `es[..n]`.
pub open spec fn parse_events(p: ParserV, es: Seq<MdEventV>, n: int) -> ParserV
    decreases n,
{
    if n <= 0 {
        p
    } else {
        parse_step(parse_events(p, es, n - 1), es[n - 1])
    }
}

/// No event of `es` is one the parser has nothing for.
pub open spec fn all_supported(es: Seq<MdEventV>) -> bool {
    forall|i: int| 0 <= i < es.len() ==> !(#[trigger] es[i] is Unsupported)
}

/// Builds blocks of rich text from markdown events.
pub struct Parser {
    blocks: Vec<Block>,
    block: Block,
    stack: Vec<usize>,
}

impl View for Parser {
    type V = ParserV;

    closed spec fn view(&self) -> ParserV {
        ParserV {
            blocks: self.blocks@.map_values(|b: Block| b@),
            block: self.block@,
            stack: self.stack@.map_values(|i: usize| i as int),
        }
    }
}

impl Parser {
    pub closed spec fn wf(&self) -> bool {
        forall|k: int| 0 <= k < self.stack@.len() ==> #[trigger] self.stack@[k] < self.block.content.spans@.len()
    }

    pub fn new() -> (p: Self)
        ensures
            p.wf(),
            p@ == (ParserV { blocks: seq![], block: empty_paragraph(), stack: seq![] }),
    {
        let p = Parser { blocks: Vec::new(), block: Block::default(), stack: Vec::new() };
        assert(p@.blocks =~= Seq::<BlockV>::empty());
        assert(p@.stack =~= Seq::<int>::empty());
        assert(p@.block.spans =~= Seq::<SpanV>::empty());
        p
    }

    /// Open a span of `style` at the end of the current block's text.
    fn open_span(&mut self, style: SpanStyle)
        requires
            old(self).wf(),
        ensures
            final(self).wf(),
            final(self)@ == open_span_spec(old(self)@, style@),
    {
        let start = self.block.content.text.as_str().as_bytes().len();
        self.block.content.spans.push(FormatSpan { range: start..start, style });
        self.stack.push(self.block.content.spans.len() - 1);
        assert(self@.block.spans =~= old(self)@.block.spans.push(SpanV { start: start as int, end: start as int, style: style@ }));
        assert(self@.stack =~= old(self)@.stack.push(old(self)@.block.spans.len() as int));
        assert(self@ == open_span_spec(old(self)@, style@));
    }

    /// Close the innermost open span at the end of the current block's text.
    fn close_span(&mut self)
        requires
            old(self).wf(),
        ensures
            final(self).wf(),
            final(self)@ == close_span_spec(old(self)@),
    {
        if let Some(index) = self.stack.pop() {
            let end = self.block.content.text.as_str().as_bytes().len();
            let mut span = self.block.content.spans.remove(index);
            span.range.end = end;
            self.block.content.spans.insert(index, span);
            proof {
                let o = old(self)@;
                assert(self@.stack =~= o.stack.drop_last());
                assert(self@.block.spans =~= o.block.spans.update(
                    index as int,
                    SpanV { end: end as int, ..o.block.spans[index as int] },
                ));
            }
        }
    }

    /// Finish the current block and start a new paragraph.
    fn push_block(&mut self)
        requires
            old(self).wf(),
        ensures
            final(self).wf(),
            final(self)@ == push_block_spec(old(self)@),
    {
        let mut block = Block::default();
        std::mem::swap(&mut block, &mut self.block);
        self.blocks.push(block);
        self.stack.clear();
        proof {
            assert(self@.blocks =~= old(self)@.blocks.push(old(self)@.block));
            assert(self@.stack =~= Seq::<int>::empty());
            assert(self@.block.spans =~= Seq::<SpanV>::empty());
        }
    }

    /// The blocks of the events `events`, each finished at the end of its
    /// paragraph or heading.
    pub fn parse(self, events: Vec<MdEvent>) -> (blocks: Vec<Block>)
        requires
            self.wf(),
            all_supported(events@.map_values(|e: MdEvent| e@)),
        ensures
            blocks@.map_values(|b: Block| b@) == parse_events(
                self@,
                events@.map_values(|e: MdEvent| e@),
                events@.len() as int,
            ).blocks,
    {
        let mut parser = self;
        let ghost es = events@.map_values(|e: MdEvent| e@);
        let ghost start = parser@;
        for event in it: events
            invariant
                parser.wf(),
                es == events@.map_values(|e: MdEvent| e@),
                it.seq() == events@,
                all_supported(es),
                parser@ == parse_events(start, es, it.index() as int),
        {
            let ghost before = parser@;
            let ghost ev = event@;
            assert(ev == es[it.index() as int]);
            match event {
                MdEvent::StartParagraph => {
                    parser.block.kind = BlockKind::Paragraph;
                },
                MdEvent::StartHeading { level, id } => {
                    parser.block.kind = BlockKind::Heading { level, id };
                },
                MdEvent::StartEmphasis => parser.open_span(SpanStyle::Italic),
                MdEvent::StartStrong => parser.open_span(SpanStyle::Bold),
                MdEvent::StartStrikethrough => parser.open_span(SpanStyle::Strikethrough),
                MdEvent::EndParagraph | MdEvent::EndHeading => parser.push_block(),
                MdEvent::EndSpan => parser.close_span(),
                MdEvent::Text(t) => {
                    string_push_str(&mut parser.block.content.text, t.as_str());
                },
                MdEvent::Code(t) => {
                    parser.open_span(SpanStyle::Code);
                    string_push_str(&mut parser.block.content.text, t.as_str());
                    parser.close_span();
                },
                MdEvent::Unsupported => {},
            }
            assert(parser@ == parse_step(before, ev));
        }
        parser.blocks
    }
}

impl Default for Parser {
    fn default() -> (p: Self)
        ensures
            p.wf(),
            p@ == (ParserV { blocks: seq![], block: empty_paragraph(), stack: seq![] }),
    {
        Self::new()
    }
}

/// Why a document could not be read from markdown.
#[derive(Debug, Clone, Copy, PartialEq, Eq, Structural)]
pub enum DocumentError {
    /// The markdown holds an element that documents have no block or span for.
    Unsupported,
}

impl Document {
    /// The document of `markdown`: the blocks its events make, or an error
    /// where an event is one documents have no block or span for.
    pub fn from_markdown(markdown: &str) -> (r: Result<Document, DocumentError>)
        ensures
            all_supported(markdown_events_of(markdown@)) <==> r is Ok,
            r matches Ok(d) ==> d.blocks@.map_values(|b: Block| b@) == parse_events(
                ParserV { blocks: seq![], block: empty_paragraph(), stack: seq![] },
                markdown_events_of(markdown@),
                markdown_events_of(markdown@).len() as int,
            ).blocks,
    {
        let events = markdown_events(markdown);
        let ghost es = events@.map_values(|e: MdEvent| e@);
        let mut i: usize = 0;
        while i < events.len()
            invariant
                i <= events@.len(),
                es == events@.map_values(|e: MdEvent| e@),
                es == markdown_events_of(markdown@),
                forall|k: int| 0 <= k < i ==> !(#[trigger] es[k] is Unsupported),
            decreases events@.len() - i,
        {
            if let MdEvent::Unsupported = events[i] {
                assert(es[i as int] is Unsupported);
                assert(!all_supported(es));
                return Err(DocumentError::Unsupported);
            }
            i += 1;
        }
        let blocks = Parser::new().parse(events);
        Ok(Document { blocks })
    }
}

} // verus!
