//! The markdown event stream, as plain values.
//!
//! pulldown-cmark parses; the library reads its events through three views
//! of the same parse (event heads with their byte ranges, block tags, inline
//! tags) and joins them into one sequence of [`MdSpan`]s.
use pulldown_cmark::{Event, Options, Parser, Tag, TagEnd};
use vstd::prelude::*;

use crate::document::AlertKind;

verus! {

/// The option bits the editor parses with: tables, strikethrough, task
/// lists and GitHub alerts.
pub const GFM_FLAGS: u32 = 2074;

/// Kind and payload of one event, apart from the tag of a start or an end.
#[derive(Debug)]
pub enum HeadKind {
    Start,
    /// Start of a link, with its destination.
    LinkStart(String),
    End,
    Text(String),
    Code(String),
    /// Block or inline HTML.
    Html(String),
    /// Soft or hard line break.
    Break,
    Rule,
    Task(bool),
    Other,
}

/// Block tag of a start or end event; `Quote` carries the alert code
/// (declaration order of pulldown-cmark's `BlockQuoteKind`).
#[derive(Debug, Clone, Copy)]
pub enum BlockTag {
    Paragraph,
    Heading(u8),
    Quote(Option<u8>),
    CodeBlock,
    HtmlBlock,
    List(bool),
    Item,
    Table,
    Other,
}

/// Table-part or inline tag of a start or end event.
#[derive(Debug, Clone, Copy)]
pub enum InlineTag {
    TableHead,
    TableRow,
    TableCell,
    Emphasis,
    Strong,
    Strikethrough,
    Link,
    Other,
}

/// The events of `pulldown_cmark::Parser::new_ext(text, flags)`, each as
/// its head (variant and payload), block tag, inline tag and byte range.
pub uninterp spec fn md_events(text: Seq<char>, flags: u32) -> Seq<(HeadKind, BlockTag, InlineTag, usize, usize)>;

/// Runs `Parser::new_ext(..).into_offset_iter()` and keeps, for each event,
/// its variant (links with their destination, text with its content) and
/// its byte range: the heads and ranges of `md_events`.
#[verifier::external_body]
fn parse_heads(text: &str, flags: u32) -> (r: Vec<(HeadKind, usize, usize)>)
    ensures
        r@.len() == md_events(text@, flags).len(),
        forall|k: int|
            0 <= k < r@.len() ==> #[trigger] r@[k] == (
                md_events(text@, flags)[k].0,
                md_events(text@, flags)[k].3,
                md_events(text@, flags)[k].4,
            ),
{
    Parser::new_ext(text, Options::from_bits_truncate(flags)).into_offset_iter().map(|(e, r)| (match e {
        Event::Start(Tag::Link { dest_url, .. }) => HeadKind::LinkStart(dest_url.into_string()),
        Event::Start(_) => HeadKind::Start,
        Event::End(_) => HeadKind::End,
        Event::Text(s) => HeadKind::Text(s.into_string()),
        Event::Code(s) => HeadKind::Code(s.into_string()),
        Event::Html(s) | Event::InlineHtml(s) => HeadKind::Html(s.into_string()),
        Event::SoftBreak | Event::HardBreak => HeadKind::Break,
        Event::Rule => HeadKind::Rule,
        Event::TaskListMarker(b) => HeadKind::Task(b),
        _ => HeadKind::Other,
    }, r.start, r.end)).collect()
}

/// Runs `Parser::new_ext` and keeps, for each event, the block-level tag
/// that a start (through `Tag::to_end`) or an end carries. The parse is the
/// one of `parse_heads`: the block tags of `md_events`.
#[verifier::external_body]
fn parse_block_tags(text: &str, flags: u32) -> (r: Vec<BlockTag>)
    ensures
        r@.len() == md_events(text@, flags).len(),
        forall|k: int| 0 <= k < r@.len() ==> #[trigger] r@[k] == md_events(text@, flags)[k].1,
{
    Parser::new_ext(text, Options::from_bits_truncate(flags)).map(|e| match e { Event::Start(t) => Some(t.to_end()), Event::End(t) => Some(t), _ => None })
        .map(|t| match t {
            Some(TagEnd::Paragraph) => BlockTag::Paragraph,
            Some(TagEnd::Heading(l)) => BlockTag::Heading(l as u8),
            Some(TagEnd::BlockQuote(k)) => BlockTag::Quote(k.map(|k| k as u8)),
            Some(TagEnd::CodeBlock) => BlockTag::CodeBlock,
            Some(TagEnd::HtmlBlock) => BlockTag::HtmlBlock,
            Some(TagEnd::List(o)) => BlockTag::List(o),
            Some(TagEnd::Item) => BlockTag::Item,
            Some(TagEnd::Table) => BlockTag::Table,
            _ => BlockTag::Other,
        }).collect()
}

/// Runs `Parser::new_ext` and keeps, for each event, the table-part or
/// inline tag that a start or an end carries: the inline tags of
/// `md_events`.
#[verifier::external_body]
fn parse_inline_tags(text: &str, flags: u32) -> (r: Vec<InlineTag>)
    ensures
        r@.len() == md_events(text@, flags).len(),
        forall|k: int| 0 <= k < r@.len() ==> #[trigger] r@[k] == md_events(text@, flags)[k].2,
{
    Parser::new_ext(text, Options::from_bits_truncate(flags)).map(|e| match e { Event::Start(t) => Some(t.to_end()), Event::End(t) => Some(t), _ => None })
        .map(|t| match t {
            Some(TagEnd::TableHead) => InlineTag::TableHead,
            Some(TagEnd::TableRow) => InlineTag::TableRow,
            Some(TagEnd::TableCell) => InlineTag::TableCell,
            Some(TagEnd::Emphasis) => InlineTag::Emphasis,
            Some(TagEnd::Strong) => InlineTag::Strong,
            Some(TagEnd::Strikethrough) => InlineTag::Strikethrough,
            Some(TagEnd::Link) => InlineTag::Link,
            _ => InlineTag::Other,
        }).collect()
}

/* ---------- the joined event ---------- */

#[derive(Debug)]
pub enum MdTag {
    Paragraph,
    Heading(u8),
    Quote(Option<AlertKind>),
    CodeBlock,
    HtmlBlock,
    List(bool),
    Item,
    Table,
    TableHead,
    TableRow,
    TableCell,
    Emphasis,
    Strong,
    Strikethrough,
    Link,
    Other,
}

#[derive(Debug)]
pub enum MdEvent {
    Start(MdTag),
    /// Start of a link, with its destination.
    LinkStart(String),
    End(MdTag),
    Text(String),
    Code(String),
    Html(String),
    Break,
    Rule,
    Task(bool),
    Other,
}

/// One event with its byte range in the parsed text.
#[derive(Debug)]
pub struct MdSpan {
    pub event: MdEvent,
    pub start: usize,
    pub end: usize,
}

pub open spec fn alert_of_code(c: u8) -> Option<AlertKind> {
    if c == 0 {
        Some(AlertKind::Note)
    } else if c == 1 {
        Some(AlertKind::Tip)
    } else if c == 2 {
        Some(AlertKind::Important)
    } else if c == 3 {
        Some(AlertKind::Warning)
    } else if c == 4 {
        Some(AlertKind::Caution)
    } else {
        None
    }
}

pub open spec fn join_tag(b: BlockTag, i: InlineTag) -> MdTag {
    match b {
        BlockTag::Paragraph => MdTag::Paragraph,
        BlockTag::Heading(l) => MdTag::Heading(l),
        BlockTag::Quote(k) => MdTag::Quote(
            match k {
                Some(c) => alert_of_code(c),
                None => None,
            },
        ),
        BlockTag::CodeBlock => MdTag::CodeBlock,
        BlockTag::HtmlBlock => MdTag::HtmlBlock,
        BlockTag::List(o) => MdTag::List(o),
        BlockTag::Item => MdTag::Item,
        BlockTag::Table => MdTag::Table,
        BlockTag::Other => match i {
            InlineTag::TableHead => MdTag::TableHead,
            InlineTag::TableRow => MdTag::TableRow,
            InlineTag::TableCell => MdTag::TableCell,
            InlineTag::Emphasis => MdTag::Emphasis,
            InlineTag::Strong => MdTag::Strong,
            InlineTag::Strikethrough => MdTag::Strikethrough,
            InlineTag::Link => MdTag::Link,
            InlineTag::Other => MdTag::Other,
        },
    }
}

pub open spec fn join_event(h: HeadKind, b: BlockTag, i: InlineTag) -> MdEvent {
    match h {
        HeadKind::Start => MdEvent::Start(join_tag(b, i)),
        HeadKind::LinkStart(d) => MdEvent::LinkStart(d),
        HeadKind::End => MdEvent::End(join_tag(b, i)),
        HeadKind::Text(s) => MdEvent::Text(s),
        HeadKind::Code(s) => MdEvent::Code(s),
        HeadKind::Html(s) => MdEvent::Html(s),
        HeadKind::Break => MdEvent::Break,
        HeadKind::Rule => MdEvent::Rule,
        HeadKind::Task(c) => MdEvent::Task(c),
        HeadKind::Other => MdEvent::Other,
    }
}

/// The parse of `text` as one event sequence.
pub open spec fn md_spans(text: Seq<char>, flags: u32) -> Seq<MdSpan> {
    let e = md_events(text, flags);
    Seq::new(
        e.len(),
        |k: int| MdSpan { event: join_event(e[k].0, e[k].1, e[k].2), start: e[k].3, end: e[k].4 },
    )
}

fn alert_code(c: u8) -> (r: Option<AlertKind>)
    ensures
        r == alert_of_code(c),
{
    if c == 0 {
        Some(AlertKind::Note)
    } else if c == 1 {
        Some(AlertKind::Tip)
    } else if c == 2 {
        Some(AlertKind::Important)
    } else if c == 3 {
        Some(AlertKind::Warning)
    } else if c == 4 {
        Some(AlertKind::Caution)
    } else {
        None
    }
}

fn tag_of(b: BlockTag, i: InlineTag) -> (r: MdTag)
    ensures
        r == join_tag(b, i),
{
    match b {
        BlockTag::Paragraph => MdTag::Paragraph,
        BlockTag::Heading(l) => MdTag::Heading(l),
        BlockTag::Quote(k) => MdTag::Quote(
            match k {
                Some(c) => alert_code(c),
                None => None,
            },
        ),
        BlockTag::CodeBlock => MdTag::CodeBlock,
        BlockTag::HtmlBlock => MdTag::HtmlBlock,
        BlockTag::List(o) => MdTag::List(o),
        BlockTag::Item => MdTag::Item,
        BlockTag::Table => MdTag::Table,
        BlockTag::Other => match i {
            InlineTag::TableHead => MdTag::TableHead,
            InlineTag::TableRow => MdTag::TableRow,
            InlineTag::TableCell => MdTag::TableCell,
            InlineTag::Emphasis => MdTag::Emphasis,
            InlineTag::Strong => MdTag::Strong,
            InlineTag::Strikethrough => MdTag::Strikethrough,
            InlineTag::Link => MdTag::Link,
            InlineTag::Other => MdTag::Other,
        },
    }
}

fn event_of(h: HeadKind, b: BlockTag, i: InlineTag) -> (r: MdEvent)
    ensures
        r == join_event(h, b, i),
{
    match h {
        HeadKind::Start => MdEvent::Start(tag_of(b, i)),
        HeadKind::LinkStart(d) => MdEvent::LinkStart(d),
        HeadKind::End => MdEvent::End(tag_of(b, i)),
        HeadKind::Text(s) => MdEvent::Text(s),
        HeadKind::Code(s) => MdEvent::Code(s),
        HeadKind::Html(s) => MdEvent::Html(s),
        HeadKind::Break => MdEvent::Break,
        HeadKind::Rule => MdEvent::Rule,
        HeadKind::Task(c) => MdEvent::Task(c),
        HeadKind::Other => MdEvent::Other,
    }
}

/// The GFM parse of `text` as one event sequence.
pub fn md_parse(text: &str) -> (r: Vec<MdSpan>)
    ensures
        r@ == md_spans(text@, GFM_FLAGS),
{
    let mut heads = parse_heads(text, GFM_FLAGS);
    let blocks = parse_block_tags(text, GFM_FLAGS);
    let inline = parse_inline_tags(text, GFM_FLAGS);
    let ghost all = md_spans(text@, GFM_FLAGS);
    let ghost n = heads@.len();
    let mut rev: Vec<MdSpan> = Vec::new();
    while heads.len() > 0
        invariant
            n == md_events(text@, GFM_FLAGS).len(),
            all == md_spans(text@, GFM_FLAGS),
            heads@.len() <= n,
            forall|j: int|
                0 <= j < heads@.len() ==> #[trigger] heads@[j] == (
                    md_events(text@, GFM_FLAGS)[j].0,
                    md_events(text@, GFM_FLAGS)[j].3,
                    md_events(text@, GFM_FLAGS)[j].4,
                ),
            blocks@.len() == n,
            inline@.len() == n,
            forall|j: int| 0 <= j < n ==> #[trigger] blocks@[j] == md_events(text@, GFM_FLAGS)[j].1,
            forall|j: int| 0 <= j < n ==> #[trigger] inline@[j] == md_events(text@, GFM_FLAGS)[j].2,
            rev@.len() + heads@.len() == n,
            forall|j: int| 0 <= j < rev@.len() ==> #[trigger] rev@[j] == all[n - 1 - j],
        decreases heads@.len(),
    {
        let ghost before = heads@;
        let h = heads.pop().unwrap();
        let k = heads.len();
        assert(before[k as int] == h);
        assert(forall|j: int| 0 <= j < heads@.len() ==> heads@[j] == before[j]);
        let (kind, start, end) = h;
        let event = event_of(kind, blocks[k], inline[k]);
        rev.push(MdSpan { event, start, end });
        assert(rev@[rev@.len() - 1] == all[n - 1 - (rev@.len() - 1)]);
    }
    let mut out: Vec<MdSpan> = Vec::new();
    while rev.len() > 0
        invariant
            all == md_spans(text@, GFM_FLAGS),
            n == all.len(),
            out@.len() + rev@.len() == n,
            out@ == all.take(out@.len() as int),
            forall|j: int| 0 <= j < rev@.len() ==> #[trigger] rev@[j] == all[n - 1 - j],
        decreases rev@.len(),
    {
        let ghost before = rev@;
        let s = rev.pop().unwrap();
        assert(s == before[before.len() - 1]);
        out.push(s);
        assert(out@ =~= all.take(out@.len() as int));
    }
    assert(out@ =~= all);
    out
}

} // verus!
