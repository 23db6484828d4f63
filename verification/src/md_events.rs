//! Markdown events: the parser's output as plain values.

use vstd::prelude::*;
use pulldown_cmark::{Alignment, BlockQuoteKind, CodeBlockKind, Event, Options, Parser, Tag, TagEnd};
use pulldown_cmark::Event::{
    Start, End, Text, Code, InlineMath, DisplayMath, Html, InlineHtml, FootnoteReference, SoftBreak, HardBreak, Rule,
    TaskListMarker,
};

verus! {

#[verifier::external_type_specification]
#[verifier::external_body]
pub struct ExEvent<'a>(Event<'a>);

#[verifier::external_type_specification]
#[verifier::external_body]
pub struct ExTag<'a>(Tag<'a>);

#[verifier::external_type_specification]
#[verifier::external_body]
pub struct ExTagEnd(TagEnd);

#[verifier::external_type_specification]
#[verifier::external_body]
pub struct ExCodeBlockKind<'a>(CodeBlockKind<'a>);

#[verifier::external_type_specification]
#[verifier::external_body]
pub struct ExAlignment(Alignment);

#[verifier::external_type_specification]
#[verifier::external_body]
pub struct ExBlockQuoteKind(BlockQuoteKind);

/// Callout kind of a blockquote.
#[derive(Clone, Copy, PartialEq, Eq, Structural, Debug)]
pub enum MdQuote {
    Note,
    Tip,
    Important,
    Warning,
    Caution,
}

/// Column alignment of a table.
#[derive(Clone, Copy, PartialEq, Eq, Structural, Debug)]
pub enum MdAlign {
    Unset,
    Left,
    Center,
    Right,
}

/// An opening tag: the tags with a payload, and the others by kind.
pub enum MdTag {
    Heading(u8),
    BlockQuote(Option<MdQuote>),
    /// Fenced blocks carry their info string.
    CodeBlock(Option<String>),
    List(Option<u64>),
    FootnoteDefinition(String),
    Table(Vec<MdAlign>),
    /// Destination and title.
    Link(String, String),
    Image(String, String),
    Other(MdEnd),
}

/// The kind of a closing tag.
#[derive(Clone, Copy, PartialEq, Eq, Structural, Debug)]
pub enum MdEnd {
    Paragraph,
    Heading,
    BlockQuote,
    CodeBlock,
    HtmlBlock,
    List,
    Item,
    FootnoteDefinition,
    DefinitionList,
    DefinitionListTitle,
    DefinitionListDefinition,
    Table,
    TableHead,
    TableRow,
    TableCell,
    Emphasis,
    Strong,
    Strikethrough,
    Link,
    Image,
    MetadataBlock,
}

/// A parser event.
pub enum MdEvent {
    Start(MdTag),
    End(MdEnd),
    Text(String),
    Code(String),
    InlineMath(String),
    DisplayMath(String),
    Html(String),
    InlineHtml(String),
    FootnoteReference(String),
    SoftBreak,
    HardBreak,
    Rule,
    TaskListMarker(bool),
}

/// Converts a `pulldown_cmark::Event` into the plain event of the same
/// variant, texts as owned strings.
#[verifier::external_body]
fn md_event(ev: Event<'_>) -> MdEvent {
    match ev {
        Start(t) => MdEvent::Start(md_tag(t)),
        End(t) => MdEvent::End(md_end(t)),
        Text(s) => MdEvent::Text(s.to_string()),
        Code(s) => MdEvent::Code(s.to_string()),
        InlineMath(s) => MdEvent::InlineMath(s.to_string()),
        DisplayMath(s) => MdEvent::DisplayMath(s.to_string()),
        Html(s) => MdEvent::Html(s.to_string()),
        InlineHtml(s) => MdEvent::InlineHtml(s.to_string()),
        FootnoteReference(s) => MdEvent::FootnoteReference(s.to_string()),
        SoftBreak => MdEvent::SoftBreak,
        HardBreak => MdEvent::HardBreak,
        Rule => MdEvent::Rule,
        TaskListMarker(b) => MdEvent::TaskListMarker(b),
    }
}

/// Converts a `pulldown_cmark::Tag`: tags with a payload field by field,
/// the others by the kind of their end tag (`Tag::to_end`).
#[verifier::external_body]
fn md_tag(t: Tag<'_>) -> MdTag {
    match t {
        Tag::Heading { level, .. } => MdTag::Heading(level as u8),
        Tag::BlockQuote(k) => MdTag::BlockQuote(k.map(md_quote)),
        Tag::CodeBlock(k) => MdTag::CodeBlock(md_code_kind(k)),
        Tag::List(n) => MdTag::List(n),
        Tag::FootnoteDefinition(l) => MdTag::FootnoteDefinition(l.to_string()),
        Tag::Table(a) => MdTag::Table(a.into_iter().map(md_align).collect()),
        Tag::Link { dest_url, title, .. } => MdTag::Link(dest_url.to_string(), title.to_string()),
        Tag::Image { dest_url, title, .. } => MdTag::Image(dest_url.to_string(), title.to_string()),
        other => MdTag::Other(md_end(other.to_end())),
    }
}

/// Converts a `pulldown_cmark::CodeBlockKind`: the info string of a fenced
/// block, `None` for an indented one.
#[verifier::external_body]
fn md_code_kind(k: CodeBlockKind<'_>) -> Option<String> {
    match k {
        CodeBlockKind::Fenced(l) => Some(l.to_string()),
        CodeBlockKind::Indented => None,
    }
}

/// Converts a `pulldown_cmark::TagEnd` into its kind (payloads dropped).
#[verifier::external_body]
fn md_end(t: TagEnd) -> MdEnd {
    match t {
        TagEnd::Paragraph => MdEnd::Paragraph, TagEnd::Heading(_) => MdEnd::Heading,
        TagEnd::BlockQuote(_) => MdEnd::BlockQuote, TagEnd::CodeBlock => MdEnd::CodeBlock,
        TagEnd::HtmlBlock => MdEnd::HtmlBlock, TagEnd::List(_) => MdEnd::List,
        TagEnd::Item => MdEnd::Item, TagEnd::FootnoteDefinition => MdEnd::FootnoteDefinition,
        TagEnd::DefinitionList => MdEnd::DefinitionList, TagEnd::DefinitionListTitle => MdEnd::DefinitionListTitle,
        TagEnd::DefinitionListDefinition => MdEnd::DefinitionListDefinition, TagEnd::Table => MdEnd::Table,
        TagEnd::TableHead => MdEnd::TableHead, TagEnd::TableRow => MdEnd::TableRow,
        TagEnd::TableCell => MdEnd::TableCell, TagEnd::Emphasis => MdEnd::Emphasis,
        TagEnd::Strong => MdEnd::Strong, TagEnd::Strikethrough => MdEnd::Strikethrough,
        TagEnd::Link => MdEnd::Link, TagEnd::Image => MdEnd::Image,
        TagEnd::MetadataBlock(_) => MdEnd::MetadataBlock,
    }
}

/// Converts a `pulldown_cmark::BlockQuoteKind`.
#[verifier::external_body]
fn md_quote(k: BlockQuoteKind) -> MdQuote {
    match k {
        BlockQuoteKind::Note => MdQuote::Note,
        BlockQuoteKind::Tip => MdQuote::Tip,
        BlockQuoteKind::Important => MdQuote::Important,
        BlockQuoteKind::Warning => MdQuote::Warning,
        BlockQuoteKind::Caution => MdQuote::Caution,
    }
}

/// Converts a `pulldown_cmark::Alignment`.
#[verifier::external_body]
fn md_align(a: Alignment) -> MdAlign {
    match a {
        Alignment::None => MdAlign::Unset,
        Alignment::Left => MdAlign::Left,
        Alignment::Center => MdAlign::Center,
        Alignment::Right => MdAlign::Right,
    }
}

/// The model of an opening tag.
pub enum TagV {
    Heading(u8),
    BlockQuote(Option<MdQuote>),
    CodeBlock(Option<Seq<char>>),
    List(Option<u64>),
    FootnoteDefinition(Seq<char>),
    Table(Seq<MdAlign>),
    Link(Seq<char>, Seq<char>),
    Image(Seq<char>, Seq<char>),
    Other(MdEnd),
}

/// The model of an event.
pub enum EventV {
    Start(TagV),
    End(MdEnd),
    Text(Seq<char>),
    Code(Seq<char>),
    InlineMath(Seq<char>),
    DisplayMath(Seq<char>),
    Html(Seq<char>),
    InlineHtml(Seq<char>),
    FootnoteReference(Seq<char>),
    SoftBreak,
    HardBreak,
    Rule,
    TaskListMarker(bool),
}

pub open spec fn tag_view(t: MdTag) -> TagV {
    match t {
        MdTag::Heading(l) => TagV::Heading(l),
        MdTag::BlockQuote(k) => TagV::BlockQuote(k),
        MdTag::CodeBlock(k) => TagV::CodeBlock(
            match k {
                Some(s) => Some(s@),
                None => None,
            },
        ),
        MdTag::List(n) => TagV::List(n),
        MdTag::FootnoteDefinition(l) => TagV::FootnoteDefinition(l@),
        MdTag::Table(a) => TagV::Table(a@),
        MdTag::Link(u, t) => TagV::Link(u@, t@),
        MdTag::Image(u, t) => TagV::Image(u@, t@),
        MdTag::Other(k) => TagV::Other(k),
    }
}

pub open spec fn event_view(e: MdEvent) -> EventV {
    match e {
        MdEvent::Start(t) => EventV::Start(tag_view(t)),
        MdEvent::End(k) => EventV::End(k),
        MdEvent::Text(s) => EventV::Text(s@),
        MdEvent::Code(s) => EventV::Code(s@),
        MdEvent::InlineMath(s) => EventV::InlineMath(s@),
        MdEvent::DisplayMath(s) => EventV::DisplayMath(s@),
        MdEvent::Html(s) => EventV::Html(s@),
        MdEvent::InlineHtml(s) => EventV::InlineHtml(s@),
        MdEvent::FootnoteReference(s) => EventV::FootnoteReference(s@),
        MdEvent::SoftBreak => EventV::SoftBreak,
        MdEvent::HardBreak => EventV::HardBreak,
        MdEvent::Rule => EventV::Rule,
        MdEvent::TaskListMarker(b) => EventV::TaskListMarker(b),
    }
}

pub open spec fn events_view(v: Seq<MdEvent>) -> Seq<EventV> {
    Seq::new(v.len(), |i: int| event_view(v[i]))
}

/// The events `pulldown_cmark` reports for a text (tables, footnotes,
/// strikethrough, task lists, heading attributes and GFM enabled).
pub uninterp spec fn markdown_events(text: Seq<char>) -> Seq<EventV>;

/// Runs `pulldown_cmark::Parser::new_ext` with tables, footnotes,
/// strikethrough, task lists, heading attributes and GFM enabled, and
/// converts every event. The contract names the result.
#[verifier::external_body]
pub(crate) fn md_parse_events(text: &str) -> (v: Vec<MdEvent>)
    ensures
        events_view(v@) == markdown_events(text@),
{
    let mut opts = Options::empty();
    opts.insert(Options::ENABLE_TABLES);
    opts.insert(Options::ENABLE_FOOTNOTES);
    opts.insert(Options::ENABLE_STRIKETHROUGH);
    opts.insert(Options::ENABLE_TASKLISTS);
    opts.insert(Options::ENABLE_HEADING_ATTRIBUTES);
    opts.insert(Options::ENABLE_GFM);
    Parser::new_ext(text, opts).map(md_event).collect()
}

} // verus!
