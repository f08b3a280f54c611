//! Markdown rendered as styled terminal lines, the terminal's stand-in for
//! a preview pane: pulldown-cmark's event stream is turned into lines of
//! styled spans (headings, emphasis, lists, quotes, code blocks, rules and
//! tables), then word-wrapped to the pane's width.
use vstd::prelude::*;
use crate::text::{chars_of, copy_range, extend_chars, push_repeat, repeat, split_spans, split_spans_from, string_from};
use pulldown_cmark::{Alignment, BlockQuoteKind, CodeBlockKind, CowStr, HeadingLevel, LinkType, MetadataBlockKind, Options, Parser, Tag, TagEnd};
use pulldown_cmark::Event as CmarkEvent;

verus! {

/// How a span is drawn.
#[derive(Clone, Copy, Default, PartialEq, Eq, Debug, Structural)]
pub struct SpanStyle {
    pub bold: bool,
    pub italic: bool,
    pub strike: bool,
    pub inline_code: bool,
    pub code_block: bool,
    pub heading: u8,
    pub dim: bool,
    pub link: bool,
}

/// A run of text in one style.
#[derive(Debug)]
pub struct Span {
    pub text: String,
    pub style: SpanStyle,
}

/// A rendered line.
pub type Line = Vec<Span>;

/// The plain style.
pub open spec fn plain_style() -> SpanStyle {
    SpanStyle { bold: false, italic: false, strike: false, inline_code: false, code_block: false, heading: 0, dim: false, link: false }
}

/// The dimmed style of markers and rules.
pub open spec fn dim_style() -> SpanStyle {
    SpanStyle { dim: true, ..plain_style() }
}

fn style_plain() -> (r: SpanStyle)
    ensures
        r == plain_style(),
{
    SpanStyle { bold: false, italic: false, strike: false, inline_code: false, code_block: false, heading: 0, dim: false, link: false }
}

/// A span's view: its text and style.
pub open spec fn span_view(s: Span) -> (Seq<char>, SpanStyle) {
    (s.text@, s.style)
}

/// A line's view.
pub open spec fn line_view(l: Vec<Span>) -> Seq<(Seq<char>, SpanStyle)> {
    l@.map_values(|s: Span| span_view(s))
}

/// The views of rendered lines.
pub open spec fn lines_view(ls: Seq<Vec<Span>>) -> Seq<Seq<(Seq<char>, SpanStyle)>> {
    ls.map_values(|l: Vec<Span>| line_view(l))
}

// ---------------------------------------------------------------- events

/// The kind of a GitHub-style alert block quote.
#[derive(Debug, Clone, Copy, PartialEq, Eq, Structural)]
pub enum MdQuoteKind {
    Note,
    Tip,
    Important,
    Warning,
    Caution,
}

/// The alignment of a table column (`Unset` when its delimiter row
/// gives none).
#[derive(Debug, Clone, Copy, PartialEq, Eq, Structural)]
pub enum MdAlign {
    Unset,
    Left,
    Center,
    Right,
}

/// The fence style of a metadata block.
#[derive(Debug, Clone, Copy, PartialEq, Eq, Structural)]
pub enum MdMetaKind {
    YamlStyle,
    PlusesStyle,
}

/// How a link or image was written.
#[derive(Debug, Clone, Copy, PartialEq, Eq, Structural)]
pub enum MdLinkType {
    Inline,
    Reference,
    ReferenceUnknown,
    Collapsed,
    CollapsedUnknown,
    Shortcut,
    ShortcutUnknown,
    Autolink,
    Email,
}

/// A link or image: how it was written, where it points, its title and
/// its reference label.
#[derive(Debug)]
pub struct MdLink {
    pub link_type: MdLinkType,
    pub dest_url: String,
    pub title: String,
    pub id: String,
}

/// The start of a Markdown element.
#[derive(Debug)]
pub enum MdTag {
    Paragraph,
    /// A heading: its level from 1 to 6, its id, classes and attributes.
    Heading { level: u8, id: Option<String>, classes: Vec<String>, attrs: Vec<(String, Option<String>)> },
    BlockQuote(Option<MdQuoteKind>),
    /// A code block, with the info string of a fenced one.
    CodeBlock(Option<String>),
    HtmlBlock,
    /// A list, with the first number of an ordered one.
    List(Option<u64>),
    Item,
    FootnoteDefinition(String),
    DefinitionList,
    DefinitionListTitle,
    DefinitionListDefinition,
    /// A table, with the alignment of each column.
    Table(Vec<MdAlign>),
    TableHead,
    TableRow,
    TableCell,
    Emphasis,
    Strong,
    Strikethrough,
    Link(MdLink),
    Image(MdLink),
    MetadataBlock(MdMetaKind),
}

/// The end of a Markdown element.
#[derive(Debug, Clone, Copy, PartialEq, Eq, Structural)]
pub enum MdEnd {
    Paragraph,
    Heading(u8),
    BlockQuote(Option<MdQuoteKind>),
    CodeBlock,
    HtmlBlock,
    /// A list; true for an ordered one.
    List(bool),
    Item,
    FootnoteDefinition,
    DefinitionList,
    DefinitionListTitle,
    DefinitionListDefinition,
    Table,
    TableHead,
    TableRow,
    TableCell,
    Emphasis,
    Strong,
    Strikethrough,
    Link,
    Image,
    MetadataBlock(MdMetaKind),
}

/// A Markdown parse event.
#[derive(Debug)]
pub enum MdEvent {
    Start(MdTag),
    End(MdEnd),
    Text(String),
    Code(String),
    InlineMath(String),
    DisplayMath(String),
    Html(String),
    InlineHtml(String),
    FootnoteReference(String),
    SoftBreak,
    HardBreak,
    Rule,
    TaskListMarker(bool),
}

/// The end of an element as the renderer reads it: the end of a table's
/// head row is the end of a row, and elements it draws nothing for are
/// `Other`.
pub enum EndV {
    Heading,
    Paragraph,
    Emphasis,
    Strong,
    Strikethrough,
    BlockQuote,
    CodeBlock,
    List,
    Item,
    Table,
    TableRow,
    TableCell,
    Other,
}

/// An end tag's view.
pub open spec fn end_view(t: MdEnd) -> EndV {
    match t {
        MdEnd::Heading(_) => EndV::Heading,
        MdEnd::Paragraph => EndV::Paragraph,
        MdEnd::Emphasis => EndV::Emphasis,
        MdEnd::Strong => EndV::Strong,
        MdEnd::Strikethrough => EndV::Strikethrough,
        MdEnd::BlockQuote(_) => EndV::BlockQuote,
        MdEnd::CodeBlock => EndV::CodeBlock,
        MdEnd::List(_) => EndV::List,
        MdEnd::Item => EndV::Item,
        MdEnd::Table => EndV::Table,
        MdEnd::TableHead => EndV::TableRow,
        MdEnd::TableRow => EndV::TableRow,
        MdEnd::TableCell => EndV::TableCell,
        _ => EndV::Other,
    }
}

/// A start tag's view.
pub enum TagV {
    Heading(u8),
    Paragraph,
    Emphasis,
    Strong,
    Strikethrough,
    BlockQuote,
    CodeBlock(Option<Seq<char>>),
    List(Option<u64>),
    Item,
    Table(usize),
    Other,
}

/// An event's view.
pub enum EventV {
    Start(TagV),
    End(EndV),
    Text(Seq<char>),
    Code(Seq<char>),
    SoftBreak,
    HardBreak,
    Rule,
    TaskListMarker(bool),
    Other,
}

pub open spec fn tag_view(t: MdTag) -> TagV {
    match t {
        MdTag::Heading { level, .. } => TagV::Heading(level),
        MdTag::Paragraph => TagV::Paragraph,
        MdTag::Emphasis => TagV::Emphasis,
        MdTag::Strong => TagV::Strong,
        MdTag::Strikethrough => TagV::Strikethrough,
        MdTag::BlockQuote(_) => TagV::BlockQuote,
        MdTag::CodeBlock(l) => TagV::CodeBlock(match l { Some(s) => Some(s@), None => None }),
        MdTag::List(n) => TagV::List(n),
        MdTag::Item => TagV::Item,
        MdTag::Table(a) => TagV::Table(a@.len() as usize),
        _ => TagV::Other,
    }
}

pub open spec fn event_view(e: MdEvent) -> EventV {
    match e {
        MdEvent::Start(t) => EventV::Start(tag_view(t)),
        MdEvent::End(t) => EventV::End(end_view(t)),
        MdEvent::Text(s) => EventV::Text(s@),
        MdEvent::Code(s) => EventV::Code(s@),
        MdEvent::SoftBreak => EventV::SoftBreak,
        MdEvent::HardBreak => EventV::HardBreak,
        MdEvent::Rule => EventV::Rule,
        MdEvent::TaskListMarker(c) => EventV::TaskListMarker(c),
        _ => EventV::Other,
    }
}

pub open spec fn events_view(es: Seq<MdEvent>) -> Seq<EventV> {
    es.map_values(|e: MdEvent| event_view(e))
}

/// The events pulldown-cmark gives for a Markdown source (tables,
/// strikethrough and task lists enabled), as the renderer reads them.
pub uninterp spec fn md_parse(source: Seq<char>) -> Seq<EventV>;

#[verifier::external_type_specification]
#[verifier::external_body]
pub struct ExMdParserEvent<'a>(CmarkEvent<'a>);

#[verifier::external_type_specification]
#[verifier::external_body]
pub struct ExMdParserTag<'a>(pulldown_cmark::Tag<'a>);

#[verifier::external_type_specification]
#[verifier::external_body]
pub struct ExMdParserTagEnd(pulldown_cmark::TagEnd);

#[verifier::external_type_specification]
#[verifier::external_body]
pub struct ExMdCowStr<'a>(pulldown_cmark::CowStr<'a>);

#[verifier::external_type_specification]
#[verifier::external_body]
pub struct ExMdQuoteKind(pulldown_cmark::BlockQuoteKind);

#[verifier::external_type_specification]
#[verifier::external_body]
pub struct ExMdCodeBlockKind<'a>(pulldown_cmark::CodeBlockKind<'a>);

#[verifier::external_type_specification]
#[verifier::external_body]
pub struct ExMdAlignment(pulldown_cmark::Alignment);

#[verifier::external_type_specification]
#[verifier::external_body]
pub struct ExMdMetaKind(pulldown_cmark::MetadataBlockKind);

#[verifier::external_type_specification]
#[verifier::external_body]
pub struct ExMdLinkType(pulldown_cmark::LinkType);

#[verifier::external_type_specification]
#[verifier::external_body]
pub struct ExMdHeadingLevel(pulldown_cmark::HeadingLevel);

/// Parses `source` with `pulldown_cmark::Parser::new_ext`, tables,
/// strikethrough and task lists enabled, and reads each event as the
/// renderer does. Trusted: the result is the named parse of `source`.
#[verifier::external_body]
fn md_events(source: &str) -> (r: Vec<MdEvent>)
    ensures
        events_view(r@) == md_parse(source@),
{
    let mut opts = Options::empty();
    opts.insert(Options::ENABLE_TABLES);
    opts.insert(Options::ENABLE_STRIKETHROUGH);
    opts.insert(Options::ENABLE_TASKLISTS);
    let mut out = Vec::new();
    for e in Parser::new_ext(source, opts) {
        out.push(md_event(e));
    }
    out
}

/// Reads a `pulldown_cmark::Event` as an `MdEvent`, one variant for one.
/// Used by `md_events` only.
#[verifier::external_body]
fn md_event(e: CmarkEvent) -> MdEvent {
    match e {
        CmarkEvent::Start(t) => MdEvent::Start(md_tag(t)),
        CmarkEvent::End(t) => MdEvent::End(md_end(t)),
        CmarkEvent::Text(t) => MdEvent::Text(t.to_string()),
        CmarkEvent::Code(t) => MdEvent::Code(t.to_string()),
        CmarkEvent::SoftBreak => MdEvent::SoftBreak,
        CmarkEvent::HardBreak => MdEvent::HardBreak,
        CmarkEvent::Rule => MdEvent::Rule,
        CmarkEvent::TaskListMarker(checked) => MdEvent::TaskListMarker(checked),
        other => md_event_raw(other),
    }
}

/// Reads the math, HTML and footnote-reference `pulldown_cmark::Event`s as
/// `MdEvent`s, one variant for one. Used by `md_event` only (which hands
/// back here only the other events, which never reach it).
#[verifier::external_body]
fn md_event_raw(e: CmarkEvent) -> MdEvent {
    match e {
        CmarkEvent::InlineMath(t) => MdEvent::InlineMath(t.to_string()),
        CmarkEvent::DisplayMath(t) => MdEvent::DisplayMath(t.to_string()),
        CmarkEvent::Html(t) => MdEvent::Html(t.to_string()),
        CmarkEvent::InlineHtml(t) => MdEvent::InlineHtml(t.to_string()),
        CmarkEvent::FootnoteReference(t) => MdEvent::FootnoteReference(t.to_string()),
        other => md_event(other),
    }
}

/// Reads a `pulldown_cmark::Tag` as an `MdTag`, one variant for one: the
/// block tags here, the other tags in `md_tag_inline` (which
/// hands back here only the block tags, which never reach it).
#[verifier::external_body]
fn md_tag(t: Tag) -> MdTag {
    match t {
        Tag::Paragraph => MdTag::Paragraph,
        Tag::Heading { level, id, classes, attrs } => md_heading(level, id, classes, attrs),
        Tag::BlockQuote(k) => MdTag::BlockQuote(k.map(md_quote_kind)),
        Tag::CodeBlock(k) => MdTag::CodeBlock(md_code_info(k)),
        Tag::HtmlBlock => MdTag::HtmlBlock,
        Tag::List(n) => MdTag::List(n),
        Tag::Item => MdTag::Item,
        Tag::DefinitionList => MdTag::DefinitionList,
        Tag::DefinitionListTitle => MdTag::DefinitionListTitle,
        Tag::DefinitionListDefinition => MdTag::DefinitionListDefinition,
        other => md_tag_inline(other),
    }
}

/// Reads the table, inline, metadata and footnote `pulldown_cmark::Tag`s as
/// `MdTag`s, one variant for one. Used by `md_tag` only.
#[verifier::external_body]
fn md_tag_inline(t: Tag) -> MdTag {
    match t {
        Tag::Table(a) => MdTag::Table(a.into_iter().map(md_align).collect()),
        Tag::TableHead => MdTag::TableHead,
        Tag::TableRow => MdTag::TableRow,
        Tag::TableCell => MdTag::TableCell,
        Tag::Emphasis => MdTag::Emphasis,
        Tag::Strong => MdTag::Strong,
        Tag::Strikethrough => MdTag::Strikethrough,
        Tag::Link { link_type, dest_url, title, id } => MdTag::Link(md_link(link_type, dest_url, title, id)),
        Tag::Image { link_type, dest_url, title, id } => MdTag::Image(md_link(link_type, dest_url, title, id)),
        Tag::MetadataBlock(k) => MdTag::MetadataBlock(md_meta_kind(k)),
        Tag::FootnoteDefinition(l) => MdTag::FootnoteDefinition(l.to_string()),
        other => md_tag(other),
    }
}

/// Reads a `pulldown_cmark::TagEnd` as an `MdEnd`, one variant for one: the
/// block ends here, the table and inline ends in `md_end_inline` (which
/// hands back here only the block ends, which never reach it).
#[verifier::external_body]
fn md_end(t: TagEnd) -> MdEnd {
    match t {
        TagEnd::Paragraph => MdEnd::Paragraph,
        TagEnd::Heading(l) => MdEnd::Heading(md_level(l)),
        TagEnd::BlockQuote(k) => MdEnd::BlockQuote(k.map(md_quote_kind)),
        TagEnd::CodeBlock => MdEnd::CodeBlock,
        TagEnd::HtmlBlock => MdEnd::HtmlBlock,
        TagEnd::List(ordered) => MdEnd::List(ordered),
        TagEnd::Item => MdEnd::Item,
        TagEnd::FootnoteDefinition => MdEnd::FootnoteDefinition,
        TagEnd::DefinitionList => MdEnd::DefinitionList,
        TagEnd::DefinitionListTitle => MdEnd::DefinitionListTitle,
        TagEnd::DefinitionListDefinition => MdEnd::DefinitionListDefinition,
        other => md_end_inline(other),
    }
}

/// Reads the table, inline and metadata `pulldown_cmark::TagEnd`s as
/// `MdEnd`s, one variant for one. Used by `md_end` only.
#[verifier::external_body]
fn md_end_inline(t: TagEnd) -> MdEnd {
    match t {
        TagEnd::Table => MdEnd::Table,
        TagEnd::TableHead => MdEnd::TableHead,
        TagEnd::TableRow => MdEnd::TableRow,
        TagEnd::TableCell => MdEnd::TableCell,
        TagEnd::Emphasis => MdEnd::Emphasis,
        TagEnd::Strong => MdEnd::Strong,
        TagEnd::Strikethrough => MdEnd::Strikethrough,
        TagEnd::Link => MdEnd::Link,
        TagEnd::Image => MdEnd::Image,
        TagEnd::MetadataBlock(k) => MdEnd::MetadataBlock(md_meta_kind(k)),
        other => md_end(other),
    }
}

/// Reads a heading's fields as an `MdTag::Heading`. Used by `md_tag` only.
#[verifier::external_body]
fn md_heading(level: HeadingLevel, id: Option<CowStr>, classes: Vec<CowStr>, attrs: Vec<(CowStr, Option<CowStr>)>) -> MdTag {
    MdTag::Heading {
        level: md_level(level),
        id: id.map(|s| s.to_string()),
        classes: classes.into_iter().map(|s| s.to_string()).collect(),
        attrs: attrs.into_iter().map(|(k, v)| (k.to_string(), v.map(|s| s.to_string()))).collect(),
    }
}

/// Reads a `pulldown_cmark::HeadingLevel` as its number.
#[verifier::external_body]
fn md_level(l: HeadingLevel) -> u8 {
    match l {
        HeadingLevel::H1 => 1,
        HeadingLevel::H2 => 2,
        HeadingLevel::H3 => 3,
        HeadingLevel::H4 => 4,
        HeadingLevel::H5 => 5,
        HeadingLevel::H6 => 6,
    }
}

/// Reads a `pulldown_cmark::BlockQuoteKind` as an `MdQuoteKind`.
#[verifier::external_body]
fn md_quote_kind(k: BlockQuoteKind) -> MdQuoteKind {
    match k {
        BlockQuoteKind::Note => MdQuoteKind::Note,
        BlockQuoteKind::Tip => MdQuoteKind::Tip,
        BlockQuoteKind::Important => MdQuoteKind::Important,
        BlockQuoteKind::Warning => MdQuoteKind::Warning,
        BlockQuoteKind::Caution => MdQuoteKind::Caution,
    }
}

/// Reads a `pulldown_cmark::CodeBlockKind`: the info string of a fenced
/// block, none for an indented one.
#[verifier::external_body]
fn md_code_info(k: CodeBlockKind) -> Option<String> {
    match k {
        CodeBlockKind::Fenced(info) => Some(info.to_string()),
        CodeBlockKind::Indented => None,
    }
}

/// Reads a `pulldown_cmark::Alignment` as an `MdAlign`.
#[verifier::external_body]
fn md_align(a: Alignment) -> MdAlign {
    match a {
        Alignment::None => MdAlign::Unset,
        Alignment::Left => MdAlign::Left,
        Alignment::Center => MdAlign::Center,
        Alignment::Right => MdAlign::Right,
    }
}

/// Reads a `pulldown_cmark::MetadataBlockKind` as an `MdMetaKind`.
#[verifier::external_body]
fn md_meta_kind(k: MetadataBlockKind) -> MdMetaKind {
    match k {
        MetadataBlockKind::YamlStyle => MdMetaKind::YamlStyle,
        MetadataBlockKind::PlusesStyle => MdMetaKind::PlusesStyle,
    }
}

/// Reads a link's or image's fields as an `MdLink`.
#[verifier::external_body]
fn md_link(t: LinkType, dest_url: CowStr, title: CowStr, id: CowStr) -> MdLink {
    MdLink { link_type: md_link_type(t), dest_url: dest_url.to_string(), title: title.to_string(), id: id.to_string() }
}

/// Reads a `pulldown_cmark::LinkType` as an `MdLinkType`.
#[verifier::external_body]
fn md_link_type(t: LinkType) -> MdLinkType {
    match t {
        LinkType::Inline => MdLinkType::Inline,
        LinkType::Reference => MdLinkType::Reference,
        LinkType::ReferenceUnknown => MdLinkType::ReferenceUnknown,
        LinkType::Collapsed => MdLinkType::Collapsed,
        LinkType::CollapsedUnknown => MdLinkType::CollapsedUnknown,
        LinkType::Shortcut => MdLinkType::Shortcut,
        LinkType::ShortcutUnknown => MdLinkType::ShortcutUnknown,
        LinkType::Autolink => MdLinkType::Autolink,
        LinkType::Email => MdLinkType::Email,
    }
}


// ---------------------------------------------------------------- model

/// A rendered line, as a sequence of styled texts.
pub type LineV = Seq<(Seq<char>, SpanStyle)>;

/// A table being collected: finished rows, the row and cell being read,
/// and the number of columns its alignment row declared.
pub struct TableV {
    pub rows: Seq<Seq<Seq<char>>>,
    pub row: Seq<Seq<char>>,
    pub cell: Seq<char>,
    pub cols: nat,
}

/// The renderer's state between events.
pub struct BuildV {
    pub lines: Seq<LineV>,
    pub current: LineV,
    pub bold: nat,
    pub italic: nat,
    pub strike: nat,
    pub heading: u8,
    /// Open lists, innermost last: `None` for a bullet list, `Some(n)` for
    /// an ordered one whose next item is numbered `n`.
    pub lists: Seq<Option<int>>,
    pub quote: nat,
    pub code: bool,
    pub table: Option<TableV>,
}

pub open spec fn initial() -> BuildV {
    BuildV {
        lines: seq![],
        current: seq![],
        bold: 0,
        italic: 0,
        strike: 0,
        heading: 0,
        lists: seq![],
        quote: 0,
        code: false,
        table: None,
    }
}

/// The style of running text: emphasis counters and the heading level.
pub open spec fn style_of(s: BuildV) -> SpanStyle {
    SpanStyle {
        bold: s.bold > 0 || s.heading > 0,
        italic: s.italic > 0,
        strike: s.strike > 0,
        heading: s.heading,
        ..plain_style()
    }
}

/// Appends a span to the current line; an empty text adds nothing.
pub open spec fn push_v(s: BuildV, text: Seq<char>, style: SpanStyle) -> BuildV {
    if text.len() == 0 {
        s
    } else {
        BuildV { current: s.current.push((text, style)), ..s }
    }
}

/// Ends the current line.
pub open spec fn newline_v(s: BuildV) -> BuildV {
    BuildV { lines: s.lines.push(s.current), current: seq![], ..s }
}

/// Ends the current line if it has anything, then makes sure the last line
/// is blank.
pub open spec fn blank_v(s: BuildV) -> BuildV {
    let s1 = if s.current.len() > 0 { newline_v(s) } else { s };
    if s1.lines.len() > 0 && s1.lines.last().len() == 0 {
        s1
    } else {
        BuildV { lines: s1.lines.push(seq![]), ..s1 }
    }
}

pub open spec fn digit(d: nat) -> char {
    seq!['0', '1', '2', '3', '4', '5', '6', '7', '8', '9'][d as int]
}

/// The decimal digits of `n`.
pub open spec fn decimal(n: nat) -> Seq<char>
    decreases n,
{
    if n < 10 {
        seq![digit(n)]
    } else {
        decimal(n / 10).push(digit(n % 10))
    }
}

pub open spec fn code_style() -> SpanStyle {
    SpanStyle { code_block: true, ..plain_style() }
}

pub open spec fn fence() -> Seq<char> {
    seq!['`', '`', '`']
}

pub open spec fn saturating_dec(n: nat) -> nat {
    if n == 0 { 0 } else { (n - 1) as nat }
}

// ---------------------------------------------------------------- builder

struct TableBuilder {
    rows: Vec<Vec<Vec<char>>>,
    current_row: Vec<Vec<char>>,
    current_cell: Vec<char>,
    cols: usize,
}

struct Builder {
    lines: Vec<Vec<Span>>,
    current: Vec<Span>,
    bold: u64,
    italic: u64,
    strike: u64,
    heading: u8,
    list_stack: Vec<Option<u128>>,
    quote_depth: u64,
    in_code_block: bool,
    table: Option<TableBuilder>,
}

pub open spec fn cells_view(r: Seq<Vec<char>>) -> Seq<Seq<char>> {
    r.map_values(|c: Vec<char>| c@)
}

pub open spec fn rows_view(rs: Seq<Vec<Vec<char>>>) -> Seq<Seq<Seq<char>>> {
    rs.map_values(|r: Vec<Vec<char>>| cells_view(r@))
}

spec fn table_view(t: TableBuilder) -> TableV {
    TableV {
        rows: rows_view(t.rows@),
        row: cells_view(t.current_row@),
        cell: t.current_cell@,
        cols: t.cols as nat,
    }
}

spec fn list_view(l: Seq<Option<u128>>) -> Seq<Option<int>> {
    l.map_values(|o: Option<u128>| match o { Some(n) => Some(n as int), None => None })
}

impl Builder {
    spec fn bv(&self) -> BuildV {
        BuildV {
            lines: lines_view(self.lines@),
            current: line_view(self.current),
            bold: self.bold as nat,
            italic: self.italic as nat,
            strike: self.strike as nat,
            heading: self.heading,
            lists: list_view(self.list_stack@),
            quote: self.quote_depth as nat,
            code: self.in_code_block,
            table: match self.table { Some(t) => Some(table_view(t)), None => None },
        }
    }

    fn style(&self) -> (r: SpanStyle)
        ensures
            r == style_of(self.bv()),
    {
        SpanStyle {
            bold: self.bold > 0 || self.heading > 0,
            italic: self.italic > 0,
            strike: self.strike > 0,
            inline_code: false,
            code_block: false,
            heading: self.heading,
            dim: false,
            link: false,
        }
    }

    fn push(&mut self, text: String, style: SpanStyle)
        ensures
            final(self).bv() == push_v(old(self).bv(), text@, style),
    {
        if text.as_str().is_empty() {
            return;
        }
        let ghost before = self.current@;
        let ghost tv = text@;
        self.current.push(Span { text, style });
        proof {
            assert(line_view(self.current) =~= line_view(old(self).current).push((tv, style)));
        }
    }

    fn push_chars(&mut self, text: &[char], style: SpanStyle)
        ensures
            final(self).bv() == push_v(old(self).bv(), text@, style),
    {
        let t = string_from(text);
        self.push(t, style);
    }

    fn newline(&mut self)
        ensures
            final(self).bv() == newline_v(old(self).bv()),
    {
        let mut line: Vec<Span> = Vec::new();
        std::mem::swap(&mut line, &mut self.current);
        self.lines.push(line);
        proof {
            assert(lines_view(self.lines@) =~= lines_view(old(self).lines@).push(line_view(old(self).current)));
            assert(line_view(self.current) =~= Seq::<(Seq<char>, SpanStyle)>::empty());
        }
    }

    fn push_line(&mut self, line: Vec<Span>)
        ensures
            final(self).bv() == (BuildV { lines: old(self).bv().lines.push(line_view(line)), ..old(self).bv() }),
    {
        self.lines.push(line);
        proof {
            assert(lines_view(self.lines@) =~= lines_view(old(self).lines@).push(line_view(line)));
        }
    }

    fn blank_if_needed(&mut self)
        ensures
            final(self).bv() == blank_v(old(self).bv()),
    {
        if self.current.len() > 0 {
            self.newline();
        }
        let n = self.lines.len();
        proof {
            if n > 0 {
                assert(lines_view(self.lines@).last() == line_view(self.lines@[n - 1]));
            }
        }
        if n > 0 && self.lines[n - 1].len() == 0 {
            return;
        }
        let blank: Vec<Span> = Vec::new();
        proof {
            assert(line_view(blank) =~= Seq::<(Seq<char>, SpanStyle)>::empty());
        }
        self.push_line(blank);
    }
}

/// Counters stay within the number `k` of events read so far.
pub open spec fn bounded(s: BuildV, k: nat) -> bool {
    &&& s.bold <= k
    &&& s.italic <= k
    &&& s.strike <= k
    &&& s.quote <= k
    &&& forall|j: int| 0 <= j < s.lists.len() ==> match #[trigger] s.lists[j] {
        Some(n) => n <= u64::MAX + k,
        None => true,
    }
}


// ---------------------------------------------------------------- the steps

/// The text of a list item's marker, and the lists after it: the next
/// number of an ordered list, or a bullet.
pub open spec fn item_v(s: BuildV) -> BuildV {
    let depth: nat = if s.lists.len() > 0 { (s.lists.len() - 1) as nat } else { 0 };
    let indent = repeat(seq![' ', ' '], depth);
    if s.lists.len() > 0 && s.lists.last() is Some {
        let n = s.lists.last()->0;
        let s1 = BuildV { lists: s.lists.update(s.lists.len() - 1, Some(n + 1)), ..s };
        push_v(s1, indent + decimal(n as nat) + seq!['.', ' '], style_of(s))
    } else {
        push_v(s, indent + seq!['\u{2022}', ' '], style_of(s))
    }
}

/// What the start of an element does.
pub open spec fn start_v(s: BuildV, t: TagV) -> BuildV {
    match t {
        TagV::Heading(level) => BuildV { heading: level, ..blank_v(s) },
        TagV::Paragraph => if s.table is None { blank_v(s) } else { s },
        TagV::Emphasis => BuildV { italic: s.italic + 1, ..s },
        TagV::Strong => BuildV { bold: s.bold + 1, ..s },
        TagV::Strikethrough => BuildV { strike: s.strike + 1, ..s },
        TagV::BlockQuote => {
            let s1 = blank_v(s);
            BuildV { quote: s1.quote + 1, ..s1 }
        },
        TagV::CodeBlock(info) => {
            let s1 = BuildV { code: true, ..blank_v(s) };
            match info {
                Some(l) => if l.len() > 0 { newline_v(push_v(s1, fence() + l, dim_style())) } else { s1 },
                None => s1,
            }
        },
        TagV::List(start) => BuildV {
            lists: s.lists.push(match start { Some(n) => Some(n as int), None => None }),
            ..s
        },
        TagV::Item => item_v(s),
        TagV::Table(cols) => BuildV {
            table: Some(TableV { rows: seq![], row: seq![], cell: seq![], cols: cols as nat }),
            ..s
        },
        TagV::Other => s,
    }
}

// ---------------------------------------------------------------- tables

/// The length of the longest row.
pub open spec fn max_row_len(rows: Seq<Seq<Seq<char>>>) -> nat
    decreases rows.len(),
{
    if rows.len() == 0 {
        0
    } else {
        let m = max_row_len(rows.drop_last());
        if rows.last().len() > m { rows.last().len() } else { m }
    }
}

/// The width of column `i`: its widest cell, in chars.
pub open spec fn col_width(rows: Seq<Seq<Seq<char>>>, i: int) -> nat
    decreases rows.len(),
{
    if rows.len() == 0 {
        0
    } else {
        let m = col_width(rows.drop_last(), i);
        let w = if 0 <= i < rows.last().len() { rows.last()[i].len() } else { 0 };
        if w > m { w } else { m }
    }
}

/// The number of columns drawn: the declared ones, or more where a row
/// has more cells.
pub open spec fn table_cols(t: TableV) -> nat {
    if t.cols >= max_row_len(t.rows) { t.cols } else { max_row_len(t.rows) }
}

pub open spec fn table_widths(t: TableV) -> Seq<nat> {
    Seq::new(table_cols(t), |i: int| col_width(t.rows, i))
}

/// Cell `i` of a row, empty where the row is short.
pub open spec fn cell_text(row: Seq<Seq<char>>, i: int) -> Seq<char> {
    if 0 <= i < row.len() { row[i] } else { seq![] }
}

pub open spec fn bold_style(bold: bool) -> SpanStyle {
    SpanStyle { bold: bold, ..plain_style() }
}

pub open spec fn separator() -> Seq<char> {
    seq!['\u{2502}', ' ']
}

/// The spans of the first `k` columns of a row: each cell padded to its
/// column's width and a space, a dim bar between columns.
pub open spec fn row_spans(row: Seq<Seq<char>>, widths: Seq<nat>, k: nat, bold: bool) -> LineV
    decreases k,
{
    if k == 0 {
        seq![]
    } else {
        let i = k - 1;
        let cell = cell_text(row, i);
        let pad: nat = if widths[i] >= cell.len() { (widths[i] - cell.len()) as nat } else { 0 };
        let text = cell + repeat(seq![' '], pad) + seq![' '];
        let sep: LineV = if k < widths.len() { seq![(separator(), dim_style())] } else { seq![] };
        row_spans(row, widths, (k - 1) as nat, bold).push((text, bold_style(bold))) + sep
    }
}

/// The rule under the head row: a run of `─` one longer than each of the
/// first `k` columns, joined by `┼`.
pub open spec fn rule_text(widths: Seq<nat>, k: nat) -> Seq<char>
    decreases k,
{
    if k == 0 {
        seq![]
    } else if k == 1 {
        repeat(seq!['\u{2500}'], widths[0] + 1)
    } else {
        rule_text(widths, (k - 1) as nat) + seq!['\u{253c}'] + repeat(seq!['\u{2500}'], widths[k - 1] + 1)
    }
}

/// The lines of the first `k` rows, the first one bold with the rule under it.
pub open spec fn table_rows(rows: Seq<Seq<Seq<char>>>, widths: Seq<nat>, k: nat) -> Seq<LineV>
    decreases k,
{
    if k == 0 {
        seq![]
    } else {
        let r = k - 1;
        let rest = table_rows(rows, widths, r as nat).push(row_spans(rows[r], widths, widths.len(), r == 0));
        if r == 0 { rest.push(seq![(rule_text(widths, widths.len()), dim_style())]) } else { rest }
    }
}

/// A finished table drawn below the lines, then a blank line.
pub open spec fn emit_v(s: BuildV, t: TableV) -> BuildV {
    BuildV { lines: (s.lines + table_rows(t.rows, table_widths(t), t.rows.len())).push(seq![]), ..s }
}

/// What the end of an element does.
pub open spec fn end_v(s: BuildV, t: EndV) -> BuildV {
    match t {
        EndV::Heading => BuildV { heading: 0, ..newline_v(s) },
        EndV::Paragraph => if s.table is None { newline_v(s) } else { s },
        EndV::Emphasis => BuildV { italic: saturating_dec(s.italic), ..s },
        EndV::Strong => BuildV { bold: saturating_dec(s.bold), ..s },
        EndV::Strikethrough => BuildV { strike: saturating_dec(s.strike), ..s },
        EndV::BlockQuote => {
            let s1 = BuildV { quote: saturating_dec(s.quote), ..s };
            if s1.quote == 0 { blank_v(s1) } else { s1 }
        },
        EndV::CodeBlock => {
            let s1 = newline_v(push_v(BuildV { code: false, ..s }, fence(), dim_style()));
            BuildV { lines: s1.lines.push(seq![]), ..s1 }
        },
        EndV::List => {
            let s1 = if s.lists.len() > 0 { BuildV { lists: s.lists.drop_last(), ..s } } else { s };
            if s1.lists.len() == 0 { blank_v(s1) } else { s1 }
        },
        EndV::Item => newline_v(s),
        EndV::Table => match s.table {
            Some(t) => emit_v(BuildV { table: None, ..s }, t),
            None => s,
        },
        EndV::TableRow => match s.table {
            Some(t) => BuildV { table: Some(TableV { rows: t.rows.push(t.row), row: seq![], ..t }), ..s },
            None => s,
        },
        EndV::TableCell => match s.table {
            Some(t) => BuildV { table: Some(TableV { row: t.row.push(t.cell), cell: seq![], ..t }), ..s },
            None => s,
        },
        EndV::Other => s,
    }
}

// ---------------------------------------------------------------- text

/// The lines of a code block's text: the pieces between newlines, each
/// ending the line before it.
pub open spec fn code_text_v(s: BuildV, t: Seq<char>, pieces: Seq<(int, int)>) -> BuildV
    decreases pieces.len(),
{
    if pieces.len() == 0 {
        s
    } else {
        let s1 = code_text_v(s, t, pieces.drop_last());
        let s2 = if pieces.len() > 1 { newline_v(s1) } else { s1 };
        push_v(s2, t.subrange(pieces.last().0, pieces.last().1), code_style())
    }
}

pub open spec fn quote_bar() -> Seq<char> {
    seq!['\u{258e}', ' ']
}

/// What a text event does: in a table it grows the cell, in a code block it
/// is split into lines, elsewhere it is a span, dim and italic in a quote,
/// whose bars open the line.
pub open spec fn text_v(s: BuildV, t: Seq<char>) -> BuildV {
    match s.table {
        Some(tb) => BuildV { table: Some(TableV { cell: tb.cell + t, ..tb }), ..s },
        None => if s.code {
            code_text_v(s, t, split_spans_from(t, '\n', 0))
        } else {
            let s1 = if s.quote > 0 && s.current.len() == 0 {
                push_v(s, repeat(quote_bar(), s.quote), dim_style())
            } else {
                s
            };
            let st = SpanStyle { dim: s.quote > 0, italic: s.italic > 0 || s.quote > 0, ..style_of(s) };
            push_v(s1, t, st)
        },
    }
}

pub open spec fn task_mark(checked: bool) -> Seq<char> {
    if checked { seq!['[', 'x', ']', ' '] } else { seq!['[', ' ', ']', ' '] }
}

/// A horizontal rule of forty `─`.
pub open spec fn rule_line() -> LineV {
    seq![(repeat(seq!['\u{2500}'], 40), dim_style())]
}

/// What one event does.
pub open spec fn step(s: BuildV, e: EventV) -> BuildV {
    match e {
        EventV::Start(t) => start_v(s, t),
        EventV::End(t) => end_v(s, t),
        EventV::Text(t) => text_v(s, t),
        EventV::Code(t) => push_v(s, t, SpanStyle { inline_code: true, ..style_of(s) }),
        EventV::SoftBreak => push_v(s, seq![' '], style_of(s)),
        EventV::HardBreak => newline_v(s),
        EventV::Rule => {
            let s1 = blank_v(s);
            BuildV { lines: s1.lines.push(rule_line()).push(seq![]), ..s1 }
        },
        EventV::TaskListMarker(checked) => push_v(s, task_mark(checked), style_of(s)),
        EventV::Other => s,
    }
}

/// The state after a run of events.
pub open spec fn run(es: Seq<EventV>) -> BuildV
    decreases es.len(),
{
    if es.len() == 0 {
        initial()
    } else {
        step(run(es.drop_last()), es.last())
    }
}

/// The lines a run of events renders to.
pub open spec fn render_spec(es: Seq<EventV>) -> Seq<LineV> {
    let s = run(es);
    if s.current.len() > 0 { s.lines.push(s.current) } else { s.lines }
}


// ---------------------------------------------------------------- exec helpers

fn dim() -> (r: SpanStyle)
    ensures
        r == dim_style(),
{
    SpanStyle { bold: false, italic: false, strike: false, inline_code: false, code_block: false, heading: 0, dim: true, link: false }
}

fn fence_chars() -> (r: Vec<char>)
    ensures
        r@ == fence(),
{
    let mut r: Vec<char> = Vec::new();
    r.push('`');
    r.push('`');
    r.push('`');
    proof {
        assert(r@ =~= fence());
    }
    r
}

fn pair(a: char, b: char) -> (r: Vec<char>)
    ensures
        r@ == seq![a, b],
{
    let mut r: Vec<char> = Vec::new();
    r.push(a);
    r.push(b);
    proof {
        assert(r@ =~= seq![a, b]);
    }
    r
}

fn single(a: char) -> (r: Vec<char>)
    ensures
        r@ == seq![a],
{
    let mut r: Vec<char> = Vec::new();
    r.push(a);
    proof {
        assert(r@ =~= seq![a]);
    }
    r
}

fn digit_char(d: u8) -> (c: char)
    requires
        d < 10,
    ensures
        c == digit(d as nat),
{
    match d {
        0 => '0',
        1 => '1',
        2 => '2',
        3 => '3',
        4 => '4',
        5 => '5',
        6 => '6',
        7 => '7',
        8 => '8',
        _ => '9',
    }
}

/// Appends the decimal digits of `n`.
pub(crate) fn push_decimal(out: &mut Vec<char>, n: u128)
    ensures
        final(out)@ == old(out)@ + decimal(n as nat),
    decreases n,
{
    if n >= 10 {
        push_decimal(out, n / 10);
    }
    let c = digit_char((n % 10) as u8);
    out.push(c);
    proof {
        if n >= 10 {
            assert(decimal(n as nat) == decimal((n / 10) as nat).push(digit((n % 10) as nat)));
        } else {
            assert(n % 10 == n);
        }
        assert(out@ =~= old(out)@ + decimal(n as nat));
    }
}

impl Builder {
    fn item(&mut self, k: usize)
        requires
            bounded(old(self).bv(), k as nat),
        ensures
            final(self).bv() == item_v(old(self).bv()),
            bounded(final(self).bv(), k as nat + 1),
    {
        let st = self.style();
        let n = self.list_stack.len();
        let depth: u64 = if n > 0 { (n - 1) as u64 } else { 0 };
        let mut text: Vec<char> = Vec::new();
        let two = pair(' ', ' ');
        push_repeat(&mut text, &two, depth);
        let ghost indent = text@;
        if n > 0 {
            match self.list_stack[n - 1] {
                Some(x) => {
                    proof {
                        assert(list_view(self.list_stack@)[n - 1] == Some(x as int));
                    }
                    push_decimal(&mut text, x);
                    text.push('.');
                    text.push(' ');
                    self.list_stack.set(n - 1, Some(x + 1));
                    proof {
                        assert(list_view(self.list_stack@) =~= list_view(old(self).list_stack@).update(
                            n - 1,
                            Some(x as int + 1),
                        ));
                        assert(text@ =~= indent + decimal(x as nat) + seq!['.', ' ']);
                        let l = self.bv().lists;
                        assert forall|j: int| 0 <= j < l.len() implies match #[trigger] l[j] {
                            Some(m) => m <= u64::MAX + k + 1,
                            None => true,
                        } by {
                            if j != n - 1 {
                                assert(l[j] == old(self).bv().lists[j]);
                            }
                        }
                    }
                    self.push_chars(&text, st);
                    return;
                },
                None => {
                    proof {
                        assert(list_view(self.list_stack@)[n - 1] == None::<int>);
                    }
                },
            }
        }
        text.push('\u{2022}');
        text.push(' ');
        proof {
            assert(text@ =~= indent + seq!['\u{2022}', ' ']);
        }
        self.push_chars(&text, st);
    }

    fn start_tag(&mut self, t: &MdTag, k: usize)
        requires
            bounded(old(self).bv(), k as nat),
            k < usize::MAX,
        ensures
            final(self).bv() == start_v(old(self).bv(), tag_view(*t)),
            bounded(final(self).bv(), k as nat + 1),
    {
        match t {
            MdTag::Heading { level, .. } => {
                self.blank_if_needed();
                self.heading = *level;
            },
            MdTag::Paragraph => {
                if self.table.is_none() {
                    self.blank_if_needed();
                }
            },
            MdTag::Emphasis => {
                self.italic = self.italic + 1;
            },
            MdTag::Strong => {
                self.bold = self.bold + 1;
            },
            MdTag::Strikethrough => {
                self.strike = self.strike + 1;
            },
            MdTag::BlockQuote(_) => {
                self.blank_if_needed();
                self.quote_depth = self.quote_depth + 1;
            },
            MdTag::CodeBlock(info) => {
                self.blank_if_needed();
                self.in_code_block = true;
                match info {
                    Some(l) => {
                        if !l.as_str().is_empty() {
                            let mut v = fence_chars();
                            let lc = chars_of(l.as_str());
                            extend_chars(&mut v, &lc);
                            self.push_chars(&v, dim());
                            self.newline();
                        }
                    },
                    None => {},
                }
            },
            MdTag::List(start) => {
                let n: Option<u128> = match start {
                    Some(x) => Some(*x as u128),
                    None => None,
                };
                self.list_stack.push(n);
                proof {
                    assert(list_view(self.list_stack@) =~= list_view(old(self).list_stack@).push(
                        match *start { Some(x) => Some(x as int), None => None },
                    ));
                }
            },
            MdTag::Item => {
                self.item(k);
            },
            MdTag::Table(aligns) => {
                let tb = TableBuilder {
                    rows: Vec::new(),
                    current_row: Vec::new(),
                    current_cell: Vec::new(),
                    cols: aligns.len(),
                };
                proof {
                    assert(rows_view(tb.rows@) =~= Seq::<Seq<Seq<char>>>::empty());
                    assert(cells_view(tb.current_row@) =~= Seq::<Seq<char>>::empty());
                }
                self.table = Some(tb);
            },
            _ => {},
        }
    }
}


impl Builder {
    fn code_text(&mut self, t: &String)
        ensures
            final(self).bv() == code_text_v(old(self).bv(), t@, split_spans_from(t@, '\n', 0)),
            same_counts(final(self).bv(), old(self).bv()),
    {
        let tc = chars_of(t.as_str());
        let spans = split_spans(&tc, '\n');
        let ghost s0 = self.bv();
        let ghost pieces = split_spans_from(tc@, '\n', 0);
        let style = SpanStyle {
            bold: false,
            italic: false,
            strike: false,
            inline_code: false,
            code_block: true,
            heading: 0,
            dim: false,
            link: false,
        };
        let mut j: usize = 0;
        proof {
            assert(pieces.take(0) =~= Seq::<(int, int)>::empty());
        }
        while j < spans.len()
            invariant
                j <= spans@.len(),
                spans@.len() == pieces.len(),
                pieces == split_spans_from(tc@, '\n', 0),
                forall|m: int| 0 <= m < spans@.len() ==> (#[trigger] spans@[m]).0 as int == pieces[m].0
                    && spans@[m].1 as int == pieces[m].1,
                forall|m: int| 0 <= m < spans@.len() ==> (#[trigger] spans@[m]).0 <= spans@[m].1 <= tc@.len(),
                style == code_style(),
                self.bv() == code_text_v(s0, tc@, pieces.take(j as int)),
                same_counts(self.bv(), s0),
            decreases spans@.len() - j,
        {
            if j > 0 {
                self.newline();
            }
            let (a, e) = spans[j];
            let piece = copy_range(&tc, a, e);
            self.push_chars(&piece, style);
            proof {
                assert(pieces.take(j + 1).drop_last() =~= pieces.take(j as int));
                assert(pieces.take(j + 1).last() == pieces[j as int]);
            }
            j = j + 1;
        }
        proof {
            assert(pieces.take(spans@.len() as int) =~= pieces);
        }
    }

    fn text_event(&mut self, t: &String)
        ensures
            final(self).bv() == text_v(old(self).bv(), t@),
            same_counts(final(self).bv(), old(self).bv()),
    {
        if self.table.is_some() {
            let mut tb = self.table.take().unwrap();
            let tc = chars_of(t.as_str());
            extend_chars(&mut tb.current_cell, &tc);
            self.table = Some(tb);
            return;
        }
        if self.in_code_block {
            self.code_text(t);
            return;
        }
        let q = self.quote_depth;
        let st0 = self.style();
        if q > 0 && self.current.len() == 0 {
            let mut bars: Vec<char> = Vec::new();
            let bar = pair('\u{258e}', ' ');
            push_repeat(&mut bars, &bar, q);
            self.push_chars(&bars, dim());
        }
        let st = SpanStyle {
            bold: st0.bold,
            italic: st0.italic || q > 0,
            strike: st0.strike,
            inline_code: false,
            code_block: false,
            heading: st0.heading,
            dim: q > 0,
            link: false,
        };
        self.push(t.clone(), st);
    }
}


/// The counters and open lists of two states agree.
pub open spec fn same_counts(a: BuildV, b: BuildV) -> bool {
    &&& a.bold == b.bold
    &&& a.italic == b.italic
    &&& a.strike == b.strike
    &&& a.quote == b.quote
    &&& a.lists == b.lists
}

pub open spec fn widths_nat(w: Seq<usize>) -> Seq<nat> {
    w.map_values(|x: usize| x as nat)
}

proof fn lemma_col_width_step(rows: Seq<Seq<Seq<char>>>, r: int)
    requires
        0 <= r < rows.len(),
    ensures
        forall|m: int| #[trigger] col_width(rows.take(r + 1), m) == {
            let c = col_width(rows.take(r), m);
            let w = if 0 <= m < rows[r].len() { rows[r][m].len() } else { 0 };
            if w > c { w } else { c }
        },
{
    assert(rows.take(r + 1).drop_last() =~= rows.take(r));
    assert(rows.take(r + 1).last() == rows[r]);
}

/// The spans of one table row.
fn row_line(row: &Vec<Vec<char>>, widths: &Vec<usize>, bold: bool) -> (r: Vec<Span>)
    ensures
        line_view(r) == row_spans(cells_view(row@), widths_nat(widths@), widths@.len() as nat, bold),
{
    let ghost rv = cells_view(row@);
    let ghost wn = widths_nat(widths@);
    let st = SpanStyle {
        bold: bold,
        italic: false,
        strike: false,
        inline_code: false,
        code_block: false,
        heading: 0,
        dim: false,
        link: false,
    };
    let mut line: Vec<Span> = Vec::new();
    let mut i: usize = 0;
    proof {
        assert(line_view(line) =~= row_spans(rv, wn, 0, bold));
    }
    while i < widths.len()
        invariant
            i <= widths@.len(),
            rv == cells_view(row@),
            wn == widths_nat(widths@),
            st == bold_style(bold),
            line_view(line) == row_spans(rv, wn, i as nat, bold),
        decreases widths@.len() - i,
    {
        let mut text: Vec<char> = Vec::new();
        if i < row.len() {
            extend_chars(&mut text, &row[i]);
        }
        let ghost cell = text@;
        proof {
            assert(cell =~= cell_text(rv, i as int));
        }
        let cl = text.len();
        let w = widths[i];
        let pad = if w >= cl { w - cl } else { 0 };
        let sp = single(' ');
        push_repeat(&mut text, &sp, pad as u64);
        text.push(' ');
        proof {
            assert(text@ =~= cell + repeat(seq![' '], pad as nat) + seq![' ']);
        }
        let ghost before = line_view(line);
        line.push(Span { text: string_from(&text), style: st });
        let ghost mid = line_view(line);
        proof {
            assert(mid =~= before.push((cell + repeat(seq![' '], pad as nat) + seq![' '], bold_style(bold))));
        }
        if i + 1 < widths.len() {
            let bar = pair('\u{2502}', ' ');
            line.push(Span { text: string_from(&bar), style: dim() });
            proof {
                assert(line_view(line) =~= mid + seq![(separator(), dim_style())]);
            }
        } else {
            proof {
                assert(line_view(line) =~= mid + Seq::<(Seq<char>, SpanStyle)>::empty());
            }
        }
        i = i + 1;
    }
    line
}

/// The rule under a table's head row.
fn rule_chars(widths: &Vec<usize>) -> (r: Vec<char>)
    ensures
        r@ == rule_text(widths_nat(widths@), widths@.len() as nat),
{
    let ghost wn = widths_nat(widths@);
    let mut r: Vec<char> = Vec::new();
    let dash = single('\u{2500}');
    let mut i: usize = 0;
    proof {
        assert(r@ =~= rule_text(wn, 0));
    }
    while i < widths.len()
        invariant
            i <= widths@.len(),
            wn == widths_nat(widths@),
            dash@ == seq!['\u{2500}'],
            r@ == rule_text(wn, i as nat),
        decreases widths@.len() - i,
    {
        let ghost before = r@;
        if i > 0 {
            r.push('\u{253c}');
        }
        let w = widths[i];
        push_repeat(&mut r, &dash, w as u64);
        r.push('\u{2500}');
        proof {
            assert(repeat(seq!['\u{2500}'], (w + 1) as nat) == repeat(seq!['\u{2500}'], w as nat) + seq!['\u{2500}']);
            if i > 0 {
                assert(r@ =~= before + seq!['\u{253c}'] + repeat(seq!['\u{2500}'], wn[i as int] + 1));
            } else {
                assert(r@ =~= repeat(seq!['\u{2500}'], wn[0] + 1));
            }
        }
        i = i + 1;
    }
    r
}

impl Builder {
    fn emit_table(&mut self, t: TableBuilder)
        ensures
            final(self).bv() == emit_v(old(self).bv(), table_view(t)),
    {
        let ghost tv = table_view(t);
        let ghost rv = tv.rows;
        let nrows = t.rows.len();
        let mut cols = t.cols;
        let mut r: usize = 0;
        proof {
            assert(rv.take(0) =~= Seq::<Seq<Seq<char>>>::empty());
        }
        while r < nrows
            invariant
                r <= nrows,
                nrows == t.rows@.len(),
                tv == table_view(t),
                rv == rows_view(t.rows@),
                cols as nat == (if t.cols >= max_row_len(rv.take(r as int)) {
                    t.cols as nat
                } else {
                    max_row_len(rv.take(r as int))
                }),
            decreases nrows - r,
        {
            if t.rows[r].len() > cols {
                cols = t.rows[r].len();
            }
            proof {
                assert(rv.take(r + 1).drop_last() =~= rv.take(r as int));
                assert(rv.take(r + 1).last() == rv[r as int]);
            }
            r = r + 1;
        }
        proof {
            assert(rv.take(nrows as int) =~= rv);
        }
        let mut widths: Vec<usize> = Vec::new();
        let mut i: usize = 0;
        while i < cols
            invariant
                i <= cols,
                widths@.len() == i,
                forall|m: int| 0 <= m < i ==> widths@[m] == 0,
            decreases cols - i,
        {
            widths.push(0);
            i = i + 1;
        }
        let mut r: usize = 0;
        while r < nrows
            invariant
                r <= nrows,
                nrows == t.rows@.len(),
                rv == rows_view(t.rows@),
                widths@.len() == cols,
                forall|m: int| 0 <= m < cols ==> widths@[m] as nat == col_width(rv.take(r as int), m),
            decreases nrows - r,
        {
            proof {
                lemma_col_width_step(rv, r as int);
            }
            let row = &t.rows[r];
            let mut i: usize = 0;
            while i < row.len()
                invariant
                    r < nrows,
                    nrows == t.rows@.len(),
                    rv == rows_view(t.rows@),
                    *row == t.rows@[r as int],
                    i <= row@.len(),
                    widths@.len() == cols,
                    forall|m: int| 0 <= m < cols ==> widths@[m] as nat == (if m < i {
                        col_width(rv.take(r + 1), m)
                    } else {
                        col_width(rv.take(r as int), m)
                    }),
                    forall|m: int| #[trigger] col_width(rv.take(r + 1), m) == {
                        let c = col_width(rv.take(r as int), m);
                        let w = if 0 <= m < rv[r as int].len() { rv[r as int][m].len() } else { 0 };
                        if w > c { w } else { c }
                    },
                decreases row@.len() - i,
            {
                if i < cols {
                    let cl = row[i].len();
                    proof {
                        assert(rv[r as int][i as int] == row@[i as int]@);
                    }
                    if cl > widths[i] {
                        widths.set(i, cl);
                    }
                }
                i = i + 1;
            }
            proof {
                assert forall|m: int| 0 <= m < cols implies widths@[m] as nat == col_width(rv.take(r + 1), m) by {
                    if m >= row@.len() {
                        assert(col_width(rv.take(r + 1), m) == col_width(rv.take(r as int), m));
                    }
                }
            }
            r = r + 1;
        }
        let ghost wv = table_widths(tv);
        proof {
            assert(widths_nat(widths@) =~= wv);
        }
        let ghost s0 = self.bv();
        let mut ri: usize = 0;
        proof {
            assert(s0.lines + table_rows(rv, wv, 0) =~= s0.lines);
        }
        while ri < nrows
            invariant
                ri <= nrows,
                nrows == t.rows@.len(),
                rv == rows_view(t.rows@),
                widths_nat(widths@) == wv,
                self.bv() == (BuildV { lines: s0.lines + table_rows(rv, wv, ri as nat), ..s0 }),
            decreases nrows - ri,
        {
            let line = row_line(&t.rows[ri], &widths, ri == 0);
            proof {
                assert(rv[ri as int] == cells_view(t.rows@[ri as int]@));
            }
            self.push_line(line);
            if ri == 0 {
                let rule = rule_chars(&widths);
                let mut rl: Vec<Span> = Vec::new();
                rl.push(Span { text: string_from(&rule), style: dim() });
                proof {
                    assert(line_view(rl) =~= seq![(rule_text(wv, wv.len()), dim_style())]);
                }
                self.push_line(rl);
                proof {
                    assert(s0.lines + table_rows(rv, wv, ri as nat + 1) =~= (s0.lines + table_rows(rv, wv, ri as nat)).push(
                        row_spans(rv[ri as int], wv, wv.len(), true),
                    ).push(seq![(rule_text(wv, wv.len()), dim_style())]));
                }
            } else {
                proof {
                    assert(s0.lines + table_rows(rv, wv, ri as nat + 1) =~= (s0.lines + table_rows(rv, wv, ri as nat)).push(
                        row_spans(rv[ri as int], wv, wv.len(), false),
                    ));
                }
            }
            ri = ri + 1;
        }
        let blank: Vec<Span> = Vec::new();
        proof {
            assert(line_view(blank) =~= Seq::<(Seq<char>, SpanStyle)>::empty());
        }
        self.push_line(blank);
    }
}


impl Builder {
    fn end_tag(&mut self, t: MdEnd, k: usize)
        requires
            bounded(old(self).bv(), k as nat),
        ensures
            final(self).bv() == end_v(old(self).bv(), end_view(t)),
            bounded(final(self).bv(), k as nat + 1),
    {
        match t {
            MdEnd::Heading(_) => {
                self.newline();
                self.heading = 0;
            },
            MdEnd::Paragraph => {
                if self.table.is_none() {
                    self.newline();
                }
            },
            MdEnd::Emphasis => {
                if self.italic > 0 {
                    self.italic = self.italic - 1;
                }
            },
            MdEnd::Strong => {
                if self.bold > 0 {
                    self.bold = self.bold - 1;
                }
            },
            MdEnd::Strikethrough => {
                if self.strike > 0 {
                    self.strike = self.strike - 1;
                }
            },
            MdEnd::BlockQuote(_) => {
                if self.quote_depth > 0 {
                    self.quote_depth = self.quote_depth - 1;
                }
                if self.quote_depth == 0 {
                    self.blank_if_needed();
                }
            },
            MdEnd::CodeBlock => {
                self.in_code_block = false;
                let f = fence_chars();
                self.push_chars(&f, dim());
                self.newline();
                let blank: Vec<Span> = Vec::new();
                proof {
                    assert(line_view(blank) =~= Seq::<(Seq<char>, SpanStyle)>::empty());
                }
                self.push_line(blank);
            },
            MdEnd::List(_) => {
                if self.list_stack.len() > 0 {
                    let _ = self.list_stack.pop();
                    proof {
                        assert(list_view(self.list_stack@) =~= list_view(old(self).list_stack@).drop_last());
                    }
                }
                if self.list_stack.len() == 0 {
                    self.blank_if_needed();
                }
            },
            MdEnd::Item => {
                self.newline();
            },
            MdEnd::Table => {
                if self.table.is_some() {
                    let tb = self.table.take().unwrap();
                    self.emit_table(tb);
                }
            },
            MdEnd::TableHead | MdEnd::TableRow => {
                if self.table.is_some() {
                    let mut tb = self.table.take().unwrap();
                    let mut row: Vec<Vec<char>> = Vec::new();
                    std::mem::swap(&mut row, &mut tb.current_row);
                    let ghost before = tb.rows@;
                    tb.rows.push(row);
                    proof {
                        assert(rows_view(tb.rows@) =~= rows_view(before).push(cells_view(row@)));
                        assert(cells_view(tb.current_row@) =~= Seq::<Seq<char>>::empty());
                    }
                    self.table = Some(tb);
                }
            },
            MdEnd::TableCell => {
                if self.table.is_some() {
                    let mut tb = self.table.take().unwrap();
                    let mut cell: Vec<char> = Vec::new();
                    std::mem::swap(&mut cell, &mut tb.current_cell);
                    let ghost before = tb.current_row@;
                    tb.current_row.push(cell);
                    proof {
                        assert(cells_view(tb.current_row@) =~= cells_view(before).push(cell@));
                    }
                    self.table = Some(tb);
                }
            },
            _ => {},
        }
    }
}

/// Renders a stream of Markdown events as styled lines: headings, emphasis,
/// lists with bullets or numbers, quotes with bars, fenced code, rules,
/// task marks and tables with padded columns.
pub fn render_events(events: &Vec<MdEvent>) -> (r: Vec<Line>)
    ensures
        lines_view(r@) == render_spec(events_view(events@)),
{
    let mut b = Builder {
        lines: Vec::new(),
        current: Vec::new(),
        bold: 0,
        italic: 0,
        strike: 0,
        heading: 0,
        list_stack: Vec::new(),
        quote_depth: 0,
        in_code_block: false,
        table: None,
    };
    let ghost ev = events_view(events@);
    proof {
        assert(lines_view(b.lines@) =~= Seq::<LineV>::empty());
        assert(line_view(b.current) =~= Seq::<(Seq<char>, SpanStyle)>::empty());
        assert(list_view(b.list_stack@) =~= Seq::<Option<int>>::empty());
        assert(ev.take(0) =~= Seq::<EventV>::empty());
    }
    let mut i: usize = 0;
    while i < events.len()
        invariant
            i <= events@.len(),
            ev == events_view(events@),
            b.bv() == run(ev.take(i as int)),
            bounded(b.bv(), i as nat),
        decreases events@.len() - i,
    {
        proof {
            assert(ev.take(i + 1).drop_last() =~= ev.take(i as int));
            assert(ev.take(i + 1).last() == event_view(events@[i as int]));
        }
        match &events[i] {
            MdEvent::Start(t) => {
                b.start_tag(t, i);
            },
            MdEvent::End(t) => {
                b.end_tag(*t, i);
            },
            MdEvent::Text(t) => {
                b.text_event(t);
            },
            MdEvent::Code(t) => {
                let st0 = b.style();
                let st = SpanStyle {
                    bold: st0.bold,
                    italic: st0.italic,
                    strike: st0.strike,
                    inline_code: true,
                    code_block: false,
                    heading: st0.heading,
                    dim: false,
                    link: false,
                };
                b.push(t.clone(), st);
            },
            MdEvent::SoftBreak => {
                let st = b.style();
                let sp = single(' ');
                b.push_chars(&sp, st);
            },
            MdEvent::HardBreak => {
                b.newline();
            },
            MdEvent::Rule => {
                b.blank_if_needed();
                let mut bar: Vec<char> = Vec::new();
                let dash = single('\u{2500}');
                push_repeat(&mut bar, &dash, 40);
                let mut rl: Vec<Span> = Vec::new();
                rl.push(Span { text: string_from(&bar), style: dim() });
                proof {
                    assert(line_view(rl) =~= rule_line());
                }
                b.push_line(rl);
                let blank: Vec<Span> = Vec::new();
                proof {
                    assert(line_view(blank) =~= Seq::<(Seq<char>, SpanStyle)>::empty());
                }
                b.push_line(blank);
            },
            MdEvent::TaskListMarker(checked) => {
                let st = b.style();
                let mut m: Vec<char> = Vec::new();
                m.push('[');
                m.push(if *checked { 'x' } else { ' ' });
                m.push(']');
                m.push(' ');
                proof {
                    assert(m@ =~= task_mark(*checked));
                }
                b.push_chars(&m, st);
            },
            _ => {},
        }
        i = i + 1;
    }
    proof {
        assert(ev.take(events@.len() as int) =~= ev);
    }
    if b.current.len() > 0 {
        b.newline();
    }
    b.lines
}

/// Renders Markdown source as styled lines.
pub fn render(source: &str) -> (r: Vec<Line>)
    ensures
        lines_view(r@) == render_spec(md_parse(source@)),
{
    let events = md_events(source);
    render_events(&events)
}


// ---------------------------------------------------------------- wrapping

/// A text's chars, each with the style it is drawn in.
pub open spec fn pair_chars(t: Seq<char>, st: SpanStyle) -> Seq<(char, SpanStyle)> {
    t.map_values(|c: char| (c, st))
}

/// A line's chars, each with its style.
pub open spec fn flat(l: LineV) -> Seq<(char, SpanStyle)>
    decreases l.len(),
{
    if l.len() == 0 {
        seq![]
    } else {
        flat(l.drop_last()) + pair_chars(l.last().0, l.last().1)
    }
}

/// Styled chars gathered back into spans: each maximal run of one style.
pub open spec fn merge_spec(cs: Seq<(char, SpanStyle)>) -> LineV
    decreases cs.len(),
{
    if cs.len() == 0 {
        seq![]
    } else {
        let m = merge_spec(cs.drop_last());
        let c = cs.last().0;
        let st = cs.last().1;
        if m.len() > 0 && m.last().1 == st {
            m.update(m.len() - 1, (m.last().0.push(c), st))
        } else {
            m.push((seq![c], st))
        }
    }
}

/// The last space strictly between `lo` and `hi`.
pub open spec fn last_space(cs: Seq<(char, SpanStyle)>, lo: int, hi: int) -> Option<int>
    decreases hi - lo,
{
    if hi <= lo + 1 {
        None
    } else if cs[hi - 1].0 == ' ' {
        Some(hi - 1)
    } else {
        last_space(cs, lo, hi - 1)
    }
}

/// The first position from `i` on that is not a space.
pub open spec fn skip_spaces(cs: Seq<(char, SpanStyle)>, i: int) -> int
    decreases cs.len() - i,
{
    if i < 0 || i >= cs.len() || cs[i].0 != ' ' {
        i
    } else {
        skip_spaces(cs, i + 1)
    }
}

/// Where a wrapped piece starting at `start` ends: `w` chars on, or back at
/// the last space before that when the text goes on past it.
pub open spec fn seg_end(cs: Seq<(char, SpanStyle)>, w: int, start: int) -> int {
    let end0 = if cs.len() - start > w { start + w } else { cs.len() as int };
    if end0 < cs.len() {
        match last_space(cs, start, end0) {
            Some(p) => p,
            None => end0,
        }
    } else {
        end0
    }
}

/// The pieces a long line is cut into, the spaces at each cut dropped.
pub open spec fn segments(cs: Seq<(char, SpanStyle)>, w: int, start: int) -> Seq<(int, int)>
    decreases cs.len() - start,
{
    if start < 0 || start >= cs.len() || w <= 0 {
        seq![]
    } else {
        let end = seg_end(cs, w, start);
        let next = skip_spaces(cs, end);
        if next <= start || next > cs.len() {
            seq![]
        } else {
            seq![(start, end)] + segments(cs, w, next)
        }
    }
}

/// One line wrapped to width `w`.
pub open spec fn wrap_line(l: LineV, w: nat) -> Seq<LineV> {
    if l.len() == 0 {
        seq![seq![]]
    } else {
        let cs = flat(l);
        if cs.len() <= w {
            seq![l]
        } else {
            segments(cs, w as int, 0).map_values(|p: (int, int)| merge_spec(cs.subrange(p.0, p.1)))
        }
    }
}

/// Lines wrapped to width `w`.
pub open spec fn wrap_spec(ls: Seq<LineV>, w: nat) -> Seq<LineV>
    decreases ls.len(),
{
    if ls.len() == 0 {
        seq![]
    } else {
        wrap_spec(ls.drop_last(), w) + wrap_line(ls.last(), w)
    }
}

/// The width lines are wrapped to: at least ten columns.
pub open spec fn wrap_width(width: nat) -> nat {
    if width >= 10 { width } else { 10 }
}

proof fn lemma_skip_spaces(cs: Seq<(char, SpanStyle)>, i: int)
    requires
        0 <= i,
    ensures
        skip_spaces(cs, i) >= i,
    decreases cs.len() - i,
{
    if i < cs.len() && cs[i].0 == ' ' {
        lemma_skip_spaces(cs, i + 1);
    }
}

proof fn lemma_last_space(cs: Seq<(char, SpanStyle)>, lo: int, hi: int)
    ensures
        last_space(cs, lo, hi) matches Some(p) ==> lo < p < hi,
    decreases hi - lo,
{
    if hi > lo + 1 && cs[hi - 1].0 != ' ' {
        lemma_last_space(cs, lo, hi - 1);
    }
}

/// The chars of `t`, each with style `st`, appended to `out`.
fn push_styled(out: &mut Vec<(char, SpanStyle)>, t: &String, st: SpanStyle)
    ensures
        final(out)@ == old(out)@ + pair_chars(t@, st),
{
    let tc = chars_of(t.as_str());
    let mut i: usize = 0;
    while i < tc.len()
        invariant
            i <= tc@.len(),
            tc@ == t@,
            out@ == old(out)@ + pair_chars(tc@.take(i as int), st),
        decreases tc@.len() - i,
    {
        out.push((tc[i], st));
        i = i + 1;
        proof {
            assert(pair_chars(tc@.take(i as int), st) =~= pair_chars(tc@.take(i - 1), st).push((tc@[i - 1], st)));
            assert(out@ =~= old(out)@ + pair_chars(tc@.take(i as int), st));
        }
    }
    proof {
        assert(tc@.take(tc@.len() as int) =~= tc@);
    }
}

/// A line's chars with their styles.
fn flatten(line: &Vec<Span>) -> (r: Vec<(char, SpanStyle)>)
    ensures
        r@ == flat(line_view(*line)),
{
    let ghost lv = line_view(*line);
    let mut out: Vec<(char, SpanStyle)> = Vec::new();
    let mut j: usize = 0;
    proof {
        assert(lv.take(0) =~= Seq::<(Seq<char>, SpanStyle)>::empty());
    }
    while j < line.len()
        invariant
            j <= line@.len(),
            lv == line_view(*line),
            out@ == flat(lv.take(j as int)),
        decreases line@.len() - j,
    {
        push_styled(&mut out, &line[j].text, line[j].style);
        proof {
            assert(lv.take(j + 1).drop_last() =~= lv.take(j as int));
            assert(lv.take(j + 1).last() == span_view(line@[j as int]));
        }
        j = j + 1;
    }
    proof {
        assert(lv.take(line@.len() as int) =~= lv);
    }
    out
}

/// The chars `cs[lo..hi]` gathered into spans.
fn merge_run(cs: &Vec<(char, SpanStyle)>, lo: usize, hi: usize) -> (r: Vec<Span>)
    requires
        lo <= hi <= cs@.len(),
    ensures
        line_view(r) == merge_spec(cs@.subrange(lo as int, hi as int)),
{
    let mut out: Vec<Span> = Vec::new();
    if lo == hi {
        proof {
            assert(line_view(out) =~= merge_spec(cs@.subrange(lo as int, hi as int)));
        }
        return out;
    }
    let mut text: Vec<char> = Vec::new();
    text.push(cs[lo].0);
    let mut style = cs[lo].1;
    let mut i: usize = lo + 1;
    proof {
        let one = cs@.subrange(lo as int, lo + 1);
        assert(one.drop_last() =~= Seq::<(char, SpanStyle)>::empty());
        assert(merge_spec(one.drop_last()) == Seq::<(Seq<char>, SpanStyle)>::empty());
        assert(one.last() == cs@[lo as int]);
        assert(merge_spec(one) == seq![(seq![cs@[lo as int].0], cs@[lo as int].1)]);
        assert(text@ =~= seq![cs@[lo as int].0]);
        assert(line_view(out).push((text@, style)) =~= merge_spec(one));
    }
    while i < hi
        invariant
            lo < i <= hi <= cs@.len(),
            text@.len() > 0,
            line_view(out).push((text@, style)) == merge_spec(cs@.subrange(lo as int, i as int)),
        decreases hi - i,
    {
        let (c, st) = cs[i];
        let ghost prev = merge_spec(cs@.subrange(lo as int, i as int));
        proof {
            assert(cs@.subrange(lo as int, i + 1).drop_last() =~= cs@.subrange(lo as int, i as int));
            assert(cs@.subrange(lo as int, i + 1).last() == (c, st));
        }
        if st == style {
            text.push(c);
            proof {
                assert(line_view(out).push((text@, style)) =~= prev.update(prev.len() - 1, (prev.last().0.push(c), st)));
            }
        } else {
            let mut fresh: Vec<char> = Vec::new();
            fresh.push(c);
            std::mem::swap(&mut fresh, &mut text);
            let ghost before = line_view(out);
            out.push(Span { text: string_from(&fresh), style });
            style = st;
            proof {
                assert(line_view(out) =~= before.push((fresh@, prev.last().1)));
                assert(text@ =~= seq![c]);
                assert(line_view(out).push((text@, style)) =~= prev.push((seq![c], st)));
            }
        }
        i = i + 1;
    }
    let ghost before = line_view(out);
    out.push(Span { text: string_from(&text), style });
    proof {
        assert(line_view(out) =~= before.push((text@, style)));
    }
    out
}


/// A copy of a line.
fn copy_line(line: &Vec<Span>) -> (r: Vec<Span>)
    ensures
        line_view(r) == line_view(*line),
{
    let mut out: Vec<Span> = Vec::new();
    let mut j: usize = 0;
    while j < line.len()
        invariant
            j <= line@.len(),
            line_view(out) == line_view(*line).take(j as int),
        decreases line@.len() - j,
    {
        let ghost before = line_view(out);
        out.push(Span { text: line[j].text.clone(), style: line[j].style });
        proof {
            assert(line_view(out) =~= before.push(span_view(line@[j as int])));
            assert(line_view(*line).take(j + 1) =~= line_view(*line).take(j as int).push(span_view(line@[j as int])));
        }
        j = j + 1;
    }
    proof {
        assert(line_view(*line).take(line@.len() as int) =~= line_view(*line));
    }
    out
}

/// Appends one line wrapped to width `w`.
fn wrap_one(line: &Vec<Span>, w: usize, out: &mut Vec<Line>)
    requires
        w >= 10,
    ensures
        lines_view(final(out)@) == lines_view(old(out)@) + wrap_line(line_view(*line), w as nat),
{
    let ghost lv = line_view(*line);
    if line.len() == 0 {
        let empty: Vec<Span> = Vec::new();
        let ghost before = lines_view(out@);
        out.push(empty);
        proof {
            assert(line_view(empty) =~= Seq::<(Seq<char>, SpanStyle)>::empty());
            assert(lines_view(out@) =~= before + wrap_line(lv, w as nat));
        }
        return;
    }
    let cs = flatten(line);
    let total = cs.len();
    if total <= w {
        let copy = copy_line(line);
        let ghost before = lines_view(out@);
        out.push(copy);
        proof {
            assert(lines_view(out@) =~= before + wrap_line(lv, w as nat));
        }
        return;
    }
    let ghost segs = segments(cs@, w as int, 0);
    let ghost f = |p: (int, int)| merge_spec(cs@.subrange(p.0, p.1));
    let ghost base = lines_view(old(out)@);
    let ghost mut done: Seq<(int, int)> = seq![];
    let mut start: usize = 0;
    proof {
        assert(lines_view(out@) =~= base + done.map_values(f));
        assert(segs =~= done + segments(cs@, w as int, 0));
    }
    while start < total
        invariant
            start <= total,
            total == cs@.len(),
            w >= 10,
            segs == segments(cs@, w as int, 0),
            f == (|p: (int, int)| merge_spec(cs@.subrange(p.0, p.1))),
            base == lines_view(old(out)@),
            segs == done + segments(cs@, w as int, start as int),
            lines_view(out@) == base + done.map_values(f),
        decreases total - start,
    {
        let mut end: usize = if total - start > w { start + w } else { total };
        let ghost end0 = end as int;
        if end < total {
            let mut p: usize = end;
            while p > start + 1 && cs[p - 1].0 != ' '
                invariant
                    start < end0 <= total,
                    start + 1 <= p <= end0,
                    total == cs@.len(),
                    last_space(cs@, start as int, end0) == last_space(cs@, start as int, p as int),
                decreases p,
            {
                p = p - 1;
            }
            if p > start + 1 {
                end = p - 1;
            }
        }
        proof {
            lemma_last_space(cs@, start as int, end0);
            assert(end as int == seg_end(cs@, w as int, start as int));
        }
        let line_out = merge_run(&cs, start, end);
        let ghost seg = (start as int, end as int);
        let ghost before = lines_view(out@);
        out.push(line_out);
        let ghost old_start = start as int;
        start = end;
        while start < total && cs[start].0 == ' '
            invariant
                end <= start <= total,
                total == cs@.len(),
                skip_spaces(cs@, start as int) == skip_spaces(cs@, end as int),
            decreases total - start,
        {
            start = start + 1;
        }
        proof {
            lemma_skip_spaces(cs@, end as int);
            assert(skip_spaces(cs@, start as int) == start as int);
            assert(segments(cs@, w as int, old_start) == seq![seg] + segments(cs@, w as int, start as int));
            assert(lines_view(out@) =~= before.push(line_view(line_out)));
            assert(f(seg) == merge_spec(cs@.subrange(seg.0, seg.1)));
            done = done.push(seg);
            assert(segs =~= done + segments(cs@, w as int, start as int));
            assert(done.map_values(f) =~= done.drop_last().map_values(f).push(f(seg)));
            assert(lines_view(out@) =~= base + done.map_values(f));
        }
    }
    proof {
        assert(segments(cs@, w as int, start as int) =~= Seq::<(int, int)>::empty());
        assert(done =~= segs);
        assert(wrap_line(lv, w as nat) == segs.map_values(f));
    }
}

/// Word-wraps rendered lines to `width` columns (at least ten), keeping
/// each char's style across a break: a long line is cut at the last space
/// before the limit, or at the limit where a run has no space, and the
/// spaces at a cut are dropped.
pub fn wrap_lines(lines: &Vec<Line>, width: usize) -> (r: Vec<Line>)
    ensures
        lines_view(r@) == wrap_spec(lines_view(lines@), wrap_width(width as nat)),
{
    let w: usize = if width >= 10 { width } else { 10 };
    let ghost lv = lines_view(lines@);
    let mut out: Vec<Line> = Vec::new();
    let mut i: usize = 0;
    proof {
        assert(lv.take(0) =~= Seq::<LineV>::empty());
        assert(lines_view(out@) =~= Seq::<LineV>::empty());
    }
    while i < lines.len()
        invariant
            i <= lines@.len(),
            w == wrap_width(width as nat),
            lv == lines_view(lines@),
            lines_view(out@) == wrap_spec(lv.take(i as int), w as nat),
        decreases lines@.len() - i,
    {
        wrap_one(&lines[i], w, &mut out);
        proof {
            assert(lv.take(i + 1).drop_last() =~= lv.take(i as int));
            assert(lv.take(i + 1).last() == line_view(lines@[i as int]));
        }
        i = i + 1;
    }
    proof {
        assert(lv.take(lines@.len() as int) =~= lv);
    }
    out
}


// ---------------------------------------------------------------- laws

/// Gathering styled chars into spans loses and reorders nothing: the
/// spans, read char by char, are the chars again, each with its style.
pub proof fn law_merge_keeps_styled_chars(cs: Seq<(char, SpanStyle)>)
    ensures
        flat(merge_spec(cs)) == cs,
    decreases cs.len(),
{
    if cs.len() > 0 {
        let d = cs.drop_last();
        law_merge_keeps_styled_chars(d);
        let m = merge_spec(d);
        let c = cs.last().0;
        let st = cs.last().1;
        if m.len() > 0 && m.last().1 == st {
            let u = m.update(m.len() - 1, (m.last().0.push(c), st));
            assert(u.drop_last() =~= m.drop_last());
            assert(u.last() == (m.last().0.push(c), st));
            assert(pair_chars(m.last().0.push(c), st) =~= pair_chars(m.last().0, st).push((c, st)));
            assert(flat(u) =~= flat(m).push((c, st)));
        } else {
            let u = m.push((seq![c], st));
            assert(u.drop_last() =~= m);
            assert(pair_chars(seq![c], st) =~= seq![(c, st)]);
            assert(flat(u) =~= flat(m).push((c, st)));
        }
        assert(d.push(cs.last()) =~= cs);
    }
}

/// The pieces a long line is cut into are non-empty, in order, and none is
/// wider than the width.
pub proof fn law_pieces_fit(cs: Seq<(char, SpanStyle)>, w: int, start: int)
    requires
        w >= 1,
        0 <= start,
    ensures
        forall|k: int| 0 <= k < segments(cs, w, start).len() ==> {
            let p = #[trigger] segments(cs, w, start)[k];
            start <= p.0 < p.1 <= cs.len() && p.1 - p.0 <= w
        },
    decreases cs.len() - start,
{
    if start < cs.len() {
        let end = seg_end(cs, w, start);
        let end0 = if cs.len() - start > w { start + w } else { cs.len() as int };
        lemma_last_space(cs, start, end0);
        let next = skip_spaces(cs, end);
        lemma_skip_spaces(cs, end);
        if !(next <= start || next > cs.len()) {
            law_pieces_fit(cs, w, next);
            let all = segments(cs, w, start);
            assert forall|k: int| 0 <= k < all.len() implies {
                let p = #[trigger] all[k];
                start <= p.0 < p.1 <= cs.len() && p.1 - p.0 <= w
            } by {
                if k > 0 {
                    assert(all[k] == segments(cs, w, next)[k - 1]);
                }
            }
        }
    }
}

/// Wrapping fits the width: every line that wrapping makes from a line is
/// at most `w` chars wide (at least one column).
pub proof fn law_wrapped_lines_fit(l: LineV, w: nat)
    requires
        w >= 1,
    ensures
        forall|k: int| 0 <= k < wrap_line(l, w).len() ==> #[trigger] flat(wrap_line(l, w)[k]).len() <= w,
{
    let cs = flat(l);
    if l.len() > 0 && cs.len() > w {
        law_pieces_fit(cs, w as int, 0);
        let segs = segments(cs, w as int, 0);
        assert forall|k: int| 0 <= k < wrap_line(l, w).len() implies #[trigger] flat(wrap_line(l, w)[k]).len() <= w by {
            let p = segs[k];
            law_merge_keeps_styled_chars(cs.subrange(p.0, p.1));
        }
    } else if l.len() == 0 {
        assert(flat(seq![]) == Seq::<(char, SpanStyle)>::empty());
    }
}

// ---------------------------------------------------------------- file kind

pub open spec fn md_ext() -> Seq<char> {
    seq!['m', 'd']
}

pub open spec fn markdown_ext() -> Seq<char> {
    seq!['m', 'a', 'r', 'k', 'd', 'o', 'w', 'n']
}

/// Whether a file name marks a Markdown file: its extension is `md` or
/// `markdown`, in any ASCII case.
pub fn is_markdown_name(file_name: &str) -> (r: bool)
    ensures
        r == match crate::language::extension_spec(file_name@) {
            Some(e) => crate::text::ascii_lower_seq(e) == md_ext() || crate::text::ascii_lower_seq(e) == markdown_ext(),
            None => false,
        },
{
    let v = chars_of(file_name);
    let dots = chars_of("..");
    proof {
        reveal_strlit("..");
    }
    if crate::text::chars_eq(&v, &dots) {
        return false;
    }
    match crate::text::find_last_char(&v, '.') {
        Some(i) => {
            if i == 0 {
                return false;
            }
            let n = v.len();
            let ext = copy_range(&v, i + 1, n);
            let mut md: Vec<char> = Vec::new();
            md.push('m');
            md.push('d');
            let mut long: Vec<char> = Vec::new();
            long.push('m');
            long.push('a');
            long.push('r');
            long.push('k');
            long.push('d');
            long.push('o');
            long.push('w');
            long.push('n');
            proof {
                assert(md@ =~= md_ext());
                assert(long@ =~= markdown_ext());
                assert(crate::text::ascii_lower_seq(md_ext()) =~= md_ext());
                assert(crate::text::ascii_lower_seq(markdown_ext()) =~= markdown_ext());
            }
            crate::text::eq_ignore_ascii_case(&ext, &md) || crate::text::eq_ignore_ascii_case(&ext, &long)
        },
        None => false,
    }
}

// ---------------------------------------------------------------- preview

/// A Markdown preview pane: the rendered, wrapped lines and a scroll
/// offset, remembering the buffer edit and the width they were made for.
pub struct Preview {
    pub lines: Vec<Line>,
    pub scroll: usize,
    seq: Option<u64>,
    width: Option<usize>,
}

/// The scroll offset kept within `n` lines.
pub open spec fn clamp_scroll(scroll: usize, n: nat) -> usize {
    let last: int = if n > 0 { n - 1 } else { 0 };
    if scroll <= last { scroll } else { last as usize }
}

impl Preview {
    /// The rendered lines.
    pub closed spec fn shown(&self) -> Seq<Vec<Span>> {
        self.lines@
    }

    /// The scroll offset.
    pub closed spec fn offset(&self) -> usize {
        self.scroll
    }

    /// The buffer edit the lines were rendered for.
    pub closed spec fn rendered_seq(&self) -> Option<u64> {
        self.seq
    }

    /// The width the lines were wrapped to.
    pub closed spec fn rendered_width(&self) -> Option<usize> {
        self.width
    }

    /// Whether the lines are stale for this edit and width.
    pub open spec fn stale(&self, seq: u64, width: usize) -> bool {
        self.rendered_seq() != Some(seq) || self.rendered_width() != Some(width)
    }

    pub fn new() -> (p: Preview)
        ensures
            p.shown().len() == 0,
            p.offset() == 0,
            p.rendered_seq() is None,
            p.rendered_width() is None,
    {
        Preview { lines: Vec::new(), scroll: 0, seq: None, width: None }
    }

    /// Whether `refresh` would render anything for this edit and width.
    pub fn needs_refresh(&self, seq: u64, width: usize) -> (r: bool)
        ensures
            r == self.stale(seq, width),
    {
        let same_seq = match self.seq {
            Some(s) => s == seq,
            None => false,
        };
        let same_width = match self.width {
            Some(w) => w == width,
            None => false,
        };
        !same_seq || !same_width
    }

    /// Renders and wraps `text` again when the edit or the width changed
    /// since the last render (the wrap is part of the lines); otherwise
    /// nothing changes. The scroll offset stays within the new lines.
    pub fn refresh(&mut self, text: &str, seq: u64, width: usize)
        ensures
            !old(self).stale(seq, width) ==> final(self).shown() == old(self).shown()
                && final(self).offset() == old(self).offset()
                && final(self).rendered_seq() == old(self).rendered_seq()
                && final(self).rendered_width() == old(self).rendered_width(),
            old(self).stale(seq, width) ==> lines_view(final(self).shown()) == wrap_spec(
                render_spec(md_parse(text@)),
                wrap_width(width as nat),
            ) && final(self).offset() == clamp_scroll(old(self).offset(), final(self).shown().len())
                && final(self).rendered_seq() == Some(seq)
                && final(self).rendered_width() == Some(width),
    {
        if !self.needs_refresh(seq, width) {
            return;
        }
        self.seq = Some(seq);
        self.width = Some(width);
        let rendered = render(text);
        self.lines = wrap_lines(&rendered, width);
        let n = self.lines.len();
        let last = if n > 0 { n - 1 } else { 0 };
        if self.scroll > last {
            self.scroll = last;
        }
    }
}


// ---------------------------------------------------------------- laws

/// No event but the end of a strong span lowers the count of open strong
/// spans.
proof fn lemma_code_text_bold(s: BuildV, t: Seq<char>, pieces: Seq<(int, int)>)
    ensures
        code_text_v(s, t, pieces).bold == s.bold,
    decreases pieces.len(),
{
    if pieces.len() > 0 {
        lemma_code_text_bold(s, t, pieces.drop_last());
    }
}

proof fn lemma_step_keeps_bold(s: BuildV, e: EventV)
    requires
        e != EventV::End(EndV::Strong),
    ensures
        step(s, e).bold >= s.bold,
{
    if let EventV::Text(t) = e {
        lemma_code_text_bold(s, t, split_spans_from(t, '\n', 0));
    }
}

proof fn lemma_run_keeps_bold(pre: Seq<EventV>, mid: Seq<EventV>)
    requires
        forall|k: int| 0 <= k < mid.len() ==> #[trigger] mid[k] != EventV::End(EndV::Strong),
    ensures
        run(pre + mid).bold >= run(pre).bold,
    decreases mid.len(),
{
    if mid.len() == 0 {
        assert(pre + mid =~= pre);
    } else {
        let m0 = mid.drop_last();
        lemma_run_keeps_bold(pre, m0);
        assert((pre + mid).drop_last() =~= pre + m0);
        lemma_step_keeps_bold(run(pre + m0), mid.last());
    }
}

/// Text inside `**strong**` renders bold: after a strong span starts, and
/// until it ends, every piece of running text (outside tables and code
/// blocks) is pushed as one span with the bold style, whatever other
/// elements open or close in between.
pub proof fn law_strong_text_is_bold(pre: Seq<EventV>, mid: Seq<EventV>, t: Seq<char>)
    requires
        t.len() > 0,
        forall|k: int| 0 <= k < mid.len() ==> #[trigger] mid[k] != EventV::End(EndV::Strong),
        run(pre.push(EventV::Start(TagV::Strong)) + mid).table is None,
        !run(pre.push(EventV::Start(TagV::Strong)) + mid).code,
    ensures
        ({
            let s0 = run(pre.push(EventV::Start(TagV::Strong)) + mid);
            let s = run((pre.push(EventV::Start(TagV::Strong)) + mid).push(EventV::Text(t)));
            &&& s.current.len() == s0.current.len() + (if s0.quote > 0 && s0.current.len() == 0 { 2int } else { 1int })
            &&& s.current.last().0 == t
            &&& s.current.last().1.bold
        }),
{
    let p1 = pre.push(EventV::Start(TagV::Strong));
    assert(p1.drop_last() =~= pre);
    assert(run(p1).bold == run(pre).bold + 1);
    lemma_run_keeps_bold(p1, mid);
    let all = (p1 + mid).push(EventV::Text(t));
    assert(all.drop_last() =~= p1 + mid);
}


proof fn lemma_code_text_counts(s: BuildV, t: Seq<char>, pieces: Seq<(int, int)>)
    ensures
        code_text_v(s, t, pieces).italic == s.italic,
        code_text_v(s, t, pieces).strike == s.strike,
    decreases pieces.len(),
{
    if pieces.len() > 0 {
        lemma_code_text_counts(s, t, pieces.drop_last());
    }
}

proof fn lemma_run_keeps_emphasis(pre: Seq<EventV>, mid: Seq<EventV>)
    ensures
        (forall|k: int| 0 <= k < mid.len() ==> #[trigger] mid[k] != EventV::End(EndV::Emphasis)) ==> run(pre + mid).italic >= run(pre).italic,
        (forall|k: int| 0 <= k < mid.len() ==> #[trigger] mid[k] != EventV::End(EndV::Strikethrough)) ==> run(pre + mid).strike >= run(pre).strike,
    decreases mid.len(),
{
    if mid.len() == 0 {
        assert(pre + mid =~= pre);
    } else {
        let m0 = mid.drop_last();
        lemma_run_keeps_emphasis(pre, m0);
        assert((pre + mid).drop_last() =~= pre + m0);
        let s = run(pre + m0);
        if let EventV::Text(t) = mid.last() {
            lemma_code_text_counts(s, t, split_spans_from(t, '\n', 0));
        }
        if forall|k: int| 0 <= k < mid.len() ==> #[trigger] mid[k] != EventV::End(EndV::Emphasis) {
            assert forall|k: int| 0 <= k < m0.len() implies #[trigger] m0[k] != EventV::End(EndV::Emphasis) by {
                assert(m0[k] == mid[k]);
            }
            assert(mid[mid.len() - 1] != EventV::End(EndV::Emphasis));
        }
        if forall|k: int| 0 <= k < mid.len() ==> #[trigger] mid[k] != EventV::End(EndV::Strikethrough) {
            assert forall|k: int| 0 <= k < m0.len() implies #[trigger] m0[k] != EventV::End(EndV::Strikethrough) by {
                assert(m0[k] == mid[k]);
            }
            assert(mid[mid.len() - 1] != EventV::End(EndV::Strikethrough));
        }
    }
}

/// Text inside `*emphasis*` renders italic, and text inside `~~strike~~`
/// struck through: after such a span starts, and until it ends, every
/// piece of running text (outside tables and code blocks) is pushed with
/// that style.
pub proof fn law_emphasis_text_is_styled(pre: Seq<EventV>, tag: TagV, mid: Seq<EventV>, t: Seq<char>)
    requires
        t.len() > 0,
        tag == TagV::Emphasis || tag == TagV::Strikethrough,
        forall|k: int| 0 <= k < mid.len() ==> #[trigger] mid[k] != EventV::End(if tag == TagV::Emphasis { EndV::Emphasis } else { EndV::Strikethrough }),
        run(pre.push(EventV::Start(tag)) + mid).table is None,
        !run(pre.push(EventV::Start(tag)) + mid).code,
    ensures
        ({
            let s = run((pre.push(EventV::Start(tag)) + mid).push(EventV::Text(t)));
            &&& s.current.last().0 == t
            &&& tag == TagV::Emphasis ==> s.current.last().1.italic
            &&& tag == TagV::Strikethrough ==> s.current.last().1.strike
        }),
{
    let p1 = pre.push(EventV::Start(tag));
    assert(p1.drop_last() =~= pre);
    lemma_run_keeps_emphasis(p1, mid);
    let all = (p1 + mid).push(EventV::Text(t));
    assert(all.drop_last() =~= p1 + mid);
}

} // verus!
