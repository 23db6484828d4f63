//! Rich-text model of a Markdown document: inline spans, blocks, and the
//! helpers over them (plain text, heading slugs).

use vstd::prelude::*;
pub use crate::md_doc::{parse, parse_events};

verus! {

/// Text styling flags for inline spans.
#[derive(Clone, Copy, PartialEq, Eq, Structural, Debug)]
pub struct Style {
    pub bold: bool,
    pub italic: bool,
    pub strike: bool,
    pub code: bool,
}

impl Default for Style {
    fn default() -> (s: Style)
        ensures
            s == plain_style(),
    {
        Style { bold: false, italic: false, strike: false, code: false }
    }
}

/// No styling.
pub open spec fn plain_style() -> Style {
    Style { bold: false, italic: false, strike: false, code: false }
}

/// An inline run.
#[derive(Debug)]
pub enum Span {
    Text { text: String, style: Style },
    /// Inline code.
    Code { text: String, style: Style },
    /// A link; the inner spans keep their styling.
    Link { url: String, title: Option<String>, inner: Vec<Span> },
    /// An image; `width`/`height` hold the raw HTML attribute values, when given.
    Image { url: String, alt: String, title: Option<String>, width: Option<String>, height: Option<String> },
    /// Hard line break inside a paragraph.
    LineBreak,
    /// `[^label]` reference.
    FootnoteRef { label: String },
    /// `$...$` math.
    Math { text: String },
}

/// The characters of an optional string.
pub open spec fn opt_view(o: Option<String>) -> Option<Seq<char>> {
    match o {
        Some(s) => Some(s@),
        None => None,
    }
}

/// The model of a span.
pub enum SpanV {
    Text(Seq<char>, Style),
    Code(Seq<char>, Style),
    Link(Seq<char>, Option<Seq<char>>, Seq<SpanV>),
    Image(Seq<char>, Seq<char>, Option<Seq<char>>, Option<Seq<char>>, Option<Seq<char>>),
    LineBreak,
    FootnoteRef(Seq<char>),
    Math(Seq<char>),
}

/// The model of a span.
pub open spec fn span_view(s: Span) -> SpanV
    decreases s, 1nat,
{
    match s {
        Span::Text { text, style } => SpanV::Text(text@, style),
        Span::Code { text, style } => SpanV::Code(text@, style),
        Span::Link { url, title, inner } => SpanV::Link(url@, opt_view(title), spans_view(inner@)),
        Span::Image { url, alt, title, width, height } => SpanV::Image(
            url@,
            alt@,
            opt_view(title),
            opt_view(width),
            opt_view(height),
        ),
        Span::LineBreak => SpanV::LineBreak,
        Span::FootnoteRef { label } => SpanV::FootnoteRef(label@),
        Span::Math { text } => SpanV::Math(text@),
    }
}

/// The models of a run of spans.
pub open spec fn spans_view(v: Seq<Span>) -> Seq<SpanV>
    decreases v, 0nat,
{
    if v.len() == 0 {
        Seq::empty()
    } else {
        seq![span_view(v[0])] + spans_view(v.drop_first())
    }
}

/// A blockquote variant (GFM callouts such as `[!NOTE]`).
#[derive(Clone, Copy, PartialEq, Eq, Structural, Debug)]
pub enum QuoteKind {
    Note,
    Tip,
    Important,
    Warning,
    Caution,
    Plain,
}

impl QuoteKind {
    /// The callout's title, `None` for a plain quote.
    pub fn label(&self) -> (r: Option<&'static str>)
        ensures
            match *self {
                QuoteKind::Plain => r is None,
                QuoteKind::Note => r == Some("NOTE"),
                QuoteKind::Tip => r == Some("TIP"),
                QuoteKind::Important => r == Some("IMPORTANT"),
                QuoteKind::Warning => r == Some("WARNING"),
                QuoteKind::Caution => r == Some("CAUTION"),
            },
    {
        match self {
            QuoteKind::Plain => None,
            QuoteKind::Note => Some("NOTE"),
            QuoteKind::Tip => Some("TIP"),
            QuoteKind::Important => Some("IMPORTANT"),
            QuoteKind::Warning => Some("WARNING"),
            QuoteKind::Caution => Some("CAUTION"),
        }
    }
}

/// Column alignment of a rendered table.
#[derive(Clone, Copy, PartialEq, Eq, Structural, Debug)]
pub enum ColAlign {
    Left,
    Center,
    Right,
    Unset,
}

/// A list item: its task box state, if any, and its blocks.
pub struct ListItem {
    pub checked: Option<bool>,
    pub blocks: Vec<Block>,
}

/// A table: column alignments, header cells, body rows.
pub struct Table {
    pub aligns: Vec<ColAlign>,
    pub header: Vec<Vec<Span>>,
    pub rows: Vec<Vec<Vec<Span>>>,
}

/// A block of the document.
pub enum Block {
    Heading { level: u8, spans: Vec<Span> },
    Para(Vec<Span>),
    BlockQuote { kind: QuoteKind, items: Vec<Block> },
    List { ordered: bool, items: Vec<ListItem> },
    CodeBlock { lang: String, code: String },
    Table(Table),
    Rule,
    Html(String),
    FootnoteDef { label: String, blocks: Vec<Block> },
}

/// A parsed document.
pub struct Doc {
    pub blocks: Vec<Block>,
    /// `(level, plain text, slug)` of every heading, for the outline.
    pub toc: Vec<(u8, String, String)>,
    /// Footnote definitions, rendered at the end.
    pub footnotes: Vec<(String, Vec<Block>)>,
}

/// The model of a block.
pub enum BlockV {
    Heading(u8, Seq<SpanV>),
    Para(Seq<SpanV>),
    BlockQuote(QuoteKind, Seq<BlockV>),
    List(bool, Seq<(Option<bool>, Seq<BlockV>)>),
    CodeBlock(Seq<char>, Seq<char>),
    Table(Seq<ColAlign>, Seq<Seq<SpanV>>, Seq<Seq<Seq<SpanV>>>),
    Rule,
    Html(Seq<char>),
    FootnoteDef(Seq<char>, Seq<BlockV>),
}

/// The models of table cells.
pub open spec fn cells_spans_view(v: Seq<Vec<Span>>) -> Seq<Seq<SpanV>> {
    Seq::new(v.len(), |i: int| spans_view(v[i]@))
}

/// The models of table rows.
pub open spec fn rows_spans_view(v: Seq<Vec<Vec<Span>>>) -> Seq<Seq<Seq<SpanV>>> {
    Seq::new(v.len(), |i: int| cells_spans_view(v[i]@))
}

/// The model of a block.
pub open spec fn block_view(b: Block) -> BlockV
    decreases b, 1nat,
{
    match b {
        Block::Heading { level, spans } => BlockV::Heading(level, spans_view(spans@)),
        Block::Para(spans) => BlockV::Para(spans_view(spans@)),
        Block::BlockQuote { kind, items } => BlockV::BlockQuote(kind, blocks_view(items@)),
        Block::List { ordered, items } => BlockV::List(ordered, items_view(items@)),
        Block::CodeBlock { lang, code } => BlockV::CodeBlock(lang@, code@),
        Block::Table(t) => BlockV::Table(t.aligns@, cells_spans_view(t.header@), rows_spans_view(t.rows@)),
        Block::Rule => BlockV::Rule,
        Block::Html(h) => BlockV::Html(h@),
        Block::FootnoteDef { label, blocks } => BlockV::FootnoteDef(label@, blocks_view(blocks@)),
    }
}

/// The models of a run of blocks.
pub open spec fn blocks_view(v: Seq<Block>) -> Seq<BlockV>
    decreases v, 0nat,
{
    if v.len() == 0 {
        Seq::empty()
    } else {
        seq![block_view(v[0])] + blocks_view(v.drop_first())
    }
}

/// The models of list items.
pub open spec fn items_view(v: Seq<ListItem>) -> Seq<(Option<bool>, Seq<BlockV>)>
    decreases v, 0nat,
{
    if v.len() == 0 {
        Seq::empty()
    } else {
        seq![(v[0].checked, blocks_view(v[0].blocks@))] + items_view(v.drop_first())
    }
}

/// Styles combined flag by flag.
pub open spec fn spec_merge(base: Style, add: Style) -> Style {
    Style {
        bold: base.bold || add.bold,
        italic: base.italic || add.italic,
        strike: base.strike || add.strike,
        code: base.code || add.code,
    }
}

/// Combine two styles flag by flag.
pub fn merge(base: Style, add: Style) -> (s: Style)
    ensures
        s == spec_merge(base, add),
{
    Style {
        bold: base.bold || add.bold,
        italic: base.italic || add.italic,
        strike: base.strike || add.strike,
        code: base.code || add.code,
    }
}

/// Plain text of spans: texts, code, link texts, image alt texts, a space
/// per line break, `[^label]` for footnote references, math source.
pub open spec fn plain_of(v: Seq<SpanV>) -> Seq<char>
    decreases v,
{
    if v.len() == 0 {
        Seq::empty()
    } else {
        let head = match v[0] {
            SpanV::Text(t, _) => t,
            SpanV::Code(t, _) => t,
            SpanV::Link(_, _, inner) => plain_of(inner),
            SpanV::Image(_, alt, _, _, _) => alt,
            SpanV::LineBreak => seq![' '],
            SpanV::FootnoteRef(l) => seq!['[', '^'] + l + seq![']'],
            SpanV::Math(t) => t,
        };
        head + plain_of(v.drop_first())
    }
}

pub proof fn lemma_spans_view_concat(a: Seq<Span>, b: Seq<Span>)
    ensures
        spans_view(a + b) == spans_view(a) + spans_view(b),
    decreases a.len(),
{
    if a.len() == 0 {
        assert(a + b =~= b);
        assert(spans_view(a) + spans_view(b) =~= spans_view(b));
    } else {
        lemma_spans_view_concat(a.drop_first(), b);
        assert((a + b).drop_first() =~= a.drop_first() + b);
        assert(spans_view(a + b) =~= spans_view(a) + spans_view(b));
    }
}

pub proof fn lemma_spans_view_index(s: Seq<Span>)
    ensures
        spans_view(s).len() == s.len(),
        forall|i: int| 0 <= i < s.len() ==> #[trigger] spans_view(s)[i] == span_view(s[i]),
    decreases s.len(),
{
    if s.len() > 0 {
        lemma_spans_view_index(s.drop_first());
        assert forall|i: int| 0 <= i < s.len() implies #[trigger] spans_view(s)[i] == span_view(s[i]) by {
            if i > 0 {
                assert(spans_view(s)[i] == spans_view(s.drop_first())[i - 1]);
            }
        }
    }
}

/// The models of a run of spans, element by element.
pub proof fn lemma_spans_view_sub(s: Seq<Span>, a: int, b: int)
    requires
        0 <= a <= b <= s.len(),
    ensures
        spans_view(s.subrange(a, b)) == spans_view(s).subrange(a, b),
{
    lemma_spans_view_index(s);
    lemma_spans_view_index(s.subrange(a, b));
    assert(spans_view(s.subrange(a, b)) =~= spans_view(s).subrange(a, b));
}

/// Pushing a span pushes its model.
pub proof fn lemma_spans_view_push(s: Seq<Span>, x: Span)
    ensures
        spans_view(s.push(x)) == spans_view(s).push(span_view(x)),
{
    lemma_spans_view_index(s);
    lemma_spans_view_index(s.push(x));
    assert(spans_view(s.push(x)) =~= spans_view(s).push(span_view(x)));
}

pub proof fn lemma_blocks_view_index(s: Seq<Block>)
    ensures
        blocks_view(s).len() == s.len(),
        forall|i: int| 0 <= i < s.len() ==> #[trigger] blocks_view(s)[i] == block_view(s[i]),
    decreases s.len(),
{
    if s.len() > 0 {
        lemma_blocks_view_index(s.drop_first());
        assert forall|i: int| 0 <= i < s.len() implies #[trigger] blocks_view(s)[i] == block_view(s[i]) by {
            if i > 0 {
                assert(blocks_view(s)[i] == blocks_view(s.drop_first())[i - 1]);
            }
        }
    }
}

/// Pushing a block pushes its model.
pub proof fn lemma_blocks_view_push(s: Seq<Block>, x: Block)
    ensures
        blocks_view(s.push(x)) == blocks_view(s).push(block_view(x)),
{
    lemma_blocks_view_index(s);
    lemma_blocks_view_index(s.push(x));
    assert(blocks_view(s.push(x)) =~= blocks_view(s).push(block_view(x)));
}

pub proof fn lemma_items_view_index(s: Seq<ListItem>)
    ensures
        items_view(s).len() == s.len(),
        forall|i: int| 0 <= i < s.len() ==> #[trigger] items_view(s)[i] == (s[i].checked, blocks_view(s[i].blocks@)),
    decreases s.len(),
{
    if s.len() > 0 {
        lemma_items_view_index(s.drop_first());
        assert forall|i: int| 0 <= i < s.len() implies #[trigger] items_view(s)[i] == (
            s[i].checked,
            blocks_view(s[i].blocks@),
        ) by {
            if i > 0 {
                assert(items_view(s)[i] == items_view(s.drop_first())[i - 1]);
            }
        }
    }
}

/// Pushing a list item pushes its model.
pub proof fn lemma_items_view_push(s: Seq<ListItem>, x: ListItem)
    ensures
        items_view(s.push(x)) == items_view(s).push((x.checked, blocks_view(x.blocks@))),
{
    lemma_items_view_index(s);
    lemma_items_view_index(s.push(x));
    assert(items_view(s.push(x)) =~= items_view(s).push((x.checked, blocks_view(x.blocks@))));
}

pub proof fn lemma_plain_of_concat(a: Seq<SpanV>, b: Seq<SpanV>)
    ensures
        plain_of(a + b) == plain_of(a) + plain_of(b),
    decreases a.len(),
{
    if a.len() == 0 {
        assert(a + b =~= b);
        assert(plain_of(a) + plain_of(b) =~= plain_of(b));
    } else {
        lemma_plain_of_concat(a.drop_first(), b);
        assert((a + b).drop_first() =~= a.drop_first() + b);
        assert(plain_of(a + b) =~= plain_of(a) + plain_of(b));
    }
}

/// Plain-text projection of spans (outline titles and the like).
pub fn spans_plain(spans: &[Span]) -> (s: String)
    ensures
        s@ == plain_of(spans_view(spans@)),
    decreases spans@,
{
    let mut s = String::new();
    let mut i: usize = 0;
    assert(spans@.take(0) =~= Seq::<Span>::empty());
    while i < spans.len()
        invariant
            i <= spans@.len(),
            s@ == plain_of(spans_view(spans@.take(i as int))),
        decreases spans@.len() - i,
    {
        let ghost before = s@;
        match &spans[i] {
            Span::Text { text, .. } => crate::utf8_text::string_push_str(&mut s, text.as_str()),
            Span::Code { text, .. } => crate::utf8_text::string_push_str(&mut s, text.as_str()),
            Span::Link { inner, .. } => {
                assert(decreases_to!(spans@ => inner@));
                let p = spans_plain(inner.as_slice());
                crate::utf8_text::string_push_str(&mut s, p.as_str());
            },
            Span::Image { alt, .. } => crate::utf8_text::string_push_str(&mut s, alt.as_str()),
            Span::LineBreak => crate::utf8_text::string_push(&mut s, ' '),
            Span::FootnoteRef { label } => {
                crate::utf8_text::string_push(&mut s, '[');
                crate::utf8_text::string_push(&mut s, '^');
                crate::utf8_text::string_push_str(&mut s, label.as_str());
                crate::utf8_text::string_push(&mut s, ']');
            },
            Span::Math { text } => crate::utf8_text::string_push_str(&mut s, text.as_str()),
        }
        proof {
            let one = seq![spans@[i as int]];
            assert(spans@.take(i + 1) =~= spans@.take(i as int) + one);
            lemma_spans_view_concat(spans@.take(i as int), one);
            lemma_plain_of_concat(spans_view(spans@.take(i as int)), spans_view(one));
            assert(one.drop_first() =~= Seq::<Span>::empty());
            reveal_with_fuel(spans_view, 2);
            assert(spans_view(one) =~= seq![span_view(spans@[i as int])]);
            reveal_with_fuel(plain_of, 2);
            assert(seq![span_view(spans@[i as int])].drop_first() =~= Seq::<SpanV>::empty());
            assert(s@ =~= plain_of(spans_view(spans@.take(i + 1))));
        }
        i = i + 1;
    }
    assert(spans@.take(i as int) =~= spans@);
    s
}

// ---------------------------------------------------------------------------
// Heading slugs
// ---------------------------------------------------------------------------

/// What `char::to_lowercase` yields for `c`.
pub uninterp spec fn lowercase_of(c: char) -> Seq<char>;

/// What `char::is_alphanumeric` says of `c`.
pub uninterp spec fn alphanumeric(c: char) -> bool;

/// Calls `char::to_lowercase` and collects the characters it yields; the
/// contract names them and says nothing more.
#[verifier::external_body]
fn char_lowercase(c: char) -> (v: Vec<char>)
    ensures
        v@ == lowercase_of(c),
{
    c.to_lowercase().collect()
}

/// Calls `char::is_alphanumeric`; the contract names its answer.
#[verifier::external_body]
fn char_is_alphanumeric(c: char) -> (b: bool)
    ensures
        b == alphanumeric(c),
{
    c.is_alphanumeric()
}

/// Every character replaced by its lowercase characters.
pub open spec fn lowered(cs: Seq<char>) -> Seq<char>
    decreases cs.len(),
{
    if cs.len() == 0 {
        Seq::empty()
    } else {
        lowered(cs.drop_last()) + lowercase_of(cs.last())
    }
}

/// Scanning lowered characters with their alphanumeric flags: kept
/// characters, a single `-` for each run of other characters, and whether
/// the output ends in such a `-`.
pub open spec fn slug_scan(cs: Seq<char>, alnum: Seq<bool>) -> (Seq<char>, bool)
    decreases cs.len(),
{
    if cs.len() == 0 || alnum.len() != cs.len() {
        (Seq::empty(), false)
    } else {
        let (o, dash) = slug_scan(cs.drop_last(), alnum.drop_last());
        if alnum.last() {
            (o.push(cs.last()), false)
        } else if !dash {
            (o.push('-'), true)
        } else {
            (o, dash)
        }
    }
}

/// `s` without its trailing `-`s.
pub open spec fn trim_dashes(s: Seq<char>) -> Seq<char>
    decreases s.len(),
{
    if s.len() > 0 && s.last() == '-' {
        trim_dashes(s.drop_last())
    } else {
        s
    }
}

/// The slug of lowered characters with their alphanumeric flags, or
/// `section` when nothing is left.
pub open spec fn slug_of(cs: Seq<char>, alnum: Seq<bool>) -> Seq<char> {
    let o = trim_dashes(slug_scan(cs, alnum).0);
    if o.len() == 0 { seq!['s', 'e', 'c', 't', 'i', 'o', 'n'] } else { o }
}

/// GitHub-style slug of a heading text.
pub open spec fn spec_slugify(text: Seq<char>) -> Seq<char> {
    let l = lowered(text);
    slug_of(l, Seq::new(l.len(), |i: int| alphanumeric(l[i])))
}

proof fn lemma_trim_dashes(s: Seq<char>)
    ensures
        trim_dashes(s).len() > 0 ==> trim_dashes(s).last() != '-',
        trim_dashes(s).len() <= s.len(),
    decreases s.len(),
{
    if s.len() > 0 && s.last() == '-' {
        lemma_trim_dashes(s.drop_last());
    }
}

/// No two `-` in a row in `s`.
pub open spec fn no_double_dash(s: Seq<char>) -> bool {
    forall|i: int| 0 <= i < s.len() - 1 ==> !(#[trigger] s[i] == '-' && s[i + 1] == '-')
}

/// Each character of `s` is its own lowercase, and alphanumeric exactly
/// when it is not `-`.
pub open spec fn slug_chars_settled(s: Seq<char>) -> bool {
    forall|i: int| 0 <= i < s.len() ==> lowercase_of(#[trigger] s[i]) == seq![s[i]] && (alphanumeric(s[i]) <==> s[i] != '-')
}

/// What the scan keeps: `-` or characters flagged alphanumeric, no two
/// `-` in a row when no flagged character is `-`; the flag says whether it
/// ends in `-`.
proof fn lemma_slug_scan(cs: Seq<char>, alnum: Seq<bool>)
    requires
        alnum.len() == cs.len(),
    ensures
        ({
            let (o, dash) = slug_scan(cs, alnum);
            &&& dash ==> o.len() > 0 && o.last() == '-'
            &&& forall|j: int| 0 <= j < o.len() ==> #[trigger] o[j] == '-' || exists|i: int| 0 <= i < cs.len() && alnum[i] && cs[i] == o[j]
            &&& (forall|i: int| 0 <= i < cs.len() && alnum[i] ==> cs[i] != '-') ==> no_double_dash(o) && (dash <==> (o.len() > 0 && o.last() == '-'))
            &&& (forall|i: int| 0 <= i < cs.len() ==> !alnum[i]) ==> forall|j: int| 0 <= j < o.len() ==> #[trigger] o[j] == '-'
        }),
    decreases cs.len(),
{
    if cs.len() > 0 {
        let cs0 = cs.drop_last();
        let a0 = alnum.drop_last();
        lemma_slug_scan(cs0, a0);
        let (o0, d0) = slug_scan(cs0, a0);
        let (o, dash) = slug_scan(cs, alnum);
        assert forall|i: int| 0 <= i < cs0.len() implies cs0[i] == cs[i] && a0[i] == alnum[i] by {}
        assert forall|j: int| 0 <= j < o.len() implies #[trigger] o[j] == '-' || exists|i: int| 0 <= i < cs.len() && alnum[i] && cs[i] == o[j] by {
            if j < o0.len() {
                assert(o[j] == o0[j]);
                if o0[j] != '-' {
                    let i = choose|i: int| 0 <= i < cs0.len() && a0[i] && cs0[i] == o0[j];
                    assert(0 <= i < cs.len() && alnum[i] && cs[i] == o[j]);
                }
            } else {
                assert(alnum.last() ==> o[j] == cs[cs.len() - 1]);
            }
        }
    }
}

/// Trimming trailing dashes keeps a prefix.
proof fn lemma_trim_prefix(s: Seq<char>)
    ensures
        trim_dashes(s).len() <= s.len(),
        trim_dashes(s) == s.take(trim_dashes(s).len() as int),
    decreases s.len(),
{
    if s.len() > 0 && s.last() == '-' {
        lemma_trim_prefix(s.drop_last());
        assert(s.drop_last().take(trim_dashes(s).len() as int) =~= s.take(trim_dashes(s).len() as int));
    } else {
        assert(s.take(s.len() as int) =~= s);
    }
}

/// Characters that are their own lowercase lower to themselves.
proof fn lemma_lowered_settled(s: Seq<char>)
    requires
        forall|i: int| 0 <= i < s.len() ==> lowercase_of(#[trigger] s[i]) == seq![s[i]],
    ensures
        lowered(s) == s,
    decreases s.len(),
{
    if s.len() > 0 {
        lemma_lowered_settled(s.drop_last());
        assert(lowered(s.drop_last()) + seq![s.last()] =~= s);
    }
}

/// Scanning a text with no `-` run, flagged alphanumeric exactly off the
/// `-`s, gives it back.
proof fn lemma_scan_identity(s: Seq<char>)
    requires
        no_double_dash(s),
    ensures
        slug_scan(s, Seq::new(s.len(), |i: int| s[i] != '-')) == (s, s.len() > 0 && s.last() == '-'),
    decreases s.len(),
{
    let f = Seq::new(s.len(), |i: int| s[i] != '-');
    if s.len() > 0 {
        let s0 = s.drop_last();
        assert(no_double_dash(s0)) by {
            assert forall|i: int| 0 <= i < s0.len() - 1 implies !(#[trigger] s0[i] == '-' && s0[i + 1] == '-') by {
                assert(s0[i] == s[i] && s0[i + 1] == s[i + 1]);
            }
        }
        lemma_scan_identity(s0);
        assert(f.drop_last() =~= Seq::new(s0.len(), |i: int| s0[i] != '-'));
        if s.last() == '-' && s.len() > 1 {
            assert(!(s[s.len() - 2] == '-' && s[s.len() - 1] == '-'));
        }
        assert(s0.push(s.last()) =~= s);
    }
}

/// Slug laws: a slug is never empty and never ends in `-`; each character
/// is `-` or alphanumeric unless the slug is the `section` fallback; there
/// are no two `-` in a row (given that `-` is not alphanumeric); a text
/// with no alphanumeric character gives `section`; and a slug whose
/// characters are their own lowercase, alphanumeric exactly off the `-`s,
/// is its own slug.
pub proof fn lemma_slug_laws(t: Seq<char>)
    ensures
        ({
            let s = spec_slugify(t);
            let l = lowered(t);
            &&& s.len() > 0
            &&& s.last() != '-'
            &&& s != seq!['s', 'e', 'c', 't', 'i', 'o', 'n'] ==> forall|j: int| 0 <= j < s.len() ==> #[trigger] s[j] == '-' || alphanumeric(s[j])
            &&& !alphanumeric('-') ==> no_double_dash(s)
            &&& (forall|i: int| 0 <= i < l.len() ==> !alphanumeric(#[trigger] l[i])) ==> s == seq!['s', 'e', 'c', 't', 'i', 'o', 'n']
            &&& slug_chars_settled(s) ==> spec_slugify(s) == s
        }),
{
    let s = spec_slugify(t);
    let l = lowered(t);
    let f = Seq::new(l.len(), |i: int| alphanumeric(l[i]));
    let sec = seq!['s', 'e', 'c', 't', 'i', 'o', 'n'];
    lemma_slug_scan(l, f);
    let o = slug_scan(l, f).0;
    let tr = trim_dashes(o);
    lemma_trim_dashes(o);
    lemma_trim_prefix(o);
    assert(no_double_dash(sec)) by {
        assert forall|i: int| 0 <= i < sec.len() - 1 implies !(#[trigger] sec[i] == '-' && sec[i + 1] == '-') by {}
    }
    if tr.len() > 0 {
        assert(s == tr);
        assert forall|j: int| 0 <= j < s.len() implies #[trigger] s[j] == '-' || alphanumeric(s[j]) by {
            assert(s[j] == o[j]);
            if o[j] != '-' {
                let i = choose|i: int| 0 <= i < l.len() && f[i] && l[i] == o[j];
            }
        }
        if !alphanumeric('-') {
            assert forall|i: int| 0 <= i < l.len() && f[i] implies l[i] != '-' by {}
            assert forall|i: int| 0 <= i < s.len() - 1 implies !(#[trigger] s[i] == '-' && s[i + 1] == '-') by {
                assert(s[i] == o[i] && s[i + 1] == o[i + 1]);
            }
        }
        if forall|i: int| 0 <= i < l.len() ==> !alphanumeric(#[trigger] l[i]) {
            assert forall|i: int| 0 <= i < l.len() implies !f[i] by {}
            assert(o[tr.len() - 1] == '-');
        }
    }
    if slug_chars_settled(s) {
        assert forall|i: int| 0 <= i < s.len() implies lowercase_of(#[trigger] s[i]) == seq![s[i]] by {}
        lemma_lowered_settled(s);
        if exists|i: int| 0 <= i < s.len() && s[i] == '-' {
            let i = choose|i: int| 0 <= i < s.len() && s[i] == '-';
            assert(!alphanumeric('-'));
        } else {
            assert forall|i: int| 0 <= i < s.len() - 1 implies !(#[trigger] s[i] == '-' && s[i + 1] == '-') by {}
        }
        assert(no_double_dash(s));
        let fs = Seq::new(s.len(), |i: int| alphanumeric(s[i]));
        assert(fs =~= Seq::new(s.len(), |i: int| s[i] != '-'));
        lemma_scan_identity(s);
        assert(lowered(s) == s);
    }
}

/// The slug of lowered characters `cs` whose alphanumeric flags are
/// `alnum`: runs of other characters fold into one `-`, trailing dashes
/// go, and an empty result becomes `section`.
pub fn slug_from(cs: &Vec<char>, alnum: &Vec<bool>) -> (s: String)
    requires
        cs@.len() == alnum@.len(),
    ensures
        s@ == slug_of(cs@, alnum@),
        s@.len() > 0,
        s@.last() != '-',
{
    let mut out: Vec<char> = Vec::new();
    let mut dash = false;
    let mut i: usize = 0;
    assert(cs@.take(0) =~= Seq::<char>::empty());
    while i < cs.len()
        invariant
            i <= cs@.len() == alnum@.len(),
            (out@, dash) == slug_scan(cs@.take(i as int), alnum@.take(i as int)),
        decreases cs@.len() - i,
    {
        assert(cs@.take(i + 1).drop_last() =~= cs@.take(i as int));
        assert(alnum@.take(i + 1).drop_last() =~= alnum@.take(i as int));
        if alnum[i] {
            out.push(cs[i]);
            dash = false;
        } else if !dash {
            out.push('-');
            dash = true;
        }
        i = i + 1;
    }
    assert(cs@.take(i as int) =~= cs@);
    assert(alnum@.take(i as int) =~= alnum@);
    let ghost scanned = out@;
    while out.len() > 0 && out[out.len() - 1] == '-'
        invariant
            trim_dashes(out@) == trim_dashes(scanned),
        decreases out@.len(),
    {
        let _ = out.pop();
    }
    proof {
        lemma_trim_dashes(scanned);
    }
    if out.len() == 0 {
        out.push('s');
        out.push('e');
        out.push('c');
        out.push('t');
        out.push('i');
        out.push('o');
        out.push('n');
        assert(out@ =~= seq!['s', 'e', 'c', 't', 'i', 'o', 'n']);
    }
    crate::utf8_text::string_from_chars(&out)
}

/// GitHub-style slug for heading anchors: lowercase, alphanumerics kept,
/// every other run folded into one `-`, no trailing `-`, `section` when empty.
pub fn slugify(text: &str) -> (s: String)
    ensures
        s@ == spec_slugify(text@),
{
    let cs = crate::utf8_text::chars_of(text);
    let mut l: Vec<char> = Vec::new();
    let mut i: usize = 0;
    assert(cs@.take(0) =~= Seq::<char>::empty());
    while i < cs.len()
        invariant
            i <= cs@.len(),
            cs@ == text@,
            l@ == lowered(cs@.take(i as int)),
        decreases cs@.len() - i,
    {
        let low = char_lowercase(cs[i]);
        let mut k: usize = 0;
        let ghost before = l@;
        while k < low.len()
            invariant
                k <= low@.len(),
                l@ == before + low@.take(k as int),
            decreases low@.len() - k,
        {
            l.push(low[k]);
            assert(l@ =~= before + low@.take(k + 1));
            k = k + 1;
        }
        assert(low@.take(k as int) =~= low@);
        assert(cs@.take(i + 1).drop_last() =~= cs@.take(i as int));
        i = i + 1;
    }
    assert(cs@.take(i as int) =~= cs@);
    let mut flags: Vec<bool> = Vec::new();
    let mut j: usize = 0;
    while j < l.len()
        invariant
            j <= l@.len(),
            flags@ == Seq::new(j as nat, |q: int| alphanumeric(l@[q])),
        decreases l@.len() - j,
    {
        flags.push(char_is_alphanumeric(l[j]));
        assert(flags@ =~= Seq::new((j + 1) as nat, |q: int| alphanumeric(l@[q])));
        j = j + 1;
    }
    slug_from(&l, &flags)
}

} // verus!
