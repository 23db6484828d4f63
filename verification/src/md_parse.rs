//! From Markdown events to the document model.

use vstd::prelude::*;
use crate::md::{
    Block, BlockV, ListItem, QuoteKind, ColAlign, Span, SpanV, Style, Table, plain_style,
    spans_view, span_view, lemma_spans_view_push, lemma_spans_view_concat, block_view, blocks_view, items_view,
    cells_spans_view, rows_spans_view, lemma_blocks_view_push, lemma_items_view_push,
};
use crate::md_events::{EventV, MdAlign, MdEnd, MdEvent, MdQuote, MdTag, TagV, events_view};

verus! {

/// The callout kind of a blockquote.
pub open spec fn spec_quote_kind(k: Option<MdQuote>) -> QuoteKind {
    match k {
        Some(MdQuote::Note) => QuoteKind::Note,
        Some(MdQuote::Tip) => QuoteKind::Tip,
        Some(MdQuote::Important) => QuoteKind::Important,
        Some(MdQuote::Warning) => QuoteKind::Warning,
        Some(MdQuote::Caution) => QuoteKind::Caution,
        None => QuoteKind::Plain,
    }
}

/// A table alignment as rendered.
pub open spec fn spec_col_align(a: MdAlign) -> ColAlign {
    match a {
        MdAlign::Unset => ColAlign::Unset,
        MdAlign::Left => ColAlign::Left,
        MdAlign::Center => ColAlign::Center,
        MdAlign::Right => ColAlign::Right,
    }
}

/// A tag that opens a block.
pub open spec fn is_block_start(t: TagV) -> bool {
    match t {
        TagV::Heading(_) | TagV::BlockQuote(_) | TagV::CodeBlock(_) | TagV::List(_) | TagV::Table(_)
        | TagV::FootnoteDefinition(_) => true,
        TagV::Link(_, _) | TagV::Image(_, _) => false,
        TagV::Other(k) => is_block_end(k),
    }
}

/// A closing tag that ends a block.
pub open spec fn is_block_end(k: MdEnd) -> bool {
    !(k == MdEnd::Emphasis || k == MdEnd::Strong || k == MdEnd::Strikethrough || k == MdEnd::Link || k
        == MdEnd::Image || k == MdEnd::MetadataBlock)
}

/// Inline events that, outside any paragraph, start a paragraph.
pub open spec fn is_loose_inline(e: EventV) -> bool {
    match e {
        EventV::Text(_) | EventV::Code(_) | EventV::SoftBreak | EventV::HardBreak | EventV::InlineMath(_)
        | EventV::DisplayMath(_) | EventV::FootnoteReference(_) => true,
        EventV::Start(TagV::Link(_, _)) | EventV::Start(TagV::Image(_, _)) => true,
        EventV::Start(TagV::Other(k)) => k == MdEnd::Emphasis || k == MdEnd::Strong || k == MdEnd::Strikethrough,
        _ => false,
    }
}

/// A position after `p`, within the events.
pub open spec fn after(q: int, p: int, n: int) -> int {
    if q <= p { p + 1 } else if q > n { n } else { q }
}

/// The text of a code block from `p` up to its end tag (consumed).
pub open spec fn code_text(evs: Seq<EventV>, p: int, acc: Seq<char>) -> (Seq<char>, int)
    decreases evs.len() - p,
{
    if p < 0 || p >= evs.len() {
        (acc, p)
    } else {
        match evs[p] {
            EventV::Text(t) => code_text(evs, p + 1, acc + t),
            EventV::End(MdEnd::CodeBlock) => (acc, p + 1),
            _ => code_text(evs, p + 1, acc),
        }
    }
}

/// The HTML of an HTML block from `p` up to its end tag (consumed).
pub open spec fn html_text(evs: Seq<EventV>, p: int, acc: Seq<char>) -> (Seq<char>, int)
    decreases evs.len() - p,
{
    if p < 0 || p >= evs.len() {
        (acc, p)
    } else {
        match evs[p] {
            EventV::Html(t) => html_text(evs, p + 1, acc + t),
            EventV::End(MdEnd::HtmlBlock) => (acc, p + 1),
            _ => html_text(evs, p + 1, acc),
        }
    }
}

/// The alt text of an image from `p` up to its end tag (consumed).
pub open spec fn image_alt(evs: Seq<EventV>, p: int, acc: Seq<char>) -> (Seq<char>, int)
    decreases evs.len() - p,
{
    if p < 0 || p >= evs.len() {
        (acc, p)
    } else {
        match evs[p] {
            EventV::Text(t) => image_alt(evs, p + 1, acc + t),
            EventV::Code(t) => image_alt(evs, p + 1, acc + t),
            EventV::End(MdEnd::Image) => (acc, p + 1),
            _ => image_alt(evs, p + 1, acc),
        }
    }
}

/// `None` for an empty title.
pub open spec fn opt_title(t: Seq<char>) -> Option<Seq<char>> {
    if t.len() == 0 { None } else { Some(t) }
}

/// Inline spans from `p` until the end tag `end` (consumed), a block
/// start or a block end tag (both left in place), or the end of the
/// events. `link`: inside a link, where nested links only keep their text.
pub open spec fn spans_at(evs: Seq<EventV>, p: int, end: Option<MdEnd>, style: Style, link: bool) -> (
    Seq<SpanV>,
    int,
)
    decreases evs.len() - p, 1nat,
{
    if p < 0 || p >= evs.len() {
        (Seq::empty(), p)
    } else {
        let n = evs.len() as int;
        match evs[p] {
            EventV::Text(t) => {
                let (r, q) = spans_at(evs, p + 1, end, style, link);
                (seq![SpanV::Text(t, style)] + r, q)
            },
            EventV::Code(c) => {
                let (r, q) = spans_at(evs, p + 1, end, style, link);
                (seq![SpanV::Code(c, Style { code: true, ..style })] + r, q)
            },
            EventV::HardBreak => {
                let (r, q) = spans_at(evs, p + 1, end, style, link);
                (seq![SpanV::LineBreak] + r, q)
            },
            EventV::InlineMath(m) | EventV::DisplayMath(m) => {
                let (r, q) = spans_at(evs, p + 1, end, style, link);
                (seq![SpanV::Math(m)] + r, q)
            },
            EventV::FootnoteReference(l) => {
                let (r, q) = spans_at(evs, p + 1, end, style, link);
                (seq![SpanV::FootnoteRef(l)] + r, q)
            },
            EventV::Start(tag) => match tag {
                TagV::Other(k) => if k == MdEnd::Emphasis || k == MdEnd::Strong || k == MdEnd::Strikethrough {
                    let s = if k == MdEnd::Emphasis {
                        Style { italic: true, ..style }
                    } else if k == MdEnd::Strong {
                        Style { bold: true, ..style }
                    } else {
                        Style { strike: true, ..style }
                    };
                    let (inner, q) = spans_at(evs, p + 1, Some(k), s, link);
                    let (r, q2) = spans_at(evs, after(q, p, n), end, style, link);
                    (inner + r, q2)
                } else if is_block_end(k) {
                    (Seq::empty(), p)
                } else {
                    spans_at(evs, p + 1, end, style, link)
                },
                TagV::Link(url, title) => {
                    let (inner, q) = spans_at(evs, p + 1, Some(MdEnd::Link), style, true);
                    let (r, q2) = spans_at(evs, after(q, p, n), end, style, link);
                    if link {
                        (inner + r, q2)
                    } else {
                        (seq![SpanV::Link(url, opt_title(title), inner)] + r, q2)
                    }
                },
                TagV::Image(url, title) => {
                    let (alt, q) = image_alt(evs, p + 1, Seq::empty());
                    let (r, q2) = spans_at(evs, after(q, p, n), end, style, link);
                    (seq![SpanV::Image(url, alt, opt_title(title), None, None)] + r, q2)
                },
                _ => (Seq::empty(), p),
            },
            EventV::End(k) => if end == Some(k) {
                (Seq::empty(), p + 1)
            } else if is_block_end(k) {
                (Seq::empty(), p)
            } else {
                spans_at(evs, p + 1, end, style, link)
            },
            _ => spans_at(evs, p + 1, end, style, link),
        }
    }
}

/// Table cells and rows from `p` up to the table's end tag (consumed):
/// header cells, body rows, the open row's cells, and whether a row is open.
pub open spec fn table_rows(
    evs: Seq<EventV>,
    p: int,
    header: Seq<Seq<SpanV>>,
    rows: Seq<Seq<Seq<SpanV>>>,
    cur: Seq<Seq<SpanV>>,
    row_open: bool,
) -> (Seq<Seq<SpanV>>, Seq<Seq<Seq<SpanV>>>, int)
    decreases evs.len() - p, 2nat,
{
    if p < 0 || p >= evs.len() {
        (header, rows, p)
    } else {
        let n = evs.len() as int;
        match evs[p] {
            EventV::Start(TagV::Other(MdEnd::TableCell)) => {
                let (sp, q) = spans_at(evs, p + 1, Some(MdEnd::TableCell), plain_style(), false);
                table_rows(evs, after(q, p, n), header, rows, cur.push(sp), row_open)
            },
            EventV::Start(TagV::Other(MdEnd::TableRow)) => table_rows(evs, p + 1, header, rows, Seq::empty(), true),
            EventV::End(MdEnd::TableHead) => table_rows(evs, p + 1, cur, rows, Seq::empty(), false),
            EventV::End(MdEnd::TableRow) => table_rows(
                evs,
                p + 1,
                header,
                if row_open && cur.len() > 0 { rows.push(cur) } else { rows },
                Seq::empty(),
                false,
            ),
            EventV::End(MdEnd::Table) => (header, rows, p + 1),
            _ => table_rows(evs, p + 1, header, rows, cur, row_open),
        }
    }
}

/// List items from `p` up to the list's end tag (consumed); a task marker
/// right after an item start gives the item's box state.
pub open spec fn list_items(evs: Seq<EventV>, p: int) -> (Seq<(Option<bool>, Seq<BlockV>)>, int)
    decreases evs.len() - p, 2nat,
{
    if p < 0 || p >= evs.len() {
        (Seq::empty(), p)
    } else {
        let n = evs.len() as int;
        match evs[p] {
            EventV::Start(TagV::Other(MdEnd::Item)) => {
                let (checked, q0) = if p + 1 < n && evs[p + 1] is TaskListMarker {
                    (Some(evs[p + 1]->TaskListMarker_0), p + 2)
                } else {
                    (None, p + 1)
                };
                let (blocks, q) = blocks_at(evs, q0, Some(MdEnd::Item));
                let (r, q2) = list_items(evs, after(q, p, n));
                (seq![(checked, blocks)] + r, q2)
            },
            EventV::End(MdEnd::List) => (Seq::empty(), p + 1),
            _ => list_items(evs, p + 1),
        }
    }
}

/// The block opened by a container start at `p`, and the position after
/// its contents; `None` when the event opens no block.
pub open spec fn container(evs: Seq<EventV>, p: int) -> Option<(BlockV, int)>
    decreases evs.len() - p, 2nat,
{
    if p < 0 || p >= evs.len() {
        None
    } else {
        match evs[p] {
            EventV::Start(tag) => match tag {
                TagV::Other(MdEnd::Paragraph) => {
                    let (sp, q) = spans_at(evs, p + 1, Some(MdEnd::Paragraph), plain_style(), false);
                    Some((BlockV::Para(sp), q))
                },
                TagV::Heading(l) => {
                    let (sp, q) = spans_at(evs, p + 1, Some(MdEnd::Heading), plain_style(), false);
                    Some((BlockV::Heading(l, sp), q))
                },
                TagV::BlockQuote(k) => {
                    let (items, q) = blocks_at(evs, p + 1, Some(MdEnd::BlockQuote));
                    Some((BlockV::BlockQuote(spec_quote_kind(k), items), q))
                },
                TagV::List(start) => {
                    let (items, q) = list_items(evs, p + 1);
                    Some((BlockV::List(start is Some, items), q))
                },
                TagV::CodeBlock(kind) => {
                    let (code, q) = code_text(evs, p + 1, Seq::empty());
                    let lang = match kind {
                        Some(l) => l,
                        None => Seq::empty(),
                    };
                    Some((BlockV::CodeBlock(lang, code), q))
                },
                TagV::Table(aligns) => {
                    let (h, rows, q) = table_rows(evs, p + 1, Seq::empty(), Seq::empty(), Seq::empty(), false);
                    let (h2, rows2) = if h.len() == 0 && rows.len() > 0 {
                        (rows[0], rows.drop_first())
                    } else {
                        (h, rows)
                    };
                    Some((BlockV::Table(aligns.map_values(|a: MdAlign| spec_col_align(a)), h2, rows2), q))
                },
                TagV::FootnoteDefinition(label) => {
                    let (bs, q) = blocks_at(evs, p + 1, Some(MdEnd::FootnoteDefinition));
                    Some((BlockV::FootnoteDef(label, bs), q))
                },
                TagV::Other(MdEnd::HtmlBlock) => {
                    let (h, q) = html_text(evs, p + 1, Seq::empty());
                    Some((BlockV::Html(h), q))
                },
                _ => None,
            },
            _ => None,
        }
    }
}

/// Blocks from `p` until the end tag `end` (consumed) or the end of the
/// events. Loose inline content makes a paragraph; unknown containers and
/// other events are skipped.
pub open spec fn blocks_at(evs: Seq<EventV>, p: int, end: Option<MdEnd>) -> (Seq<BlockV>, int)
    decreases evs.len() - p, 3nat,
{
    if p < 0 || p >= evs.len() {
        (Seq::empty(), p)
    } else {
        let n = evs.len() as int;
        if is_loose_inline(evs[p]) {
            let (sp, q) = spans_at(evs, p, None, plain_style(), false);
            let (r, q2) = blocks_at(evs, after(q, p, n), end);
            (seq![BlockV::Para(sp)] + r, q2)
        } else {
            match container(evs, p) {
                Some((b, q)) => {
                    let (r, q2) = blocks_at(evs, after(q, p, n), end);
                    (seq![b] + r, q2)
                },
                None => match evs[p] {
                    EventV::Rule => {
                        let (r, q2) = blocks_at(evs, p + 1, end);
                        (seq![BlockV::Rule] + r, q2)
                    },
                    EventV::End(k) => if end == Some(k) {
                        (Seq::empty(), p + 1)
                    } else {
                        blocks_at(evs, p + 1, end)
                    },
                    _ => blocks_at(evs, p + 1, end),
                },
            }
        }
    }
}

/// The parser stops before this event (it belongs to an enclosing parser).
pub open spec fn stops_before(e: EventV, end: Option<MdEnd>) -> bool {
    match e {
        EventV::Start(t) => is_block_start(t),
        EventV::End(k) => end != Some(k) && is_block_end(k),
        _ => false,
    }
}

/// Exec [`code_text`], [`html_text`] and [`image_alt`] (`kind` 0, 1, 2).
fn text_run(evs: &Vec<MdEvent>, p0: usize, kind: u8) -> (r: (String, usize))
    requires
        p0 <= evs@.len(),
        kind <= 2,
    ensures
        ({
            let ev = events_view(evs@);
            let x = if kind == 0 {
                code_text(ev, p0 as int, Seq::empty())
            } else if kind == 1 {
                html_text(ev, p0 as int, Seq::empty())
            } else {
                image_alt(ev, p0 as int, Seq::empty())
            };
            (r.0@, r.1 as int) == x
        }),
        p0 <= r.1 <= evs@.len(),
{
    let ghost ev = events_view(evs@);
    let mut acc = String::new();
    let mut p = p0;
    loop
        invariant
            p0 <= p <= evs@.len(),
            ev == events_view(evs@),
            kind <= 2,
            kind == 0 ==> code_text(ev, p0 as int, Seq::empty()) == code_text(ev, p as int, acc@),
            kind == 1 ==> html_text(ev, p0 as int, Seq::empty()) == html_text(ev, p as int, acc@),
            kind == 2 ==> image_alt(ev, p0 as int, Seq::empty()) == image_alt(ev, p as int, acc@),
        decreases evs@.len() - p,
    {
        if p >= evs.len() {
            return (acc, p);
        }
        assert(ev[p as int] == crate::md_events::event_view(evs@[p as int]));
        match &evs[p] {
            MdEvent::Text(t) => {
                if kind != 1 {
                    crate::utf8_text::string_push_str(&mut acc, t.as_str());
                }
            },
            MdEvent::Code(t) => {
                if kind == 2 {
                    crate::utf8_text::string_push_str(&mut acc, t.as_str());
                }
            },
            MdEvent::Html(t) => {
                if kind == 1 {
                    crate::utf8_text::string_push_str(&mut acc, t.as_str());
                }
            },
            MdEvent::End(k) => {
                let stop = if kind == 0 {
                    *k == MdEnd::CodeBlock
                } else if kind == 1 {
                    *k == MdEnd::HtmlBlock
                } else {
                    *k == MdEnd::Image
                };
                if stop {
                    return (acc, p + 1);
                }
            },
            _ => {},
        }
        p = p + 1;
    }
}

/// Append `inner` to `out`.
fn append_spans(out: &mut Vec<Span>, inner: Vec<Span>)
    ensures
        spans_view(final(out)@) == spans_view(old(out)@) + spans_view(inner@),
{
    let mut inner = inner;
    let ghost iv = inner@;
    out.append(&mut inner);
    proof {
        lemma_spans_view_concat(old(out)@, iv);
    }
}

/// Push `sp` to `out`.
fn push_span(out: &mut Vec<Span>, sp: Span)
    ensures
        spans_view(final(out)@) == spans_view(old(out)@).push(span_view(sp)),
{
    let ghost x = sp;
    out.push(sp);
    proof {
        lemma_spans_view_push(old(out)@, x);
    }
}

/// Exec [`spans_at`].
fn spans_exec(evs: &Vec<MdEvent>, p0: usize, end: Option<MdEnd>, style: Style, link: bool) -> (r: (
    Vec<Span>,
    usize,
))
    requires
        p0 <= evs@.len(),
    ensures
        (spans_view(r.0@), r.1 as int) == spans_at(events_view(evs@), p0 as int, end, style, link),
        p0 <= r.1 <= evs@.len(),
        r.1 == p0 && p0 < evs@.len() ==> stops_before(events_view(evs@)[p0 as int], end),
    decreases evs@.len() - p0, 1nat,
{
    let ghost ev = events_view(evs@);
    let ghost n = evs@.len() as int;
    let mut out: Vec<Span> = Vec::new();
    let mut p = p0;
    assert(spans_view(out@) =~= Seq::<SpanV>::empty());
    loop
        invariant
            p0 <= p <= evs@.len(),
            ev == events_view(evs@),
            n == evs@.len(),
            spans_view(out@) + spans_at(ev, p as int, end, style, link).0 == spans_at(ev, p0 as int, end, style, link).0,
            spans_at(ev, p as int, end, style, link).1 == spans_at(ev, p0 as int, end, style, link).1,
        decreases evs@.len() - p,
    {
        let ghost before = spans_view(out@);
        if p >= evs.len() {
            assert(spans_view(out@) =~= spans_view(out@) + spans_at(ev, p as int, end, style, link).0);
            return (out, p);
        }
        assert(ev[p as int] == crate::md_events::event_view(evs@[p as int]));
        match &evs[p] {
            MdEvent::Text(t) => {
                push_span(&mut out, Span::Text { text: t.clone(), style });
            },
            MdEvent::Code(c) => {
                push_span(&mut out, Span::Code { text: c.clone(), style: Style { code: true, ..style } });
            },
            MdEvent::HardBreak => {
                push_span(&mut out, Span::LineBreak);
            },
            MdEvent::InlineMath(m) => {
                push_span(&mut out, Span::Math { text: m.clone() });
            },
            MdEvent::DisplayMath(m) => {
                push_span(&mut out, Span::Math { text: m.clone() });
            },
            MdEvent::FootnoteReference(l) => {
                push_span(&mut out, Span::FootnoteRef { label: l.clone() });
            },
            MdEvent::Start(tag) => match tag {
                MdTag::Other(k) => {
                    let k = *k;
                    if k == MdEnd::Emphasis || k == MdEnd::Strong || k == MdEnd::Strikethrough {
                        let s = if k == MdEnd::Emphasis {
                            Style { italic: true, ..style }
                        } else if k == MdEnd::Strong {
                            Style { bold: true, ..style }
                        } else {
                            Style { strike: true, ..style }
                        };
                        let (inner, q) = spans_exec(evs, p + 1, Some(k), s, link);
                        append_spans(&mut out, inner);
                        assert(spans_view(out@) + spans_at(ev, q as int, end, style, link).0 =~= before
                            + spans_at(ev, p as int, end, style, link).0);
                        p = q;
                        continue;
                    } else if !(k == MdEnd::Link || k == MdEnd::Image || k == MdEnd::MetadataBlock) {
                        assert(spans_view(out@) =~= spans_view(out@) + spans_at(ev, p as int, end, style, link).0);
                        return (out, p);
                    }
                },
                MdTag::Link(url, title) => {
                    let (inner, q) = spans_exec(evs, p + 1, Some(MdEnd::Link), style, true);
                    if link {
                        append_spans(&mut out, inner);
                    } else {
                        let t = if crate::utf8_text::char_count(title.as_str()) == 0 {
                            None
                        } else {
                            Some(title.clone())
                        };
                        push_span(&mut out, Span::Link { url: url.clone(), title: t, inner });
                    }
                    assert(spans_view(out@) + spans_at(ev, q as int, end, style, link).0 =~= before
                        + spans_at(ev, p as int, end, style, link).0);
                    p = q;
                    continue;
                },
                MdTag::Image(url, title) => {
                    let (alt, q) = text_run(evs, p + 1, 2);
                    let t = if crate::utf8_text::char_count(title.as_str()) == 0 {
                        None
                    } else {
                        Some(title.clone())
                    };
                    push_span(
                        &mut out,
                        Span::Image { url: url.clone(), alt, title: t, width: None, height: None },
                    );
                    assert(spans_view(out@) + spans_at(ev, after(q as int, p as int, n), end, style, link).0 =~= before
                        + spans_at(ev, p as int, end, style, link).0);
                    p = if q > p { q } else { p + 1 };
                    continue;
                },
                _ => {
                    assert(spans_view(out@) =~= spans_view(out@) + spans_at(ev, p as int, end, style, link).0);
                    return (out, p);
                },
            },
            MdEvent::End(k) => {
                let k = *k;
                if end == Some(k) {
                    assert(spans_view(out@) =~= spans_view(out@) + spans_at(ev, p as int, end, style, link).0);
                    return (out, p + 1);
                }
                if !(k == MdEnd::Emphasis || k == MdEnd::Strong || k == MdEnd::Strikethrough || k == MdEnd::Link
                    || k == MdEnd::Image || k == MdEnd::MetadataBlock) {
                    assert(spans_view(out@) =~= spans_view(out@) + spans_at(ev, p as int, end, style, link).0);
                    return (out, p);
                }
            },
            _ => {},
        }
        assert(spans_view(out@) + spans_at(ev, p + 1, end, style, link).0 =~= before + spans_at(
            ev,
            p as int,
            end,
            style,
            link,
        ).0);
        p = p + 1;
    }
}

/// Exec [`spec_quote_kind`].
fn quote_kind(k: Option<MdQuote>) -> (q: QuoteKind)
    ensures
        q == spec_quote_kind(k),
{
    match k {
        Some(MdQuote::Note) => QuoteKind::Note,
        Some(MdQuote::Tip) => QuoteKind::Tip,
        Some(MdQuote::Important) => QuoteKind::Important,
        Some(MdQuote::Warning) => QuoteKind::Warning,
        Some(MdQuote::Caution) => QuoteKind::Caution,
        None => QuoteKind::Plain,
    }
}

/// Exec [`spec_col_align`] over all alignments.
fn col_aligns(a: &Vec<MdAlign>) -> (r: Vec<ColAlign>)
    ensures
        r@ == a@.map_values(|x: MdAlign| spec_col_align(x)),
{
    let mut r: Vec<ColAlign> = Vec::new();
    let mut k: usize = 0;
    while k < a.len()
        invariant
            k <= a@.len(),
            r@ == a@.take(k as int).map_values(|x: MdAlign| spec_col_align(x)),
        decreases a@.len() - k,
    {
        let c = match a[k] {
            MdAlign::Unset => ColAlign::Unset,
            MdAlign::Left => ColAlign::Left,
            MdAlign::Center => ColAlign::Center,
            MdAlign::Right => ColAlign::Right,
        };
        r.push(c);
        assert(r@ =~= a@.take(k + 1).map_values(|x: MdAlign| spec_col_align(x)));
        k = k + 1;
    }
    assert(a@.take(k as int) =~= a@);
    r
}

/// Exec [`table_rows`] from `p0` with nothing collected yet.
fn table_rows_exec(evs: &Vec<MdEvent>, p0: usize) -> (r: (Vec<Vec<Span>>, Vec<Vec<Vec<Span>>>, usize))
    requires
        p0 <= evs@.len(),
    ensures
        (cells_spans_view(r.0@), rows_spans_view(r.1@), r.2 as int) == table_rows(
            events_view(evs@),
            p0 as int,
            Seq::empty(),
            Seq::empty(),
            Seq::empty(),
            false,
        ),
        p0 <= r.2 <= evs@.len(),
    decreases evs@.len() - p0, 2nat,
{
    let ghost ev = events_view(evs@);
    let ghost n = evs@.len() as int;
    let mut header: Vec<Vec<Span>> = Vec::new();
    let mut rows: Vec<Vec<Vec<Span>>> = Vec::new();
    let mut cur: Vec<Vec<Span>> = Vec::new();
    let mut row_open = false;
    let mut p = p0;
    assert(cells_spans_view(header@) =~= Seq::<Seq<SpanV>>::empty());
    assert(rows_spans_view(rows@) =~= Seq::<Seq<Seq<SpanV>>>::empty());
    assert(cells_spans_view(cur@) =~= Seq::<Seq<SpanV>>::empty());
    loop
        invariant
            p0 <= p <= evs@.len(),
            ev == events_view(evs@),
            n == evs@.len(),
            table_rows(ev, p0 as int, Seq::empty(), Seq::empty(), Seq::empty(), false) == table_rows(
                ev,
                p as int,
                cells_spans_view(header@),
                rows_spans_view(rows@),
                cells_spans_view(cur@),
                row_open,
            ),
        decreases evs@.len() - p,
    {
        if p >= evs.len() {
            return (header, rows, p);
        }
        assert(ev[p as int] == crate::md_events::event_view(evs@[p as int]));
        let ghost hv = cells_spans_view(header@);
        let ghost rv = rows_spans_view(rows@);
        let ghost cv = cells_spans_view(cur@);
        match &evs[p] {
            MdEvent::Start(MdTag::Other(MdEnd::TableCell)) => {
                let (sp, q) = spans_exec(evs, p + 1, Some(MdEnd::TableCell), Style::default(), false);
                let ghost spv = spans_view(sp@);
                cur.push(sp);
                assert(cells_spans_view(cur@) =~= cv.push(spv));
                p = q;
                continue;
            },
            MdEvent::Start(MdTag::Other(MdEnd::TableRow)) => {
                row_open = true;
                cur = Vec::new();
                assert(cells_spans_view(cur@) =~= Seq::<Seq<SpanV>>::empty());
            },
            MdEvent::End(MdEnd::TableHead) => {
                header = cur;
                cur = Vec::new();
                row_open = false;
                assert(cells_spans_view(cur@) =~= Seq::<Seq<SpanV>>::empty());
            },
            MdEvent::End(MdEnd::TableRow) => {
                if row_open && cur.len() > 0 {
                    let ghost cvv = cells_spans_view(cur@);
                    rows.push(cur);
                    assert(rows_spans_view(rows@) =~= rv.push(cvv));
                }
                cur = Vec::new();
                row_open = false;
                assert(cells_spans_view(cur@) =~= Seq::<Seq<SpanV>>::empty());
            },
            MdEvent::End(MdEnd::Table) => {
                return (header, rows, p + 1);
            },
            _ => {},
        }
        p = p + 1;
    }
}

/// Exec [`list_items`].
fn list_items_exec(evs: &Vec<MdEvent>, p0: usize) -> (r: (Vec<ListItem>, usize))
    requires
        p0 <= evs@.len(),
    ensures
        (items_view(r.0@), r.1 as int) == list_items(events_view(evs@), p0 as int),
        p0 <= r.1 <= evs@.len(),
    decreases evs@.len() - p0, 2nat,
{
    let ghost ev = events_view(evs@);
    let ghost n = evs@.len() as int;
    let mut items: Vec<ListItem> = Vec::new();
    let mut p = p0;
    assert(items_view(items@) =~= Seq::<(Option<bool>, Seq<BlockV>)>::empty());
    loop
        invariant
            p0 <= p <= evs@.len(),
            ev == events_view(evs@),
            n == evs@.len(),
            items_view(items@) + list_items(ev, p as int).0 == list_items(ev, p0 as int).0,
            list_items(ev, p as int).1 == list_items(ev, p0 as int).1,
        decreases evs@.len() - p,
    {
        let ghost before = items_view(items@);
        if p >= evs.len() {
            assert(items_view(items@) =~= items_view(items@) + list_items(ev, p as int).0);
            return (items, p);
        }
        assert(ev[p as int] == crate::md_events::event_view(evs@[p as int]));
        match &evs[p] {
            MdEvent::Start(MdTag::Other(MdEnd::Item)) => {
                let mut checked: Option<bool> = None;
                let mut q0 = p + 1;
                if p + 1 < evs.len() {
                    assert(ev[p + 1] == crate::md_events::event_view(evs@[p + 1]));
                    match &evs[p + 1] {
                        MdEvent::TaskListMarker(c) => {
                            checked = Some(*c);
                            q0 = p + 2;
                        },
                        _ => {},
                    }
                }
                let (blocks, q) = blocks_exec(evs, q0, Some(MdEnd::Item));
                let item = ListItem { checked, blocks };
                proof {
                    lemma_items_view_push(items@, item);
                }
                items.push(item);
                assert(items_view(items@) + list_items(ev, q as int).0 =~= before + list_items(ev, p as int).0);
                p = q;
                continue;
            },
            MdEvent::End(MdEnd::List) => {
                assert(items_view(items@) =~= items_view(items@) + list_items(ev, p as int).0);
                return (items, p + 1);
            },
            _ => {},
        }
        p = p + 1;
    }
}

/// Push `b` to `out`.
fn push_block(out: &mut Vec<Block>, b: Block)
    ensures
        blocks_view(final(out)@) == blocks_view(old(out)@).push(block_view(b)),
{
    let ghost x = b;
    out.push(b);
    proof {
        lemma_blocks_view_push(old(out)@, x);
    }
}

/// Exec [`is_loose_inline`].
fn loose_inline(e: &MdEvent) -> (r: bool)
    ensures
        r == is_loose_inline(crate::md_events::event_view(*e)),
{
    match e {
        MdEvent::Text(_) | MdEvent::Code(_) | MdEvent::SoftBreak | MdEvent::HardBreak | MdEvent::InlineMath(_)
        | MdEvent::DisplayMath(_) | MdEvent::FootnoteReference(_) => true,
        MdEvent::Start(MdTag::Link(_, _)) | MdEvent::Start(MdTag::Image(_, _)) => true,
        MdEvent::Start(MdTag::Other(k)) => *k == MdEnd::Emphasis || *k == MdEnd::Strong || *k == MdEnd::Strikethrough,
        _ => false,
    }
}

/// Exec [`container`]: push the block a container start at `p` opens.
fn container_exec(evs: &Vec<MdEvent>, p: usize, out: &mut Vec<Block>) -> (r: Option<usize>)
    requires
        p < evs@.len(),
    ensures
        match container(events_view(evs@), p as int) {
            Some((b, q)) => r == Some(q as usize) && p < q <= evs@.len() && blocks_view(final(out)@) == blocks_view(
                old(out)@,
            ).push(b),
            None => r is None && final(out)@ == old(out)@,
        },
    decreases evs@.len() - p, 2nat,
{
    let ghost ev = events_view(evs@);
    assert(evs@.len() == evs.len());
    assert(ev[p as int] == crate::md_events::event_view(evs@[p as int]));
    match &evs[p] {
        MdEvent::Start(tag) => match tag {
            MdTag::Other(MdEnd::Paragraph) => {
                let (sp, q) = spans_exec(evs, p + 1, Some(MdEnd::Paragraph), Style::default(), false);
                push_block(out, Block::Para(sp));
                Some(q)
            },
            MdTag::Heading(l) => {
                let (sp, q) = spans_exec(evs, p + 1, Some(MdEnd::Heading), Style::default(), false);
                push_block(out, Block::Heading { level: *l, spans: sp });
                Some(q)
            },
            MdTag::BlockQuote(k) => {
                let (items, q) = blocks_exec(evs, p + 1, Some(MdEnd::BlockQuote));
                push_block(out, Block::BlockQuote { kind: quote_kind(*k), items });
                Some(q)
            },
            MdTag::List(start) => {
                let (items, q) = list_items_exec(evs, p + 1);
                push_block(out, Block::List { ordered: start.is_some(), items });
                Some(q)
            },
            MdTag::CodeBlock(kind) => {
                let (code, q) = text_run(evs, p + 1, 0);
                let lang = match kind {
                    Some(l) => l.clone(),
                    None => String::new(),
                };
                push_block(out, Block::CodeBlock { lang, code });
                Some(q)
            },
            MdTag::Table(aligns) => {
                let (header, rows, q) = table_rows_exec(evs, p + 1);
                let mut header = header;
                let mut rows = rows;
                if header.len() == 0 && rows.len() > 0 {
                    let ghost rv = rows_spans_view(rows@);
                    header = rows.remove(0);
                    assert(rows_spans_view(rows@) =~= rv.drop_first());
                }
                let t = Table { aligns: col_aligns(aligns), header, rows };
                push_block(out, Block::Table(t));
                Some(q)
            },
            MdTag::FootnoteDefinition(label) => {
                let (bs, q) = blocks_exec(evs, p + 1, Some(MdEnd::FootnoteDefinition));
                push_block(out, Block::FootnoteDef { label: label.clone(), blocks: bs });
                Some(q)
            },
            MdTag::Other(MdEnd::HtmlBlock) => {
                let (h, q) = text_run(evs, p + 1, 1);
                push_block(out, Block::Html(h));
                Some(q)
            },
            _ => None,
        },
        _ => None,
    }
}

/// Exec [`blocks_at`].
pub(crate) fn blocks_exec(evs: &Vec<MdEvent>, p0: usize, end: Option<MdEnd>) -> (r: (Vec<Block>, usize))
    requires
        p0 <= evs@.len(),
    ensures
        (blocks_view(r.0@), r.1 as int) == blocks_at(events_view(evs@), p0 as int, end),
        p0 <= r.1 <= evs@.len(),
    decreases evs@.len() - p0, 3nat,
{
    let ghost ev = events_view(evs@);
    let ghost n = evs@.len() as int;
    let mut out: Vec<Block> = Vec::new();
    let mut p = p0;
    assert(blocks_view(out@) =~= Seq::<BlockV>::empty());
    loop
        invariant
            p0 <= p <= evs@.len(),
            ev == events_view(evs@),
            n == evs@.len(),
            blocks_view(out@) + blocks_at(ev, p as int, end).0 == blocks_at(ev, p0 as int, end).0,
            blocks_at(ev, p as int, end).1 == blocks_at(ev, p0 as int, end).1,
        decreases evs@.len() - p,
    {
        let ghost before = blocks_view(out@);
        if p >= evs.len() {
            assert(blocks_view(out@) =~= blocks_view(out@) + blocks_at(ev, p as int, end).0);
            return (out, p);
        }
        assert(ev[p as int] == crate::md_events::event_view(evs@[p as int]));
        if loose_inline(&evs[p]) {
            let (sp, q) = spans_exec(evs, p, None, Style::default(), false);
            push_block(&mut out, Block::Para(sp));
            assert(blocks_view(out@) + blocks_at(ev, q as int, end).0 =~= before + blocks_at(ev, p as int, end).0);
            p = q;
            continue;
        }
        match container_exec(evs, p, &mut out) {
            Some(q) => {
                assert(blocks_view(out@) + blocks_at(ev, q as int, end).0 =~= before + blocks_at(
                    ev,
                    p as int,
                    end,
                ).0);
                p = q;
                continue;
            },
            None => {},
        }
        match &evs[p] {
            MdEvent::Rule => {
                push_block(&mut out, Block::Rule);
            },
            MdEvent::End(k) => {
                if end == Some(*k) {
                    assert(blocks_view(out@) =~= blocks_view(out@) + blocks_at(ev, p as int, end).0);
                    return (out, p + 1);
                }
            },
            _ => {},
        }
        assert(blocks_view(out@) + blocks_at(ev, p + 1, end).0 =~= before + blocks_at(ev, p as int, end).0);
        p = p + 1;
    }
}

/// A table's column alignments in the document are those of its delimiter
/// row, column for column: left stays left, center stays center, right
/// stays right, and an unmarked column stays unmarked.
pub proof fn lemma_table_aligns_kept(evs: Seq<EventV>, p: int, al: Seq<MdAlign>)
    requires
        0 <= p < evs.len(),
        evs[p] == EventV::Start(TagV::Table(al)),
    ensures
        container(evs, p) matches Some((BlockV::Table(a2, _, _), _)) && a2.len() == al.len() && forall|i: int|
            0 <= i < al.len() ==> {
                &&& (al[i] == MdAlign::Left <==> #[trigger] a2[i] == ColAlign::Left)
                &&& (al[i] == MdAlign::Center <==> a2[i] == ColAlign::Center)
                &&& (al[i] == MdAlign::Right <==> a2[i] == ColAlign::Right)
                &&& (al[i] == MdAlign::Unset <==> a2[i] == ColAlign::Unset)
            },
{
}

/// A blockquote keeps its callout kind (a plain quote stays plain, each
/// callout its own kind), a heading keeps its level, and a list is ordered
/// exactly when it has a start number.
pub proof fn lemma_container_kinds(evs: Seq<EventV>, p: int)
    requires
        0 <= p < evs.len(),
    ensures
        evs[p] matches EventV::Start(TagV::BlockQuote(k)) ==> (container(evs, p) matches Some(
            (BlockV::BlockQuote(q, _), _),
        ) && (k is None <==> q == QuoteKind::Plain) && (k == Some(MdQuote::Note) <==> q == QuoteKind::Note) && (k
            == Some(MdQuote::Tip) <==> q == QuoteKind::Tip) && (k == Some(MdQuote::Important) <==> q
            == QuoteKind::Important) && (k == Some(MdQuote::Warning) <==> q == QuoteKind::Warning) && (k == Some(
            MdQuote::Caution,
        ) <==> q == QuoteKind::Caution)),
        evs[p] matches EventV::Start(TagV::Heading(l)) ==> (container(evs, p) matches Some(
            (BlockV::Heading(l2, _), _),
        ) && l2 == l),
        evs[p] matches EventV::Start(TagV::List(st)) ==> (container(evs, p) matches Some((BlockV::List(o, _), _))
            && o == st is Some),
{
}

} // verus!
