//! The document: top-level blocks, footnote definitions set apart, and the
//! outline of headings with unique anchors.

use vstd::prelude::*;
use crate::md::{
    Block, BlockV, Doc, SpanV, Span, blocks_view, block_view, plain_of, spans_view, spec_slugify, spans_plain,
    slugify, lemma_blocks_view_index, lemma_blocks_view_push, lemma_items_view_index,
};
use crate::md_events::{EventV, MdEvent, events_view, markdown_events, md_parse_events};
use crate::md_parse::{blocks_at, blocks_exec};
use crate::utf8_text::{decimal, u64_to_decimal, string_push, string_push_str};

verus! {

/// The model of a document.
pub struct DocV {
    pub blocks: Seq<BlockV>,
    pub toc: Seq<(u8, Seq<char>, Seq<char>)>,
    pub footnotes: Seq<(Seq<char>, Seq<BlockV>)>,
}

/// The model of outline entries.
pub open spec fn toc_view(v: Seq<(u8, String, String)>) -> Seq<(u8, Seq<char>, Seq<char>)> {
    Seq::new(v.len(), |i: int| (v[i].0, v[i].1@, v[i].2@))
}

/// The model of a list of strings.
pub open spec fn strings_view(v: Seq<String>) -> Seq<Seq<char>> {
    Seq::new(v.len(), |i: int| v[i]@)
}

/// The model of footnote definitions.
pub open spec fn footnotes_view(v: Seq<(String, Vec<Block>)>) -> Seq<(Seq<char>, Seq<BlockV>)> {
    Seq::new(v.len(), |i: int| (v[i].0@, blocks_view(v[i].1@)))
}

/// The model of a document.
pub open spec fn doc_view(d: Doc) -> DocV {
    DocV { blocks: blocks_view(d.blocks@), toc: toc_view(d.toc@), footnotes: footnotes_view(d.footnotes@) }
}

/// How many times `x` occurs in `s`.
pub open spec fn occurrences(s: Seq<Seq<char>>, x: Seq<char>) -> nat
    decreases s.len(),
{
    if s.len() == 0 {
        0
    } else {
        occurrences(s.drop_last(), x) + if s.last() == x { 1nat } else { 0nat }
    }
}

/// The anchor of a heading whose slug `base` was seen `count` times before:
/// `base`, then `base-1`, `base-2`, ...
pub open spec fn heading_slug(base: Seq<char>, count: nat) -> Seq<char> {
    if count == 0 { base } else { base + seq!['-'] + decimal(count) }
}

/// One heading added to the outline: entries so far and the base slug of
/// each heading seen.
pub open spec fn toc_heading(level: u8, spans: Seq<SpanV>, acc: (Seq<(u8, Seq<char>, Seq<char>)>, Seq<Seq<char>>)) -> (
    Seq<(u8, Seq<char>, Seq<char>)>,
    Seq<Seq<char>>,
) {
    let title = plain_of(spans);
    let base = spec_slugify(title);
    (acc.0.push((level, title, heading_slug(base, occurrences(acc.1, base)))), acc.1.push(base))
}

/// The outline after the headings of `bs`, in document order, including
/// those inside blockquotes and list items.
pub open spec fn toc_blocks(bs: Seq<BlockV>, acc: (Seq<(u8, Seq<char>, Seq<char>)>, Seq<Seq<char>>)) -> (
    Seq<(u8, Seq<char>, Seq<char>)>,
    Seq<Seq<char>>,
)
    decreases bs, 0nat,
{
    if bs.len() == 0 {
        acc
    } else {
        toc_block(bs.last(), toc_blocks(bs.drop_last(), acc))
    }
}

/// The outline after the headings of one block.
pub open spec fn toc_block(b: BlockV, acc: (Seq<(u8, Seq<char>, Seq<char>)>, Seq<Seq<char>>)) -> (
    Seq<(u8, Seq<char>, Seq<char>)>,
    Seq<Seq<char>>,
)
    decreases b, 1nat,
{
    match b {
        BlockV::Heading(l, sp) => toc_heading(l, sp, acc),
        BlockV::BlockQuote(_, items) => toc_blocks(items, acc),
        BlockV::List(_, items) => toc_items(items, acc),
        _ => acc,
    }
}

/// The outline after the headings of list items.
pub open spec fn toc_items(
    items: Seq<(Option<bool>, Seq<BlockV>)>,
    acc: (Seq<(u8, Seq<char>, Seq<char>)>, Seq<Seq<char>>),
) -> (Seq<(u8, Seq<char>, Seq<char>)>, Seq<Seq<char>>)
    decreases items, 0nat,
{
    if items.len() == 0 {
        acc
    } else {
        let last = items.last();
        proof {
            assert(decreases_to!(items => last));
            assert(decreases_to!(last => last.1));
        }
        toc_blocks(last.1, toc_items(items.drop_last(), acc))
    }
}

/// Number of entries of `seen` equal to `base`.
fn count_seen(seen: &Vec<String>, base: &String) -> (c: usize)
    ensures
        c == occurrences(strings_view(seen@), base@),
{
    let ghost sv = strings_view(seen@);
    let mut c: usize = 0;
    let mut i: usize = 0;
    while i < seen.len()
        invariant
            i <= seen@.len(),
            sv == strings_view(seen@),
            c == occurrences(sv.take(i as int), base@),
            c <= i,
        decreases seen@.len() - i,
    {
        assert(sv.take(i + 1).drop_last() =~= sv.take(i as int));
        if seen[i] == *base {
            c = c + 1;
        }
        i = i + 1;
    }
    assert(sv.take(i as int) =~= sv);
    c
}

/// Add a heading to the outline.
fn toc_add(level: u8, spans: &Vec<Span>, toc: &mut Vec<(u8, String, String)>, seen: &mut Vec<String>)
    ensures
        (toc_view(final(toc)@), strings_view(final(seen)@)) == toc_heading(
            level,
            spans_view(spans@),
            (toc_view(old(toc)@), strings_view(old(seen)@)),
        ),
{
    let title = spans_plain(spans.as_slice());
    let base = slugify(title.as_str());
    let c = count_seen(seen, &base);
    let mut slug = base.clone();
    if c > 0 {
        string_push(&mut slug, '-');
        let d = u64_to_decimal(c as u64);
        string_push_str(&mut slug, d.as_str());
    }
    let ghost t0 = toc_view(toc@);
    let ghost s0 = strings_view(seen@);
    let ghost tv = title@;
    let ghost bv = base@;
    let ghost sl = slug@;
    assert(sl == heading_slug(bv, c as nat));
    toc.push((level, title, slug));
    seen.push(base);
    assert(toc_view(toc@) =~= t0.push((level, tv, sl)));
    assert(strings_view(seen@) =~= s0.push(bv));
}

/// Add the headings of `blocks` to the outline.
fn toc_walk(blocks: &Vec<Block>, toc: &mut Vec<(u8, String, String)>, seen: &mut Vec<String>)
    ensures
        (toc_view(final(toc)@), strings_view(final(seen)@)) == toc_blocks(
            blocks_view(blocks@),
            (toc_view(old(toc)@), strings_view(old(seen)@)),
        ),
    decreases blocks@, 1nat,
{
    let ghost bv = blocks_view(blocks@);
    let ghost acc0 = (toc_view(toc@), strings_view(seen@));
    proof {
        lemma_blocks_view_index(blocks@);
    }
    let mut i: usize = 0;
    while i < blocks.len()
        invariant
            i <= blocks@.len(),
            bv == blocks_view(blocks@),
            bv.len() == blocks@.len(),
            forall|k: int| 0 <= k < blocks@.len() ==> #[trigger] bv[k] == block_view(blocks@[k]),
            (toc_view(toc@), strings_view(seen@)) == toc_blocks(bv.take(i as int), acc0),
        decreases blocks@.len() - i,
    {
        assert(bv.take(i + 1).drop_last() =~= bv.take(i as int));
        assert(bv.take(i + 1).last() == block_view(blocks@[i as int]));
        let ghost before = (toc_view(toc@), strings_view(seen@));
        assert(toc_blocks(bv.take(i + 1), acc0) == toc_block(block_view(blocks@[i as int]), before));
        match &blocks[i] {
            Block::Heading { level, spans } => toc_add(*level, spans, toc, seen),
            Block::BlockQuote { items, .. } => {
                assert(decreases_to!(blocks@ => items@));
                toc_walk(items, toc, seen);
            },
            Block::List { items, .. } => {
                assert(decreases_to!(blocks@ => items@));
                toc_walk_items(items, toc, seen);
            },
            _ => {
                assert(toc_block(block_view(blocks@[i as int]), before) == before);
            },
        }
        i = i + 1;
    }
    assert(bv.take(i as int) =~= bv);
}

/// Add the headings of list items to the outline.
fn toc_walk_items(items: &Vec<crate::md::ListItem>, toc: &mut Vec<(u8, String, String)>, seen: &mut Vec<String>)
    ensures
        (toc_view(final(toc)@), strings_view(final(seen)@)) == toc_items(
            crate::md::items_view(items@),
            (toc_view(old(toc)@), strings_view(old(seen)@)),
        ),
    decreases items@, 0nat,
{
    let ghost iv = crate::md::items_view(items@);
    let ghost acc0 = (toc_view(toc@), strings_view(seen@));
    proof {
        lemma_items_view_index(items@);
    }
    let mut j: usize = 0;
    while j < items.len()
        invariant
            j <= items@.len(),
            iv == crate::md::items_view(items@),
            iv.len() == items@.len(),
            forall|k: int|
                0 <= k < items@.len() ==> #[trigger] iv[k] == (items@[k].checked, blocks_view(items@[k].blocks@)),
            (toc_view(toc@), strings_view(seen@)) == toc_items(iv.take(j as int), acc0),
        decreases items@.len() - j,
    {
        assert(iv.take(j + 1).drop_last() =~= iv.take(j as int));
        assert(iv.take(j + 1).last() == iv[j as int]);
        assert(decreases_to!(items@ => items@[j as int].blocks@));
        toc_walk(&items[j].blocks, toc, seen);
        j = j + 1;
    }
    assert(iv.take(j as int) =~= iv);
}

/// The blocks of `bs` other than footnote definitions, in order.
pub open spec fn body_blocks(bs: Seq<BlockV>) -> Seq<BlockV>
    decreases bs.len(),
{
    if bs.len() == 0 {
        Seq::empty()
    } else {
        let r = body_blocks(bs.drop_last());
        if bs.last() is FootnoteDef { r } else { r.push(bs.last()) }
    }
}

/// The footnote definitions among `bs`, in order.
pub open spec fn footnote_defs(bs: Seq<BlockV>) -> Seq<(Seq<char>, Seq<BlockV>)>
    decreases bs.len(),
{
    if bs.len() == 0 {
        Seq::empty()
    } else {
        let r = footnote_defs(bs.drop_last());
        match bs.last() {
            BlockV::FootnoteDef(l, b) => r.push((l, b)),
            _ => r,
        }
    }
}

/// The document that a stream of parser events describes: its top-level
/// blocks without the footnote definitions, the outline of their headings,
/// and the footnote definitions.
pub open spec fn spec_doc(evs: Seq<EventV>) -> DocV {
    let bs = blocks_at(evs, 0, None).0;
    let body = body_blocks(bs);
    DocV { blocks: body, toc: toc_blocks(body, (Seq::empty(), Seq::empty())).0, footnotes: footnote_defs(bs) }
}

/// Set the footnote definitions apart from the other blocks.
fn split_footnotes(blocks: Vec<Block>) -> (r: (Vec<Block>, Vec<(String, Vec<Block>)>))
    ensures
        blocks_view(r.0@) == body_blocks(blocks_view(blocks@)),
        footnotes_view(r.1@) == footnote_defs(blocks_view(blocks@)),
{
    let ghost bs = blocks@;
    let ghost bv = blocks_view(bs);
    proof {
        lemma_blocks_view_index(bs);
    }
    let mut body: Vec<Block> = Vec::new();
    let mut notes: Vec<(String, Vec<Block>)> = Vec::new();
    assert(blocks_view(body@) =~= Seq::<BlockV>::empty());
    assert(footnotes_view(notes@) =~= Seq::<(Seq<char>, Seq<BlockV>)>::empty());
    for b in it: blocks.into_iter()
        invariant
            it.seq() == bs,
            bv == blocks_view(bs),
            bv.len() == bs.len(),
            forall|k: int| 0 <= k < bs.len() ==> #[trigger] bv[k] == block_view(bs[k]),
            blocks_view(body@) == body_blocks(bv.take(it.index() as int)),
            footnotes_view(notes@) == footnote_defs(bv.take(it.index() as int)),
    {
        let ghost k = it.index() as int;
        assert(bv.take(k + 1).drop_last() =~= bv.take(k));
        assert(bv.take(k + 1).last() == block_view(b));
        let ghost n0 = footnotes_view(notes@);
        match b {
            Block::FootnoteDef { label, blocks } => {
                let ghost e = (label@, blocks_view(blocks@));
                notes.push((label, blocks));
                assert(footnotes_view(notes@) =~= n0.push(e));
            },
            other => {
                push_body(&mut body, other);
            },
        }
    }
    assert(bv.take(bs.len() as int) =~= bv);
    (body, notes)
}

fn push_body(out: &mut Vec<Block>, b: Block)
    ensures
        blocks_view(final(out)@) == blocks_view(old(out)@).push(block_view(b)),
{
    let ghost x = b;
    out.push(b);
    proof {
        lemma_blocks_view_push(old(out)@, x);
    }
}

/// The document described by a stream of parser events.
pub fn parse_events(evs: &Vec<MdEvent>) -> (d: Doc)
    ensures
        doc_view(d) == spec_doc(events_view(evs@)),
{
    let (blocks, _) = blocks_exec(evs, 0, None);
    let (body, footnotes) = split_footnotes(blocks);
    let mut toc: Vec<(u8, String, String)> = Vec::new();
    let mut seen: Vec<String> = Vec::new();
    assert(toc_view(toc@) =~= Seq::<(u8, Seq<char>, Seq<char>)>::empty());
    assert(strings_view(seen@) =~= Seq::<Seq<char>>::empty());
    toc_walk(&body, &mut toc, &mut seen);
    Doc { blocks: body, toc, footnotes }
}

/// Parse a Markdown text (tables, footnotes, strikethrough, task lists,
/// heading attributes and GFM callouts enabled) into its document.
pub fn parse(text: &str) -> (d: Doc)
    ensures
        doc_view(d) == spec_doc(markdown_events(text@)),
{
    let evs = md_parse_events(text);
    parse_events(&evs)
}

} // verus!
