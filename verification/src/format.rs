//! Markdown editing operations.
//!
//! Every operation is a pure function over the buffer text and a byte-based
//! selection, returning the new text plus the selection/caret to show
//! afterwards. The UI layer records an undo point before applying an `Op`.

use vstd::prelude::*;
use vstd::utf8::*;
use std::ops::Range;
use crate::utf8_text::{
    bytes_of, boundary, bytes_at, char_len, char_len_at, find_from, first_occ, lemma_first_occ_props,
    lemma_match_end_boundary, lemma_match_start_boundary, lemma_next_boundary, lemma_valid_sub,
    match_at, push_range, push_valid_range, splice_string, all_ascii, lemma_boundary_after_ascii, is_boundary, blank, push_ascii_all, is_white_space,
};
pub use crate::enter::smart_enter;
pub use crate::edits::{insert_link, insert_image, toggle_task_item, plain_line};
pub use crate::tables::{insert_table, table_op, TableCmd, Align, parse_tables, table_cols, RawTable};
use crate::text_utils::{
    nl_count, is_line_start, is_line_end, no_nl, next_nl, nth_start, line_tuple, spec_line_count,
    lemma_nl_count_concat,
};

verus! {

broadcast use vstd::utf8::encode_utf8_valid_utf8;

/// Result of a successfully applied operation.
pub struct Op {
    pub new_text: String,
    /// Byte range to select afterwards (sorted).
    pub selection: Range<usize>,
}

/// An operation may refuse to run (half-selected delimiters, caret outside
/// a table, ...); the message is shown as a transient notice.
pub enum Out {
    Applied(Op),
    Noop(&'static str),
}

/// Outcome of an edit in the byte model: new text bytes and selection.
pub enum Outcome {
    Applied(Seq<u8>, int, int),
    /// Refused, with the notice to show.
    Noop(Seq<char>),
}

/// `t[..a] + w + t[b..]`.
pub open spec fn splice(t: Seq<u8>, a: int, b: int, w: Seq<u8>) -> Seq<u8> {
    t.subrange(0, a) + w + t.subrange(b, t.len() as int)
}

/// An applied edit whose selection is clamped to the new text.
pub open spec fn applied(nt: Seq<u8>, ns: int, ne: int) -> Outcome {
    let e = if ne < nt.len() { ne } else { nt.len() as int };
    let s = if ns < e { ns } else { e };
    Outcome::Applied(nt, s, e)
}

/// The notice for a selection that takes in one delimiter of a pair but not
/// the other.
pub open spec fn half_selected_notice() -> Seq<char> {
    "Formatting markers are half-selected — include the whole word"@
}

/// `o` is the executable form of `x`.
pub open spec fn out_is(o: Out, x: Outcome) -> bool {
    match o {
        Out::Applied(op) => match x {
            Outcome::Applied(t, s, e) => bytes_of(op.new_text@) == t && op.selection.start == s
                && op.selection.end == e,
            Outcome::Noop(_) => false,
        },
        Out::Noop(m) => x matches Outcome::Noop(n) && m@ == n,
    }
}

/// `op` is the executable form of the applied edit `x`.
pub open spec fn op_is(op: Op, x: Outcome) -> bool {
    out_is(Out::Applied(op), x)
}

impl Out {
    /// The applied operation (a refusal here is a caller bug).
    pub fn unwrap_op(self) -> (op: Op)
        requires
            self is Applied,
        ensures
            self == Out::Applied(op),
    {
        match self {
            Out::Applied(op) => op,
            Out::Noop(_) => Op { new_text: String::new(), selection: 0..0 },
        }
    }
}

/// Replace `t[a..b]` by `w` and select `ns..ne` (clamped).
pub(crate) fn apply(t: &[u8], a: usize, b: usize, w: &[u8], ns: usize, ne: usize) -> (o: Out)
    requires
        valid_utf8(t@),
        valid_utf8(w@),
        a <= b <= t@.len(),
        boundary(t@, a as int),
        boundary(t@, b as int),
    ensures
        out_is(o, applied(splice(t@, a as int, b as int, w@), ns as int, ne as int)),
        o is Applied,
{
    let new_text = splice_string(t, a, b, w);
    let nl = new_text.as_str().as_bytes().len();
    let sel_end = if ne < nl { ne } else { nl };
    let sel_start = if ns < sel_end { ns } else { sel_end };
    Out::Applied(Op { new_text, selection: sel_start..sel_end })
}

// ---------------------------------------------------------------------------
// Inline wrappers
// ---------------------------------------------------------------------------

/// Number of backslashes immediately before offset `at`.
pub open spec fn bs_run(t: Seq<u8>, at: int) -> nat
    decreases at,
{
    if at <= 0 || at > t.len() {
        0
    } else if t[at - 1] == 92u8 {
        1 + bs_run(t, at - 1)
    } else {
        0
    }
}

/// The character at `at` is escaped by an odd run of backslashes.
pub open spec fn escaped(t: Seq<u8>, at: int) -> bool {
    bs_run(t, at) % 2 == 1
}

/// Start of the line containing offset `i`.
pub open spec fn line_start_of(t: Seq<u8>, i: int) -> int
    decreases i,
{
    if i <= 0 {
        0
    } else if i > t.len() {
        line_start_of(t, t.len() as int)
    } else if t[i - 1] == 10u8 {
        i
    } else {
        line_start_of(t, i - 1)
    }
}

/// The `open…close` token on the caret's line that encloses `byte`,
/// scanning candidate openers from `search` one character at a time.
pub open spec fn enc_tok(t: Seq<u8>, byte: int, o: Seq<u8>, c: Seq<u8>, search: int) -> Option<(int, int)>
    decreases byte - search + 4,
{
    if search >= byte || search < 0 || search >= t.len() {
        None
    } else if bytes_at(t, search, o) && !escaped(t, search) && search + o.len() > byte {
        None
    } else if bytes_at(t, search, o) && !escaped(t, search) && (first_occ(t, c, search + o.len()) matches Some(
        ca,
    ) && ca >= byte && !escaped(t, ca)) {
        Some((search, first_occ(t, c, search + o.len())->0 + c.len()))
    } else {
        enc_tok(t, byte, o, c, search + char_len_at(t, search))
    }
}

/// The selection is exactly the content between adjacent delimiters.
pub open spec fn inner_tok(t: Seq<u8>, s: int, e: int, o: Seq<u8>, c: Seq<u8>) -> bool {
    s >= o.len() && bytes_at(t, s - o.len(), o) && bytes_at(t, e, c)
}

/// Inline delimiter toggle (bold, italic, strikethrough, code):
/// caret inside a token unwraps it (the caret at the end of its content), a
/// caret elsewhere inserts an empty pair,
/// a selection covering a whole token (or exactly its content) unwraps it,
/// a half-selected delimiter refuses, anything else is wrapped.
pub open spec fn spec_toggle_wrap(t: Seq<u8>, s: int, e: int, o: Seq<u8>, c: Seq<u8>) -> Outcome {
    if s == e {
        match enc_tok(t, s, o, c, line_start_of(t, s)) {
            Some((ts, te)) => applied(
                splice(t, ts, te, t.subrange(ts + o.len(), te - c.len())),
                ts + (te - c.len() - (ts + o.len())),
                ts + (te - c.len() - (ts + o.len())),
            ),
            None => applied(splice(t, s, s, o + c), s + o.len(), s + o.len()),
        }
    } else if e - s >= o.len() + c.len() && bytes_at(t, s, o) && bytes_at(t, e - c.len(), c) {
        applied(splice(t, s, e, t.subrange(s + o.len(), e - c.len())), s, s + (e - c.len() - (s + o.len())))
    } else if inner_tok(t, s, e, o, c) {
        applied(splice(t, s - o.len(), e + c.len(), t.subrange(s, e)), s - o.len(), s - o.len() + (e - s))
    } else if (bytes_at(t, s, o) || bytes_at(t, e - c.len(), c)) && t.subrange(s, e) != o && t.subrange(s, e)
        != c {
        Outcome::Noop(half_selected_notice())
    } else {
        applied(splice(t, s, e, o + t.subrange(s, e) + c), s, e + o.len() + c.len())
    }
}

/// Exec [`escaped`].
fn is_escaped(t: &[u8], at: usize) -> (r: bool)
    requires
        at <= t@.len(),
    ensures
        r == escaped(t@, at as int),
{
    let mut i = at;
    let mut n: usize = 0;
    while i > 0 && t[i - 1] == 92u8
        invariant
            i <= at <= t@.len(),
            n == at - i,
            bs_run(t@, at as int) == n + bs_run(t@, i as int),
        decreases i,
    {
        i = i - 1;
        n = n + 1;
    }
    n % 2 == 1
}

pub(crate) fn line_start_at(t: &[u8], byte: usize) -> (r: usize)
    requires
        byte <= t@.len(),
    ensures
        r == line_start_of(t@, byte as int),
        r <= byte,
        r == 0 || t@[r - 1] == 10u8,
        forall|j: int| r <= j < byte ==> t@[j] != 10u8,
{
    let mut i = byte;
    while i > 0
        invariant
            i <= byte <= t@.len(),
            line_start_of(t@, byte as int) == line_start_of(t@, i as int),
            forall|j: int| i <= j < byte ==> t@[j] != 10u8,
        decreases i,
    {
        if t[i - 1] == 10u8 {
            return i;
        }
        i = i - 1;
    }
    0
}

proof fn lemma_line_start_boundary(t: Seq<u8>, i: int)
    requires
        valid_utf8(t),
        0 <= i <= t.len(),
    ensures
        boundary(t, line_start_of(t, i)),
        0 <= line_start_of(t, i) <= i,
    decreases i,
{
    if i > 0 {
        if t[i - 1] == 10u8 {
            lemma_boundary_after_ascii(t, i - 1);
        } else {
            lemma_line_start_boundary(t, i - 1);
        }
    }
}

/// Exec [`enc_tok`] from the start of the caret's line.
fn enclosing_token(t: &[u8], byte: usize, o: &[u8], c: &[u8]) -> (r: Option<(usize, usize)>)
    requires
        valid_utf8(t@),
        valid_utf8(o@),
        valid_utf8(c@),
        byte <= t@.len(),
        boundary(t@, byte as int),
    ensures
        r matches Some((a, b)) ==> enc_tok(t@, byte as int, o@, c@, line_start_of(t@, byte as int)) == Some(
            (a as int, b as int),
        ),
        r is None ==> enc_tok(t@, byte as int, o@, c@, line_start_of(t@, byte as int)) is None,
{
    let ls = line_start_at(t, byte);
    proof {
        lemma_line_start_boundary(t@, byte as int);
    }
    let mut search = ls;
    while search < byte
        invariant
            valid_utf8(t@),
            ls <= search <= byte <= t@.len(),
            boundary(t@, search as int),
            boundary(t@, byte as int),
            enc_tok(t@, byte as int, o@, c@, line_start_of(t@, byte as int)) == enc_tok(
                t@,
                byte as int,
                o@,
                c@,
                search as int,
            ),
        decreases byte - search,
    {
        if match_at(t, search, o) && !is_escaped(t, search) {
            let ol = o.len();
            if ol > byte - search {
                return None;
            }
            let ce = search + ol;
            match find_from(t, c, ce) {
                Some(ca) => {
                    proof {
                        lemma_first_occ_props(t@, c@, ce as int);
                    }
                    if ca >= byte && !is_escaped(t, ca) {
                        let tl = t.len();
                        let cl = c.len();
                        assert(ca + cl <= tl);
                        return Some((search, ca + cl));
                    }
                },
                None => {},
            }
        }
        proof {
            lemma_next_boundary(t@, search as int);
            assert(search + char_len_at(t@, search as int) <= byte);
        }
        search = search + char_len(t, search);
    }
    None
}

/// Facts about a token found by [`enc_tok`].
proof fn lemma_enc_tok(t: Seq<u8>, byte: int, o: Seq<u8>, c: Seq<u8>, search: int)
    requires
        valid_utf8(t),
        valid_utf8(o),
        valid_utf8(c),
        0 <= byte <= t.len(),
        boundary(t, search),
        boundary(t, byte),
    ensures
        enc_tok(t, byte, o, c, search) matches Some((ts, te)) ==> {
            &&& search <= ts
            &&& ts + o.len() <= te - c.len()
            &&& te <= t.len()
            &&& boundary(t, ts)
            &&& boundary(t, ts + o.len())
            &&& boundary(t, te - c.len())
            &&& boundary(t, te)
        },
    decreases byte - search + 4,
{
    if search >= byte || search < 0 || search >= t.len() {
    } else if bytes_at(t, search, o) && !escaped(t, search) && search + o.len() > byte {
    } else if bytes_at(t, search, o) && !escaped(t, search) && (first_occ(t, c, search + o.len()) matches Some(
        ca,
    ) && ca >= byte && !escaped(t, ca)) {
        let ca = first_occ(t, c, search + o.len())->0;
        lemma_first_occ_props(t, c, search + o.len());
        lemma_match_end_boundary(t, search, o);
        if c.len() > 0 {
            lemma_match_start_boundary(t, ca, c);
        } else {
            assert(t.subrange(search + o.len(), search + o.len()) =~= c);
        }
        lemma_match_end_boundary(t, ca, c);
    } else {
        lemma_next_boundary(t, search);
        lemma_enc_tok(t, byte, o, c, search + char_len_at(t, search));
    }
}

/// Concatenation of three byte strings into a new vector.
fn concat3(a: &[u8], b: &[u8], c: &[u8]) -> (v: Vec<u8>)
    ensures
        v@ == a@ + b@ + c@,
{
    let mut v: Vec<u8> = Vec::new();
    push_range(&mut v, a, 0, a.len());
    push_range(&mut v, b, 0, b.len());
    push_range(&mut v, c, 0, c.len());
    assert(a@.subrange(0, a@.len() as int) =~= a@);
    assert(b@.subrange(0, b@.len() as int) =~= b@);
    assert(c@.subrange(0, c@.len() as int) =~= c@);
    v
}

/// Copy of `t[a..b]`.
fn sub_vec(t: &[u8], a: usize, b: usize) -> (v: Vec<u8>)
    requires
        a <= b <= t@.len(),
    ensures
        v@ == t@.subrange(a as int, b as int),
{
    let mut v: Vec<u8> = Vec::new();
    push_range(&mut v, t, a, b);
    v
}

/// Toggle an inline `open…close` pair around the selection `sel`.
pub fn toggle_wrap(text: &str, sel: &Range<usize>, open: &str, close: &str) -> (o: Out)
    requires
        sel.start <= sel.end <= bytes_of(text@).len(),
        boundary(bytes_of(text@), sel.start as int),
        boundary(bytes_of(text@), sel.end as int),
        bytes_of(text@).len() + bytes_of(open@).len() + bytes_of(close@).len() < usize::MAX,
    ensures
        out_is(o, spec_toggle_wrap(bytes_of(text@), sel.start as int, sel.end as int, bytes_of(open@), bytes_of(close@))),
{
    let t = text.as_bytes();
    let ob = open.as_bytes();
    let cb = close.as_bytes();
    let s = sel.start;
    let e = sel.end;
    let ol = ob.len();
    let cl = cb.len();
    if s == e {
        match enclosing_token(t, s, ob, cb) {
            Some((ts, te)) => {
                proof {
                    lemma_line_start_boundary(t@, s as int);
                    lemma_enc_tok(t@, s as int, ob@, cb@, line_start_of(t@, s as int));
                    lemma_valid_sub(t@, ts + ol, te - cl);
                }
                let inner = sub_vec(t, ts + ol, te - cl);
                let end = ts + (te - cl - (ts + ol));
                return apply(t, ts, te, inner.as_slice(), end, end);
            },
            None => {
                let w = concat3(ob, cb, &[]);
                proof {
                    assert(w@ =~= ob@ + cb@);
                    valid_utf8_concat(ob@, cb@);
                }
                return apply(t, s, s, w.as_slice(), s + ol, s + ol);
            },
        }
    }
    // whole token selected
    if e - s >= ol + cl && match_at(t, s, ob) && match_at(t, e - cl, cb) {
        proof {
            lemma_match_end_boundary(t@, s as int, ob@);
            if cl > 0 {
                lemma_match_start_boundary(t@, e - cl, cb@);
            }
            lemma_valid_sub(t@, s + ol, e - cl);
        }
        let inner = sub_vec(t, s + ol, e - cl);
        return apply(t, s, e, inner.as_slice(), s, s + (e - cl - (s + ol)));
    }
    // exact inner content of a token
    if s >= ol && match_at(t, s - ol, ob) && match_at(t, e, cb) {
        proof {
            if ol > 0 {
                lemma_match_start_boundary(t@, s - ol, ob@);
            }
            lemma_match_end_boundary(t@, e as int, cb@);
            lemma_valid_sub(t@, s as int, e as int);
        }
        let content = sub_vec(t, s, e);
        return apply(t, s - ol, e + cl, content.as_slice(), s - ol, s - ol + (e - s));
    }
    let starts_with_open = match_at(t, s, ob);
    let ends_with_close = e >= cl && match_at(t, e - cl, cb);
    let is_open = e - s == ol && starts_with_open;
    let is_close = e - s == cl && match_at(t, s, cb);
    proof {
        assert(is_open == (t@.subrange(s as int, e as int) == ob@)) by {
            if t@.subrange(s as int, e as int) == ob@ {
                assert(t@.subrange(s as int, s + ob@.len()) =~= t@.subrange(s as int, e as int));
            }
        }
        assert(is_close == (t@.subrange(s as int, e as int) == cb@)) by {
            if t@.subrange(s as int, e as int) == cb@ {
                assert(t@.subrange(s as int, s + cb@.len()) =~= t@.subrange(s as int, e as int));
            }
        }
    }
    if (starts_with_open || ends_with_close) && !is_open && !is_close {
        return Out::Noop("Formatting markers are half-selected — include the whole word");
    }
    toggle_wrap_range(t, s, e, ob, cb)
}

/// Plain wrap; the whole token is selected afterwards so the next press
/// unwraps it again.
fn toggle_wrap_range(t: &[u8], s: usize, e: usize, o: &[u8], c: &[u8]) -> (r: Out)
    requires
        valid_utf8(t@),
        valid_utf8(o@),
        valid_utf8(c@),
        s <= e <= t@.len(),
        boundary(t@, s as int),
        boundary(t@, e as int),
        t@.len() + o@.len() + c@.len() < usize::MAX,
    ensures
        out_is(r, applied(splice(t@, s as int, e as int, o@ + t@.subrange(s as int, e as int) + c@), s as int, e + o@.len() + c@.len())),
{
    let mid = sub_vec(t, s, e);
    let w = concat3(o, mid.as_slice(), c);
    proof {
        lemma_valid_sub(t@, s as int, e as int);
        valid_utf8_concat(o@, mid@);
        valid_utf8_concat(o@ + mid@, c@);
    }
    apply(t, s, e, w.as_slice(), s, e + o.len() + c.len())
}

} // verus!

verus! {

// ---------------------------------------------------------------------------
// Touched lines
// ---------------------------------------------------------------------------

/// Largest character boundary at or below `at`, clamped to the text.
pub open spec fn floor_b(t: Seq<u8>, at: int) -> int
    decreases at,
{
    if at > t.len() {
        floor_b(t, t.len() as int)
    } else if at <= 0 {
        0
    } else if boundary(t, at) {
        at
    } else {
        floor_b(t, at - 1)
    }
}

/// First and last line index touched by the selection `s..e` (a caret on a
/// line terminator belongs to the line before it).
pub open spec fn touched_bounds(t: Seq<u8>, s: int, e: int) -> (int, int) {
    let st = floor_b(t, s);
    let en = if floor_b(t, e) > st { floor_b(t, e) } else { st };
    let first = nl_count(t.subrange(0, st)) as int;
    let last0 = nl_count(t.subrange(0, en)) as int;
    let last = if en > st && t[en - 1] == 10u8 { if last0 > 0 { last0 - 1 } else { 0 } } else { last0 };
    (first, if last > first { last } else { first })
}

/// The `(start, end, end_incl)` bounds of every line touched by `s..e`;
/// an empty text has one empty line.
pub open spec fn touched(t: Seq<u8>, s: int, e: int) -> Seq<(int, int, int)> {
    if t.len() == 0 {
        seq![(0int, 0int, 0int)]
    } else {
        let (a, b) = touched_bounds(t, s, e);
        Seq::new((b - a + 1) as nat, |j: int| line_tuple(t, (a + j) as nat))
    }
}

/// Line bounds as integers.
pub open spec fn tview(v: Seq<(usize, usize, usize)>) -> Seq<(int, int, int)> {
    v.map_values(|x: (usize, usize, usize)| (x.0 as int, x.1 as int, x.2 as int))
}

/// Well-formed bounds of one line of `t`.
pub open spec fn line_ok(t: Seq<u8>, l: (int, int, int)) -> bool {
    &&& 0 <= l.0 <= l.1 <= l.2 <= t.len()
    &&& is_line_start(t, l.0)
    &&& is_line_end(t, l.1)
    &&& no_nl(t, l.0, l.1)
    &&& l.2 == if l.1 < t.len() { l.1 + 1 } else { l.1 }
}

/// `f` applied to every line, each followed by `\n`.
pub open spec fn join_lines(t: Seq<u8>, ls: Seq<(int, int, int)>, f: spec_fn(Seq<u8>) -> Seq<u8>) -> Seq<u8>
    decreases ls.len(),
{
    if ls.len() == 0 {
        Seq::empty()
    } else {
        join_lines(t, ls.drop_last(), f) + f(t.subrange(ls.last().0, ls.last().1)) + seq![10u8]
    }
}

/// Length of the first line of `o`.
pub open spec fn first_line_len(o: Seq<u8>) -> int
    decreases o.len(),
{
    if o.len() == 0 {
        0
    } else if o[0] == 10u8 {
        0
    } else {
        1 + first_line_len(o.skip(1))
    }
}

/// Replace the touched lines by `out`: the artificial final `\n` is dropped
/// when the source block had none, and a caret on the first line keeps its
/// place relative to the line body.
pub open spec fn finish(t: Seq<u8>, ls: Seq<(int, int, int)>, out: Seq<u8>, caret: int) -> Outcome {
    let start = ls[0].0;
    let first_end = ls[0].1;
    let end_incl = ls.last().2;
    let had = end_incl > start && t[end_incl - 1] == 10u8;
    let o = if !had && out.len() > 0 && out.last() == 10u8 { out.drop_last() } else { out };
    let nfl = first_line_len(o);
    let c = if start <= caret <= first_end {
        let shifted = caret + (nfl - (first_end - start));
        if shifted < start { start } else if shifted > start + nfl { start + nfl } else { shifted }
    } else {
        caret
    };
    let sel = if c < start + o.len() { c } else { start + o.len() };
    applied(splice(t, start, end_incl, o), sel, sel)
}

proof fn lemma_floor_b(t: Seq<u8>, at: int)
    ensures
        0 <= floor_b(t, at) <= t.len(),
        boundary(t, floor_b(t, at)),
        at >= 0 ==> floor_b(t, at) <= at,
    decreases at,
{
    if at > t.len() {
        lemma_floor_b(t, t.len() as int);
    } else if at <= 0 {
    } else if boundary(t, at) {
    } else {
        lemma_floor_b(t, at - 1);
    }
}

fn floor_boundary(t: &[u8], at: usize) -> (r: usize)
    ensures
        r == floor_b(t@, at as int),
{
    let mut i = if at < t.len() { at } else { t.len() };
    while i > 0 && !is_boundary(t, i)
        invariant
            i <= t@.len(),
            floor_b(t@, at as int) == floor_b(t@, i as int),
        decreases i,
    {
        i = i - 1;
    }
    i
}

proof fn lemma_line_ok_bounds(t: Seq<u8>, l: (int, int, int))
    requires
        valid_utf8(t),
        line_ok(t, l),
    ensures
        boundary(t, l.0),
        boundary(t, l.1),
        boundary(t, l.2),
{
    if l.0 > 0 {
        lemma_boundary_after_ascii(t, l.0 - 1);
    }
    if l.1 < t.len() {
        lemma_boundary_after_ascii(t, l.1);
    }
}

/// Every touched line with its bounds.
fn touched_lines(t: &[u8], s: usize, e: usize) -> (v: Vec<(usize, usize, usize)>)
    ensures
        tview(v@) == touched(t@, s as int, e as int),
        v@.len() > 0,
        forall|k: int| 0 <= k < v@.len() ==> line_ok(t@, #[trigger] tview(v@)[k]),
        tview(v@)[0].0 <= tview(v@).last().2,
{
    if t.len() == 0 {
        let mut v = Vec::new();
        v.push((0usize, 0usize, 0usize));
        assert(tview(v@) =~= seq![(0int, 0int, 0int)]);
        return v;
    }
    let st = floor_boundary(t, s);
    let fe = floor_boundary(t, e);
    let en = if fe > st { fe } else { st };
    proof {
        lemma_floor_b(t@, s as int);
        lemma_floor_b(t@, e as int);
    }
    let first = crate::text_utils::count_nl(t, 0, st);
    let last0 = crate::text_utils::count_nl(t, 0, en);
    let last1 = if en > st && t[en - 1] == 10u8 { if last0 > 0 { last0 - 1 } else { 0 } } else { last0 };
    let last = if last1 > first { last1 } else { first };
    let ghost a = first as int;
    let ghost b = last as int;
    assert(touched_bounds(t@, s as int, e as int) == (a, b));
    proof {
        lemma_nl_count_concat(t@.subrange(0, en as int), t@.subrange(en as int, t@.len() as int));
        assert(t@.subrange(0, en as int) + t@.subrange(en as int, t@.len() as int) =~= t@);
        lemma_nl_count_concat(t@.subrange(0, st as int), t@.subrange(st as int, en as int));
        assert(t@.subrange(0, st as int) + t@.subrange(st as int, en as int) =~= t@.subrange(0, en as int));
    }
    let mut v: Vec<(usize, usize, usize)> = Vec::new();
    let mut i = first;
    loop
        invariant_except_break
            i <= last,
            v@.len() == i - first,
        invariant
            t@.len() > 0,
            a == first as int,
            b == last as int,
            a <= b,
            b < spec_line_count(t@),
            first <= i,
            v@.len() <= b - a + 1,
            forall|k: int| 0 <= k < v@.len() ==> #[trigger] tview(v@)[k] == line_tuple(t@, (a + k) as nat),
            forall|k: int| 0 <= k < v@.len() ==> line_ok(t@, #[trigger] tview(v@)[k]),
            v@.len() > 0 ==> tview(v@)[0].0 <= tview(v@).last().2,
        ensures
            v@.len() == b - a + 1,
        decreases last - i,
    {
        let lb = crate::text_utils::line_bounds_bytes(t, i);
        match lb {
            Some(x) => {
                let ghost old_v = v@;
                v.push(x);
                proof {
                    assert(tview(v@) =~= tview(old_v).push((x.0 as int, x.1 as int, x.2 as int)));
                    if old_v.len() > 0 {
                        assert(tview(v@)[0] == tview(old_v)[0]);
                        assert(tview(old_v).last().2 <= x.0) by {
                            lemma_line_tuple_next(t@, (i - 1) as nat);
                        }
                    }
                }
            },
            None => {
                assert(false);
            },
        }
        if i == last {
            break;
        }
        i = i + 1;
    }
    assert(tview(v@) =~= touched(t@, s as int, e as int));
    v
}

proof fn lemma_line_tuple_next(t: Seq<u8>, k: nat)
    ensures
        line_tuple(t, k).2 <= line_tuple(t, k + 1).0,
{
    let s = nth_start(t, k);
    assert(nth_start(t, k + 1) == next_nl(t, s) + 1);
}

} // verus!

verus! {

/// Index after the run of bytes equal to `x` or `y` starting at `i`.
pub open spec fn run_end(c: Seq<u8>, i: int, x: u8, y: u8) -> int
    decreases c.len() - i,
{
    if i < 0 || i >= c.len() {
        if i < 0 { 0 } else { c.len() as int }
    } else if c[i] == x || c[i] == y {
        run_end(c, i + 1, x, y)
    } else {
        i
    }
}

pub(crate) proof fn lemma_run_end(c: Seq<u8>, i: int, x: u8, y: u8)
    requires
        0 <= i <= c.len(),
    ensures
        i <= run_end(c, i, x, y) <= c.len(),
        forall|j: int| i <= j < run_end(c, i, x, y) ==> c[j] == x || c[j] == y,
        run_end(c, i, x, y) < c.len() ==> c[run_end(c, i, x, y)] != x && c[run_end(c, i, x, y)] != y,
    decreases c.len() - i,
{
    if i < c.len() && (c[i] == x || c[i] == y) {
        lemma_run_end(c, i + 1, x, y);
    }
}

/// Exec [`run_end`] over `t[s..e]`, relative index `i`.
pub(crate) fn run_end_at(t: &[u8], s: usize, e: usize, i: usize, x: u8, y: u8) -> (r: usize)
    requires
        s <= e <= t@.len(),
        i <= e - s,
    ensures
        r == run_end(t@.subrange(s as int, e as int), i as int, x, y),
        i <= r <= e - s,
{
    let ghost c = t@.subrange(s as int, e as int);
    let mut j = i;
    while j < e - s && (t[s + j] == x || t[s + j] == y)
        invariant
            s <= e <= t@.len(),
            i <= j <= e - s,
            c == t@.subrange(s as int, e as int),
            run_end(c, i as int, x, y) == run_end(c, j as int, x, y),
        decreases e - s - j,
    {
        assert(c[j as int] == t@[s + j]);
        j = j + 1;
    }
    proof {
        if j < e - s {
            assert(c[j as int] == t@[s + j]);
        }
    }
    j
}

/// `n` `#` characters.
pub open spec fn hashes(n: int) -> Seq<u8> {
    Seq::new(n as nat, |i: int| 35u8)
}

/// `(hash count, offset after the separating blank)` of an ATX heading marker.
pub open spec fn heading_prefix(c: Seq<u8>) -> Option<(int, int)> {
    let n = run_end(c, 0, 35u8, 35u8);
    if n == 0 || n > 6 || n >= c.len() {
        None
    } else if c[n] == 32u8 || c[n] == 9u8 {
        Some((n, n + 1))
    } else {
        None
    }
}

/// The rest of `c` after offset `i` with leading spaces/tabs removed.
pub open spec fn trim_sp_tab_from(c: Seq<u8>, i: int) -> Seq<u8> {
    c.skip(run_end(c, i, 32u8, 9u8))
}

/// One line of a heading toggle at `level` (`caret_only`: empty selection).
pub open spec fn heading_line(c: Seq<u8>, level: int, caret_only: bool) -> Seq<u8> {
    if blank(c) {
        if caret_only { hashes(level) + seq![32u8] } else { Seq::empty() }
    } else {
        match heading_prefix(c) {
            Some((n, skip)) => if n == level {
                trim_sp_tab_from(c, skip)
            } else {
                hashes(level) + seq![32u8] + trim_sp_tab_from(c, skip)
            },
            None => hashes(level) + seq![32u8] + c,
        }
    }
}

/// Toggle heading level `level` on every touched line.
pub open spec fn spec_toggle_heading(t: Seq<u8>, s: int, e: int, level: int) -> Outcome {
    let ls = touched(t, s, e);
    finish(t, ls, join_lines(t, ls, |c: Seq<u8>| heading_line(c, level, s >= e)), s)
}

/// Appends `n` copies of an ASCII byte.
fn push_repeat(out: &mut Vec<u8>, c: u8, n: usize)
    requires
        valid_utf8(old(out)@),
        c < 0x80,
    ensures
        final(out)@ == old(out)@ + Seq::new(n as nat, |i: int| c),
        valid_utf8(final(out)@),
{
    let ghost o0 = out@;
    let mut i: usize = 0;
    while i < n
        invariant
            i <= n,
            c < 0x80,
            out@ == o0 + Seq::new(i as nat, |k: int| c),
            valid_utf8(out@),
        decreases n - i,
    {
        crate::utf8_text::push_ascii(out, c);
        assert(out@ =~= o0 + Seq::new((i + 1) as nat, |k: int| c));
        i = i + 1;
    }
}

/// Offsets after ASCII bytes of a line are character boundaries.
pub(crate) proof fn lemma_ascii_prefix_boundary(t: Seq<u8>, s: int, k: int)
    requires
        valid_utf8(t),
        0 <= s,
        0 < k,
        s + k <= t.len(),
        t[s + k - 1] < 0x80,
    ensures
        boundary(t, s + k),
{
    lemma_boundary_after_ascii(t, s + k - 1);
}

/// A boundary of the slice `t[s..e]` is a boundary of `t`.
proof fn lemma_boundary_sub(t: Seq<u8>, s: int, e: int, j: int)
    requires
        0 <= s <= e <= t.len(),
        boundary(t, s),
        boundary(t, e),
        boundary(t.subrange(s, e), j),
    ensures
        boundary(t, s + j),
{
    if 0 < j < e - s {
        assert(t.subrange(s, e)[j] == t[s + j]);
    }
}

fn heading_line_exec(text: &str, t: &[u8], s: usize, e: usize, level: u8, caret_only: bool, out: &mut Vec<u8>)
    requires
        t@ == bytes_of(text@),
        s <= e <= t@.len(),
        boundary(t@, s as int),
        boundary(t@, e as int),
        valid_utf8(old(out)@),
        1 <= level <= 6,
    ensures
        final(out)@ == old(out)@ + heading_line(t@.subrange(s as int, e as int), level as int, caret_only),
        valid_utf8(final(out)@),
{
    let ghost c = t@.subrange(s as int, e as int);
    if crate::utf8_text::is_blank(text, s, e) {
        if caret_only {
            push_repeat(out, 35u8, level as usize);
            crate::utf8_text::push_ascii(out, 32u8);
        }
        return;
    }
    let n = run_end_at(t, s, e, 0, 35u8, 35u8);
    proof {
        lemma_run_end(c, 0, 35u8, 35u8);
    }
    let has_prefix = n != 0 && n <= 6 && n < e - s && (t[s + n] == 32u8 || t[s + n] == 9u8);
    proof {
        if n < e - s {
            assert(c[n as int] == t@[s + n]);
        }
    }
    if has_prefix {
        let skip = n + 1;
        let k = run_end_at(t, s, e, skip, 32u8, 9u8);
        proof {
            lemma_run_end(c, skip as int, 32u8, 9u8);
            assert(c[k - 1] == t@[s + k - 1]);
            lemma_ascii_prefix_boundary(t@, s as int, k as int);
            assert(c.skip(k as int) =~= t@.subrange(s + k, e as int));
        }
        if n != level as usize {
            push_repeat(out, 35u8, level as usize);
            crate::utf8_text::push_ascii(out, 32u8);
        }
        push_valid_range(out, t, s + k, e);
    } else {
        push_repeat(out, 35u8, level as usize);
        crate::utf8_text::push_ascii(out, 32u8);
        push_valid_range(out, t, s, e);
    }
}

/// Length of the first line of `o` (exec).
fn first_line_length(o: &Vec<u8>) -> (n: usize)
    ensures
        n == first_line_len(o@),
        n <= o@.len(),
{
    let mut i: usize = 0;
    assert(o@.skip(0) =~= o@);
    while i < o.len() && o[i] != 10u8
        invariant
            i <= o@.len(),
            first_line_len(o@) == i + first_line_len(o@.skip(i as int)),
        decreases o@.len() - i,
    {
        assert(o@.skip(i as int).skip(1) =~= o@.skip(i + 1));
        i = i + 1;
    }
    proof {
        if i < o@.len() {
            assert(o@.skip(i as int)[0] == o@[i as int]);
        }
        assert(o@.skip(i as int).len() == o@.len() - i);
    }
    i
}

proof fn lemma_first_line_len(o: Seq<u8>)
    ensures
        0 <= first_line_len(o) <= o.len(),
    decreases o.len(),
{
    if o.len() > 0 && o[0] != 10u8 {
        lemma_first_line_len(o.skip(1));
    }
}

/// Replace the touched lines by `out` (see [`finish`]).
fn finish_lines(t: &[u8], lines: &Vec<(usize, usize, usize)>, out: Vec<u8>, caret: usize) -> (r: Out)
    requires
        valid_utf8(t@),
        valid_utf8(out@),
        lines@.len() > 0,
        forall|k: int| 0 <= k < lines@.len() ==> line_ok(t@, #[trigger] tview(lines@)[k]),
        tview(lines@)[0].0 <= tview(lines@).last().2,
    ensures
        out_is(r, finish(t@, tview(lines@), out@, caret as int)),
{
    let ghost ls = tview(lines@);
    let start = lines[0].0;
    let first_end = lines[0].1;
    let end_incl = lines[lines.len() - 1].2;
    assert(ls[0] == (start as int, first_end as int, lines@[0].2 as int));
    assert(ls.last() == (lines@.last().0 as int, lines@.last().1 as int, end_incl as int));
    proof {
        lemma_line_ok_bounds(t@, ls[0]);
        lemma_line_ok_bounds(t@, ls.last());
    }
    let had = end_incl > start && t[end_incl - 1] == 10u8;
    let mut o = out;
    if !had && o.len() > 0 && o[o.len() - 1] == 10u8 {
        let ghost ob = o@;
        proof {
            lemma_boundary_after_ascii(ob, ob.len() - 1);
            lemma_valid_sub(ob, 0, ob.len() - 1);
            assert(ob.subrange(0, ob.len() - 1) =~= ob.drop_last());
        }
        o.pop();
    }
    let nfl = first_line_length(&o);
    let new_text = splice_string(t, start, end_incl, o.as_slice());
    let nl = new_text.as_str().as_bytes().len();
    assert(nl == start + o@.len() + (t@.len() - end_incl));
    let c = if start <= caret && caret <= first_end {
        let d = first_end - start;
        let base = caret - start;
        if nfl < d - base {
            start
        } else {
            start + (nfl - (d - base))
        }
    } else {
        caret
    };
    let sel = if c < start + o.len() { c } else { start + o.len() };
    let sel_end = if sel < nl { sel } else { nl };
    let sel_start = if sel < sel_end { sel } else { sel_end };
    Out::Applied(Op { new_text, selection: sel_start..sel_end })
}

/// Toggle heading level `level` (1..=6) on every touched line; repeating
/// the same level turns the line back into a paragraph.
pub fn toggle_heading(text: &str, sel: &Range<usize>, level: u8) -> (o: Out)
    requires
        1 <= level <= 6,
    ensures
        out_is(o, spec_toggle_heading(bytes_of(text@), sel.start as int, sel.end as int, level as int)),
{
    let t = text.as_bytes();
    let lines = touched_lines(t, sel.start, sel.end);
    let caret_only = sel.start >= sel.end;
    let ghost f = |c: Seq<u8>| heading_line(c, level as int, caret_only);
    let ghost ls = tview(lines@);
    let mut out: Vec<u8> = Vec::new();
    let mut k: usize = 0;
    assert(ls.take(0) =~= Seq::<(int, int, int)>::empty());
    while k < lines.len()
        invariant
            t@ == bytes_of(text@),
            ls == tview(lines@),
            k <= ls.len(),
            forall|j: int| 0 <= j < ls.len() ==> line_ok(t@, #[trigger] ls[j]),
            out@ == join_lines(t@, ls.take(k as int), f),
            valid_utf8(out@),
            1 <= level <= 6,
            f == (|c: Seq<u8>| heading_line(c, level as int, caret_only)),
        decreases ls.len() - k,
    {
        let (s, e, _) = lines[k];
        assert(ls[k as int] == (s as int, e as int, lines@[k as int].2 as int));
        proof {
            lemma_line_ok_bounds(t@, ls[k as int]);
            assert(ls.take(k + 1).drop_last() =~= ls.take(k as int));
        }
        heading_line_exec(text, t, s, e, level, caret_only, &mut out);
        crate::utf8_text::push_ascii(&mut out, 10u8);
        k = k + 1;
    }
    assert(ls.take(ls.len() as int) =~= ls);
    finish_lines(t, &lines, out, sel.start)
}

} // verus!

verus! {

/// Every line of `ls` satisfies `p`.
pub open spec fn all_lines(t: Seq<u8>, ls: Seq<(int, int, int)>, p: spec_fn(Seq<u8>) -> bool) -> bool {
    forall|k: int| 0 <= k < ls.len() ==> p(#[trigger] t.subrange(ls[k].0, ls[k].1))
}

/// `"> "`.
pub open spec fn quote_marker() -> Seq<u8> {
    seq![62u8, 32u8]
}

/// Length of a blockquote marker at the start of `c`.
pub open spec fn quote_prefix(c: Seq<u8>) -> Option<int> {
    if bytes_at(c, 0, quote_marker()) {
        Some(2)
    } else if c == seq![62u8] {
        Some(1)
    } else {
        None
    }
}

/// One line of a blockquote toggle.
pub open spec fn quote_line(c: Seq<u8>, all_quoted: bool, caret_only: bool) -> Seq<u8> {
    if blank(c) {
        if caret_only { quote_marker() } else { Seq::empty() }
    } else if all_quoted {
        match quote_prefix(c) {
            Some(k) => c.skip(k),
            None => c,
        }
    } else if quote_prefix(c) is Some {
        c
    } else {
        quote_marker() + c
    }
}

/// A quoted or blank line.
pub open spec fn quoted_or_blank(c: Seq<u8>) -> bool {
    quote_prefix(c) is Some || blank(c)
}

/// Toggle blockquote markers on every touched line: when all non-blank
/// lines are quoted the markers are removed, otherwise they are added.
pub open spec fn spec_toggle_blockquote(t: Seq<u8>, s: int, e: int) -> Outcome {
    let ls = touched(t, s, e);
    let all_q = all_lines(t, ls, |c: Seq<u8>| quoted_or_blank(c));
    finish(t, ls, join_lines(t, ls, |c: Seq<u8>| quote_line(c, all_q, s >= e)), s)
}

/// Bullet marker (`- `, `* ` or `+ `) at offset `k` of `c`.
pub open spec fn bullet_at(c: Seq<u8>, k: int) -> bool {
    bytes_at(c, k, seq![45u8, 32u8]) || bytes_at(c, k, seq![42u8, 32u8]) || bytes_at(c, k, seq![43u8, 32u8])
}

/// Offset after a bullet marker (after leading spaces).
pub open spec fn list_prefix(c: Seq<u8>) -> Option<int> {
    let k = run_end(c, 0, 32u8, 32u8);
    if bullet_at(c, k) { Some(k + 2) } else { None }
}

/// `"- "`.
pub open spec fn dash_marker() -> Seq<u8> {
    seq![45u8, 32u8]
}

/// One line of a bullet-list toggle.
pub open spec fn bullet_line(c: Seq<u8>, all_list: bool, caret_only: bool) -> Seq<u8> {
    if blank(c) {
        if caret_only { dash_marker() } else { Seq::empty() }
    } else if all_list {
        match list_prefix(c) {
            Some(k) => c.skip(k),
            None => c,
        }
    } else if list_prefix(c) is Some {
        c
    } else {
        dash_marker() + c
    }
}

pub open spec fn bullet_or_blank(c: Seq<u8>) -> bool {
    list_prefix(c) is Some || blank(c)
}

/// Toggle bullet markers on every touched line.
pub open spec fn spec_toggle_bullet(t: Seq<u8>, s: int, e: int) -> Outcome {
    let ls = touched(t, s, e);
    let all_l = all_lines(t, ls, |c: Seq<u8>| bullet_or_blank(c));
    finish(t, ls, join_lines(t, ls, |c: Seq<u8>| bullet_line(c, all_l, s >= e)), s)
}

/// Index after the run of ASCII digits starting at `i`.
pub open spec fn digit_end(c: Seq<u8>, i: int) -> int
    decreases c.len() - i,
{
    if i < 0 || i >= c.len() {
        if i < 0 { 0 } else { c.len() as int }
    } else if 48u8 <= c[i] <= 57u8 {
        digit_end(c, i + 1)
    } else {
        i
    }
}

/// Offset after a `N. ` marker (after leading spaces).
pub open spec fn numbered_prefix(c: Seq<u8>) -> Option<int> {
    let k = run_end(c, 0, 32u8, 32u8);
    let d = digit_end(c, k);
    if d > k && bytes_at(c, d, seq![46u8, 32u8]) { Some(d + 2) } else { None }
}

/// `"1. "`.
pub open spec fn one_marker() -> Seq<u8> {
    seq![49u8, 46u8, 32u8]
}

/// One line of a numbered-list toggle.
pub open spec fn numbered_line(c: Seq<u8>, all_list: bool, caret_only: bool) -> Seq<u8> {
    if blank(c) {
        if caret_only { one_marker() } else { Seq::empty() }
    } else if all_list {
        match numbered_prefix(c) {
            Some(k) => c.skip(k),
            None => c,
        }
    } else if numbered_prefix(c) is Some {
        c
    } else {
        one_marker() + c
    }
}

pub open spec fn numbered_or_blank(c: Seq<u8>) -> bool {
    numbered_prefix(c) is Some || blank(c)
}

/// Toggle `1. ` markers on every touched line.
pub open spec fn spec_toggle_numbered(t: Seq<u8>, s: int, e: int) -> Outcome {
    let ls = touched(t, s, e);
    let all_l = all_lines(t, ls, |c: Seq<u8>| numbered_or_blank(c));
    finish(t, ls, join_lines(t, ls, |c: Seq<u8>| numbered_line(c, all_l, s >= e)), s)
}

pub(crate) proof fn lemma_digit_end(c: Seq<u8>, i: int)
    requires
        0 <= i <= c.len(),
    ensures
        i <= digit_end(c, i) <= c.len(),
        forall|j: int| i <= j < digit_end(c, i) ==> 48u8 <= #[trigger] c[j] <= 57u8,
        digit_end(c, i) < c.len() ==> !(48u8 <= c[digit_end(c, i)] <= 57u8),
    decreases c.len() - i,
{
    if i < c.len() && 48u8 <= c[i] <= 57u8 {
        lemma_digit_end(c, i + 1);
    }
}

pub(crate) fn digit_end_at(t: &[u8], s: usize, e: usize, i: usize) -> (r: usize)
    requires
        s <= e <= t@.len(),
        i <= e - s,
    ensures
        r == digit_end(t@.subrange(s as int, e as int), i as int),
        i <= r <= e - s,
{
    let ghost c = t@.subrange(s as int, e as int);
    let mut j = i;
    while j < e - s && 48u8 <= t[s + j] && t[s + j] <= 57u8
        invariant
            s <= e <= t@.len(),
            i <= j <= e - s,
            c == t@.subrange(s as int, e as int),
            digit_end(c, i as int) == digit_end(c, j as int),
        decreases e - s - j,
    {
        assert(c[j as int] == t@[s + j]);
        j = j + 1;
    }
    proof {
        if j < e - s {
            assert(c[j as int] == t@[s + j]);
        }
    }
    j
}

/// `bytes_at` relative to a line `t[s..e]`.
fn match_in_line(t: &[u8], s: usize, e: usize, k: usize, w: &[u8]) -> (r: bool)
    requires
        s <= e <= t@.len(),
        k <= e - s,
    ensures
        r == bytes_at(t@.subrange(s as int, e as int), k as int, w@),
{
    let ghost c = t@.subrange(s as int, e as int);
    if w.len() > e - s - k {
        return false;
    }
    let r = match_at(t, s + k, w);
    proof {
        assert(c.subrange(k as int, k + w@.len()) =~= t@.subrange(s + k, s + k + w@.len()));
    }
    r
}

/// Marker kinds of the list toggles.
enum LinePrefix {
    Quote,
    Bullet,
    Numbered,
}

/// Offset after the marker of the given kind, if the line has one.
fn prefix_of(t: &[u8], s: usize, e: usize, kind: &LinePrefix) -> (r: Option<usize>)
    requires
        s <= e <= t@.len(),
    ensures
        ({
            let c = t@.subrange(s as int, e as int);
            let p = match *kind {
                LinePrefix::Quote => quote_prefix(c),
                LinePrefix::Bullet => list_prefix(c),
                LinePrefix::Numbered => numbered_prefix(c),
            };
            &&& (r is Some <==> p is Some)
            &&& (r matches Some(k) ==> p == Some(k as int) && k <= e - s && k > 0
                && t@[s + k - 1] < 0x80)
        }),
{
    let ghost c = t@.subrange(s as int, e as int);
    match kind {
        LinePrefix::Quote => {
            if match_in_line(t, s, e, 0, &[62u8, 32u8]) {
                assert(c[1] == t@[s + 1]);
                return Some(2);
            }
            if e - s == 1 && t[s] == 62u8 {
                assert(c =~= seq![62u8]);
                return Some(1);
            }
            proof {
                if c == seq![62u8] {
                    assert(c[0] == t@[s as int]);
                }
            }
            None
        },
        LinePrefix::Bullet => {
            let k = run_end_at(t, s, e, 0, 32u8, 32u8);
            if match_in_line(t, s, e, k, &[45u8, 32u8]) || match_in_line(t, s, e, k, &[42u8, 32u8])
                || match_in_line(t, s, e, k, &[43u8, 32u8]) {
                assert(c[k + 1] == t@[s + k + 1]);
                return Some(k + 2);
            }
            None
        },
        LinePrefix::Numbered => {
            let k = run_end_at(t, s, e, 0, 32u8, 32u8);
            let d = digit_end_at(t, s, e, k);
            if d > k && match_in_line(t, s, e, d, &[46u8, 32u8]) {
                assert(c[d + 1] == t@[s + d + 1]);
                return Some(d + 2);
            }
            None
        },
    }
}

/// Toggle one kind of line marker on every touched line (shared by the
/// blockquote, bullet and numbered toggles).
#[verifier::rlimit(40)]
fn toggle_prefix_lines(text: &str, sel: &Range<usize>, kind: LinePrefix) -> (o: Out)
    ensures
        ({
            let t = bytes_of(text@);
            let s = sel.start as int;
            let e = sel.end as int;
            match kind {
                LinePrefix::Quote => out_is(o, spec_toggle_blockquote(t, s, e)),
                LinePrefix::Bullet => out_is(o, spec_toggle_bullet(t, s, e)),
                LinePrefix::Numbered => out_is(o, spec_toggle_numbered(t, s, e)),
            }
        }),
{
    let t = text.as_bytes();
    let lines = touched_lines(t, sel.start, sel.end);
    let caret_only = sel.start >= sel.end;
    let ghost ls = tview(lines@);
    let ghost pred = match kind {
        LinePrefix::Quote => |c: Seq<u8>| quoted_or_blank(c),
        LinePrefix::Bullet => |c: Seq<u8>| bullet_or_blank(c),
        LinePrefix::Numbered => |c: Seq<u8>| numbered_or_blank(c),
    };
    // Do all lines carry the marker (or are blank)?
    let mut all = true;
    let mut k: usize = 0;
    while k < lines.len()
        invariant
            t@ == bytes_of(text@),
            ls == tview(lines@),
            k <= ls.len(),
            forall|j: int| 0 <= j < ls.len() ==> line_ok(t@, #[trigger] ls[j]),
            all == (forall|j: int| 0 <= j < k ==> pred(#[trigger] t@.subrange(ls[j].0, ls[j].1))),
            pred == (match kind {
                LinePrefix::Quote => |c: Seq<u8>| quoted_or_blank(c),
                LinePrefix::Bullet => |c: Seq<u8>| bullet_or_blank(c),
                LinePrefix::Numbered => |c: Seq<u8>| numbered_or_blank(c),
            }),
        decreases ls.len() - k,
    {
        let (s, e, _) = lines[k];
        assert(ls[k as int] == (s as int, e as int, lines@[k as int].2 as int));
        proof {
            lemma_line_ok_bounds(t@, ls[k as int]);
        }
        let marked = prefix_of(t, s, e, &kind).is_some() || crate::utf8_text::is_blank(text, s, e);
        if !marked {
            all = false;
        }
        k = k + 1;
    }
    let mut out: Vec<u8> = Vec::new();
    let ghost f = match kind {
        LinePrefix::Quote => |c: Seq<u8>| quote_line(c, all, caret_only),
        LinePrefix::Bullet => |c: Seq<u8>| bullet_line(c, all, caret_only),
        LinePrefix::Numbered => |c: Seq<u8>| numbered_line(c, all, caret_only),
    };
    let mut k: usize = 0;
    assert(ls.take(0) =~= Seq::<(int, int, int)>::empty());
    while k < lines.len()
        invariant
            t@ == bytes_of(text@),
            ls == tview(lines@),
            k <= ls.len(),
            forall|j: int| 0 <= j < ls.len() ==> line_ok(t@, #[trigger] ls[j]),
            out@ == join_lines(t@, ls.take(k as int), f),
            valid_utf8(out@),
            f == (match kind {
                LinePrefix::Quote => |c: Seq<u8>| quote_line(c, all, caret_only),
                LinePrefix::Bullet => |c: Seq<u8>| bullet_line(c, all, caret_only),
                LinePrefix::Numbered => |c: Seq<u8>| numbered_line(c, all, caret_only),
            }),
        decreases ls.len() - k,
    {
        let (s, e, _) = lines[k];
        assert(ls[k as int] == (s as int, e as int, lines@[k as int].2 as int));
        let ghost c = t@.subrange(s as int, e as int);
        proof {
            lemma_line_ok_bounds(t@, ls[k as int]);
            assert(ls.take(k + 1).drop_last() =~= ls.take(k as int));
        }
        if crate::utf8_text::is_blank(text, s, e) {
            if caret_only {
                match kind {
                    LinePrefix::Quote => push_ascii_all(&mut out, &[62u8, 32u8]),
                    LinePrefix::Bullet => push_ascii_all(&mut out, &[45u8, 32u8]),
                    LinePrefix::Numbered => push_ascii_all(&mut out, &[49u8, 46u8, 32u8]),
                }
            }
        } else {
            let p = prefix_of(t, s, e, &kind);
            if all {
                match p {
                    Some(skip) => {
                        proof {
                            lemma_ascii_prefix_boundary(t@, s as int, skip as int);
                            assert(c.skip(skip as int) =~= t@.subrange(s + skip, e as int));
                        }
                        push_valid_range(&mut out, t, s + skip, e);
                    },
                    None => push_valid_range(&mut out, t, s, e),
                }
            } else if p.is_some() {
                push_valid_range(&mut out, t, s, e);
            } else {
                match kind {
                    LinePrefix::Quote => push_ascii_all(&mut out, &[62u8, 32u8]),
                    LinePrefix::Bullet => push_ascii_all(&mut out, &[45u8, 32u8]),
                    LinePrefix::Numbered => push_ascii_all(&mut out, &[49u8, 46u8, 32u8]),
                }
                push_valid_range(&mut out, t, s, e);
            }
        }
        crate::utf8_text::push_ascii(&mut out, 10u8);
        k = k + 1;
    }
    assert(ls.take(ls.len() as int) =~= ls);
    finish_lines(t, &lines, out, sel.start)
}

/// Toggle blockquote markers on every touched line.
pub fn toggle_blockquote(text: &str, sel: &Range<usize>) -> (o: Out)
    ensures
        out_is(o, spec_toggle_blockquote(bytes_of(text@), sel.start as int, sel.end as int)),
{
    toggle_prefix_lines(text, sel, LinePrefix::Quote)
}

/// Toggle bullet lists on touched lines (accepts `-`, `*`, `+`).
pub fn toggle_bullet_list(text: &str, sel: &Range<usize>) -> (o: Out)
    ensures
        out_is(o, spec_toggle_bullet(bytes_of(text@), sel.start as int, sel.end as int)),
{
    toggle_prefix_lines(text, sel, LinePrefix::Bullet)
}

/// Toggle `1. ` numbered lists (rendering numbers the items regardless).
pub fn toggle_numbered_list(text: &str, sel: &Range<usize>) -> (o: Out)
    ensures
        out_is(o, spec_toggle_numbered(bytes_of(text@), sel.start as int, sel.end as int)),
{
    toggle_prefix_lines(text, sel, LinePrefix::Numbered)
}

} // verus!

verus! {

/// Index of the first non-whitespace character at or after `i`.
pub open spec fn first_non_ws(d: Seq<char>, i: int) -> int
    decreases d.len() - i,
{
    if i < 0 || i >= d.len() {
        if i < 0 { 0 } else { d.len() as int }
    } else if is_white_space(d[i]) {
        first_non_ws(d, i + 1)
    } else {
        i
    }
}

/// After leading whitespace, the line starts with `- [`.
pub open spec fn is_task_line(c: Seq<u8>) -> bool {
    let d = decode_utf8(c);
    let k = first_non_ws(d, 0);
    k + 3 <= d.len() && d[k] == '-' && d[k + 1] == ' ' && d[k + 2] == '['
}

/// Offset just after the task box of a task line (`]` + 1, or 2 when the
/// line has no `]`), relative to the text after the leading spaces.
pub open spec fn after_box(rest: Seq<u8>) -> int {
    match first_occ(rest, seq![93u8], 0) {
        Some(i) => i + 1,
        None => 2,
    }
}

/// The task marker chosen by the command.
pub open spec fn task_marker(checked: bool) -> Seq<u8> {
    if checked { seq![45u8, 32u8, 91u8, 120u8, 93u8, 32u8] } else { seq![45u8, 32u8, 91u8, 32u8, 93u8, 32u8] }
}

/// One line of a task-list toggle.
pub open spec fn task_line(c: Seq<u8>, all_task: bool, checked: bool, caret_only: bool) -> Seq<u8> {
    let lead = run_end(c, 0, 32u8, 32u8);
    let rest = c.skip(lead);
    if blank(c) {
        if caret_only { task_marker(checked) } else { Seq::empty() }
    } else if all_task && is_task_line(c) {
        c.subrange(0, lead) + dash_marker() + trim_sp_tab_from(rest, after_box(rest))
    } else if is_task_line(c) {
        c
    } else if list_prefix(c) is Some {
        c.subrange(0, lead) + task_marker(checked) + c.skip(lead + 2)
    } else {
        task_marker(checked) + c
    }
}

/// `first_non_ws` from `i` stops at `k` when everything before it is
/// whitespace and `d[k]` is not.
proof fn lemma_first_non_ws_at(d: Seq<char>, i: int, k: int)
    requires
        0 <= i <= k < d.len(),
        forall|j: int| i <= j < k ==> is_white_space(#[trigger] d[j]),
        !is_white_space(d[k]),
    ensures
        first_non_ws(d, i) == k,
    decreases k - i,
{
    if i < k {
        lemma_first_non_ws_at(d, i + 1, k);
    }
}

/// The task-list command on a bullet line `<indent><bullet> x`, where `x`
/// does not start with `[`, replaces the bullet by the task box: the line
/// becomes `<indent>- [ ] x` (`- [x] x` when checked), with the bullet gone
/// rather than kept after the box.
pub proof fn lemma_task_replaces_bullet(k: nat, b: char, xs: Seq<char>, checked: bool, caret_only: bool)
    requires
        b == '-' || b == '*' || b == '+',
        xs.len() == 0 || xs[0] != '[',
    ensures
        ({
            let pre = Seq::new(k, |i: int| ' ');
            &&& task_line(bytes_of(pre + seq![b, ' '] + xs), false, checked, caret_only) == bytes_of(pre)
                + task_marker(checked) + bytes_of(xs)
            &&& !is_task_line(bytes_of(pre + seq![b, ' '] + xs))
            &&& !blank(bytes_of(pre + seq![b, ' '] + xs))
            &&& bytes_of(pre + seq![b, ' '] + xs) == bytes_of(pre) + seq![b as u8, 32u8] + bytes_of(xs)
        }),
{
    let pre = Seq::new(k, |i: int| ' ');
    let pre2 = pre + seq![b, ' '];
    let cs = pre2 + xs;
    let c = bytes_of(cs);
    assert(is_ascii_chars(pre2));
    assert(is_ascii_chars(pre));
    is_ascii_chars_encode_utf8(pre2);
    is_ascii_chars_encode_utf8(pre);
    crate::utf8_text::lemma_encode_concat(pre2, xs);
    vstd::utf8::encode_utf8_decode_utf8(cs);
    let kk = k as int;
    assert(cs[kk] == b);
    assert(c[kk] == b as u8);
    assert(c[kk + 1] == 32u8);
    // not blank
    assert(!is_white_space(decode_utf8(c)[kk]));
    assert(!blank(c));
    // not a task line
    assert forall|j: int| 0 <= j < kk implies is_white_space(#[trigger] cs[j]) by {
        assert(cs[j] == ' ');
    }
    lemma_first_non_ws_at(cs, 0, kk);
    if kk + 3 <= cs.len() {
        assert(cs[kk + 2] == xs[0]);
    }
    assert(!is_task_line(c));
    // the leading run of spaces ends at the bullet
    lemma_run_end(c, 0, 32u8, 32u8);
    let r = run_end(c, 0, 32u8, 32u8);
    assert forall|j: int| 0 <= j < kk implies c[j] == 32u8 by {
        assert(c[j] == pre2[j] as u8);
    }
    if r < kk {
        assert(c[r] == 32u8);
    }
    assert(r == kk);
    assert(c.subrange(kk, kk + 2) =~= seq![b as u8, 32u8]);
    assert(bullet_at(c, kk));
    assert(c.subrange(0, kk) =~= bytes_of(pre));
    assert(c.skip(kk + 2) =~= bytes_of(xs));
    assert(c =~= bytes_of(pre) + seq![b as u8, 32u8] + bytes_of(xs));
}

/// A UTF-8 text whose first byte is a space or a tab starts with that
/// character.
proof fn lemma_first_byte_space_tab(xs: Seq<char>)
    requires
        xs.len() > 0,
        bytes_of(xs)[0] == 32u8 || bytes_of(xs)[0] == 9u8,
    ensures
        xs[0] == ' ' || xs[0] == '\t',
{
    let b = bytes_of(xs);
    vstd::utf8::encode_utf8_decode_utf8(xs);
    crate::utf8_text::lemma_chars_le_bytes(xs);
    assert(decode_utf8(b)[0] == decode_first_scalar(b) as char);
    let b0 = b[0];
    assert((b0 == 32u8 ==> (b0 & 0x7Fu8) == 32u8) && (b0 == 9u8 ==> (b0 & 0x7Fu8) == 9u8)) by (bit_vector);
}

/// The task-list command on lines that are all tasks turns the task line
/// `<indent>- [ ] x` (or `- [x] x`), `x` not starting with a space or tab,
/// back into the bullet line `<indent>- x`.
pub proof fn lemma_task_back_to_bullet(k: nat, done: bool, xs: Seq<char>, checked: bool, caret_only: bool)
    requires
        xs.len() == 0 || (xs[0] != ' ' && xs[0] != '\t'),
    ensures
        ({
            let pre = Seq::new(k, |i: int| ' ');
            let bx = if done { seq!['-', ' ', '[', 'x', ']', ' '] } else { seq!['-', ' ', '[', ' ', ']', ' '] };
            task_line(bytes_of(pre + bx + xs), true, checked, caret_only) == bytes_of(pre) + dash_marker() + bytes_of(
                xs,
            )
        }),
{
    let pre = Seq::new(k, |i: int| ' ');
    let bx = if done { seq!['-', ' ', '[', 'x', ']', ' '] } else { seq!['-', ' ', '[', ' ', ']', ' '] };
    let pre2 = pre + bx;
    let cs = pre2 + xs;
    let c = bytes_of(cs);
    let kk = k as int;
    assert(is_ascii_chars(pre2));
    assert(is_ascii_chars(pre));
    is_ascii_chars_encode_utf8(pre2);
    is_ascii_chars_encode_utf8(pre);
    crate::utf8_text::lemma_encode_concat(pre2, xs);
    vstd::utf8::encode_utf8_decode_utf8(cs);
    assert forall|j: int| 0 <= j < kk + 6 implies c[j] == pre2[j] as u8 by {}
    assert(!is_white_space(decode_utf8(c)[kk]));
    assert(!blank(c));
    assert forall|j: int| 0 <= j < kk implies is_white_space(#[trigger] cs[j]) by {
        assert(cs[j] == ' ');
    }
    lemma_first_non_ws_at(cs, 0, kk);
    assert(cs[kk] == '-' && cs[kk + 1] == ' ' && cs[kk + 2] == '[');
    assert(is_task_line(c));
    lemma_run_end(c, 0, 32u8, 32u8);
    let r = run_end(c, 0, 32u8, 32u8);
    assert forall|j: int| 0 <= j < kk implies c[j] == 32u8 by {
        assert(c[j] == pre2[j] as u8);
    }
    assert(c[kk] == pre2[kk] as u8);
    assert(c[kk] == 45u8);
    if r < kk {
        assert(c[r] == 32u8);
    }
    assert(r == kk);
    let rest = c.skip(kk);
    assert(rest[0] == 45u8 && rest[1] == 32u8 && rest[2] == 91u8 && rest[4] == 93u8 && rest[5] == 32u8);
    assert(rest[3] != 93u8);
    assert(rest.subrange(0, 1) != seq![93u8]) by { assert(rest.subrange(0, 1)[0] == 45u8); }
    assert(rest.subrange(1, 2) != seq![93u8]) by { assert(rest.subrange(1, 2)[0] == 32u8); }
    assert(rest.subrange(2, 3) != seq![93u8]) by { assert(rest.subrange(2, 3)[0] == 91u8); }
    assert(rest.subrange(3, 4) != seq![93u8]) by { assert(rest.subrange(3, 4)[0] == rest[3]); }
    assert(rest.subrange(4, 5) =~= seq![93u8]);
    reveal_with_fuel(first_occ, 6);
    assert(first_occ(rest, seq![93u8], 0) == Some(4int));
    assert(after_box(rest) == 5);
    let xb = bytes_of(xs);
    assert(rest.skip(6) =~= xb);
    if xb.len() > 0 {
        if rest[6] == 32u8 || rest[6] == 9u8 {
            assert(rest[6] == xb[0]);
            lemma_first_byte_space_tab(xs);
        }
    } else {
        crate::utf8_text::lemma_chars_le_bytes(xs);
    }
    assert(run_end(rest, 6, 32u8, 9u8) == 6);
    assert(run_end(rest, 5, 32u8, 9u8) == 6);
    assert(c.subrange(0, kk) =~= bytes_of(pre));
}

pub open spec fn task_or_blank(c: Seq<u8>) -> bool {
    is_task_line(c) || blank(c)
}

/// Removing the box of a task line never cuts a character in two.
pub open spec fn task_box_safe(c: Seq<u8>) -> bool {
    let lead = run_end(c, 0, 32u8, 32u8);
    blank(c) || !is_task_line(c) || first_occ(c.skip(lead), seq![93u8], 0) is Some || boundary(c, lead + 2)
}

/// Toggle task markers on every touched line; when every non-blank line is
/// a task the boxes are removed (keeping the `- ` bullet).
pub open spec fn spec_toggle_task(t: Seq<u8>, s: int, e: int, checked: bool) -> Outcome {
    let ls = touched(t, s, e);
    let all_t = all_lines(t, ls, |c: Seq<u8>| task_or_blank(c));
    finish(t, ls, join_lines(t, ls, |c: Seq<u8>| task_line(c, all_t, checked, s >= e)), s)
}

/// Exec [`is_task_line`] for `text[s..e]`.
fn is_task_line_exec(text: &str, s: usize, e: usize) -> (r: bool)
    requires
        s <= e <= bytes_of(text@).len(),
        boundary(bytes_of(text@), s as int),
        boundary(bytes_of(text@), e as int),
    ensures
        r == is_task_line(bytes_of(text@).subrange(s as int, e as int)),
{
    let sub = crate::utf8_text::str_range(text, s, e);
    let cs = crate::utf8_text::chars_of(sub);
    let ghost d = cs@;
    let mut k: usize = 0;
    while k < cs.len() && crate::utf8_text::char_is_whitespace(cs[k])
        invariant
            k <= d.len(),
            d == cs@,
            first_non_ws(d, 0) == first_non_ws(d, k as int),
        decreases d.len() - k,
    {
        k = k + 1;
    }
    cs.len() - k >= 3 && cs[k] == '-' && cs[k + 1] == ' ' && cs[k + 2] == '['
}

/// Drop the box of a task line, keeping its leading spaces and `- `.
fn untask_line_exec(t: &[u8], s: usize, e: usize, lead: usize, out: &mut Vec<u8>)
    requires
        valid_utf8(t@),
        s <= e <= t@.len(),
        boundary(t@, s as int),
        boundary(t@, e as int),
        valid_utf8(old(out)@),
        lead == run_end(t@.subrange(s as int, e as int), 0, 32u8, 32u8),
        boundary(t@, s + lead),
        is_task_line(t@.subrange(s as int, e as int)),
        task_box_safe(t@.subrange(s as int, e as int)),
        !blank(t@.subrange(s as int, e as int)),
    ensures
        ({
            let c = t@.subrange(s as int, e as int);
            let rest = c.skip(lead as int);
            final(out)@ == old(out)@ + c.subrange(0, lead as int) + dash_marker()
                + trim_sp_tab_from(rest, after_box(rest))
        }),
        valid_utf8(final(out)@),
{
    let ghost c = t@.subrange(s as int, e as int);
    proof {
        lemma_run_end(c, 0, 32u8, 32u8);
        assert(c.subrange(0, lead as int) =~= t@.subrange(s as int, s + lead));
    }
    let ghost rest = c.skip(lead as int);
    let rs = s + lead;
    let rv = sub_vec(t, rs, e);
    proof {
        assert(rest =~= t@.subrange(rs as int, e as int));
    }
    let bracket: &[u8] = &[93u8];
    assert(bracket@ =~= seq![93u8]);
    let rsl = rv.as_slice();
    assert(rsl@ == rest);
    let close = find_from(rsl, bracket, 0);
    proof {
        lemma_first_occ_props(rest, seq![93u8], 0);
    }
    let ab: usize = match close {
        Some(i) => i + 1,
        None => 2,
    };
    proof {
        assert(ab == after_box(rest));
        match close {
            Some(i) => {
                assert(rest.subrange(i as int, i + 1)[0] == rest[i as int]);
                assert(rest[i as int] == t@[rs + i]);
                lemma_ascii_prefix_boundary(t@, rs as int, ab as int);
            },
            None => {
                assert(boundary(c, lead + 2));
                lemma_boundary_sub(t@, s as int, e as int, lead + 2);
            },
        }
    }
    let k = run_end_at(t, rs, e, ab, 32u8, 9u8);
    proof {
        lemma_run_end(rest, ab as int, 32u8, 9u8);
        if k > ab {
            assert(rest[k - 1] == t@[rs + k - 1]);
            lemma_ascii_prefix_boundary(t@, rs as int, k as int);
        }
        assert(rest.skip(k as int) =~= t@.subrange(rs + k, e as int));
    }
    push_valid_range(out, t, s, rs);
    push_ascii_all(out, &[45u8, 32u8]);
    push_valid_range(out, t, rs + k, e);
    proof {
        let rest = c.skip(lead as int);
        assert(final(out)@ =~= old(out)@ + c.subrange(0, lead as int) + dash_marker()
            + trim_sp_tab_from(rest, after_box(rest)));
    }
}

fn task_line_exec(
    text: &str,
    t: &[u8],
    s: usize,
    e: usize,
    all_task: bool,
    checked: bool,
    caret_only: bool,
    out: &mut Vec<u8>,
)
    requires
        t@ == bytes_of(text@),
        s <= e <= t@.len(),
        boundary(t@, s as int),
        boundary(t@, e as int),
        valid_utf8(old(out)@),
        all_task ==> task_box_safe(t@.subrange(s as int, e as int)),
    ensures
        final(out)@ == old(out)@ + task_line(t@.subrange(s as int, e as int), all_task, checked, caret_only),
        valid_utf8(final(out)@),
{
    let ghost c = t@.subrange(s as int, e as int);
    let ghost tl = task_line(c, all_task, checked, caret_only);
    let marker: &[u8] = if checked { &[45u8, 32u8, 91u8, 120u8, 93u8, 32u8] } else { &[45u8, 32u8, 91u8, 32u8, 93u8, 32u8] };
    assert(marker@ == task_marker(checked));
    assert(crate::utf8_text::all_ascii(marker@));
    if crate::utf8_text::is_blank(text, s, e) {
        if caret_only {
            push_ascii_all(out, marker);
        }
        return;
    }
    let lead = run_end_at(t, s, e, 0, 32u8, 32u8);
    proof {
        lemma_run_end(c, 0, 32u8, 32u8);
        if lead > 0 {
            assert(c[lead - 1] == t@[s + lead - 1]);
            lemma_ascii_prefix_boundary(t@, s as int, lead as int);
        }
        assert(c.subrange(0, lead as int) =~= t@.subrange(s as int, s + lead));
    }
    let task = is_task_line_exec(text, s, e);
    if all_task && task {
        untask_line_exec(t, s, e, lead, out);
        proof {
            assert(final(out)@ =~= old(out)@ + tl);
        }
    } else if task {
        push_valid_range(out, t, s, e);
    } else {
        let lp = prefix_of(t, s, e, &LinePrefix::Bullet);
        match lp {
            Some(k) => {
                proof {
                    lemma_ascii_prefix_boundary(t@, s as int, k as int);
                    assert(c.skip(k as int) =~= t@.subrange(s + k, e as int));
                }
                push_valid_range(out, t, s, s + lead);
                push_ascii_all(out, marker);
                push_valid_range(out, t, s + k, e);
                proof {
                    assert(final(out)@ =~= old(out)@ + tl);
                }
            },
            None => {
                push_ascii_all(out, marker);
                push_valid_range(out, t, s, e);
            },
        }
    }
}

} // verus!

verus! {

/// Toggle task-list markers (`- [ ] ` / `- [x] `) on every touched line.
/// When every non-blank touched line already is a task, the boxes are
/// dropped and the `- ` bullet kept; bullets are promoted to tasks.
#[verifier::rlimit(40)]
pub fn toggle_task_list(text: &str, sel: &Range<usize>, checked: bool) -> (o: Out)
    requires
        ({
            let t = bytes_of(text@);
            let ls = touched(t, sel.start as int, sel.end as int);
            all_lines(t, ls, |c: Seq<u8>| task_or_blank(c))
                ==> all_lines(t, ls, |c: Seq<u8>| task_box_safe(c))
        }),
    ensures
        out_is(o, spec_toggle_task(bytes_of(text@), sel.start as int, sel.end as int, checked)),
{
    let t = text.as_bytes();
    let lines = touched_lines(t, sel.start, sel.end);
    let caret_only = sel.start >= sel.end;
    let ghost ls = tview(lines@);
    let mut all = true;
    let mut k: usize = 0;
    while k < lines.len()
        invariant
            t@ == bytes_of(text@),
            ls == tview(lines@),
            k <= ls.len(),
            forall|j: int| 0 <= j < ls.len() ==> line_ok(t@, #[trigger] ls[j]),
            all == (forall|j: int| 0 <= j < k ==> task_or_blank(#[trigger] t@.subrange(ls[j].0, ls[j].1))),
        decreases ls.len() - k,
    {
        let (s, e, _) = lines[k];
        assert(ls[k as int] == (s as int, e as int, lines@[k as int].2 as int));
        proof {
            lemma_line_ok_bounds(t@, ls[k as int]);
        }
        let marked = is_task_line_exec(text, s, e) || crate::utf8_text::is_blank(text, s, e);
        if !marked {
            all = false;
        }
        k = k + 1;
    }
    proof {
        if all {
            assert(all_lines(t@, ls, |c: Seq<u8>| task_or_blank(c)));
        }
    }
    let mut out: Vec<u8> = Vec::new();
    let ghost f = |c: Seq<u8>| task_line(c, all, checked, caret_only);
    let mut k: usize = 0;
    assert(ls.take(0) =~= Seq::<(int, int, int)>::empty());
    while k < lines.len()
        invariant
            t@ == bytes_of(text@),
            ls == tview(lines@),
            k <= ls.len(),
            forall|j: int| 0 <= j < ls.len() ==> line_ok(t@, #[trigger] ls[j]),
            all ==> all_lines(t@, ls, |c: Seq<u8>| task_box_safe(c)),
            out@ == join_lines(t@, ls.take(k as int), f),
            valid_utf8(out@),
            f == |c: Seq<u8>| task_line(c, all, checked, caret_only),
        decreases ls.len() - k,
    {
        let (s, e, _) = lines[k];
        assert(ls[k as int] == (s as int, e as int, lines@[k as int].2 as int));
        proof {
            lemma_line_ok_bounds(t@, ls[k as int]);
            assert(ls.take(k + 1).drop_last() =~= ls.take(k as int));
            if all {
                assert(task_box_safe(t@.subrange(ls[k as int].0, ls[k as int].1)));
            }
        }
        task_line_exec(text, t, s, e, all, checked, caret_only, &mut out);
        crate::utf8_text::push_ascii(&mut out, 10u8);
        k = k + 1;
    }
    assert(ls.take(ls.len() as int) =~= ls);
    finish_lines(t, &lines, out, sel.start)
}

/// Exec [`task_box_safe`] for `text[s..e]`.
fn task_box_safe_exec(text: &str, t: &[u8], s: usize, e: usize) -> (r: bool)
    requires
        t@ == bytes_of(text@),
        s <= e <= t@.len(),
        boundary(t@, s as int),
        boundary(t@, e as int),
    ensures
        r == task_box_safe(t@.subrange(s as int, e as int)),
{
    let ghost c = t@.subrange(s as int, e as int);
    if crate::utf8_text::is_blank(text, s, e) || !is_task_line_exec(text, s, e) {
        return true;
    }
    let lead = run_end_at(t, s, e, 0, 32u8, 32u8);
    let rv = sub_vec(t, s + lead, e);
    proof {
        assert(rv@ =~= c.skip(lead as int));
    }
    let bracket: &[u8] = &[93u8];
    assert(bracket@ =~= seq![93u8]);
    if find_from(rv.as_slice(), bracket, 0).is_some() {
        return true;
    }
    let cv = sub_vec(t, s, e);
    lead < cv.len() && cv.len() - lead >= 2 && crate::utf8_text::is_boundary(cv.as_slice(), lead + 2)
}

/// Whether [`toggle_task_list`] can run on this selection: removing the
/// boxes (when every touched line is a task) cuts no character in two.
pub fn task_toggle_safe(text: &str, sel: &Range<usize>) -> (r: bool)
    ensures
        r == ({
            let t = bytes_of(text@);
            let ls = touched(t, sel.start as int, sel.end as int);
            all_lines(t, ls, |c: Seq<u8>| task_or_blank(c))
                ==> all_lines(t, ls, |c: Seq<u8>| task_box_safe(c))
        }),
{
    let t = text.as_bytes();
    let lines = touched_lines(t, sel.start, sel.end);
    let ghost ls = tview(lines@);
    let mut all = true;
    let mut safe = true;
    let mut k: usize = 0;
    while k < lines.len()
        invariant
            t@ == bytes_of(text@),
            ls == tview(lines@),
            k <= ls.len(),
            forall|j: int| 0 <= j < ls.len() ==> line_ok(t@, #[trigger] ls[j]),
            all == (forall|j: int| 0 <= j < k ==> task_or_blank(#[trigger] t@.subrange(ls[j].0, ls[j].1))),
            safe == (forall|j: int| 0 <= j < k ==> task_box_safe(#[trigger] t@.subrange(ls[j].0, ls[j].1))),
        decreases ls.len() - k,
    {
        let (s, e, _) = lines[k];
        assert(ls[k as int] == (s as int, e as int, lines@[k as int].2 as int));
        proof {
            lemma_line_ok_bounds(t@, ls[k as int]);
        }
        let marked = is_task_line_exec(text, s, e) || crate::utf8_text::is_blank(text, s, e);
        if !marked {
            all = false;
        }
        if !task_box_safe_exec(text, t, s, e) {
            safe = false;
        }
        k = k + 1;
    }
    proof {
        if all {
            assert(all_lines(t@, ls, |c: Seq<u8>| task_or_blank(c)));
        } else {
            assert(!all_lines(t@, ls, |c: Seq<u8>| task_or_blank(c)));
        }
        if safe {
            assert(all_lines(t@, ls, |c: Seq<u8>| task_box_safe(c)));
        } else {
            assert(!all_lines(t@, ls, |c: Seq<u8>| task_box_safe(c)));
        }
    }
    !all || safe
}

/// Pressing an inline command on a selection that does not start with the
/// opening delimiter, does not end with the closing one, and is not the
/// content of a token wraps it (selecting the token); pressing it again on
/// that selection gives back the original text and selection.
pub proof fn lemma_wrap_round_trip(t: Seq<u8>, s: int, e: int, o: Seq<u8>, c: Seq<u8>)
    requires
        0 <= s < e <= t.len(),
        o.len() > 0,
        c.len() > 0,
        !bytes_at(t, s, o),
        !bytes_at(t, e - c.len(), c),
        !inner_tok(t, s, e, o, c),
    ensures
        spec_toggle_wrap(t, s, e, o, c) == Outcome::Applied(
            splice(t, s, e, o + t.subrange(s, e) + c),
            s,
            e + o.len() + c.len(),
        ),
        spec_toggle_wrap(splice(t, s, e, o + t.subrange(s, e) + c), s, e + o.len() + c.len(), o, c) == Outcome::Applied(
            t,
            s,
            e,
        ),
{
    let x = t.subrange(s, e);
    let nt = splice(t, s, e, o + x + c);
    let ne = e + o.len() + c.len();
    assert(nt.len() == t.len() + o.len() + c.len());
    assert(nt.subrange(s, s + o.len()) =~= o);
    assert(nt.subrange(ne - c.len(), ne) =~= c);
    assert(bytes_at(nt, s, o));
    assert(bytes_at(nt, ne - c.len(), c));
    assert(nt.subrange(s + o.len(), ne - c.len()) =~= x);
    assert(splice(nt, s, ne, x) =~= t);
}

/// Pressing an inline command on a selection that is a whole token unwraps
/// it and selects the content; pressing it again wraps the content back,
/// giving the original text and selection, when the content neither starts
/// with the opening delimiter's first byte nor ends with the closing one's
/// last byte, and no delimiters stand right around the token.
#[verifier::spinoff_prover]
#[verifier::rlimit(30)]
pub proof fn lemma_unwrap_round_trip(t: Seq<u8>, s: int, e: int, o: Seq<u8>, c: Seq<u8>)
    requires
        0 <= s,
        e <= t.len(),
        o.len() > 0,
        c.len() > 0,
        e - s > o.len() + c.len(),
        bytes_at(t, s, o),
        bytes_at(t, e - c.len(), c),
        t[s + o.len()] != o[0],
        t[e - c.len() - 1] != c.last(),
        !(s >= o.len() && bytes_at(t, s - o.len(), o) && bytes_at(t, e, c)),
    ensures
        spec_toggle_wrap(t, s, e, o, c) == applied(
            splice(t, s, e, t.subrange(s + o.len(), e - c.len())),
            s,
            e - o.len() - c.len(),
        ),
        spec_toggle_wrap(
            splice(t, s, e, t.subrange(s + o.len(), e - c.len())),
            s,
            e - o.len() - c.len(),
            o,
            c,
        ) == applied(t, s, e),
{
    let x = t.subrange(s + o.len(), e - c.len());
    let nt = splice(t, s, e, x);
    let ne = e - o.len() - c.len();
    assert(nt.len() == t.len() - o.len() - c.len());
    assert(nt[s] == x[0]);
    assert(!bytes_at(nt, s, o)) by {
        if bytes_at(nt, s, o) {
            assert(nt.subrange(s, s + o.len())[0] == nt[s]);
        }
    }
    assert(nt[ne - 1] == x.last());
    assert(!bytes_at(nt, ne - c.len(), c)) by {
        if bytes_at(nt, ne - c.len(), c) {
            assert(nt.subrange(ne - c.len(), ne)[c.len() - 1] == nt[ne - 1]);
        }
    }
    assert(!inner_tok(nt, s, ne, o, c)) by {
        if s >= o.len() && bytes_at(nt, s - o.len(), o) && bytes_at(nt, ne, c) {
            assert(nt.subrange(s - o.len(), s) =~= t.subrange(s - o.len(), s));
            assert(nt.subrange(ne, ne + c.len()) =~= t.subrange(e, e + c.len()));
        }
    }
    assert(nt.subrange(s, ne) =~= x);
    assert(t.subrange(s, s + o.len()) =~= o);
    assert(t.subrange(e - c.len(), e) =~= c);
    assert(splice(nt, s, ne, o + x + c) =~= t);
}

} // verus!
