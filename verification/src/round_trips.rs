//! Commands pressed twice at a caret: a line command on a line, then again
//! at the caret it leaves, gives the line back; an inline command inserts an
//! empty pair, and pressing it again inside the pair removes it.

use vstd::prelude::*;
use vstd::utf8::*;
use crate::format::{
    Outcome, applied, finish, join_lines, touched, touched_bounds, floor_b, line_start_of, first_line_len,
    quote_line, quote_prefix, quoted_or_blank, all_lines, quote_marker, spec_toggle_blockquote, dash_marker,
    bullet_line, bullet_or_blank, list_prefix, spec_toggle_bullet, one_marker, numbered_line, numbered_or_blank,
    numbered_prefix, spec_toggle_numbered, digit_end, hashes, heading_line, heading_prefix,
    spec_toggle_heading, run_end, lemma_run_end, trim_sp_tab_from, spec_toggle_wrap, enc_tok, splice, escaped,
    bs_run, spec_toggle_task, task_line, task_or_blank, task_marker, lemma_task_replaces_bullet,
};
use crate::text_utils::{nl_count, next_nl, nth_start, line_tuple, lemma_nl_count_step, lemma_next_nl, no_nl, is_line_end};
use crate::highlight::lemma_next_nl_bounds;
use crate::utf8_text::{
    boundary, blank, is_white_space, lemma_valid_sub, lemma_ascii_valid, all_ascii, lemma_boundary_after_ascii,
    bytes_at, char_len_at, lemma_next_boundary, first_occ, bytes_of,
};

verus! {

/// The line holding offset `s`: its start, its end before the newline, and
/// its end with the newline.
pub open spec fn caret_line(t: Seq<u8>, s: int) -> (int, int, int) {
    let a = line_start_of(t, s);
    let b = next_nl(t, s);
    (a, b, if b < t.len() { b + 1 } else { b })
}

proof fn lemma_line_start_props(t: Seq<u8>, s: int)
    requires
        0 <= s <= t.len(),
    ensures
        0 <= line_start_of(t, s) <= s,
        line_start_of(t, s) == 0 || t[line_start_of(t, s) - 1] == 10u8,
        forall|k: int| line_start_of(t, s) <= k < s ==> t[k] != 10u8,
    decreases s,
{
    if s > 0 && t[s - 1] != 10u8 {
        lemma_line_start_props(t, s - 1);
    }
}

/// A line start found again: `p` starts a line and no newline lies
/// between `p` and `i`.
proof fn lemma_line_start_is(t: Seq<u8>, p: int, i: int)
    requires
        0 <= p <= i <= t.len(),
        p == 0 || t[p - 1] == 10u8,
        forall|k: int| p <= k < i ==> t[k] != 10u8,
    ensures
        line_start_of(t, i) == p,
    decreases i,
{
    if i > p {
        lemma_line_start_is(t, p, i - 1);
    }
}

/// Counting newlines before the caret finds the caret's line.
proof fn lemma_caret_line(t: Seq<u8>, s: int)
    requires
        0 <= s <= t.len(),
    ensures
        nth_start(t, nl_count(t.subrange(0, s))) == line_start_of(t, s),
        next_nl(t, line_start_of(t, s)) == next_nl(t, s),
    decreases s,
{
    if s > 0 {
        lemma_caret_line(t, s - 1);
        lemma_nl_count_step(t, s - 1);
        let k = nl_count(t.subrange(0, s - 1));
        if t[s - 1] == 10u8 {
            assert(nth_start(t, k + 1) == next_nl(t, nth_start(t, k)) + 1);
            assert(next_nl(t, s - 1) == s - 1);
        } else {
            assert(next_nl(t, s - 1) == next_nl(t, s));
        }
    }
}

/// A caret touches exactly its own line.
proof fn lemma_touched_caret(t: Seq<u8>, s: int)
    requires
        0 <= s <= t.len(),
        boundary(t, s),
    ensures
        touched(t, s, s) == seq![caret_line(t, s)],
{
    assert(floor_b(t, s) == s);
    lemma_caret_line(t, s);
    if t.len() > 0 {
        let (a, b) = touched_bounds(t, s, s);
        assert(a == b);
        assert(touched(t, s, s) =~= seq![line_tuple(t, a as nat)]);
    }
}

/// Facts about the caret's line.
proof fn lemma_caret_line_props(t: Seq<u8>, s: int)
    requires
        0 <= s <= t.len(),
    ensures
        ({
            let (a, b, c) = caret_line(t, s);
            &&& 0 <= a <= s <= b <= c <= t.len()
            &&& a == 0 || t[a - 1] == 10u8
            &&& b == t.len() || t[b] == 10u8
            &&& forall|k: int| a <= k < b ==> t[k] != 10u8
        }),
{
    lemma_line_start_props(t, s);
    lemma_next_nl_bounds(t, s);
}

/// The first line of a line without newline followed by nothing or a newline.
proof fn lemma_first_line_of(x: Seq<u8>, y: Seq<u8>)
    requires
        forall|k: int| 0 <= k < x.len() ==> x[k] != 10u8,
        y.len() == 0 || y[0] == 10u8,
    ensures
        first_line_len(x + y) == x.len(),
    decreases x.len(),
{
    if x.len() > 0 {
        assert((x + y).skip(1) =~= x.skip(1) + y);
        lemma_first_line_of(x.skip(1), y);
    } else {
        assert(x + y =~= y);
    }
}

/// The caret after a one-line edit that turned a line of length `old` into
/// one of length `new`.
pub open spec fn moved_caret(s: int, a: int, old: int, new: int) -> int {
    let sh = s + (new - old);
    if sh < a { a } else if sh > a + new { a + new } else { sh }
}

/// Replacing the caret's line by `x`.
proof fn lemma_finish_line(t: Seq<u8>, s: int, x: Seq<u8>)
    requires
        0 <= s <= t.len(),
        forall|k: int| 0 <= k < x.len() ==> x[k] != 10u8,
    ensures
        ({
            let (a, b, c) = caret_line(t, s);
            let m = moved_caret(s, a, b - a, x.len() as int);
            finish(t, seq![caret_line(t, s)], x + seq![10u8], s) == applied(
                t.subrange(0, a) + x + t.subrange(b, t.len() as int),
                m,
                m,
            )
        }),
{
    lemma_caret_line_props(t, s);
    let (a, b, c) = caret_line(t, s);
    let out = x + seq![10u8];
    let had = c > a && t[c - 1] == 10u8;
    if b < t.len() {
        assert(had);
        lemma_first_line_of(x, seq![10u8]);
        assert(t.subrange(0, a) + out + t.subrange(c, t.len() as int) =~= t.subrange(0, a) + x + t.subrange(
            b,
            t.len() as int,
        ));
    } else {
        assert(!had);
        assert(out.drop_last() =~= x);
        lemma_first_line_of(x, Seq::empty());
        assert(x + Seq::<u8>::empty() =~= x);
    }
}

/// One line joined with its newline.
proof fn lemma_join_one(t: Seq<u8>, l: (int, int, int), f: spec_fn(Seq<u8>) -> Seq<u8>)
    ensures
        join_lines(t, seq![l], f) == f(t.subrange(l.0, l.1)) + seq![10u8],
{
    let e = Seq::<(int, int, int)>::empty();
    assert(seq![l].drop_last() =~= e);
    assert(join_lines(t, e, f) == Seq::<u8>::empty());
    assert(join_lines(t, seq![l], f) =~= f(t.subrange(l.0, l.1)) + seq![10u8]);
}

/// Valid text beginning with a printable ASCII byte other than a space is
/// not blank.
proof fn lemma_printable_not_blank(x: Seq<u8>)
    requires
        valid_utf8(x),
        x.len() > 0,
        0x21 <= x[0] < 0x7f,
    ensures
        !blank(x),
{
    let b = x[0];
    assert((b & 0x7fu8) == b) by (bit_vector)
        requires
            0x21 <= b < 0x7f,
    ;
    assert(decode_first_scalar(x) == b as u32);
    assert(decode_utf8(x)[0] == (b as u32 as char));
    assert(!is_white_space(decode_utf8(x)[0]));
}

/// A line marker: printable ASCII, no newline.
pub open spec fn marker_ok(m: Seq<u8>) -> bool {
    &&& m.len() > 0
    &&& forall|k: int| 0 <= k < m.len() ==> 0x20 <= #[trigger] m[k] < 0x7f
}

/// The text with the caret's line prefixed by the marker `m`.
pub open spec fn marked_text(t: Seq<u8>, s: int, m: Seq<u8>) -> Seq<u8> {
    let (a, b, c) = caret_line(t, s);
    t.subrange(0, a) + m + t.subrange(a, b) + t.subrange(b, t.len() as int)
}

/// A one-line edit at a caret that puts the marker `m` before the caret's
/// line leaves the marked text, the caret moved past the marker.
proof fn lemma_first_press(t: Seq<u8>, s: int, m: Seq<u8>, f: spec_fn(Seq<u8>) -> Seq<u8>)
    requires
        0 <= s <= t.len(),
        marker_ok(m),
        f(t.subrange(caret_line(t, s).0, caret_line(t, s).1)) == m + t.subrange(caret_line(t, s).0, caret_line(t, s).1),
    ensures
        finish(t, seq![caret_line(t, s)], join_lines(t, seq![caret_line(t, s)], f), s) == Outcome::Applied(
            marked_text(t, s, m),
            s + m.len(),
            s + m.len(),
        ),
{
    lemma_caret_line_props(t, s);
    let (a, b, c) = caret_line(t, s);
    let line = t.subrange(a, b);
    let x = m + line;
    lemma_join_one(t, caret_line(t, s), f);
    assert forall|k: int| 0 <= k < x.len() implies x[k] != 10u8 by {
        if k >= m.len() {
            assert(x[k] == t[a + k - m.len()]);
        }
    }
    lemma_finish_line(t, s, x);
    assert(moved_caret(s, a, b - a, x.len() as int) == s + m.len());
    assert(t.subrange(0, a) + x + t.subrange(b, t.len() as int) =~= marked_text(t, s, m));
}

/// The caret's line in the marked text: the marker and the old line.
#[verifier::rlimit(30)]
proof fn lemma_marked_line(t: Seq<u8>, s: int, m: Seq<u8>)
    requires
        valid_utf8(t),
        0 <= s <= t.len(),
        boundary(t, s),
        marker_ok(m),
    ensures
        ({
            let (a, b, c) = caret_line(t, s);
            let nt = marked_text(t, s, m);
            let p = s + m.len();
            &&& boundary(nt, p)
            &&& 0 <= p <= nt.len()
            &&& caret_line(nt, p).0 == a
            &&& caret_line(nt, p).1 == b + m.len()
            &&& nt.subrange(a, b + m.len()) == m + t.subrange(a, b)
            &&& nt.subrange(0, a) == t.subrange(0, a)
            &&& nt.subrange(b + m.len(), nt.len() as int) == t.subrange(b, t.len() as int)
        }),
{
    lemma_caret_line_props(t, s);
    let (a, b, c) = caret_line(t, s);
    let line = t.subrange(a, b);
    let x = m + line;
    let nt = marked_text(t, s, m);
    let ml = m.len() as int;
    let p = s + ml;
    let nb = b + ml;
    assert(nt.len() == t.len() + ml);
    assert forall|k: int| 0 <= k < a implies nt[k] == t[k] by {}
    assert forall|k: int| a + ml <= k < nt.len() implies nt[k] == t[k - ml] by {}
    assert forall|k: int| a <= k < a + ml implies nt[k] == m[k - a] by {}
    assert(boundary(nt, p)) by {
        if p < nt.len() {
            assert(nt[p] == t[s]);
            if s == 0 {
                assert(valid_first_scalar(t));
            }
        }
    }
    assert forall|k: int| a <= k < p implies nt[k] != 10u8 by {
        if k >= a + ml {
            assert(nt[k] == t[k - ml]);
        } else {
            assert(nt[k] == m[k - a]);
        }
    }
    assert(a == 0 || nt[a - 1] == 10u8);
    lemma_line_start_is(nt, a, p);
    assert(no_nl(nt, p, nb)) by {
        assert forall|k: int| p <= k < nb implies nt[k] != 10u8 by {
            assert(nt[k] == t[k - ml]);
        }
    }
    assert(is_line_end(nt, nb)) by {
        if nb < nt.len() {
            assert(nt[nb] == t[b]);
        }
    }
    lemma_next_nl(nt, p, nb);
    assert(nt.subrange(a, nb) =~= x);
    assert(nt.subrange(0, a) =~= t.subrange(0, a));
    assert(nt.subrange(nb, nt.len() as int) =~= t.subrange(b, t.len() as int));
}

/// The marked line: valid text, not blank when the marker starts with a
/// printable non-space byte.
proof fn lemma_marked_content(t: Seq<u8>, s: int, m: Seq<u8>)
    requires
        valid_utf8(t),
        0 <= s <= t.len(),
        marker_ok(m),
        m[0] != 32u8,
    ensures
        ({
            let (a, b, c) = caret_line(t, s);
            let x = m + t.subrange(a, b);
            &&& valid_utf8(x)
            &&& !blank(x)
            &&& x.skip(m.len() as int) == t.subrange(a, b)
        }),
{
    lemma_caret_line_props(t, s);
    let (a, b, c) = caret_line(t, s);
    let line = t.subrange(a, b);
    let x = m + line;
    if a > 0 {
        lemma_boundary_after_ascii(t, a - 1);
    }
    if b < t.len() {
        lemma_boundary_after_ascii(t, b);
    }
    lemma_valid_sub(t, a, b);
    assert(all_ascii(m));
    lemma_ascii_valid(m);
    valid_utf8_concat(m, line);
    lemma_printable_not_blank(x);
    assert(x.skip(m.len() as int) =~= line);
}

/// A one-line edit at the moved caret that strips the marker again gives
/// back the text and the caret.
proof fn lemma_second_press(t: Seq<u8>, s: int, m: Seq<u8>, g: spec_fn(Seq<u8>) -> Seq<u8>)
    requires
        valid_utf8(t),
        0 <= s <= t.len(),
        boundary(t, s),
        marker_ok(m),
        g(m + t.subrange(caret_line(t, s).0, caret_line(t, s).1)) == t.subrange(caret_line(t, s).0, caret_line(t, s).1),
    ensures
        ({
            let nt = marked_text(t, s, m);
            let p = s + m.len();
            finish(nt, seq![caret_line(nt, p)], join_lines(nt, seq![caret_line(nt, p)], g), p) == Outcome::Applied(
                t,
                s,
                s,
            )
        }),
{
    lemma_caret_line_props(t, s);
    lemma_marked_line(t, s, m);
    let (a, b, c) = caret_line(t, s);
    let line = t.subrange(a, b);
    let x = m + line;
    let nt = marked_text(t, s, m);
    let p = s + m.len();
    let nb = b + m.len();
    lemma_join_one(nt, caret_line(nt, p), g);
    assert(nt.subrange(caret_line(nt, p).0, caret_line(nt, p).1) == x);
    lemma_finish_line(nt, p, line);
    assert(moved_caret(p, a, nb - a, line.len() as int) == s);
    assert(nt.subrange(0, a) + line + nt.subrange(nb, nt.len() as int) =~= t);
}

/// The caret's line of `t` at `s`.
pub open spec fn line_at(t: Seq<u8>, s: int) -> Seq<u8> {
    t.subrange(caret_line(t, s).0, caret_line(t, s).1)
}

/// A blockquote toggled with the caret on a non-blank line without a quote
/// marker, then toggled again at the caret it leaves, gives back the text
/// and the caret.
pub proof fn lemma_quote_round_trip(t: Seq<u8>, s: int)
    requires
        valid_utf8(t),
        0 <= s <= t.len(),
        boundary(t, s),
        !blank(line_at(t, s)),
        quote_prefix(line_at(t, s)) is None,
    ensures
        match spec_toggle_blockquote(t, s, s) {
            Outcome::Applied(nt, p, q) => p == q && spec_toggle_blockquote(nt, p, p) == Outcome::Applied(t, s, s),
            Outcome::Noop(_) => false,
        },
{
    let m = quote_marker();
    let line = line_at(t, s);
    lemma_touched_caret(t, s);
    let ls = seq![caret_line(t, s)];
    assert(t.subrange(ls[0].0, ls[0].1) == line);
    assert(!all_lines(t, ls, |c: Seq<u8>| quoted_or_blank(c)));
    lemma_first_press(t, s, m, |c: Seq<u8>| quote_line(c, false, true));
    lemma_marked_line(t, s, m);
    lemma_marked_content(t, s, m);
    let nt = marked_text(t, s, m);
    let p = s + 2;
    let x = m + line;
    assert(x.subrange(0, 2) =~= m);
    assert(quote_prefix(x) == Some(2int));
    lemma_touched_caret(nt, p);
    let ls2 = seq![caret_line(nt, p)];
    assert(nt.subrange(ls2[0].0, ls2[0].1) == x);
    assert(all_lines(nt, ls2, |c: Seq<u8>| quoted_or_blank(c)));
    lemma_second_press(t, s, m, |c: Seq<u8>| quote_line(c, true, true));
}

/// A bullet toggled with the caret on a non-blank line that is not a list
/// item, then toggled again at the caret it leaves, gives back the text and
/// the caret.
pub proof fn lemma_bullet_round_trip(t: Seq<u8>, s: int)
    requires
        valid_utf8(t),
        0 <= s <= t.len(),
        boundary(t, s),
        !blank(line_at(t, s)),
        list_prefix(line_at(t, s)) is None,
    ensures
        match spec_toggle_bullet(t, s, s) {
            Outcome::Applied(nt, p, q) => p == q && spec_toggle_bullet(nt, p, p) == Outcome::Applied(t, s, s),
            Outcome::Noop(_) => false,
        },
{
    let m = dash_marker();
    let line = line_at(t, s);
    lemma_touched_caret(t, s);
    let ls = seq![caret_line(t, s)];
    assert(t.subrange(ls[0].0, ls[0].1) == line);
    assert(!all_lines(t, ls, |c: Seq<u8>| bullet_or_blank(c)));
    lemma_first_press(t, s, m, |c: Seq<u8>| bullet_line(c, false, true));
    lemma_marked_line(t, s, m);
    lemma_marked_content(t, s, m);
    let nt = marked_text(t, s, m);
    let p = s + 2;
    let x = m + line;
    lemma_run_end(x, 0, 32u8, 32u8);
    assert(run_end(x, 0, 32u8, 32u8) == 0);
    assert(x.subrange(0, 2) =~= m);
    assert(list_prefix(x) == Some(2int));
    lemma_touched_caret(nt, p);
    let ls2 = seq![caret_line(nt, p)];
    assert(nt.subrange(ls2[0].0, ls2[0].1) == x);
    assert(all_lines(nt, ls2, |c: Seq<u8>| bullet_or_blank(c)));
    lemma_second_press(t, s, m, |c: Seq<u8>| bullet_line(c, true, true));
}

/// A numbered item toggled with the caret on a non-blank line that is not
/// one, then toggled again at the caret it leaves, gives back the text and
/// the caret.
pub proof fn lemma_numbered_round_trip(t: Seq<u8>, s: int)
    requires
        valid_utf8(t),
        0 <= s <= t.len(),
        boundary(t, s),
        !blank(line_at(t, s)),
        numbered_prefix(line_at(t, s)) is None,
    ensures
        match spec_toggle_numbered(t, s, s) {
            Outcome::Applied(nt, p, q) => p == q && spec_toggle_numbered(nt, p, p) == Outcome::Applied(t, s, s),
            Outcome::Noop(_) => false,
        },
{
    let m = one_marker();
    let line = line_at(t, s);
    lemma_touched_caret(t, s);
    let ls = seq![caret_line(t, s)];
    assert(t.subrange(ls[0].0, ls[0].1) == line);
    assert(!all_lines(t, ls, |c: Seq<u8>| numbered_or_blank(c)));
    lemma_first_press(t, s, m, |c: Seq<u8>| numbered_line(c, false, true));
    lemma_marked_line(t, s, m);
    lemma_marked_content(t, s, m);
    let nt = marked_text(t, s, m);
    let p = s + 3;
    let x = m + line;
    lemma_one_marked(x, line);
    lemma_touched_caret(nt, p);
    let ls2 = seq![caret_line(nt, p)];
    assert(nt.subrange(ls2[0].0, ls2[0].1) == x);
    assert(all_lines(nt, ls2, |c: Seq<u8>| numbered_or_blank(c)));
    lemma_second_press(t, s, m, |c: Seq<u8>| numbered_line(c, true, true));
}

/// A heading of level `l` toggled with the caret on a non-blank line that
/// is no heading and does not start with a space or tab, then toggled again
/// at the caret it leaves, gives back the text and the caret.
pub proof fn lemma_heading_round_trip(t: Seq<u8>, s: int, l: int)
    requires
        valid_utf8(t),
        0 <= s <= t.len(),
        boundary(t, s),
        1 <= l <= 6,
        !blank(line_at(t, s)),
        heading_prefix(line_at(t, s)) is None,
        line_at(t, s)[0] != 32u8 && line_at(t, s)[0] != 9u8,
    ensures
        match spec_toggle_heading(t, s, s, l) {
            Outcome::Applied(nt, p, q) => p == q && spec_toggle_heading(nt, p, p, l) == Outcome::Applied(t, s, s),
            Outcome::Noop(_) => false,
        },
{
    let m = hashes(l) + seq![32u8];
    let line = line_at(t, s);
    assert(marker_ok(m)) by {
        assert forall|k: int| 0 <= k < m.len() implies 0x20 <= #[trigger] m[k] < 0x7f by {
            if k < l {
                assert(m[k] == 35u8);
            }
        }
    }
    assert(m[0] == 35u8);
    lemma_touched_caret(t, s);
    lemma_first_press(t, s, m, |c: Seq<u8>| heading_line(c, l, true));
    lemma_marked_line(t, s, m);
    lemma_marked_content(t, s, m);
    let nt = marked_text(t, s, m);
    let p = s + l + 1;
    let x = m + line;
    lemma_heading_marker(x, l);
    assert(heading_prefix(x) == Some((l, l + 1)));
    assert(line.len() > 0) by {
        if line.len() == 0 {
            assert(blank(line));
        }
    }
    lemma_run_end(x, l + 1, 32u8, 9u8);
    assert(x[l + 1] == line[0]);
    assert(run_end(x, l + 1, 32u8, 9u8) == l + 1);
    assert(trim_sp_tab_from(x, l + 1) == x.skip(l + 1));
    lemma_touched_caret(nt, p);
    lemma_second_press(t, s, m, |c: Seq<u8>| heading_line(c, l, true));
}

/// `1. ` starts a numbered item marker.
proof fn lemma_one_marked(x: Seq<u8>, line: Seq<u8>)
    requires
        x == one_marker() + line,
    ensures
        numbered_prefix(x) == Some(3int),
{
    assert(x[0] == 49u8 && x[1] == 46u8 && x[2] == 32u8);
    lemma_run_end(x, 0, 32u8, 32u8);
    assert(run_end(x, 0, 32u8, 32u8) == 0);
    assert(digit_end(x, 1) == 1);
    assert(digit_end(x, 0) == 1);
    assert(x.subrange(1, 3) =~= seq![46u8, 32u8]);
}

/// `l` hashes and a space start an ATX heading marker of level `l`.
proof fn lemma_heading_marker(x: Seq<u8>, l: int)
    requires
        1 <= l <= 6,
        x.len() > l,
        forall|k: int| 0 <= k < l ==> x[k] == 35u8,
        x[l] == 32u8,
    ensures
        run_end(x, 0, 35u8, 35u8) == l,
{
    lemma_run_end_from(x, 0, l);
}

/// A run of `#` up to a space ends at the space.
proof fn lemma_run_end_from(x: Seq<u8>, i: int, l: int)
    requires
        0 <= i <= l < x.len(),
        forall|k: int| i <= k < l ==> x[k] == 35u8,
        x[l] == 32u8,
    ensures
        run_end(x, i, 35u8, 35u8) == l,
    decreases l - i,
{
    if i < l {
        lemma_run_end_from(x, i + 1, l);
    }
}

/// Backslashes before `at` are counted on the bytes before `at` alone.
proof fn lemma_bs_run_prefix(t: Seq<u8>, u: Seq<u8>, at: int)
    requires
        0 <= at <= t.len(),
        at <= u.len(),
        t.subrange(0, at) == u.subrange(0, at),
    ensures
        bs_run(t, at) == bs_run(u, at),
    decreases at,
{
    if at > 0 {
        assert(t[at - 1] == t.subrange(0, at)[at - 1]);
        assert(u[at - 1] == u.subrange(0, at)[at - 1]);
        if t[at - 1] == 92u8 {
            assert(t.subrange(0, at - 1) =~= t.subrange(0, at).subrange(0, at - 1));
            assert(u.subrange(0, at - 1) =~= u.subrange(0, at).subrange(0, at - 1));
            lemma_bs_run_prefix(t, u, at - 1);
        }
    }
}

/// Scanning the caret's line for an opener that starts before `s` finds
/// none when the delimiter's first byte does not occur there: the scan goes
/// on from `s`.
proof fn lemma_scan_to_caret(t: Seq<u8>, u: Seq<u8>, byte: int, o: Seq<u8>, c: Seq<u8>, search: int, s: int)
    requires
        valid_utf8(t),
        0 <= search <= s <= t.len(),
        s <= byte,
        s <= u.len(),
        boundary(t, search),
        boundary(t, s),
        o.len() > 0,
        t.subrange(0, s) == u.subrange(0, s),
        forall|k: int| search <= k < s ==> t[k] != o[0],
    ensures
        enc_tok(u, byte, o, c, search) == enc_tok(u, byte, o, c, s),
    decreases s - search,
{
    if search < s {
        assert(u[search] == u.subrange(0, s)[search]);
        assert(t[search] == t.subrange(0, s)[search]);
        assert(!bytes_at(u, search, o)) by {
            if bytes_at(u, search, o) {
                assert(u.subrange(search, search + o.len())[0] == u[search]);
            }
        }
        lemma_next_boundary(t, search);
        let next = search + char_len_at(t, search);
        assert(char_len_at(u, search) == char_len_at(t, search));
        assert(next <= s) by {
            if next > s {
                assert(!boundary(t, s));
            }
        }
        lemma_scan_to_caret(t, u, byte, o, c, next, s);
    }
}

/// An inline command pressed at a caret with no delimiter before it on its
/// line inserts an empty pair; pressed again inside the pair, it removes the
/// pair and gives back the text and the caret.
pub proof fn lemma_empty_pair_round_trip(t: Seq<u8>, s: int, o: Seq<u8>, c: Seq<u8>)
    requires
        valid_utf8(t),
        0 <= s <= t.len(),
        boundary(t, s),
        o.len() > 0,
        forall|k: int| 0 <= k < o.len() ==> o[k] != 10u8,
        o.last() != 92u8,
        !escaped(t, s),
        forall|k: int| line_start_of(t, s) <= k < s ==> t[k] != o[0],
    ensures
        spec_toggle_wrap(t, s, s, o, c) == Outcome::Applied(splice(t, s, s, o + c), s + o.len(), s + o.len()),
        spec_toggle_wrap(splice(t, s, s, o + c), s + o.len(), s + o.len(), o, c) == Outcome::Applied(t, s, s),
{
    let a = line_start_of(t, s);
    lemma_line_start_props(t, s);
    assert(boundary(t, a)) by {
        if 0 < a < t.len() {
            lemma_boundary_after_ascii(t, a - 1);
        }
    }
    let nt = splice(t, s, s, o + c);
    let p = s + o.len();
    assert(nt.len() == t.len() + o.len() + c.len());
    // first press: no opener before the caret
    lemma_scan_to_caret(t, t, s, o, c, a, s);
    assert(enc_tok(t, s, o, c, a) == None::<(int, int)>);
    assert(p <= nt.len());
    // second press: the scan reaches the inserted pair
    assert(nt.subrange(0, s) =~= t.subrange(0, s));
    assert forall|k: int| s <= k < p implies nt[k] == o[k - s] by {}
    assert forall|k: int| a <= k < p implies nt[k] != 10u8 by {
        if k < s {
            assert(nt[k] == t[k]);
        }
    }
    assert(a == 0 || nt[a - 1] == 10u8) by {
        if a > 0 {
            assert(nt[a - 1] == t[a - 1]);
        }
    }
    lemma_line_start_is(nt, a, p);
    lemma_scan_to_caret(t, nt, p, o, c, a, s);
    assert(nt.subrange(s, s + o.len()) =~= o);
    assert(bytes_at(nt, s, o));
    lemma_bs_run_prefix(t, nt, s);
    assert(!escaped(nt, s));
    assert(nt.subrange(p, p + c.len()) =~= c);
    assert(first_occ(nt, c, p) == Some(p));
    assert(nt[p - 1] == o.last());
    assert(bs_run(nt, p) == 0);
    assert(!escaped(nt, p));
    assert(enc_tok(nt, p, o, c, s) == Some((s, p + c.len())));
    assert(nt.subrange(s + o.len(), p + c.len() - c.len()) =~= Seq::<u8>::empty());
    assert(splice(nt, s, p + c.len(), Seq::<u8>::empty()) =~= t);
}

/// The task-list command with the caret on a bullet line
/// `<indent><bullet> x` (`x` not starting with `[`) replaces that line by
/// `<indent>- [ ] x` (`- [x] x` when checked) and leaves the rest of the
/// text alone: the bullet is replaced, not kept after the box.
#[verifier::rlimit(40)]
pub proof fn lemma_task_command_on_bullet_line(
    t: Seq<u8>,
    s: int,
    k: nat,
    b: char,
    xs: Seq<char>,
    checked: bool,
)
    requires
        0 <= s <= t.len(),
        boundary(t, s),
        b == '-' || b == '*' || b == '+',
        xs.len() == 0 || xs[0] != '[',
        line_at(t, s) == bytes_of(Seq::new(k, |i: int| ' ') + seq![b, ' '] + xs),
    ensures
        ({
            let (lo, hi, _) = caret_line(t, s);
            spec_toggle_task(t, s, s, checked) matches Outcome::Applied(nt, _, _) && nt == t.subrange(0, lo)
                + bytes_of(Seq::new(k, |i: int| ' ')) + task_marker(checked) + bytes_of(xs) + t.subrange(
                hi,
                t.len() as int,
            )
        }),
{
    let pre = Seq::new(k, |i: int| ' ');
    let line = line_at(t, s);
    lemma_task_replaces_bullet(k, b, xs, checked, true);
    lemma_caret_line_props(t, s);
    lemma_touched_caret(t, s);
    let ls = seq![caret_line(t, s)];
    assert(t.subrange(ls[0].0, ls[0].1) == line);
    assert(!all_lines(t, ls, |c: Seq<u8>| task_or_blank(c)));
    let f = |c: Seq<u8>| task_line(c, false, checked, true);
    lemma_join_one(t, caret_line(t, s), f);
    let bp = bytes_of(pre);
    let bx = bytes_of(xs);
    let mk = task_marker(checked);
    let x = bp + mk + bx;
    assert(f(line) == x);
    let (lo, hi, _) = caret_line(t, s);
    assert(line == bp + seq![b as u8, 32u8] + bx);
    assert forall|j: int| 0 <= j < line.len() implies line[j] != 10u8 by {
        assert(line[j] == t[lo + j]);
    }
    assert forall|j: int| 0 <= j < bp.len() implies bp[j] != 10u8 by {
        assert(line[j] == bp[j]);
    }
    assert forall|j: int| 0 <= j < bx.len() implies bx[j] != 10u8 by {
        assert(line[bp.len() + 2 + j] == bx[j]);
    }
    assert forall|j: int| 0 <= j < x.len() implies x[j] != 10u8 by {
        if j < bp.len() {
            assert(x[j] == bp[j]);
        } else if j < bp.len() + 6 {
            assert(x[j] == mk[j - bp.len()]);
        } else {
            assert(x[j] == bx[j - bp.len() - 6]);
        }
    }
    lemma_finish_line(t, s, x);
}

} // verus!
