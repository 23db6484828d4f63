//! Decisions of the editing session that do not depend on the window: which
//! tab stays active when one closes, which search match the find bar jumps
//! to, and what the inline-code command does with a selection.

use vstd::prelude::*;
use std::ops::Range;
use crate::find::ranges_view;
use crate::format::{Op, Out, Outcome, out_is, applied, spec_toggle_wrap, toggle_wrap};
use crate::utf8_text::{
    bytes_of, boundary, all_ascii, lemma_ascii_valid, push_valid_range, push_ascii_all, string_from_utf8, chars_of,
    count_starts, lemma_boundary_after_ascii,
};
use crate::text_utils::{char_to_byte, byte_to_char, nl_count};
use crate::app_text::{line_nth_byte, nth_line_byte};
use crate::highlight::{trim_front, trim_back, trim_bounds};
use crate::utf8_text::off;

verus! {

broadcast use vstd::utf8::encode_utf8_valid_utf8, vstd::utf8::encode_utf8_decode_utf8;

/// The active tab after the tab at `idx` was removed, `len_after` tabs
/// remaining: the tab before the removed one when it was active (or the
/// first tab), the same tab shifted down when it came after.
pub open spec fn spec_active_after_remove(active: Option<usize>, idx: usize, len_after: usize) -> Option<usize> {
    match active {
        Some(a) => if a == idx {
            if idx > 0 && idx - 1 < len_after {
                Some((idx - 1) as usize)
            } else if len_after == 0 {
                None
            } else {
                Some(0usize)
            }
        } else if a > idx {
            Some((a - 1) as usize)
        } else {
            Some(a)
        },
        None => None,
    }
}

/// Exec [`spec_active_after_remove`].
pub fn active_after_remove(active: Option<usize>, idx: usize, len_after: usize) -> (r: Option<usize>)
    ensures
        r == spec_active_after_remove(active, idx, len_after),
{
    match active {
        Some(a) => if a == idx {
            if idx > 0 && idx - 1 < len_after {
                Some(idx - 1)
            } else if len_after == 0 {
                None
            } else {
                Some(0)
            }
        } else if a > idx {
            Some(a - 1)
        } else {
            Some(a)
        },
        None => None,
    }
}

/// Closing a tab keeps a valid active tab valid: it still names one of the
/// remaining tabs, and there is none only when no tab remains.
pub proof fn lemma_active_stays_valid(active: usize, idx: usize, len_after: usize)
    requires
        active < len_after + 1,
        idx < len_after + 1,
    ensures
        match spec_active_after_remove(Some(active), idx, len_after) {
            Some(a) => a < len_after,
            None => len_after == 0,
        },
{
}

/// Index of the first match starting at or after `anchor`, from `k` on.
pub open spec fn first_from(ms: Seq<(int, int)>, anchor: int, k: int) -> Option<int>
    decreases ms.len() - k,
{
    if k < 0 || k >= ms.len() {
        None
    } else if ms[k].0 >= anchor {
        Some(k)
    } else {
        first_from(ms, anchor, k + 1)
    }
}

/// Index of the last match, below `k`, ending at or before `anchor`.
pub open spec fn last_before(ms: Seq<(int, int)>, anchor: int, k: int) -> Option<int>
    decreases k,
{
    if k <= 0 || k > ms.len() {
        None
    } else if ms[k - 1].1 <= anchor {
        Some(k - 1)
    } else {
        last_before(ms, anchor, k - 1)
    }
}

/// The match the find bar jumps to: forward, the first one starting at or
/// after the anchor, else the first; backward, the last one ending at or
/// before it, else the last. `None` without matches.
pub open spec fn spec_goto(ms: Seq<(int, int)>, anchor: int, next: bool) -> Option<int> {
    if ms.len() == 0 {
        None
    } else if next {
        match first_from(ms, anchor, 0) {
            Some(k) => Some(k),
            None => Some(0),
        }
    } else {
        match last_before(ms, anchor, ms.len() as int) {
            Some(k) => Some(k),
            None => Some(ms.len() - 1),
        }
    }
}

/// Exec [`spec_goto`]: the match to select next.
pub fn goto_match(matches: &[Range<usize>], anchor: usize, next: bool) -> (r: Option<Range<usize>>)
    ensures
        match spec_goto(ranges_view(matches@), anchor as int, next) {
            Some(k) => r matches Some(m) && 0 <= k < matches@.len() && m == matches@[k],
            None => r is None,
        },
{
    let ghost ms = ranges_view(matches@);
    let n = matches.len();
    if n == 0 {
        return None;
    }
    if next {
        let mut k: usize = 0;
        while k < n
            invariant
                k <= n,
                n == matches@.len(),
                ms == ranges_view(matches@),
                first_from(ms, anchor as int, 0) == first_from(ms, anchor as int, k as int),
                next,
            decreases n - k,
        {
            assert(ms[k as int] == (matches@[k as int].start as int, matches@[k as int].end as int));
            if matches[k].start >= anchor {
                assert(first_from(ms, anchor as int, k as int) == Some(k as int));
                return Some(matches[k].start..matches[k].end);
            }
            k = k + 1;
        }
        Some(matches[0].start..matches[0].end)
    } else {
        let mut k: usize = n;
        while k > 0
            invariant
                k <= n,
                n == matches@.len(),
                ms == ranges_view(matches@),
                last_before(ms, anchor as int, n as int) == last_before(ms, anchor as int, k as int),
                !next,
            decreases k,
        {
            assert(ms[k - 1] == (matches@[k - 1].start as int, matches@[k - 1].end as int));
            if matches[k - 1].end <= anchor {
                assert(last_before(ms, anchor as int, k as int) == Some(k - 1));
                return Some(matches[k - 1].start..matches[k - 1].end);
            }
            k = k - 1;
        }
        Some(matches[n - 1].start..matches[n - 1].end)
    }
}

/// Index of the first match ending at or after `anchor`, from `k` on.
pub open spec fn first_ending_from(ms: Seq<(int, int)>, anchor: int, k: int) -> Option<int>
    decreases ms.len() - k,
{
    if k < 0 || k >= ms.len() {
        None
    } else if ms[k].1 >= anchor {
        Some(k)
    } else {
        first_ending_from(ms, anchor, k + 1)
    }
}

/// The match "Replace" acts on: the first one ending at or after the
/// anchor, else the first. `None` without matches.
pub open spec fn spec_replace_target(ms: Seq<(int, int)>, anchor: int) -> Option<int> {
    if ms.len() == 0 {
        None
    } else {
        match first_ending_from(ms, anchor, 0) {
            Some(k) => Some(k),
            None => Some(0),
        }
    }
}

/// Exec [`spec_replace_target`].
pub fn replace_target(matches: &[Range<usize>], anchor: usize) -> (r: Option<Range<usize>>)
    ensures
        match spec_replace_target(ranges_view(matches@), anchor as int) {
            Some(k) => r matches Some(m) && 0 <= k < matches@.len() && m == matches@[k],
            None => r is None,
        },
{
    let ghost ms = ranges_view(matches@);
    let n = matches.len();
    if n == 0 {
        return None;
    }
    let mut k: usize = 0;
    while k < n
        invariant
            k <= n,
            n == matches@.len(),
            ms == ranges_view(matches@),
            first_ending_from(ms, anchor as int, 0) == first_ending_from(ms, anchor as int, k as int),
        decreases n - k,
    {
        assert(ms[k as int] == (matches@[k as int].start as int, matches@[k as int].end as int));
        if matches[k].end >= anchor {
            assert(first_ending_from(ms, anchor as int, k as int) == Some(k as int));
            return Some(matches[k].start..matches[k].end);
        }
        k = k + 1;
    }
    Some(matches[0].start..matches[0].end)
}

/// The byte range of a character selection (either end first), clamped to
/// the text; the end of the text without a selection.
pub fn selection_bytes(text: &str, sel: Option<(usize, usize)>) -> (r: Range<usize>)
    ensures
        ({
            let n = text@.len() as int;
            match sel {
                Some((a, b)) => {
                    let lo = if a < b { a as int } else { b as int };
                    let hi = if a < b { b as int } else { a as int };
                    r.start == off(text@, if lo < n { lo } else { n }) && r.end == off(
                        text@,
                        if hi < n { hi } else { n },
                    )
                },
                None => r.start == bytes_of(text@).len() && r.end == bytes_of(text@).len(),
            }
        }),
{
    match sel {
        Some((a, b)) => {
            let lo = if a < b { a } else { b };
            let hi = if a < b { b } else { a };
            let n = crate::utf8_text::char_count(text);
            let s = char_to_byte(text, if lo < n { lo } else { n });
            let e = char_to_byte(text, if hi < n { hi } else { n });
            s..e
        },
        None => {
            let l = text.as_bytes().len();
            l..l
        },
    }
}

/// `t[s..e]` holds a newline.
pub open spec fn has_newline(t: Seq<u8>, s: int, e: int) -> bool {
    exists|k: int| s <= k < e && t[k] == 10u8
}

/// A fenced code block made of the selection `[s, e)`: the text with the
/// selection put between a "```" line and a closing "```", and the code
/// selected inside it.
pub open spec fn spec_code_fence(t: Seq<u8>, s: int, e: int) -> Outcome {
    let code = t.subrange(s, e);
    applied(
        t.subrange(0, s) + seq![96u8, 96u8, 96u8, 10u8] + code + seq![10u8, 96u8, 96u8, 96u8] + t.subrange(
            e,
            t.len() as int,
        ),
        s + 4,
        s + 4 + code.len(),
    )
}

/// The inline-code command: an empty or single-line selection toggles
/// backticks around it; inline code cannot span lines, so a multi-line
/// selection becomes a fenced code block instead.
pub fn code_span(text: &str, sel: &Range<usize>) -> (o: Out)
    requires
        sel.start <= sel.end <= bytes_of(text@).len(),
        boundary(bytes_of(text@), sel.start as int),
        boundary(bytes_of(text@), sel.end as int),
        bytes_of(text@).len() + 8 < usize::MAX,
    ensures
        ({
            let t = bytes_of(text@);
            if sel.start < sel.end && has_newline(t, sel.start as int, sel.end as int) {
                out_is(o, spec_code_fence(t, sel.start as int, sel.end as int))
            } else {
                out_is(o, spec_toggle_wrap(t, sel.start as int, sel.end as int, seq![96u8], seq![96u8]))
            }
        }),
{
    let t = text.as_bytes();
    let s = sel.start;
    let e = sel.end;
    let mut nl = false;
    let mut k = s;
    while k < e
        invariant
            s <= k <= e <= t@.len(),
            t@ == bytes_of(text@),
            nl == has_newline(t@, s as int, k as int),
        decreases e - k,
    {
        if t[k] == 10u8 {
            nl = true;
        }
        k = k + 1;
    }
    if s == e || !nl {
        let tick = ascii_string(&[96u8]);
        return toggle_wrap(text, sel, tick.as_str(), tick.as_str());
    }
    let open: &[u8] = &[96u8, 96u8, 96u8, 10u8];
    let close: &[u8] = &[10u8, 96u8, 96u8, 96u8];
    assert(open@ =~= seq![96u8, 96u8, 96u8, 10u8]);
    assert(close@ =~= seq![10u8, 96u8, 96u8, 96u8]);
    let mut out: Vec<u8> = Vec::new();
    proof {
        assert(out@ =~= Seq::<u8>::empty());
        lemma_ascii_valid(out@);
    }
    push_valid_range(&mut out, t, 0, s);
    push_ascii_all(&mut out, open);
    push_valid_range(&mut out, t, s, e);
    push_ascii_all(&mut out, close);
    push_valid_range(&mut out, t, e, t.len());
    let nt = string_from_utf8(out);
    let cl = e - s;
    Out::Applied(Op { new_text: nt, selection: (s + 4)..(s + 4 + cl) })
}

/// A string of ASCII bytes.
pub(crate) fn ascii_string(b: &[u8]) -> (s: String)
    requires
        all_ascii(b@),
    ensures
        bytes_of(s@) == b@,
{
    let mut v: Vec<u8> = Vec::new();
    crate::utf8_text::push_range(&mut v, b, 0, b.len());
    assert(v@ =~= b@);
    proof {
        lemma_ascii_valid(v@);
    }
    string_from_utf8(v)
}

/// Value of decimal digits.
pub open spec fn digits_nat(d: Seq<char>) -> nat
    decreases d.len(),
{
    if d.len() == 0 {
        0
    } else {
        digits_nat(d.drop_last()) * 10 + ((d.last() as u32) - 48) as nat
    }
}

/// `cs` without a leading `+`.
pub open spec fn unsigned_part(cs: Seq<char>) -> Seq<char> {
    if cs.len() > 0 && cs[0] == '+' { cs.skip(1) } else { cs }
}

/// Every character is an ASCII digit.
pub open spec fn all_digits(d: Seq<char>) -> bool {
    forall|k: int| 0 <= k < d.len() ==> '0' <= #[trigger] d[k] <= '9'
}

/// What `usize::from_str` reads from a text: an optional `+`, then one or
/// more ASCII digits whose value fits a `usize`.
pub open spec fn spec_parse_usize(cs: Seq<char>) -> Option<nat> {
    let d = unsigned_part(cs);
    if d.len() == 0 || !all_digits(d) {
        None
    } else if digits_nat(d) > usize::MAX {
        None
    } else {
        Some(digits_nat(d))
    }
}

/// Exec [`spec_parse_usize`].
fn parse_usize(cs: &Vec<char>, a: usize, b: usize) -> (r: Option<usize>)
    requires
        a <= b <= cs@.len(),
    ensures
        match spec_parse_usize(cs@.subrange(a as int, b as int)) {
            Some(v) => r == Some(v as usize),
            None => r is None,
        },
{
    let ghost w = cs@.subrange(a as int, b as int);
    let mut i = a;
    if a < b && cs[a] == '+' {
        i = a + 1;
    }
    let ghost d = cs@.subrange(i as int, b as int);
    assert(d =~= unsigned_part(w));
    if i == b {
        return None;
    }
    let mut v: usize = 0;
    let mut k = i;
    while k < b
        invariant
            a <= i <= k <= b <= cs@.len(),
            i < b,
            w == cs@.subrange(a as int, b as int),
            d == cs@.subrange(i as int, b as int),
            d == unsigned_part(w),
            forall|q: int| i <= q < k ==> '0' <= #[trigger] cs@[q] <= '9',
            v == digits_nat(cs@.subrange(i as int, k as int)),
        decreases b - k,
    {
        let c = cs[k];
        assert(cs@.subrange(i as int, k + 1).drop_last() =~= cs@.subrange(i as int, k as int));
        if !('0' <= c && c <= '9') {
            proof {
                assert(d[k - i] == cs@[k as int]);
                assert(!all_digits(d));
            }
            return None;
        }
        assert(cs@.subrange(i as int, k + 1).last() == c);
        assert(d.take(k + 1 - i) =~= cs@.subrange(i as int, k + 1));
        let dv = (c as u32 - 48) as usize;
        match v.checked_mul(10) {
            Some(m) => match m.checked_add(dv) {
                Some(nv) => {
                    v = nv;
                },
                None => {
                    proof {
                        lemma_overflow(d, (k + 1 - i) as int);
                    }
                    return None;
                },
            },
            None => {
                proof {
                    lemma_overflow(d, (k + 1 - i) as int);
                }
                return None;
            },
        }
        k = k + 1;
    }
    assert(all_digits(d)) by {
        assert forall|q: int| 0 <= q < d.len() implies '0' <= #[trigger] d[q] <= '9' by {
            assert(d[q] == cs@[i + q]);
        }
    }
    assert(d =~= cs@.subrange(i as int, k as int));
    Some(v)
}

/// Digits whose prefix already exceeds `usize::MAX` do not read as a `usize`.
proof fn lemma_overflow(d: Seq<char>, m: int)
    requires
        0 < m <= d.len(),
        digits_nat(d.take(m)) > usize::MAX,
    ensures
        !all_digits(d) || digits_nat(d) > usize::MAX,
{
    if all_digits(d) {
        lemma_digits_grow(d, m);
    }
}

/// Digit values only grow as digits are added.
proof fn lemma_digits_grow(d: Seq<char>, m: int)
    requires
        0 <= m <= d.len(),
        all_digits(d),
    ensures
        digits_nat(d.take(m)) <= digits_nat(d),
    decreases d.len(),
{
    if m < d.len() {
        assert(d.drop_last().take(m) =~= d.take(m));
        lemma_digits_grow(d.drop_last(), m);
    } else {
        assert(d.take(m) =~= d);
    }
}

/// The caret (a character offset) the "Go to line" dialog moves to for the
/// typed text: the start of line `n` (counted from 1) when the text reads
/// as a number `n`, the first line for 0; `None` when it does not read as a
/// number.
pub fn goto_line_caret(text: &str, input: &str) -> (r: Option<usize>)
    ensures
        match spec_parse_usize(trim_back(trim_front(input@))) {
            Some(n) => r matches Some(c) && c == count_starts(
                bytes_of(text@).subrange(0, nth_line_byte(bytes_of(text@), if n > 0 { (n - 1) as nat } else { 0 })),
            ),
            None => r is None,
        },
{
    let cs = chars_of(input);
    let (a, b) = trim_bounds(&cs);
    match parse_usize(&cs, a, b) {
        Some(n) => {
            let byte = line_nth_byte(text, if n > 0 { n - 1 } else { 0 });
            proof {
                lemma_nth_line_boundary(bytes_of(text@), if n > 0 { (n - 1) as nat } else { 0 });
            }
            Some(byte_to_char(text, byte))
        },
        None => None,
    }
}

/// The start of a numbered line lies on a character boundary.
proof fn lemma_nth_line_boundary(t: Seq<u8>, n: nat)
    requires
        vstd::utf8::valid_utf8(t),
    ensures
        0 <= nth_line_byte(t, n) <= t.len(),
        boundary(t, nth_line_byte(t, n)),
    decreases t.len(),
{
    if n == 0 || t.len() == 0 {
    } else if nl_count(t.drop_last()) >= n {
        assert(t.drop_last() =~= t.subrange(0, t.len() - 1));
        lemma_nth_line_boundary_in(t.drop_last(), n, t);
    }
}

/// A line start of a prefix of valid text is a boundary of the text.
proof fn lemma_nth_line_boundary_in(p: Seq<u8>, n: nat, t: Seq<u8>)
    requires
        vstd::utf8::valid_utf8(t),
        p.len() <= t.len(),
        p == t.subrange(0, p.len() as int),
        n > 0,
        nl_count(p) >= n,
    ensures
        0 <= nth_line_byte(p, n) <= p.len(),
        boundary(t, nth_line_byte(p, n)),
    decreases p.len(),
{
    if p.len() == 0 {
    } else if nl_count(p.drop_last()) >= n {
        assert(p.drop_last() =~= t.subrange(0, p.len() - 1));
        lemma_nth_line_boundary_in(p.drop_last(), n, t);
    } else {
        let m = p.len() as int;
        if m < t.len() {
            assert(t[m - 1] == p[m - 1]);
            assert(p[m - 1] == 10u8);
            lemma_boundary_after_ascii(t, m - 1);
        }
    }
}

} // verus!
