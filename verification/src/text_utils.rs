//! Pure text helpers: byte/char offset conversion and line arithmetic.
//!
//! Offsets are byte offsets into the UTF-8 encoding of the text
//! (`bytes_of(text@)`); character offsets count Unicode scalar values.

use vstd::prelude::*;
use vstd::utf8::*;
use crate::utf8_text::{chars_of, char_is_whitespace, is_white_space, utf8_len, lemma_off_step, lemma_off_prefix, lemma_off_mono, bytes_of, boundary, count_starts, off, lemma_char_index, lemma_off_full, lemma_decode_len};

verus! {

broadcast use vstd::utf8::encode_utf8_valid_utf8, vstd::utf8::encode_utf8_decode_utf8;

/// Number of `\n` bytes in `t`.
pub open spec fn nl_count(t: Seq<u8>) -> nat
    decreases t.len(),
{
    if t.len() == 0 {
        0
    } else {
        nl_count(t.drop_last()) + if t.last() == 10u8 { 1nat } else { 0nat }
    }
}

/// No `\n` byte in `t[a..b]`.
pub open spec fn no_nl(t: Seq<u8>, a: int, b: int) -> bool {
    forall|j: int| a <= j < b ==> #[trigger] t[j] != 10u8
}

/// `s` is the first byte of a line: the start of the text or just after a `\n`.
pub open spec fn is_line_start(t: Seq<u8>, s: int) -> bool {
    s == 0 || (0 < s <= t.len() && t[s - 1] == 10u8)
}

/// `e` is the end of a line: the end of the text or the offset of a `\n`.
pub open spec fn is_line_end(t: Seq<u8>, e: int) -> bool {
    e == t.len() || (0 <= e < t.len() && t[e] == 10u8)
}

/// Number of logical lines of a text.
pub open spec fn spec_line_count(t: Seq<u8>) -> nat {
    if t.len() == 0 { 0 } else { nl_count(t) + 1 }
}

pub proof fn lemma_nl_count_step(t: Seq<u8>, i: int)
    requires
        0 <= i < t.len(),
    ensures
        nl_count(t.subrange(0, i + 1)) == nl_count(t.subrange(0, i)) + if t[i] == 10u8 { 1nat } else { 0nat },
{
    assert(t.subrange(0, i + 1).drop_last() =~= t.subrange(0, i));
}

pub proof fn lemma_nl_count_le(t: Seq<u8>)
    ensures
        nl_count(t) <= t.len(),
    decreases t.len(),
{
    if t.len() > 0 {
        lemma_nl_count_le(t.drop_last());
    }
}

pub proof fn lemma_nl_count_concat(a: Seq<u8>, b: Seq<u8>)
    ensures
        nl_count(a + b) == nl_count(a) + nl_count(b),
    decreases b.len(),
{
    if b.len() == 0 {
        assert(a + b =~= a);
    } else {
        lemma_nl_count_concat(a, b.drop_last());
        assert((a + b).drop_last() =~= a + b.drop_last());
    }
}

pub proof fn lemma_nl_count_none(t: Seq<u8>, a: int, b: int)
    requires
        0 <= a <= b <= t.len(),
        no_nl(t, a, b),
    ensures
        nl_count(t.subrange(a, b)) == 0,
    decreases b - a,
{
    if b > a {
        lemma_nl_count_none(t, a, b - 1);
        assert(t.subrange(a, b).drop_last() =~= t.subrange(a, b - 1));
    }
}

/// Counts the `\n` bytes of `b[from..to]`.
pub fn count_nl(b: &[u8], from: usize, to: usize) -> (c: usize)
    requires
        from <= to <= b@.len(),
    ensures
        c == nl_count(b@.subrange(from as int, to as int)),
        c <= to - from,
{
    let mut i = from;
    let mut c: usize = 0;
    while i < to
        invariant
            from <= i <= to <= b@.len(),
            c == nl_count(b@.subrange(from as int, i as int)),
            c <= i - from,
        decreases to - i,
    {
        assert(b@.subrange(from as int, i + 1).drop_last() =~= b@.subrange(from as int, i as int));
        if b[i] == 10u8 {
            c = c + 1;
        }
        i = i + 1;
    }
    c
}

/// Byte offset → character offset. `byte` must lie on a character boundary.
pub fn byte_to_char(text: &str, byte: usize) -> (n: usize)
    requires
        byte <= bytes_of(text@).len(),
        boundary(bytes_of(text@), byte as int),
    ensures
        n <= text@.len(),
        n == count_starts(bytes_of(text@).subrange(0, byte as int)),
        off(text@, n as int) == byte,
{
    let b = text.as_bytes();
    let mut i: usize = 0;
    let mut c: usize = 0;
    while i < byte
        invariant
            i <= byte <= b@.len(),
            c == count_starts(b@.subrange(0, i as int)),
            c <= i,
        decreases byte - i,
    {
        assert(b@.subrange(0, i + 1).drop_last() =~= b@.subrange(0, i as int));
        if !(0x80 <= b[i] && b[i] <= 0xbf) {
            c = c + 1;
        }
        i = i + 1;
    }
    proof {
        lemma_char_index(text@, byte as int);
    }
    c
}

/// Character offset → byte offset (clamped to the end of the text).
pub fn char_to_byte(text: &str, ch: usize) -> (r: usize)
    ensures
        r == off(text@, if ch < text@.len() { ch as int } else { text@.len() as int }),
{
    let b = text.as_bytes();
    let ghost t = b@;
    let mut i: usize = 0;
    let mut c: usize = 0;
    while i < b.len()
        invariant
            i <= b@.len(),
            t == b@,
            t == bytes_of(text@),
            c == count_starts(t.subrange(0, i as int)),
            c <= ch,
        decreases b@.len() - i,
    {
        assert(t.subrange(0, i + 1).drop_last() =~= t.subrange(0, i as int));
        if !(0x80 <= b[i] && b[i] <= 0xbf) {
            if c == ch {
                proof {
                    lemma_char_index(text@, i as int);
                }
                return i;
            }
            c = c + 1;
        }
        i = i + 1;
    }
    proof {
        assert(t.subrange(0, i as int) =~= t);
        lemma_decode_len(t);
        lemma_off_full(text@);
    }
    i
}

/// Byte offset of the first byte of the line containing `byte`.
pub fn line_start(text: &str, byte: usize) -> (r: usize)
    requires
        byte <= bytes_of(text@).len(),
        boundary(bytes_of(text@), byte as int),
    ensures
        r <= byte,
        is_line_start(bytes_of(text@), r as int),
        no_nl(bytes_of(text@), r as int, byte as int),
{
    let b = text.as_bytes();
    let mut i = byte;
    while i > 0
        invariant
            i <= byte <= b@.len(),
            b@ == bytes_of(text@),
            no_nl(b@, i as int, byte as int),
        decreases i,
    {
        if b[i - 1] == 10u8 {
            return i;
        }
        i = i - 1;
    }
    0
}

/// Byte offset one past the last character of the line containing `byte`
/// (excludes the line terminator).
pub fn line_end(text: &str, byte: usize) -> (r: usize)
    requires
        byte <= bytes_of(text@).len(),
        boundary(bytes_of(text@), byte as int),
    ensures
        byte <= r <= bytes_of(text@).len(),
        is_line_end(bytes_of(text@), r as int),
        no_nl(bytes_of(text@), byte as int, r as int),
{
    let b = text.as_bytes();
    let mut i = byte;
    while i < b.len()
        invariant
            byte <= i <= b@.len(),
            b@ == bytes_of(text@),
            no_nl(b@, byte as int, i as int),
        decreases b@.len() - i,
    {
        if b[i] == 10u8 {
            return i;
        }
        i = i + 1;
    }
    i
}

/// Offset of the first `\n` at or after `i`, or the end of the text.
pub open spec fn next_nl(t: Seq<u8>, i: int) -> int
    decreases t.len() - i,
{
    if i >= t.len() {
        t.len() as int
    } else if i < 0 {
        next_nl(t, 0)
    } else if t[i] == 10u8 {
        i
    } else {
        next_nl(t, i + 1)
    }
}

/// Start offset of line number `k`.
pub open spec fn nth_start(t: Seq<u8>, k: nat) -> int
    decreases k,
{
    if k == 0 {
        0
    } else {
        next_nl(t, nth_start(t, (k - 1) as nat)) + 1
    }
}

/// `(start, end, end_incl)` of line number `k`.
pub open spec fn line_tuple(t: Seq<u8>, k: nat) -> (int, int, int) {
    let s = nth_start(t, k);
    let e = next_nl(t, s);
    (s, e, if e < t.len() { e + 1 } else { e })
}

pub proof fn lemma_next_nl(t: Seq<u8>, i: int, e: int)
    requires
        0 <= i <= e <= t.len(),
        no_nl(t, i, e),
        is_line_end(t, e),
    ensures
        next_nl(t, i) == e,
    decreases e - i,
{
    if i < e {
        lemma_next_nl(t, i + 1, e);
    }
}

/// End of the line that starts at `s` (exec helper over bytes).
pub fn find_line_end(b: &[u8], s: usize) -> (e: usize)
    requires
        s <= b@.len(),
    ensures
        e == next_nl(b@, s as int),
        s <= e <= b@.len(),
        is_line_end(b@, e as int),
        no_nl(b@, s as int, e as int),
{
    let mut i = s;
    while i < b.len()
        invariant
            s <= i <= b@.len(),
            no_nl(b@, s as int, i as int),
        decreases b@.len() - i,
    {
        if b[i] == 10u8 {
            proof { lemma_next_nl(b@, s as int, i as int); }
            return i;
        }
        i = i + 1;
    }
    proof { lemma_next_nl(b@, s as int, i as int); }
    i
}

/// `(start, end, end_incl)` describes line number `idx` of `t`: it starts at
/// `start` (after `idx` line terminators), ends at `end` (excluding the
/// terminator) and `end_incl` includes the terminator when there is one.
pub open spec fn is_line_bounds(t: Seq<u8>, idx: int, start: int, end: int, end_incl: int) -> bool {
    &&& 0 <= start <= end <= end_incl <= t.len()
    &&& is_line_start(t, start)
    &&& nl_count(t.subrange(0, start)) == idx
    &&& is_line_end(t, end)
    &&& no_nl(t, start, end)
    &&& end_incl == if end < t.len() { end + 1 } else { end }
}

/// Bounds of line `line_idx` (0-based); `None` when `text` is empty or the
/// index is out of range.
pub fn line_bounds(text: &str, line_idx: usize) -> (r: Option<(usize, usize, usize)>)
    ensures
        r is None <==> (bytes_of(text@).len() == 0 || line_idx >= spec_line_count(bytes_of(text@))),
        r matches Some((s, e, ei)) ==> (s as int, e as int, ei as int) == line_tuple(bytes_of(text@), line_idx as nat),
        r matches Some((s, e, ei)) ==> is_line_bounds(bytes_of(text@), line_idx as int, s as int, e as int, ei as int),
{
    let b = text.as_bytes();
    line_bounds_bytes(b, line_idx)
}

/// [`line_bounds`] over raw bytes.
pub fn line_bounds_bytes(b: &[u8], line_idx: usize) -> (r: Option<(usize, usize, usize)>)
    ensures
        r is None <==> (b@.len() == 0 || line_idx >= spec_line_count(b@)),
        r matches Some((s, e, ei)) ==> (s as int, e as int, ei as int) == line_tuple(b@, line_idx as nat),
        r matches Some((s, e, ei)) ==> is_line_bounds(b@, line_idx as int, s as int, e as int, ei as int),
{
    if b.len() == 0 {
        return None;
    }
    let ghost t = b@;
    let mut start: usize = 0;
    let mut idx: usize = 0;
    proof {
        assert(t.subrange(0, 0) =~= Seq::<u8>::empty());
    }
    loop
        invariant
            t == b@,
            t.len() > 0,
            idx <= line_idx,
            start <= t.len(),
            is_line_start(t, start as int),
            nl_count(t.subrange(0, start as int)) == idx,
            start as int == nth_start(t, idx as nat),
        decreases t.len() - start,
    {
        let end = find_line_end(b, start);
        proof {
            lemma_nl_count_none(t, start as int, end as int);
            lemma_nl_count_concat(t.subrange(0, start as int), t.subrange(start as int, end as int));
            assert(t.subrange(0, start as int) + t.subrange(start as int, end as int) =~= t.subrange(0, end as int));
        }
        if idx == line_idx {
            proof {
                lemma_nl_count_concat(t.subrange(0, start as int), t.subrange(start as int, t.len() as int));
                assert(t.subrange(0, start as int) + t.subrange(start as int, t.len() as int) =~= t);
            }
            let end_incl = if end < b.len() { end + 1 } else { end };
            return Some((start, end, end_incl));
        }
        if end == b.len() {
            proof {
                assert(t.subrange(0, end as int) =~= t);
            }
            return None;
        }
        proof {
            lemma_nl_count_step(t, end as int);
        }
        start = end + 1;
        idx = idx + 1;
    }
}

/// Total number of logical lines (`text` may or may not end with newline).
pub fn line_count(text: &str) -> (n: usize)
    requires
        bytes_of(text@).len() < usize::MAX,
    ensures
        n == spec_line_count(bytes_of(text@)),
{
    let b = text.as_bytes();
    if b.len() == 0 {
        return 0;
    }
    let c = count_nl(b, 0, b.len());
    proof {
        assert(b@.subrange(0, b@.len() as int) =~= b@);
    }
    c + 1
}

/// Column (0-based, in characters) of `byte` within its line.
pub fn line_column(text: &str, byte: usize) -> (n: usize)
    requires
        byte <= bytes_of(text@).len(),
        boundary(bytes_of(text@), byte as int),
    ensures
        exists|ls: int|
            #![trigger is_line_start(bytes_of(text@), ls)]
            0 <= ls <= byte && is_line_start(bytes_of(text@), ls) && no_nl(bytes_of(text@), ls, byte as int)
                && n == count_starts(bytes_of(text@).subrange(ls, byte as int)),
{
    let ls = line_start(text, byte);
    let b = text.as_bytes();
    let mut i = ls;
    let mut c: usize = 0;
    while i < byte
        invariant
            ls <= i <= byte <= b@.len(),
            c == count_starts(b@.subrange(ls as int, i as int)),
            c <= i - ls,
        decreases byte - i,
    {
        assert(b@.subrange(ls as int, i + 1).drop_last() =~= b@.subrange(ls as int, i as int));
        if !(0x80 <= b[i] && b[i] <= 0xbf) {
            c = c + 1;
        }
        i = i + 1;
    }
    assert(is_line_start(bytes_of(text@), ls as int));
    c
}

/// Index (0-based) of the line containing `byte`.
pub fn line_index(text: &str, byte: usize) -> (n: usize)
    requires
        byte <= bytes_of(text@).len(),
        boundary(bytes_of(text@), byte as int),
    ensures
        n == nl_count(bytes_of(text@).subrange(0, byte as int)),
{
    let b = text.as_bytes();
    count_nl(b, 0, byte)
}

/// Start of the line that contains offset `i`.
pub open spec fn start_of_line(t: Seq<u8>, i: int) -> int
    decreases i,
{
    if i <= 0 {
        0
    } else if t[i - 1] == 10u8 {
        i
    } else {
        start_of_line(t, i - 1)
    }
}

/// [`start_of_line`] is a line start before `i` with no `\n` in between, and
/// the only one.
proof fn lemma_start_of_line(t: Seq<u8>, i: int)
    requires
        0 <= i <= t.len(),
    ensures
        0 <= start_of_line(t, i) <= i,
        is_line_start(t, start_of_line(t, i)),
        no_nl(t, start_of_line(t, i), i),
        forall|x: int| 0 <= x <= i && is_line_start(t, x) && no_nl(t, x, i) ==> x == start_of_line(t, i),
    decreases i,
{
    if i > 0 && t[i - 1] != 10u8 {
        lemma_start_of_line(t, i - 1);
    }
    let s = start_of_line(t, i);
    assert forall|x: int| 0 <= x <= i && is_line_start(t, x) && no_nl(t, x, i) implies x == s by {
        if x < s {
            assert(t[s - 1] == 10u8);
        } else if x > s {
            assert(t[x - 1] == 10u8);
        }
    }
}

/// A line start `s` is the start of line number "count of `\n` before `s`".
proof fn lemma_nth_start_of(t: Seq<u8>, s: int)
    requires
        0 <= s <= t.len(),
        is_line_start(t, s),
    ensures
        nth_start(t, nl_count(t.subrange(0, s))) == s,
    decreases s,
{
    if s == 0 {
        assert(t.subrange(0, 0) =~= Seq::<u8>::empty());
    } else {
        let p = start_of_line(t, s - 1);
        lemma_start_of_line(t, s - 1);
        lemma_nth_start_of(t, p);
        lemma_nl_count_step(t, s - 1);
        lemma_nl_count_none(t, p, s - 1);
        lemma_nl_count_concat(t.subrange(0, p), t.subrange(p, s - 1));
        assert(t.subrange(0, p) + t.subrange(p, s - 1) =~= t.subrange(0, s - 1));
        lemma_next_nl(t, p, s - 1);
    }
}

/// The line functions agree: for an offset `b` on a character boundary,
/// the line start `ls` and line end `le` that [`line_start`] and
/// [`line_end`] give are the only such offsets, [`line_index`] counts the
/// line breaks before `ls`, that line exists, and [`line_bounds`] of it is
/// `(ls, le, le + 1)` (`le` on the last line); [`line_column`] counts
/// characters from that same `ls`.
pub proof fn lemma_line_functions_agree(t: Seq<u8>, b: int, ls: int, le: int)
    requires
        0 <= ls <= b <= le <= t.len(),
        is_line_start(t, ls),
        no_nl(t, ls, b),
        is_line_end(t, le),
        no_nl(t, b, le),
    ensures
        forall|x: int| 0 <= x <= b && is_line_start(t, x) && no_nl(t, x, b) ==> x == ls,
        forall|y: int| b <= y <= t.len() && is_line_end(t, y) && no_nl(t, b, y) ==> y == le,
        nl_count(t.subrange(0, b)) == nl_count(t.subrange(0, ls)),
        t.len() > 0 ==> nl_count(t.subrange(0, b)) < spec_line_count(t),
        line_tuple(t, nl_count(t.subrange(0, b))) == (ls, le, if le < t.len() { le + 1 } else { le }),
{
    lemma_start_of_line(t, b);
    assert forall|y: int| b <= y <= t.len() && is_line_end(t, y) && no_nl(t, b, y) implies y == le by {
        if y < le {
            assert(t[y] == 10u8);
        } else if y > le {
            assert(t[le] == 10u8);
        }
    }
    lemma_nl_count_none(t, ls, b);
    lemma_nl_count_concat(t.subrange(0, ls), t.subrange(ls, b));
    assert(t.subrange(0, ls) + t.subrange(ls, b) =~= t.subrange(0, b));
    lemma_nl_count_concat(t.subrange(0, b), t.subrange(b, t.len() as int));
    assert(t.subrange(0, b) + t.subrange(b, t.len() as int) =~= t);
    lemma_nth_start_of(t, ls);
    lemma_next_nl(t, ls, le);
}

/// Char index where the run of non-whitespace characters ending at index `k` begins.
pub open spec fn word_begin(s: Seq<char>, k: int) -> int
    decreases k,
{
    if k <= 0 {
        0
    } else if is_white_space(s[k - 1]) {
        k
    } else {
        word_begin(s, k - 1)
    }
}

/// Char index of the first whitespace character at or after `k` (or the end).
pub open spec fn word_end(s: Seq<char>, k: int) -> int
    decreases s.len() - k,
{
    if k >= s.len() {
        s.len() as int
    } else if is_white_space(s[k]) {
        k
    } else {
        word_end(s, k + 1)
    }
}

/// The `(start, end)` byte range of the word (run of non-whitespace
/// characters) containing `byte`; `None` when the caret sits on whitespace
/// or at or past the end of the text.
pub fn word_range_at(text: &str, byte: usize) -> (r: Option<(usize, usize)>)
    requires
        byte >= bytes_of(text@).len() || boundary(bytes_of(text@), byte as int),
    ensures
        byte >= bytes_of(text@).len() ==> r is None,
        byte < bytes_of(text@).len() ==> ({
            let k = count_starts(bytes_of(text@).subrange(0, byte as int)) as int;
            r == if is_white_space(text@[k]) {
                None
            } else {
                Some((off(text@, word_begin(text@, k)) as usize, off(text@, word_end(text@, k)) as usize))
            }
        }),
{
    let cs = chars_of(text);
    let ghost s = text@;
    let tlen = text.as_bytes().len();
    if byte >= tlen {
        return None;
    }
    let k = byte_to_char(text, byte);
    proof {
        lemma_off_prefix(s, k as int);
        if k == s.len() {
            lemma_off_full(s);
        }
    }
    let mut j: usize = 0;
    let mut pos: usize = 0;
    let mut wb: usize = 0;
    while j < k
        invariant
            cs@ == s,
            k < s.len(),
            j <= k,
            pos == off(s, j as int),
            wb == off(s, word_begin(s, j as int)),
            0 <= word_begin(s, j as int) <= j,
            off(s, k as int) <= bytes_of(s).len(),
            tlen == bytes_of(s).len(),
        decreases k - j,
    {
        proof {
            lemma_off_step(s, j as int);
            lemma_off_prefix(s, j as int + 1);
            lemma_off_prefix(s, k as int);
            lemma_off_mono(s, j as int + 1, k as int);
        }
        let n = utf8_len(cs[j]);
        pos = pos + n;
        if char_is_whitespace(cs[j]) {
            wb = pos;
        }
        j = j + 1;
    }
    if char_is_whitespace(cs[k]) {
        return None;
    }
    let mut e = k;
    let mut epos = byte;
    while e < cs.len()
        invariant
            cs@ == s,
            k <= e <= s.len(),
            epos == off(s, e as int),
            word_end(s, k as int) == word_end(s, e as int),
            tlen == bytes_of(s).len(),
        ensures
            e < s.len() ==> is_white_space(s[e as int]),
            epos == off(s, e as int),
            word_end(s, k as int) == e,
        decreases s.len() - e,
    {
        if char_is_whitespace(cs[e]) {
            break;
        }
        proof {
            lemma_off_prefix(s, s.len() as int);
            lemma_off_full(s);
            lemma_off_mono(s, e as int + 1, s.len() as int);
        }
        proof {
            lemma_off_step(s, e as int);
            lemma_off_prefix(s, e as int + 1);
        }
        epos = epos + utf8_len(cs[e]);
        e = e + 1;
    }
    Some((wb, epos))
}

} // verus!
