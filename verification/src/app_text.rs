//! Text helpers of the application: CJK detection (for lazy font loading),
//! a content hash, and the offset where a numbered line starts.

use vstd::prelude::*;
use vstd::utf8::*;
use crate::utf8_text::{bytes_of, chars_of, lemma_encode_concat};
use crate::text_utils::nl_count;

verus! {

/// A character of the CJK ranges the editor needs a CJK font for.
pub open spec fn is_cjk(c: char) -> bool {
    let u = c as u32;
    ||| 0x2E80 <= u <= 0x2FD5
    ||| 0x3000 <= u <= 0x303F
    ||| 0x3040 <= u <= 0x31FF
    ||| 0x3400 <= u <= 0x4DBF
    ||| 0x4E00 <= u <= 0x9FFF
    ||| 0xAC00 <= u <= 0xD7AF
    ||| 0xF900 <= u <= 0xFAFF
}

/// A character from U+0800 on has a UTF-8 lead byte from 0xE0 on.
proof fn lemma_high_char_byte(s: Seq<char>, k: int)
    requires
        0 <= k < s.len(),
        (s[k] as u32) >= 0x800,
    ensures
        exists|j: int| 0 <= j < bytes_of(s).len() && bytes_of(s)[j] >= 0xE0u8,
{
    let pre = s.take(k);
    let rest = s.skip(k);
    assert(s =~= pre + rest);
    lemma_encode_concat(pre, rest);
    assert(rest[0] == s[k]);
    let u = s[k] as u32;
    let e = encode_scalar(u);
    assert(bytes_of(rest) == e + bytes_of(rest.drop_first()));
    let x = ((u >> 12) & 0x0F) as u8;
    let y = ((u >> 18) & 0x7) as u8;
    assert((0xE0u8 | x) >= 0xE0u8) by (bit_vector);
    assert((0xF0u8 | y) >= 0xE0u8) by (bit_vector);
    assert(e[0] >= 0xE0u8);
    let j = bytes_of(pre).len() as int;
    assert(bytes_of(s)[j] == e[0]);
}

/// Whether the text holds a CJK character (Han, kana, Hangul, CJK
/// punctuation and compatibility ideographs); text without any byte from
/// 0xE0 on has none.
pub fn text_has_cjk(text: &str) -> (r: bool)
    ensures
        r == exists|k: int| 0 <= k < text@.len() && is_cjk(#[trigger] text@[k]),
{
    let b = text.as_bytes();
    let mut i: usize = 0;
    let mut high = false;
    while i < b.len() && !high
        invariant
            i <= b@.len(),
            b@ == bytes_of(text@),
            !high ==> forall|j: int| 0 <= j < i ==> b@[j] < 0xE0u8,
        decreases b@.len() - i + if high { 0int } else { 1int },
    {
        if b[i] >= 0xE0u8 {
            high = true;
        } else {
            i = i + 1;
        }
    }
    if !high {
        proof {
            assert forall|k: int| 0 <= k < text@.len() implies !is_cjk(#[trigger] text@[k]) by {
                if is_cjk(text@[k]) {
                    lemma_high_char_byte(text@, k);
                }
            }
        }
        return false;
    }
    let cs = chars_of(text);
    let mut k: usize = 0;
    while k < cs.len()
        invariant
            k <= cs@.len(),
            cs@ == text@,
            forall|q: int| 0 <= q < k ==> !is_cjk(#[trigger] text@[q]),
        decreases cs@.len() - k,
    {
        let u = cs[k] as u32;
        if (0x2E80 <= u && u <= 0x2FD5) || (0x3000 <= u && u <= 0x303F) || (0x3040 <= u && u <= 0x31FF) || (0x3400
            <= u && u <= 0x4DBF) || (0x4E00 <= u && u <= 0x9FFF) || (0xAC00 <= u && u <= 0xD7AF) || (0xF900 <= u
            && u <= 0xFAFF) {
            assert(is_cjk(text@[k as int]));
            return true;
        }
        k = k + 1;
    }
    false
}

/// FNV-1a hash of bytes: from the offset basis, each byte xored in, then a
/// multiplication by the FNV prime, modulo 2^64.
pub open spec fn fnv(b: Seq<u8>) -> u64
    decreases b.len(),
{
    if b.len() == 0 {
        0xcbf29ce484222325u64
    } else {
        let h = fnv(b.drop_last()) ^ (b.last() as u64);
        ((h as nat * 0x100000001b3nat) % 0x1_0000_0000_0000_0000nat) as u64
    }
}

/// 64-bit FNV-1a hash of the text's bytes.
pub fn fnv64(s: &str) -> (h: u64)
    ensures
        h == fnv(bytes_of(s@)),
{
    let b = s.as_bytes();
    let mut h: u64 = 0xcbf29ce484222325;
    let mut i: usize = 0;
    while i < b.len()
        invariant
            i <= b@.len(),
            b@ == bytes_of(s@),
            h == fnv(b@.take(i as int)),
        decreases b@.len() - i,
    {
        assert(b@.take(i + 1).drop_last() =~= b@.take(i as int));
        h = h ^ (b[i] as u64);
        h = h.wrapping_mul(0x100000001b3);
        i = i + 1;
    }
    assert(b@.take(i as int) =~= b@);
    h
}

/// Offset where line `n` (counted from 0) starts: just after the `n`-th
/// newline, or the end of the text when it has fewer newlines.
pub open spec fn nth_line_byte(t: Seq<u8>, n: nat) -> int
    decreases t.len(),
{
    if n == 0 || t.len() == 0 {
        0
    } else if nl_count(t.drop_last()) >= n {
        nth_line_byte(t.drop_last(), n)
    } else {
        t.len() as int
    }
}

/// The start of line `n` lies within the text.
pub proof fn lemma_nth_line_byte_le(t: Seq<u8>, n: nat)
    ensures
        0 <= nth_line_byte(t, n) <= t.len(),
    decreases t.len(),
{
    if n > 0 && t.len() > 0 && nl_count(t.drop_last()) >= n {
        lemma_nth_line_byte_le(t.drop_last(), n);
    }
}

/// Offset where line `n` (counted from 0) starts.
pub fn line_nth_byte(text: &str, n: usize) -> (r: usize)
    ensures
        r == nth_line_byte(bytes_of(text@), n as nat),
{
    let b = text.as_bytes();
    if n == 0 {
        return 0;
    }
    let mut seen: usize = 0;
    let mut i: usize = 0;
    while i < b.len()
        invariant
            i <= b@.len(),
            b@ == bytes_of(text@),
            n > 0,
            seen == nl_count(b@.take(i as int)),
            seen < n,
        decreases b@.len() - i,
    {
        assert(b@.take(i + 1).drop_last() =~= b@.take(i as int));
        if b[i] == 10u8 {
            seen = seen + 1;
            if seen == n {
                proof {
                    lemma_nth_line_prefix(b@, i + 1, n as nat);
                }
                return i + 1;
            }
        }
        i = i + 1;
    }
    proof {
        assert(b@.take(i as int) =~= b@);
        lemma_nth_line_short(b@, n as nat);
    }
    b.len()
}

proof fn lemma_nth_line_prefix(t: Seq<u8>, m: int, n: nat)
    requires
        0 < m <= t.len(),
        n > 0,
        t[m - 1] == 10u8,
        nl_count(t.take(m)) == n,
    ensures
        nth_line_byte(t, n) == m,
    decreases t.len(),
{
    assert(t.take(m).drop_last() =~= t.take(m - 1));
    if m < t.len() {
        lemma_nl_prefix_le(t.drop_last(), m);
        assert(t.drop_last().take(m) =~= t.take(m));
        lemma_nth_line_prefix(t.drop_last(), m, n);
    } else {
        assert(t.take(m) =~= t);
    }
}

proof fn lemma_nl_prefix_le(t: Seq<u8>, m: int)
    requires
        0 <= m <= t.len(),
    ensures
        nl_count(t.take(m)) <= nl_count(t),
    decreases t.len(),
{
    if m < t.len() {
        assert(t.drop_last().take(m) =~= t.take(m));
        lemma_nl_prefix_le(t.drop_last(), m);
    } else {
        assert(t.take(m) =~= t);
    }
}

proof fn lemma_nth_line_short(t: Seq<u8>, n: nat)
    requires
        n > 0,
        nl_count(t) < n,
    ensures
        nth_line_byte(t, n) == t.len(),
    decreases t.len(),
{
}

} // verus!
