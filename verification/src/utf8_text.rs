//! UTF-8 byte model of text: every text offset in this crate is a byte offset
//! into the UTF-8 encoding of a `str`.

use vstd::prelude::*;
use vstd::utf8::*;

verus! {

broadcast use vstd::utf8::encode_utf8_valid_utf8, vstd::utf8::encode_utf8_decode_utf8;

/// The UTF-8 bytes of a character sequence.
pub open spec fn bytes_of(s: Seq<char>) -> Seq<u8> {
    encode_utf8(s)
}

/// A UTF-8 continuation byte (`10xxxxxx`).
pub open spec fn is_cont(b: u8) -> bool {
    0x80 <= b <= 0xbf
}

/// `i` is the offset of the first byte of a character, or the end of the text.
pub open spec fn boundary(t: Seq<u8>, i: int) -> bool {
    i == 0 || i == t.len() || (0 < i < t.len() && !is_cont(t[i]))
}

/// Number of characters that start in `t` (bytes that are not continuation bytes).
pub open spec fn count_starts(t: Seq<u8>) -> nat
    decreases t.len(),
{
    if t.len() == 0 {
        0
    } else {
        count_starts(t.drop_last()) + if is_cont(t.last()) { 0nat } else { 1nat }
    }
}

/// All bytes are ASCII.
pub open spec fn all_ascii(s: Seq<u8>) -> bool {
    forall|i: int| 0 <= i < s.len() ==> #[trigger] s[i] < 0x80
}

pub proof fn lemma_encode_concat(a: Seq<char>, b: Seq<char>)
    ensures
        bytes_of(a + b) == bytes_of(a) + bytes_of(b),
    decreases a.len(),
{
    if a.len() == 0 {
        assert(a + b =~= b);
        assert(bytes_of(a) + bytes_of(b) =~= bytes_of(b));
    } else {
        lemma_encode_concat(a.drop_first(), b);
        assert((a + b).drop_first() =~= a.drop_first() + b);
        assert((a + b)[0] == a[0]);
        assert(encode_scalar(a[0] as u32) + bytes_of(a.drop_first() + b) =~= encode_scalar(
            a[0] as u32,
        ) + bytes_of(a.drop_first()) + bytes_of(b));
    }
}

pub proof fn lemma_first_not_cont(t: Seq<u8>)
    requires
        valid_utf8(t),
        t.len() > 0,
    ensures
        !is_cont(t[0]),
{
}

proof fn lemma_first_scalar_shape(t: Seq<u8>)
    requires
        valid_utf8(t),
        t.len() > 0,
    ensures
        1 <= length_of_first_scalar(t) <= t.len(),
        length_of_first_scalar(t) <= 4,
        forall|j: int| 0 < j < length_of_first_scalar(t) ==> #[trigger] is_cont(t[j]),
        length_of_first_scalar(t) > 1 ==> t[0] >= 0xc0,
        t[0] < 0x80 ==> length_of_first_scalar(t) == 1,
        valid_utf8(pop_first_scalar(t)),
        pop_first_scalar(t).len() == t.len() - length_of_first_scalar(t),
{
}

/// A continuation byte is always preceded by a non-ASCII byte.
pub proof fn lemma_cont_prev(t: Seq<u8>, j: int)
    requires
        valid_utf8(t),
        0 <= j < t.len(),
        is_cont(t[j]),
    ensures
        j > 0,
        t[j - 1] >= 0x80,
    decreases t.len(),
{
    lemma_first_scalar_shape(t);
    let k = length_of_first_scalar(t);
    if j == 0 {
        lemma_first_not_cont(t);
    } else if j < k {
    } else if j == k {
        let p = pop_first_scalar(t);
        assert(p[0] == t[k]);
        lemma_first_not_cont(p);
    } else {
        let p = pop_first_scalar(t);
        assert(p[j - k] == t[j]);
        lemma_cont_prev(p, j - k);
        assert(p[j - k - 1] == t[j - 1]);
    }
}

/// After an ASCII byte there is always a character boundary.
pub proof fn lemma_boundary_after_ascii(t: Seq<u8>, i: int)
    requires
        valid_utf8(t),
        0 <= i < t.len(),
        t[i] < 0x80,
    ensures
        boundary(t, i),
        boundary(t, i + 1),
{
    if i + 1 < t.len() && is_cont(t[i + 1]) {
        lemma_cont_prev(t, i + 1);
    }
}

pub proof fn lemma_boundary_iff(t: Seq<u8>, i: int)
    requires
        valid_utf8(t),
        0 <= i <= t.len(),
    ensures
        is_char_boundary(t, i) <==> boundary(t, i),
{
    is_char_boundary_start_end_of_seq(t);
    if 0 <= i < t.len() {
        is_char_boundary_iff_not_is_continuation_byte(t, i);
    }
}

/// A byte range between two character boundaries of valid UTF-8 is valid UTF-8.
pub proof fn lemma_valid_sub(t: Seq<u8>, a: int, b: int)
    requires
        valid_utf8(t),
        0 <= a <= b <= t.len(),
        boundary(t, a),
        boundary(t, b),
    ensures
        valid_utf8(t.subrange(a, b)),
{
    lemma_boundary_iff(t, b);
    valid_utf8_split(t, b);
    let p = t.subrange(0, b);
    assert(boundary(p, a)) by {
        if 0 < a < b {
            assert(p[a] == t[a]);
        }
    }
    lemma_boundary_iff(p, a);
    valid_utf8_split(p, a);
    assert(p.subrange(a, p.len() as int) =~= t.subrange(a, b));
}

pub proof fn lemma_ascii_valid(s: Seq<u8>)
    requires
        all_ascii(s),
    ensures
        valid_utf8(s),
    decreases s.len(),
{
    if s.len() > 0 {
        let b = s[0];
        assert(b < 0x80);
        assert((b & 0x7F) as u32 <= 0x7f) by (bit_vector);
        let p = pop_first_scalar(s);
        assert(p =~= s.subrange(1, s.len() as int));
        assert(all_ascii(p)) by {
            assert forall|i: int| 0 <= i < p.len() implies #[trigger] p[i] < 0x80 by {
                assert(p[i] == s[i + 1]);
            }
        }
        lemma_ascii_valid(p);
    }
}

pub proof fn lemma_count_starts_concat(a: Seq<u8>, b: Seq<u8>)
    ensures
        count_starts(a + b) == count_starts(a) + count_starts(b),
    decreases b.len(),
{
    if b.len() == 0 {
        assert(a + b =~= a);
    } else {
        lemma_count_starts_concat(a, b.drop_last());
        assert((a + b).drop_last() =~= a + b.drop_last());
        assert((a + b).last() == b.last());
    }
}

proof fn lemma_count_conts(t: Seq<u8>, n: int)
    requires
        0 <= n <= t.len(),
        forall|j: int| 0 <= j < n ==> #[trigger] is_cont(t[j]),
    ensures
        count_starts(t.subrange(0, n)) == 0,
    decreases n,
{
    if n > 0 {
        assert(t.subrange(0, n).drop_last() =~= t.subrange(0, n - 1));
        lemma_count_conts(t, n - 1);
    }
}

/// For valid UTF-8, the number of decoded characters equals the number of
/// non-continuation bytes.
pub proof fn lemma_decode_len(t: Seq<u8>)
    requires
        valid_utf8(t),
    ensures
        decode_utf8(t).len() == count_starts(t),
    decreases t.len(),
{
    if t.len() > 0 {
        lemma_first_scalar_shape(t);
        let k = length_of_first_scalar(t);
        let p = pop_first_scalar(t);
        lemma_decode_len(p);
        let h = t.subrange(0, k);
        assert(t =~= h + p);
        lemma_count_starts_concat(h, p);
        assert(h =~= seq![t[0]] + h.subrange(1, k));
        lemma_count_starts_concat(seq![t[0]], h.subrange(1, k));
        assert(seq![t[0]].drop_last() =~= Seq::<u8>::empty());
        let hs = h.subrange(1, k);
        assert forall|j: int| 0 <= j < k - 1 implies #[trigger] is_cont(hs[j]) by {
            assert(hs[j] == t[j + 1]);
        }
        lemma_count_conts(hs, k - 1);
        assert(hs.subrange(0, k - 1) =~= hs);
        lemma_first_not_cont(t);
        assert(count_starts(seq![t[0]]) == 1) by {
            reveal_with_fuel(count_starts, 2);
        }
        assert(decode_utf8(t) == seq![decode_first_scalar(t) as char] + decode_utf8(p));
    }
}

/// Decoding the prefix of valid UTF-8 at a boundary.
pub proof fn lemma_decode_prefix(t: Seq<u8>, i: int)
    requires
        valid_utf8(t),
        0 <= i <= t.len(),
        boundary(t, i),
    ensures
        valid_utf8(t.subrange(0, i)),
        valid_utf8(t.subrange(i, t.len() as int)),
        decode_utf8(t) == decode_utf8(t.subrange(0, i)) + decode_utf8(t.subrange(i, t.len() as int)),
        decode_utf8(t.subrange(0, i)).len() == count_starts(t.subrange(0, i)),
{
    lemma_boundary_iff(t, i);
    valid_utf8_split(t, i);
    decode_utf8_split(t, i);
    lemma_decode_len(t.subrange(0, i));
}

/// Builds a `String` from bytes that are known to be valid UTF-8.
/// Calls `String::from_utf8`, which the standard library documents to succeed
/// exactly on valid UTF-8 and to keep the bytes unchanged; the contract claims
/// that the resulting string encodes to the given bytes.
#[verifier::external_body]
pub(crate) fn string_from_utf8(v: Vec<u8>) -> (s: String)
    requires
        valid_utf8(v@),
    ensures
        bytes_of(s@) == v@,
{
    String::from_utf8(v).unwrap_or_default()
}

/// Appends `src[a..b]` to `out`.
pub fn push_range(out: &mut Vec<u8>, src: &[u8], a: usize, b: usize)
    requires
        a <= b <= src@.len(),
    ensures
        final(out)@ == old(out)@ + src@.subrange(a as int, b as int),
{
    let ghost start = out@;
    let mut i = a;
    while i < b
        invariant
            a <= i <= b <= src@.len(),
            out@ == start + src@.subrange(a as int, i as int),
        decreases b - i,
    {
        out.push(src[i]);
        assert(src@.subrange(a as int, i + 1) =~= src@.subrange(a as int, i as int).push(src@[i as int]));
        i = i + 1;
    }
}

/// Exec check of [`boundary`].
pub fn is_boundary(b: &[u8], i: usize) -> (r: bool)
    requires
        i <= b@.len(),
    ensures
        r == boundary(b@, i as int),
{
    i == 0 || i == b.len() || !(0x80 <= b[i] && b[i] <= 0xbf)
}

} // verus!

verus! {

/// A text has at most as many characters as bytes.
pub proof fn lemma_chars_le_bytes(s: Seq<char>)
    ensures
        s.len() <= bytes_of(s).len(),
    decreases s.len(),
{
    if s.len() > 0 {
        lemma_chars_le_bytes(s.drop_first());
        assert(encode_scalar(s[0] as u32).len() >= 1);
    }
}

/// Number of characters of `text`.
pub fn char_count(text: &str) -> (n: usize)
    ensures
        n == text@.len(),
        n <= bytes_of(text@).len(),
{
    proof {
        lemma_chars_le_bytes(text@);
    }
    chars_of(text).len()
}

/// The characters of `text`, in order.
pub fn chars_of(text: &str) -> (v: Vec<char>)
    ensures
        v@ == text@,
{
    let mut v: Vec<char> = Vec::new();
    for c in it: text.chars()
        invariant
            v@ == it.seq().take(it.index() as int),
            it.seq() == text@,
    {
        v.push(c);
    }
    v
}

} // verus!

verus! {

/// Byte offset of character index `k` in `s`.
pub open spec fn off(s: Seq<char>, k: int) -> int {
    bytes_of(s.take(k)).len() as int
}

/// The Unicode `White_Space` property.
pub open spec fn is_white_space(c: char) -> bool {
    let u = c as u32;
    (0x09 <= u <= 0x0d) || u == 0x20 || u == 0x85 || u == 0xa0 || u == 0x1680 || (0x2000 <= u
        <= 0x200a) || u == 0x2028 || u == 0x2029 || u == 0x202f || u == 0x205f || u == 0x3000
}

/// Whether `c` has the Unicode `White_Space` property, as
/// `char::is_whitespace` decides it.
pub fn char_is_whitespace(c: char) -> (b: bool)
    ensures
        b == is_white_space(c),
{
    let u = c as u32;
    (0x09 <= u && u <= 0x0d) || u == 0x20 || u == 0x85 || u == 0xa0 || u == 0x1680 || (0x2000 <= u && u
        <= 0x200a) || u == 0x2028 || u == 0x2029 || u == 0x202f || u == 0x205f || u == 0x3000
}

/// Length of the UTF-8 encoding of `c`.
pub fn utf8_len(c: char) -> (n: usize)
    ensures
        n == vstd::utf8::encode_scalar(c as u32).len(),
        1 <= n <= 4,
        n == 1 <==> (c as u32) < 0x80,
{
    let u = c as u32;
    if u < 0x80 {
        1
    } else if u < 0x800 {
        2
    } else if u < 0x10000 {
        3
    } else {
        4
    }
}

pub proof fn lemma_off_step(s: Seq<char>, k: int)
    requires
        0 <= k < s.len(),
    ensures
        bytes_of(s.take(k + 1)) == bytes_of(s.take(k)) + vstd::utf8::encode_scalar(s[k] as u32),
        off(s, k + 1) == off(s, k) + vstd::utf8::encode_scalar(s[k] as u32).len(),
{
    assert(s.take(k + 1) =~= s.take(k) + seq![s[k]]);
    lemma_encode_concat(s.take(k), seq![s[k]]);
    assert(seq![s[k]].drop_first() =~= Seq::<char>::empty());
    assert(bytes_of(seq![s[k]]) =~= vstd::utf8::encode_scalar(s[k] as u32)) by {
        reveal_with_fuel(encode_utf8, 2);
    }
}

pub proof fn lemma_off_full(s: Seq<char>)
    ensures
        off(s, s.len() as int) == bytes_of(s).len(),
        off(s, 0) == 0,
{
    assert(s.take(s.len() as int) =~= s);
    assert(s.take(0) =~= Seq::<char>::empty());
}

/// The encoding of the first `k` characters is the prefix of the whole encoding.
pub proof fn lemma_off_prefix(s: Seq<char>, k: int)
    requires
        0 <= k <= s.len(),
    ensures
        bytes_of(s).subrange(0, off(s, k)) == bytes_of(s.take(k)),
        0 <= off(s, k) <= bytes_of(s).len(),
        boundary(bytes_of(s), off(s, k)),
{
    assert(s =~= s.take(k) + s.skip(k));
    lemma_encode_concat(s.take(k), s.skip(k));
    let t = bytes_of(s);
    let p = bytes_of(s.take(k));
    assert(t.subrange(0, p.len() as int) =~= p);
    let q = bytes_of(s.skip(k));
    if p.len() < t.len() {
        assert(t[p.len() as int] == q[0]);
        lemma_first_not_cont(q);
    }
}

} // verus!

verus! {

/// A byte boundary `i` of the encoding of `s` is the offset of character
/// number `count_starts(prefix)`.
pub proof fn lemma_char_index(s: Seq<char>, i: int)
    requires
        0 <= i <= bytes_of(s).len(),
        boundary(bytes_of(s), i),
    ensures
        count_starts(bytes_of(s).subrange(0, i)) <= s.len(),
        off(s, count_starts(bytes_of(s).subrange(0, i)) as int) == i,
        bytes_of(s.take(count_starts(bytes_of(s).subrange(0, i)) as int)) == bytes_of(s).subrange(0, i),
{
    let t = bytes_of(s);
    lemma_decode_prefix(t, i);
    let p = t.subrange(0, i);
    let d = decode_utf8(p);
    assert(decode_utf8(t) == s);
    let n = d.len() as int;
    assert(s.take(n) =~= d);
    decode_utf8_encode_utf8(p);
}

} // verus!

verus! {

pub proof fn lemma_off_mono(s: Seq<char>, a: int, b: int)
    requires
        0 <= a <= b <= s.len(),
    ensures
        off(s, a) <= off(s, b),
    decreases b - a,
{
    if a < b {
        lemma_off_mono(s, a, b - 1);
        lemma_off_step(s, b - 1);
    }
}

} // verus!

verus! {

/// Appends one character to a `String`.
/// Calls `String::push`, documented to append the character to the end; the
/// contract claims exactly that on the character view.
#[verifier::external_body]
pub(crate) fn string_push(s: &mut String, c: char)
    ensures
        final(s)@ == old(s)@.push(c),
{
    s.push(c);
}

/// Builds a `String` holding the given characters in order.
pub fn string_from_chars(v: &Vec<char>) -> (s: String)
    ensures
        s@ == v@,
{
    let mut s = String::new();
    let mut i: usize = 0;
    while i < v.len()
        invariant
            i <= v@.len(),
            s@ == v@.take(i as int),
        decreases v@.len() - i,
    {
        string_push(&mut s, v[i]);
        assert(v@.take(i + 1) =~= v@.take(i as int).push(v@[i as int]));
        i = i + 1;
    }
    assert(v@.take(v@.len() as int) =~= v@);
    s
}

/// Appends all characters of `t` to `s`.
pub fn string_push_str(s: &mut String, t: &str)
    ensures
        final(s)@ == old(s)@ + t@,
{
    let cs = chars_of(t);
    let ghost s0 = s@;
    let mut i: usize = 0;
    while i < cs.len()
        invariant
            i <= cs@.len(),
            cs@ == t@,
            s@ == s0 + cs@.take(i as int),
        decreases cs@.len() - i,
    {
        string_push(s, cs[i]);
        assert(cs@.take(i + 1) =~= cs@.take(i as int).push(cs@[i as int]));
        i = i + 1;
    }
    assert(cs@.take(cs@.len() as int) =~= cs@);
}

/// Decimal digits of `n` (no leading zeros; `"0"` for zero).
pub open spec fn decimal(n: nat) -> Seq<char>
    decreases n,
{
    if n < 10 {
        seq![(n + 48) as char]
    } else {
        decimal(n / 10).push(((n % 10) + 48) as char)
    }
}

/// Decimal rendering of `n`.
pub fn u64_to_decimal(n: u64) -> (s: String)
    ensures
        s@ == decimal(n as nat),
    decreases n,
{
    if n < 10 {
        let mut s = String::new();
        string_push(&mut s, digit_char(n));
        s
    } else {
        let mut s = u64_to_decimal(n / 10);
        string_push(&mut s, digit_char(n % 10));
        s
    }
}

fn digit_char(d: u64) -> (c: char)
    requires
        d < 10,
    ensures
        c == (d + 48) as char,
{
    if d == 0 { '0' } else if d == 1 { '1' } else if d == 2 { '2' } else if d == 3 { '3' }
    else if d == 4 { '4' } else if d == 5 { '5' } else if d == 6 { '6' } else if d == 7 { '7' }
    else if d == 8 { '8' } else { '9' }
}

} // verus!

verus! {

/// `t[..a] + w + t[b..]` as a `String`.
pub fn splice_string(t: &[u8], a: usize, b: usize, w: &[u8]) -> (r: String)
    requires
        valid_utf8(t@),
        valid_utf8(w@),
        a <= b <= t@.len(),
        boundary(t@, a as int),
        boundary(t@, b as int),
    ensures
        bytes_of(r@) == t@.subrange(0, a as int) + w@ + t@.subrange(b as int, t@.len() as int),
{
    let mut out: Vec<u8> = Vec::new();
    push_range(&mut out, t, 0, a);
    push_range(&mut out, w, 0, w.len());
    push_range(&mut out, t, b, t.len());
    proof {
        assert(w@.subrange(0, w@.len() as int) =~= w@);
        lemma_valid_sub(t@, 0, a as int);
        lemma_valid_sub(t@, b as int, t@.len() as int);
        valid_utf8_concat(t@.subrange(0, a as int), w@);
        valid_utf8_concat(t@.subrange(0, a as int) + w@, t@.subrange(b as int, t@.len() as int));
        assert(out@ =~= t@.subrange(0, a as int) + w@ + t@.subrange(b as int, t@.len() as int));
    }
    string_from_utf8(out)
}

/// Appends the valid piece `src[a..b]` to a valid byte buffer.
pub fn push_valid_range(out: &mut Vec<u8>, src: &[u8], a: usize, b: usize)
    requires
        valid_utf8(old(out)@),
        valid_utf8(src@),
        a <= b <= src@.len(),
        boundary(src@, a as int),
        boundary(src@, b as int),
    ensures
        final(out)@ == old(out)@ + src@.subrange(a as int, b as int),
        valid_utf8(final(out)@),
{
    push_range(out, src, a, b);
    proof {
        lemma_valid_sub(src@, a as int, b as int);
        valid_utf8_concat(old(out)@, src@.subrange(a as int, b as int));
    }
}

} // verus!

verus! {

/// First offset `>= i` at which `n` occurs in `h`.
pub open spec fn first_occ(h: Seq<u8>, n: Seq<u8>, i: int) -> Option<int>
    decreases h.len() - i,
{
    if i < 0 || i + n.len() > h.len() {
        None
    } else if h.subrange(i, i + n.len()) == n {
        Some(i)
    } else if i >= h.len() {
        None
    } else {
        first_occ(h, n, i + 1)
    }
}

pub proof fn lemma_first_occ_props(h: Seq<u8>, n: Seq<u8>, i: int)
    ensures
        first_occ(h, n, i) matches Some(p) ==> i <= p && p + n.len() <= h.len() && h.subrange(p, p + n.len()) == n,
    decreases h.len() - i,
{
    if i >= 0 && i + n.len() <= h.len() && h.subrange(i, i + n.len()) != n && i < h.len() {
        lemma_first_occ_props(h, n, i + 1);
    }
}

/// `first_occ` over exec bytes.
pub fn find_from(h: &[u8], n: &[u8], from: usize) -> (r: Option<usize>)
    requires
        from <= h@.len(),
    ensures
        r matches Some(p) ==> first_occ(h@, n@, from as int) == Some(p as int),
        r is None ==> first_occ(h@, n@, from as int) is None,
{
    let mut i = from;
    let hl = h.len();
    while n.len() <= hl - i
        invariant
            hl == h@.len(),
            from <= i <= h@.len(),
            first_occ(h@, n@, from as int) == first_occ(h@, n@, i as int),
        decreases h@.len() - i,
    {
        let mut j: usize = 0;
        while j < n.len()
            invariant
                j <= n@.len(),
                hl == h@.len(),
                i + n@.len() <= hl,
                forall|k: int| 0 <= k < j ==> h@[i + k] == n@[k],
            ensures
                j <= n@.len(),
                forall|k: int| 0 <= k < j ==> h@[i + k] == n@[k],
                j < n@.len() ==> h@[i + j] != n@[j as int],
            decreases n@.len() - j,
        {
            if h[i + j] != n[j] {
                break;
            }
            j = j + 1;
        }
        if j == n.len() {
            assert(h@.subrange(i as int, i + n@.len()) =~= n@);
            return Some(i);
        }
        proof {
            if h@.subrange(i as int, i + n@.len()) == n@ {
                assert(h@.subrange(i as int, i + n@.len())[j as int] == h@[i + j]);
                assert(false);
            }
        }
        if i >= hl {
            return None;
        }
        i = i + 1;
    }
    None
}

} // verus!

verus! {

/// Length of the character whose leading byte is `t[i]`.
pub open spec fn char_len_at(t: Seq<u8>, i: int) -> int {
    let b = t[i];
    if b < 0x80 { 1 } else if b < 0xe0 { 2 } else if b < 0xf0 { 3 } else { 4 }
}

/// `w` occurs in `t` at offset `a`.
pub open spec fn bytes_at(t: Seq<u8>, a: int, w: Seq<u8>) -> bool {
    0 <= a && a + w.len() <= t.len() && t.subrange(a, a + w.len()) == w
}

/// Exec [`char_len_at`].
pub fn char_len(b: &[u8], i: usize) -> (n: usize)
    requires
        i < b@.len(),
    ensures
        n == char_len_at(b@, i as int),
        1 <= n <= 4,
{
    let x = b[i];
    if x < 0x80 { 1 } else if x < 0xe0 { 2 } else if x < 0xf0 { 3 } else { 4 }
}

/// Exec [`bytes_at`].
pub fn match_at(t: &[u8], a: usize, w: &[u8]) -> (r: bool)
    ensures
        r == bytes_at(t@, a as int, w@),
{
    if a > t.len() || w.len() > t.len() - a {
        return false;
    }
    let mut j: usize = 0;
    let tl = t.len();
    while j < w.len()
        invariant
            j <= w@.len(),
            tl == t@.len(),
            a + w@.len() <= tl,
            forall|k: int| 0 <= k < j ==> t@[a + k] == w@[k],
        decreases w@.len() - j,
    {
        if t[a + j] != w[j] {
            assert(t@.subrange(a as int, a + w@.len())[j as int] == t@[a + j]);
            return false;
        }
        j = j + 1;
    }
    assert(t@.subrange(a as int, a + w@.len()) =~= w@);
    true
}

/// Stepping over one character keeps offsets on character boundaries.
pub proof fn lemma_next_boundary(t: Seq<u8>, i: int)
    requires
        valid_utf8(t),
        0 <= i < t.len(),
        boundary(t, i),
    ensures
        i + char_len_at(t, i) <= t.len(),
        boundary(t, i + char_len_at(t, i)),
        forall|j: int| i < j < i + char_len_at(t, i) ==> !boundary(t, j),
{
    lemma_boundary_iff(t, i);
    valid_utf8_split(t, i);
    let u = t.subrange(i, t.len() as int);
    lemma_first_scalar_shape(u);
    assert(u[0] == t[i]);
    let k = length_of_first_scalar(u);
    assert(k == char_len_at(t, i));
    assert forall|j: int| i < j < i + k implies !boundary(t, j) by {
        assert(u[j - i] == t[j]);
    }
    let p = pop_first_scalar(u);
    if i + k < t.len() {
        assert(p[0] == t[i + k]);
        lemma_first_not_cont(p);
    }
}

/// A valid non-empty byte string matched in valid text starts on a boundary.
pub proof fn lemma_match_start_boundary(t: Seq<u8>, a: int, w: Seq<u8>)
    requires
        valid_utf8(t),
        valid_utf8(w),
        w.len() > 0,
        bytes_at(t, a, w),
    ensures
        boundary(t, a),
{
    lemma_first_not_cont(w);
    assert(t.subrange(a, a + w.len())[0] == t[a]);
}

/// A valid byte string matched at a boundary of valid text ends on a boundary.
pub proof fn lemma_match_end_boundary(t: Seq<u8>, a: int, w: Seq<u8>)
    requires
        valid_utf8(t),
        valid_utf8(w),
        boundary(t, a),
        bytes_at(t, a, w),
    ensures
        boundary(t, a + w.len()),
    decreases w.len(),
{
    if w.len() > 0 {
        lemma_first_scalar_shape(w);
        let k = length_of_first_scalar(w);
        assert(t.subrange(a, a + w.len())[0] == t[a]);
        assert(w[0] == t[a]);
        lemma_next_boundary(t, a);
        assert(k == char_len_at(t, a));
        let p = pop_first_scalar(w);
        assert forall|j: int| 0 <= j < p.len() implies t.subrange(a + k, a + k + p.len())[j] == p[j] by {
            assert(p[j] == w[j + k]);
            assert(t.subrange(a, a + w.len())[j + k] == t[a + k + j]);
        }
        assert(t.subrange(a + k, a + k + p.len()) =~= p);
        lemma_match_end_boundary(t, a + k, p);
    }
}

} // verus!

verus! {

/// `text[a..b]` as a string slice.
pub fn str_range(text: &str, a: usize, b: usize) -> (r: &str)
    requires
        a <= b <= bytes_of(text@).len(),
        boundary(bytes_of(text@), a as int),
        boundary(bytes_of(text@), b as int),
    ensures
        bytes_of(r@) == bytes_of(text@).subrange(a as int, b as int),
        r@ == decode_utf8(bytes_of(text@).subrange(a as int, b as int)),
{
    let ghost t = bytes_of(text@);
    proof {
        lemma_boundary_iff(t, a as int);
    }
    let (_, rest) = text.split_at(a);
    let ghost rb = t.subrange(a as int, t.len() as int);
    proof {
        assert(bytes_of(rest@) =~= rb);
        lemma_valid_sub(t, a as int, t.len() as int);
        assert(boundary(rb, (b - a) as int)) by {
            if a < b < t.len() {
                assert(rb[(b - a) as int] == t[b as int]);
            }
        }
        lemma_boundary_iff(rb, (b - a) as int);
    }
    let (mid, _) = rest.split_at(b - a);
    proof {
        assert(bytes_of(mid@) =~= t.subrange(a as int, b as int));
        encode_utf8_decode_utf8(mid@);
    }
    mid
}

/// All characters of the UTF-8 bytes `b` are whitespace.
pub open spec fn blank(b: Seq<u8>) -> bool {
    forall|i: int| 0 <= i < decode_utf8(b).len() ==> is_white_space(#[trigger] decode_utf8(b)[i])
}

/// Exec [`blank`] of `text[a..b]`.
pub fn is_blank(text: &str, a: usize, b: usize) -> (r: bool)
    requires
        a <= b <= bytes_of(text@).len(),
        boundary(bytes_of(text@), a as int),
        boundary(bytes_of(text@), b as int),
    ensures
        r == blank(bytes_of(text@).subrange(a as int, b as int)),
{
    let sub = str_range(text, a, b);
    let cs = chars_of(sub);
    let mut i: usize = 0;
    while i < cs.len()
        invariant
            i <= cs@.len(),
            cs@ == sub@,
            sub@ == decode_utf8(bytes_of(text@).subrange(a as int, b as int)),
            forall|j: int| 0 <= j < i ==> is_white_space(cs@[j]),
        decreases cs@.len() - i,
    {
        if !char_is_whitespace(cs[i]) {
            assert(!is_white_space(decode_utf8(bytes_of(text@).subrange(a as int, b as int))[i as int]));
            return false;
        }
        i = i + 1;
    }
    true
}

/// Appends an ASCII byte to a valid UTF-8 buffer.
pub fn push_ascii(out: &mut Vec<u8>, c: u8)
    requires
        valid_utf8(old(out)@),
        c < 0x80,
    ensures
        final(out)@ == old(out)@.push(c),
        valid_utf8(final(out)@),
{
    out.push(c);
    proof {
        assert(all_ascii(seq![c]));
        lemma_ascii_valid(seq![c]);
        valid_utf8_concat(old(out)@, seq![c]);
        assert(old(out)@ + seq![c] =~= old(out)@.push(c));
    }
}

/// Appends ASCII bytes to a valid UTF-8 buffer.
pub fn push_ascii_all(out: &mut Vec<u8>, w: &[u8])
    requires
        valid_utf8(old(out)@),
        all_ascii(w@),
    ensures
        final(out)@ == old(out)@ + w@,
        valid_utf8(final(out)@),
{
    push_range(out, w, 0, w.len());
    proof {
        assert(w@.subrange(0, w@.len() as int) =~= w@);
        lemma_ascii_valid(w@);
        valid_utf8_concat(old(out)@, w@);
    }
}

} // verus!
