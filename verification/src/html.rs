//! HTML inside Markdown: entity decoding, a small tag tokenizer, inline
//! tags to spans, and HTML blocks to document blocks.

use vstd::prelude::*;
use crate::utf8_text::{bytes_of, chars_of, utf8_len, string_from_chars, is_white_space, char_is_whitespace};
use crate::md::{
    Block, QuoteKind, Span, Style, SpanV, BlockV, span_view, spans_view, opt_view, plain_style, block_view,
    blocks_view, lemma_spans_view_sub, lemma_spans_view_push, lemma_spans_view_index,
};
use crate::tables::{trim, trim_range};

verus! {

// ---------------------------------------------------------------------------
// Entities
// ---------------------------------------------------------------------------

/// Reading an entity name from `j`: the index after the scan, the name,
/// and whether a `;` closed it. The scan stops before `&`, `<`, `>`, a
/// space, or once the name is longer than 10 bytes.
pub open spec fn entity_scan(cs: Seq<char>, j: int, e: Seq<char>) -> (int, Seq<char>, bool)
    decreases cs.len() - j,
{
    if j < 0 || j >= cs.len() {
        (j, e, false)
    } else if cs[j] == ';' {
        (j + 1, e, true)
    } else if cs[j] == '&' || cs[j] == '<' || cs[j] == '>' || cs[j] == ' ' || bytes_of(e).len() > 10 {
        (j, e, false)
    } else {
        entity_scan(cs, j + 1, e.push(cs[j]))
    }
}

pub proof fn lemma_entity_scan(cs: Seq<char>, j: int, e: Seq<char>)
    requires
        0 <= j,
    ensures
        entity_scan(cs, j, e).0 >= j,
        j <= cs.len() ==> entity_scan(cs, j, e).0 <= cs.len(),
    decreases cs.len() - j,
{
    if j < cs.len() && cs[j] != ';' && !(cs[j] == '&' || cs[j] == '<' || cs[j] == '>' || cs[j] == ' '
        || bytes_of(e).len() > 10) {
        lemma_entity_scan(cs, j + 1, e.push(cs[j]));
    }
}

/// Value of a digit in `radix` (10 or 16).
pub open spec fn digit_value(c: char, radix: nat) -> Option<nat> {
    if '0' <= c <= '9' {
        Some((c as nat - 48) as nat)
    } else if radix == 16 && 'a' <= c <= 'f' {
        Some((c as nat - 87) as nat)
    } else if radix == 16 && 'A' <= c <= 'F' {
        Some((c as nat - 55) as nat)
    } else {
        None
    }
}

/// Value of a run of digits.
pub open spec fn digits_in(s: Seq<char>, radix: nat) -> Option<nat>
    decreases s.len(),
{
    if s.len() == 0 {
        Some(0)
    } else {
        match (digits_in(s.drop_last(), radix), digit_value(s.last(), radix)) {
            (Some(v), Some(d)) => Some(v * radix + d),
            _ => None,
        }
    }
}

/// `u32` parsing of `s` in `radix` (an optional `+`, then at least one
/// digit, and a value that fits).
pub open spec fn parse_u32(s: Seq<char>, radix: nat) -> Option<u32> {
    let body = if s.len() > 0 && s[0] == '+' { s.drop_first() } else { s };
    if body.len() == 0 {
        None
    } else {
        match digits_in(body, radix) {
            Some(v) => if v <= u32::MAX { Some(v as u32) } else { None },
            None => None,
        }
    }
}

/// `u` is a Unicode scalar value.
pub open spec fn is_scalar(u: u32) -> bool {
    u <= 0x10FFFF && !(0xD800 <= u <= 0xDFFF)
}

/// The character of a numeric entity body (`65`, `x41`, `X41`).
pub open spec fn numeric_entity(code: Seq<char>) -> Option<char> {
    let parsed = if code.len() > 0 && (code[0] == 'x' || code[0] == 'X') {
        parse_u32(code.drop_first(), 16)
    } else {
        parse_u32(code, 10)
    };
    match parsed {
        Some(u) => if is_scalar(u) { Some(u as char) } else { None },
        None => None,
    }
}

/// What a closed entity `&e;` becomes.
pub open spec fn entity_text(e: Seq<char>) -> Seq<char> {
    let kept = seq!['&'] + e + seq![';'];
    if e == seq!['a', 'm', 'p'] {
        seq!['&']
    } else if e == seq!['l', 't'] {
        seq!['<']
    } else if e == seq!['g', 't'] {
        seq!['>']
    } else if e == seq!['q', 'u', 'o', 't'] {
        seq!['"']
    } else if e == seq!['a', 'p', 'o', 's'] || e == seq!['#', '3', '9'] {
        seq!['\'']
    } else if e == seq!['n', 'b', 's', 'p'] {
        seq![' ']
    } else if e.len() > 0 && e[0] == '#' {
        match numeric_entity(e.drop_first()) {
            Some(c) => seq![c],
            None => kept,
        }
    } else {
        kept
    }
}

/// Entity decoding from index `i` on.
pub open spec fn decode_from(cs: Seq<char>, i: int) -> Seq<char>
    decreases cs.len() - i,
{
    if i < 0 || i >= cs.len() {
        Seq::empty()
    } else if cs[i] != '&' {
        seq![cs[i]] + decode_from(cs, i + 1)
    } else {
        let (j, e, closed) = entity_scan(cs, i + 1, Seq::empty());
        proof {
            lemma_entity_scan(cs, i + 1, Seq::empty());
        }
        let rep = if closed { entity_text(e) } else { seq!['&'] + e };
        rep + decode_from(cs, j)
    }
}

/// Calls `char::from_u32`, documented to return the character with that
/// code point when it is a Unicode scalar value and `None` otherwise.
#[verifier::external_body]
fn char_from_u32(u: u32) -> (r: Option<char>)
    ensures
        r is Some <==> is_scalar(u),
        r matches Some(c) ==> c == u as char,
{
    char::from_u32(u)
}

/// Exec [`parse_u32`] of `v[a..b]`.
fn parse_u32_exec(v: &Vec<char>, a: usize, b: usize, radix: u32) -> (r: Option<u32>)
    requires
        a <= b <= v@.len(),
        radix == 10 || radix == 16,
    ensures
        r == parse_u32(v@.subrange(a as int, b as int), radix as nat),
{
    let ghost s = v@.subrange(a as int, b as int);
    let start = if a < b && v[a] == '+' { a + 1 } else { a };
    let ghost body = v@.subrange(start as int, b as int);
    assert(body =~= (if s.len() > 0 && s[0] == '+' { s.drop_first() } else { s }));
    if start == b {
        return None;
    }
    let mut val: u64 = 0;
    let mut i = start;
    assert(body.take(0) =~= Seq::<char>::empty());
    while i < b
        invariant
            a <= start <= i <= b <= v@.len(),
            s == v@.subrange(a as int, b as int),
            body == v@.subrange(start as int, b as int),
            body == (if s.len() > 0 && s[0] == '+' { s.drop_first() } else { s }),
            body.len() > 0,
            radix == 10 || radix == 16,
            digits_in(body.take(i - start), radix as nat) == Some(val as nat),
            val <= u32::MAX,
        decreases b - i,
    {
        let c = v[i];
        let d: u64 = if '0' <= c && c <= '9' {
            (c as u64) - 48
        } else if radix == 16 && 'a' <= c && c <= 'f' {
            (c as u64) - 87
        } else if radix == 16 && 'A' <= c && c <= 'F' {
            (c as u64) - 55
        } else {
            proof {
                assert(body.take(i - start + 1).drop_last() =~= body.take(i - start));
                assert(body.take(i - start + 1).last() == c);
                lemma_digits_none_extends(body, radix as nat, i - start + 1);
            }
            return None;
        };
        assert(body.take(i - start + 1).drop_last() =~= body.take(i - start));
        assert(body.take(i - start + 1).last() == c);
        assert(val * (radix as u64) + d <= 16 * 0xFFFF_FFFFu64 + 15) by (nonlinear_arith)
            requires
                val <= 0xFFFF_FFFFu64,
                radix <= 16,
                d < 16,
        ;
        let nv = val * (radix as u64) + d;
        if nv > 0xFFFF_FFFF {
            proof {
                lemma_digits_big_extends(body, radix as nat, i - start + 1);
            }
            return None;
        }
        val = nv;
        i = i + 1;
    }
    assert(body.take(b - start) =~= body);
    Some(val as u32)
}

/// Once a prefix holds a non-digit, no longer prefix parses.
proof fn lemma_digits_none_extends(s: Seq<char>, radix: nat, k: int)
    requires
        0 < k <= s.len(),
        digits_in(s.take(k), radix) is None,
    ensures
        digits_in(s, radix) is None,
    decreases s.len() - k,
{
    if k < s.len() {
        assert(s.take(k + 1).drop_last() =~= s.take(k));
        lemma_digits_none_extends(s, radix, k + 1);
    } else {
        assert(s.take(k) =~= s);
    }
}

/// Once a prefix is above `u32::MAX`, the whole run is (or fails).
proof fn lemma_digits_big_extends(s: Seq<char>, radix: nat, k: int)
    requires
        0 < k <= s.len(),
        radix >= 1,
        digits_in(s.take(k), radix) matches Some(v) && v > u32::MAX,
    ensures
        digits_in(s, radix) matches Some(v) ==> v > u32::MAX,
    decreases s.len() - k,
{
    if k < s.len() {
        assert(s.take(k + 1).drop_last() =~= s.take(k));
        match digits_in(s.take(k + 1), radix) {
            Some(w) => {
                let v = digits_in(s.take(k), radix)->0;
                assert(w >= v) by (nonlinear_arith)
                    requires
                        w == v * radix + digit_value(s.take(k + 1).last(), radix)->0,
                        radix >= 1,
                        digit_value(s.take(k + 1).last(), radix) is Some,
                ;
                lemma_digits_big_extends(s, radix, k + 1);
            },
            None => {
                lemma_digits_none_extends(s, radix, k + 1);
            },
        }
    } else {
        assert(s.take(k) =~= s);
    }
}

proof fn lemma_bytes_push(e: Seq<char>, c: char)
    ensures
        bytes_of(e.push(c)).len() == bytes_of(e).len() + vstd::utf8::encode_scalar(c as u32).len(),
{
    crate::utf8_text::lemma_encode_concat(e, seq![c]);
    assert(e + seq![c] =~= e.push(c));
    reveal_with_fuel(vstd::utf8::encode_utf8, 2);
    assert(seq![c].drop_first() =~= Seq::<char>::empty());
}

/// Exec [`entity_scan`] from `start` with an empty name.
fn scan_entity(cs: &Vec<char>, start: usize) -> (r: (usize, Vec<char>, bool))
    requires
        start <= cs@.len(),
    ensures
        (r.0 as int, r.1@, r.2) == entity_scan(cs@, start as int, Seq::empty()),
{
    let mut e: Vec<char> = Vec::new();
    let mut eb: usize = 0;
    let mut j = start;
    loop
        invariant
            start <= j <= cs@.len(),
            entity_scan(cs@, start as int, Seq::empty()) == entity_scan(cs@, j as int, e@),
            eb == bytes_of(e@).len(),
            eb <= 14,
        decreases cs@.len() - j,
    {
        if j >= cs.len() {
            return (j, e, false);
        }
        let c = cs[j];
        if c == ';' {
            return (j + 1, e, true);
        }
        if c == '&' || c == '<' || c == '>' || c == ' ' || eb > 10 {
            return (j, e, false);
        }
        proof {
            lemma_bytes_push(e@, c);
        }
        let n = utf8_len(c);
        e.push(c);
        eb = eb + n;
        j = j + 1;
    }
}

/// `v` holds exactly the characters `w`.
fn chars_are(v: &Vec<char>, w: &[char]) -> (r: bool)
    ensures
        r == (v@ == w@),
{
    if v.len() != w.len() {
        return false;
    }
    let mut i: usize = 0;
    while i < v.len()
        invariant
            i <= v@.len() == w@.len(),
            forall|k: int| 0 <= k < i ==> v@[k] == w@[k],
        decreases v@.len() - i,
    {
        if v[i] != w[i] {
            return false;
        }
        i = i + 1;
    }
    assert(v@ =~= w@);
    true
}

/// Push all characters of `v[a..]`.
fn push_from(out: &mut Vec<char>, v: &Vec<char>, a: usize)
    requires
        a <= v@.len(),
    ensures
        final(out)@ == old(out)@ + v@.skip(a as int),
{
    let mut k = a;
    while k < v.len()
        invariant
            a <= k <= v@.len(),
            out@ == old(out)@ + v@.subrange(a as int, k as int),
        decreases v@.len() - k,
    {
        out.push(v[k]);
        assert(out@ =~= old(out)@ + v@.subrange(a as int, k + 1));
        k = k + 1;
    }
    assert(v@.subrange(a as int, k as int) =~= v@.skip(a as int));
}

/// Push what the closed entity `&e;` becomes.
fn push_entity(out: &mut Vec<char>, e: &Vec<char>)
    ensures
        final(out)@ == old(out)@ + entity_text(e@),
{
    let amp: &[char] = &['a', 'm', 'p'];
    let lt: &[char] = &['l', 't'];
    let gt: &[char] = &['g', 't'];
    let quot: &[char] = &['q', 'u', 'o', 't'];
    let apos: &[char] = &['a', 'p', 'o', 's'];
    let h39: &[char] = &['#', '3', '9'];
    let nbsp: &[char] = &['n', 'b', 's', 'p'];
    assert(amp@ =~= seq!['a', 'm', 'p']);
    assert(lt@ =~= seq!['l', 't']);
    assert(gt@ =~= seq!['g', 't']);
    assert(quot@ =~= seq!['q', 'u', 'o', 't']);
    assert(apos@ =~= seq!['a', 'p', 'o', 's']);
    assert(h39@ =~= seq!['#', '3', '9']);
    assert(nbsp@ =~= seq!['n', 'b', 's', 'p']);
    if chars_are(e, amp) {
        out.push('&');
    } else if chars_are(e, lt) {
        out.push('<');
    } else if chars_are(e, gt) {
        out.push('>');
    } else if chars_are(e, quot) {
        out.push('"');
    } else if chars_are(e, apos) || chars_are(e, h39) {
        out.push('\'');
    } else if chars_are(e, nbsp) {
        out.push(' ');
    } else {
        let mut done = false;
        if e.len() > 0 && e[0] == '#' {
            let hex = e.len() > 1 && (e[1] == 'x' || e[1] == 'X');
            let parsed = if hex {
                parse_u32_exec(e, 2, e.len(), 16)
            } else {
                parse_u32_exec(e, 1, e.len(), 10)
            };
            proof {
                let code = e@.drop_first();
                if hex {
                    assert(e@.subrange(2, e@.len() as int) =~= code.drop_first());
                } else {
                    assert(e@.subrange(1, e@.len() as int) =~= code);
                }
            }
            match parsed {
                Some(u) => match char_from_u32(u) {
                    Some(c) => {
                        out.push(c);
                        done = true;
                    },
                    None => {},
                },
                None => {},
            }
        }
        if !done {
            out.push('&');
            push_from(out, e, 0);
            out.push(';');
            assert(e@.skip(0) =~= e@);
        }
    }
    proof {
        assert(final(out)@ =~= old(out)@ + entity_text(e@));
    }
}

/// Decode common HTML entities (`&amp;`, `&lt;`, `&gt;`, `&quot;`,
/// `&apos;`/`&#39;`, `&nbsp;` as a space, numeric `&#N;`/`&#xH;`); any
/// other `&...;` and any unterminated `&...` stay as written.
pub fn decode_entities(input: &str) -> (r: String)
    ensures
        r@ == decode_from(input@, 0),
{
    let cs = chars_of(input);
    let mut out: Vec<char> = Vec::new();
    let mut i: usize = 0;
    assert(out@ + decode_from(cs@, 0) =~= decode_from(cs@, 0));
    while i < cs.len()
        invariant
            i <= cs@.len(),
            cs@ == input@,
            out@ + decode_from(cs@, i as int) == decode_from(cs@, 0),
        decreases cs@.len() - i,
    {
        let c = cs[i];
        let ghost before = out@;
        if c != '&' {
            out.push(c);
            assert(out@ + decode_from(cs@, i + 1) =~= before + decode_from(cs@, i as int));
            i = i + 1;
        } else {
            let (j, e, closed) = scan_entity(&cs, i + 1);
            proof {
                lemma_entity_scan(cs@, i + 1, Seq::empty());
            }
            if closed {
                push_entity(&mut out, &e);
            } else {
                out.push('&');
                push_from(&mut out, &e, 0);
                assert(e@.skip(0) =~= e@);
            }
            assert(out@ + decode_from(cs@, j as int) =~= before + decode_from(cs@, i as int));
            i = j;
        }
    }
    assert(out@ =~= out@ + decode_from(cs@, i as int));
    string_from_chars(&out)
}

// ---------------------------------------------------------------------------
// Attributes
// ---------------------------------------------------------------------------

/// Scanners over characters: `kind` 0 skips whitespace, 1 reads an
/// attribute name, 2 reads up to the character `q`, 3 reads an unquoted
/// value, 4 reads a word.
pub open spec fn keeps(c: char, kind: int, q: char) -> bool {
    if kind == 0 {
        is_white_space(c)
    } else if kind == 1 {
        !is_white_space(c) && c != '=' && c != '/' && c != '>'
    } else if kind == 2 {
        c != q
    } else if kind == 3 {
        !is_white_space(c) && c != '>' && c != '/'
    } else {
        !is_white_space(c)
    }
}

/// First index at or after `i` whose character the scanner stops at.
pub open spec fn scan_to(cs: Seq<char>, i: int, kind: int, q: char) -> int
    decreases cs.len() - i,
{
    if i < 0 || i >= cs.len() {
        if i < 0 { 0 } else { i }
    } else if keeps(cs[i], kind, q) {
        scan_to(cs, i + 1, kind, q)
    } else {
        i
    }
}

pub proof fn lemma_scan_to(cs: Seq<char>, i: int, kind: int, q: char)
    requires
        0 <= i,
    ensures
        i <= scan_to(cs, i, kind, q),
        i <= cs.len() ==> scan_to(cs, i, kind, q) <= cs.len(),
        forall|k: int| i <= k < scan_to(cs, i, kind, q) ==> keeps(#[trigger] cs[k], kind, q),
        scan_to(cs, i, kind, q) < cs.len() ==> !keeps(cs[scan_to(cs, i, kind, q)], kind, q),
    decreases cs.len() - i,
{
    if i < cs.len() && keeps(cs[i], kind, q) {
        lemma_scan_to(cs, i + 1, kind, q);
    }
}

/// Exec [`scan_to`].
fn scan_exec(cs: &Vec<char>, i: usize, kind: u8, q: char) -> (r: usize)
    requires
        i <= cs@.len(),
        kind <= 4,
    ensures
        r == scan_to(cs@, i as int, kind as int, q),
        i <= r <= cs@.len(),
{
    let mut k = i;
    loop
        invariant
            i <= k <= cs@.len(),
            kind <= 4,
            scan_to(cs@, i as int, kind as int, q) == scan_to(cs@, k as int, kind as int, q),
        decreases cs@.len() - k,
    {
        if k >= cs.len() {
            return k;
        }
        let c = cs[k];
        let keep = if kind == 0 {
            char_is_whitespace(c)
        } else if kind == 1 {
            !char_is_whitespace(c) && c != '=' && c != '/' && c != '>'
        } else if kind == 2 {
            c != q
        } else if kind == 3 {
            !char_is_whitespace(c) && c != '>' && c != '/'
        } else {
            !char_is_whitespace(c)
        };
        if !keep {
            return k;
        }
        k = k + 1;
    }
}

/// ASCII letters lowered (`str::to_ascii_lowercase`).
pub open spec fn ascii_lower(s: Seq<char>) -> Seq<char> {
    s.map_values(|c: char| if 'A' <= c <= 'Z' { ((c as u32) + 32) as char } else { c })
}

/// Exec [`ascii_lower`] of `v[a..b]`, as a `String`.
fn lower_range(v: &Vec<char>, a: usize, b: usize) -> (s: String)
    requires
        a <= b <= v@.len(),
    ensures
        s@ == ascii_lower(v@.subrange(a as int, b as int)),
{
    let mut out: Vec<char> = Vec::new();
    let mut k = a;
    while k < b
        invariant
            a <= k <= b <= v@.len(),
            out@ == ascii_lower(v@.subrange(a as int, k as int)),
        decreases b - k,
    {
        let c = v[k];
        let l = if 'A' <= c && c <= 'Z' { ((c as u8) + 32) as char } else { c };
        out.push(l);
        assert(out@ =~= ascii_lower(v@.subrange(a as int, k + 1)));
        k = k + 1;
    }
    string_from_chars(&out)
}

/// The characters `v[a..b]` as a `String`.
fn string_range(v: &Vec<char>, a: usize, b: usize) -> (s: String)
    requires
        a <= b <= v@.len(),
    ensures
        s@ == v@.subrange(a as int, b as int),
{
    let mut out: Vec<char> = Vec::new();
    let mut k = a;
    while k < b
        invariant
            a <= k <= b <= v@.len(),
            out@ == v@.subrange(a as int, k as int),
        decreases b - k,
    {
        out.push(v[k]);
        assert(out@ =~= v@.subrange(a as int, k + 1));
        k = k + 1;
    }
    string_from_chars(&out)
}

/// The value after the `=` at `e`, and where scanning goes on.
pub open spec fn attr_value(cs: Seq<char>, e: int) -> (Seq<char>, int) {
    let i4 = scan_to(cs, e + 1, 0, ' ');
    if i4 < cs.len() {
        let q = cs[i4];
        if q == '"' || q == '\'' {
            let ve = scan_to(cs, i4 + 1, 2, q);
            (cs.subrange(i4 + 1, ve), if ve < cs.len() { ve + 1 } else { ve })
        } else {
            let ve = scan_to(cs, i4, 3, ' ');
            (cs.subrange(i4, ve), ve)
        }
    } else {
        (Seq::empty(), i4)
    }
}

/// The attributes from index `i` on: `(lowercased name, decoded value)`.
pub open spec fn attrs_from(cs: Seq<char>, i: int) -> Seq<(Seq<char>, Seq<char>)>
    decreases cs.len() - i,
{
    if i < 0 {
        Seq::empty()
    } else {
        let i1 = scan_to(cs, i, 0, ' ');
        proof {
            lemma_scan_to(cs, i, 0, ' ');
        }
        if i1 >= cs.len() {
            Seq::empty()
        } else {
            let ne = scan_to(cs, i1, 1, ' ');
            proof {
                lemma_scan_to(cs, i1, 1, ' ');
            }
            if ne == i1 {
                attrs_from(cs, i1 + 1)
            } else {
                let i2 = scan_to(cs, ne, 0, ' ');
                proof {
                    lemma_scan_to(cs, ne, 0, ' ');
                }
                let (val, i3) = if i2 < cs.len() && cs[i2] == '=' {
                    attr_value(cs, i2)
                } else {
                    (Seq::empty(), i2)
                };
                proof {
                    lemma_attr_value(cs, i2);
                }
                seq![(ascii_lower(cs.subrange(i1, ne)), decode_from(val, 0))] + attrs_from(cs, i3)
            }
        }
    }
}

pub proof fn lemma_attr_value(cs: Seq<char>, e: int)
    requires
        0 <= e <= cs.len(),
    ensures
        e < cs.len() ==> e < attr_value(cs, e).1 <= cs.len(),
{
    if e < cs.len() {
        lemma_scan_to(cs, e + 1, 0, ' ');
        let i4 = scan_to(cs, e + 1, 0, ' ');
        if i4 < cs.len() {
            lemma_scan_to(cs, i4 + 1, 2, cs[i4]);
            lemma_scan_to(cs, i4, 3, ' ');
        }
    }
}

/// Exec [`attr_value`].
fn attr_value_exec(cs: &Vec<char>, e: usize) -> (r: (String, usize))
    requires
        e < cs@.len(),
    ensures
        (r.0@, r.1 as int) == attr_value(cs@, e as int),
{
    assert(cs@.len() == cs.len());
    let i4 = scan_exec(cs, e + 1, 0, ' ');
    if i4 < cs.len() {
        let q = cs[i4];
        if q == '"' || q == '\'' {
            let ve = scan_exec(cs, i4 + 1, 2, q);
            let v = string_range(cs, i4 + 1, ve);
            (v, if ve < cs.len() { ve + 1 } else { ve })
        } else {
            let ve = scan_exec(cs, i4, 3, ' ');
            (string_range(cs, i4, ve), ve)
        }
    } else {
        (String::new(), i4)
    }
}

/// The characters of the attribute pairs.
pub open spec fn attrs_view(v: Seq<(String, String)>) -> Seq<(Seq<char>, Seq<char>)> {
    Seq::new(v.len(), |i: int| (v[i].0@, v[i].1@))
}

/// Attributes after a tag's name: whitespace-separated `name`,
/// `name=value`, `name="value"` or `name='value'`; names lowercased,
/// values entity-decoded.
pub fn extract_attrs(attr_str: &str) -> (r: Vec<(String, String)>)
    ensures
        attrs_view(r@) == attrs_from(attr_str@, 0),
{
    let cs = chars_of(attr_str);
    let mut attrs: Vec<(String, String)> = Vec::new();
    let mut i: usize = 0;
    assert(attrs_view(attrs@) + attrs_from(cs@, 0) =~= attrs_from(cs@, 0));
    while i < cs.len()
        invariant
            i <= cs@.len(),
            cs@ == attr_str@,
            attrs_view(attrs@) + attrs_from(cs@, i as int) == attrs_from(cs@, 0),
        decreases cs@.len() - i,
    {
        let ghost before = attrs_view(attrs@);
        let i1 = scan_exec(&cs, i, 0, ' ');
        if i1 >= cs.len() {
            i = i1;
            assert(attrs_from(cs@, i as int) =~= Seq::<(Seq<char>, Seq<char>)>::empty());
            continue;
        }
        let ne = scan_exec(&cs, i1, 1, ' ');
        if ne == i1 {
            i = i1 + 1;
            continue;
        }
        let name = lower_range(&cs, i1, ne);
        let i2 = scan_exec(&cs, ne, 0, ' ');
        let (val, i3) = if i2 < cs.len() && cs[i2] == '=' {
            attr_value_exec(&cs, i2)
        } else {
            (String::new(), i2)
        };
        proof {
            lemma_attr_value(cs@, i2 as int);
        }
        let dv = decode_entities(val.as_str());
        let ghost pair = (name@, dv@);
        attrs.push((name, dv));
        assert(attrs_view(attrs@) =~= before.push(pair));
        assert(attrs_view(attrs@) + attrs_from(cs@, i3 as int) =~= before + attrs_from(cs@, i as int));
        i = i3;
    }
    proof {
        if i >= cs@.len() {
            assert(attrs_from(cs@, i as int) =~= Seq::<(Seq<char>, Seq<char>)>::empty());
        }
    }
    assert(attrs_view(attrs@) =~= attrs_view(attrs@) + attrs_from(cs@, i as int));
    attrs
}

// ---------------------------------------------------------------------------
// Tokens
// ---------------------------------------------------------------------------

/// A piece of HTML: an opening tag (name, attributes, self-closing or
/// void), a closing tag, or entity-decoded text.
#[derive(Debug)]
pub enum HtmlToken {
    TagOpen { name: String, attrs: Vec<(String, String)>, self_closing: bool },
    TagClose { name: String },
    Text(String),
}

/// The model of a token.
pub enum TokV {
    Open(Seq<char>, Seq<(Seq<char>, Seq<char>)>, bool),
    Close(Seq<char>),
    Text(Seq<char>),
}

pub open spec fn token_view(t: HtmlToken) -> TokV {
    match t {
        HtmlToken::TagOpen { name, attrs, self_closing } => TokV::Open(name@, attrs_view(attrs@), self_closing),
        HtmlToken::TagClose { name } => TokV::Close(name@),
        HtmlToken::Text(s) => TokV::Text(s@),
    }
}

pub open spec fn tokens_view(v: Seq<HtmlToken>) -> Seq<TokV> {
    Seq::new(v.len(), |i: int| token_view(v[i]))
}

/// End of an HTML comment whose body starts at `e`: after the first
/// `-->`, or where the scan for it gave up.
pub open spec fn comment_end(cs: Seq<char>, e: int) -> int
    decreases cs.len() - e,
{
    if e < 0 || e + 2 >= cs.len() {
        e
    } else if cs[e] == '-' && cs[e + 1] == '-' && cs[e + 2] == '>' {
        e + 3
    } else {
        comment_end(cs, e + 1)
    }
}

pub proof fn lemma_comment_end(cs: Seq<char>, e: int)
    requires
        0 <= e,
    ensures
        e <= comment_end(cs, e),
        e <= cs.len() ==> comment_end(cs, e) <= cs.len(),
    decreases cs.len() - e,
{
    if e + 2 < cs.len() && !(cs[e] == '-' && cs[e + 1] == '-' && cs[e + 2] == '>') {
        lemma_comment_end(cs, e + 1);
    }
}

/// End of `s[..j]` without trailing `/`s.
pub open spec fn slash_back(s: Seq<char>, j: int) -> int
    decreases j,
{
    if j <= 0 || j > s.len() {
        0
    } else if s[j - 1] == '/' {
        slash_back(s, j - 1)
    } else {
        j
    }
}

/// Void elements never wait for a closing tag.
pub open spec fn is_void(name: Seq<char>) -> bool {
    name == seq!['i', 'm', 'g'] || name == seq!['b', 'r'] || name == seq!['h', 'r'] || name == seq![
        'i',
        'n',
        'p',
        'u',
        't',
    ] || name == seq!['m', 'e', 't', 'a'] || name == seq!['l', 'i', 'n', 'k']
}

/// The token of a non-empty trimmed tag body `t` (between `<` and `>`).
pub open spec fn tag_token(t: Seq<char>) -> Option<TokV> {
    if t[0] == '/' {
        let rest = trim(t.drop_first());
        let name = ascii_lower(rest.subrange(0, scan_to(rest, 0, 4, ' ')));
        if name.len() > 0 { Some(TokV::Close(name)) } else { None }
    } else {
        let sc = t.last() == '/';
        let inner = if sc { trim(t.subrange(0, slash_back(t, t.len() as int))) } else { t };
        let w = scan_to(inner, 0, 4, ' ');
        let name = ascii_lower(inner.subrange(0, w));
        let attr_str = if w < inner.len() { inner.subrange(w + 1, inner.len() as int) } else { Seq::empty() };
        Some(TokV::Open(name, attrs_from(attr_str, 0), sc || is_void(name)))
    }
}

/// Tokens of `cs` from index `i` on. Comments are skipped; an unclosed
/// `<` makes the rest one text token; empty tags vanish.
pub open spec fn tokens_from(cs: Seq<char>, i: int) -> Seq<TokV>
    decreases cs.len() - i,
{
    if i < 0 || i >= cs.len() {
        Seq::empty()
    } else if cs[i] == '<' {
        if i + 3 < cs.len() && cs[i + 1] == '!' && cs[i + 2] == '-' && cs[i + 3] == '-' {
            proof {
                lemma_comment_end(cs, i + 4);
            }
            tokens_from(cs, comment_end(cs, i + 4))
        } else {
            let end = scan_to(cs, i + 1, 2, '>');
            proof {
                lemma_scan_to(cs, i + 1, 2, '>');
            }
            if end >= cs.len() {
                seq![TokV::Text(decode_from(cs.subrange(i, cs.len() as int), 0))]
            } else {
                let t = trim(cs.subrange(i + 1, end));
                if t.len() == 0 {
                    tokens_from(cs, end + 1)
                } else {
                    match tag_token(t) {
                        Some(tok) => seq![tok] + tokens_from(cs, end + 1),
                        None => tokens_from(cs, end + 1),
                    }
                }
            }
        }
    } else {
        let e = scan_to(cs, i, 2, '<');
        proof {
            lemma_scan_to(cs, i, 2, '<');
        }
        seq![TokV::Text(decode_from(cs.subrange(i, e), 0))] + tokens_from(cs, e)
    }
}

/// The characters of `v[a..b]` as a new vector.
fn sub_chars(v: &Vec<char>, a: usize, b: usize) -> (r: Vec<char>)
    requires
        a <= b <= v@.len(),
    ensures
        r@ == v@.subrange(a as int, b as int),
{
    let mut out: Vec<char> = Vec::new();
    let mut k = a;
    while k < b
        invariant
            a <= k <= b <= v@.len(),
            out@ == v@.subrange(a as int, k as int),
        decreases b - k,
    {
        out.push(v[k]);
        assert(out@ =~= v@.subrange(a as int, k + 1));
        k = k + 1;
    }
    out
}

/// Exec [`tag_token`].
fn tag_token_exec(t: &Vec<char>) -> (r: Option<HtmlToken>)
    requires
        t@.len() > 0,
    ensures
        match r {
            None => tag_token(t@) is None,
            Some(tok) => tag_token(t@) == Some(token_view(tok)),
        },
{
    let n = t.len();
    if t[0] == '/' {
        let rest = trim_range(t, 1, n);
        assert(t@.subrange(1, n as int) =~= t@.drop_first());
        let w = scan_exec(&rest, 0, 4, ' ');
        let name = lower_range(&rest, 0, w);
        if crate::utf8_text::char_count(name.as_str()) > 0 {
            Some(HtmlToken::TagClose { name })
        } else {
            None
        }
    } else {
        let sc = t[n - 1] == '/';
        let inner = if sc {
            let mut b = n;
            while b > 0 && t[b - 1] == '/'
                invariant
                    b <= n == t@.len(),
                    slash_back(t@, n as int) == slash_back(t@, b as int),
                decreases b,
            {
                b = b - 1;
            }
            assert(slash_back(t@, b as int) == b);
            trim_range(t, 0, b)
        } else {
            sub_chars(t, 0, n)
        };
        assert(!sc ==> t@.subrange(0, n as int) =~= t@);
        let w = scan_exec(&inner, 0, 4, ' ');
        let name = lower_range(&inner, 0, w);
        let attr_chars = if w < inner.len() { sub_chars(&inner, w + 1, inner.len()) } else { Vec::new() };
        assert(!(w < inner@.len()) ==> attr_chars@ =~= Seq::<char>::empty());
        let attr_str = string_from_chars(&attr_chars);
        let attrs = extract_attrs(attr_str.as_str());
        let nm = name.as_str();
        let void = str_is(nm, &['i', 'm', 'g']) || str_is(nm, &['b', 'r']) || str_is(nm, &['h', 'r'])
            || str_is(nm, &['i', 'n', 'p', 'u', 't']) || str_is(nm, &['m', 'e', 't', 'a']) || str_is(
            nm,
            &['l', 'i', 'n', 'k'],
        );
        proof {
            assert((['i', 'm', 'g'])@ =~= seq!['i', 'm', 'g']);
        }
        Some(HtmlToken::TagOpen { name, attrs, self_closing: sc || void })
    }
}

/// `s` is exactly the characters `w`.
fn str_is(s: &str, w: &[char]) -> (r: bool)
    ensures
        r == (s@ == w@),
{
    let cs = chars_of(s);
    if cs.len() != w.len() {
        return false;
    }
    let mut i: usize = 0;
    while i < cs.len()
        invariant
            i <= cs@.len() == w@.len(),
            cs@ == s@,
            forall|k: int| 0 <= k < i ==> cs@[k] == w@[k],
        decreases cs@.len() - i,
    {
        if cs[i] != w[i] {
            return false;
        }
        i = i + 1;
    }
    assert(cs@ =~= w@);
    true
}

/// Exec [`comment_end`].
fn comment_end_exec(cs: &Vec<char>, e: usize) -> (r: usize)
    requires
        e <= cs@.len(),
    ensures
        r == comment_end(cs@, e as int),
        e <= r <= cs@.len(),
{
    let mut k = e;
    while k < cs.len() && cs.len() - k > 2
        invariant
            e <= k <= cs@.len(),
            comment_end(cs@, e as int) == comment_end(cs@, k as int),
        decreases cs@.len() - k,
    {
        if cs[k] == '-' && cs[k + 1] == '-' && cs[k + 2] == '>' {
            return k + 3;
        }
        k = k + 1;
    }
    k
}

/// Tokenize HTML: tags (names lowercased, attributes parsed; void
/// elements and `.../>` self-closing), closing tags, and entity-decoded
/// text. Comments are dropped; an unterminated `<` turns the rest into text.
pub fn tokenize_html(html: &str) -> (r: Vec<HtmlToken>)
    ensures
        tokens_view(r@) == tokens_from(html@, 0),
{
    let cs = chars_of(html);
    let len = cs.len();
    let mut tokens: Vec<HtmlToken> = Vec::new();
    let mut i: usize = 0;
    assert(tokens_view(tokens@) + tokens_from(cs@, 0) =~= tokens_from(cs@, 0));
    while i < len
        invariant
            i <= len == cs@.len(),
            cs@ == html@,
            tokens_view(tokens@) + tokens_from(cs@, i as int) == tokens_from(cs@, 0),
        decreases len - i,
    {
        let ghost before = tokens_view(tokens@);
        if cs[i] == '<' {
            if len - i > 3 && cs[i + 1] == '!' && cs[i + 2] == '-' && cs[i + 3] == '-' {
                let e = comment_end_exec(&cs, i + 4);
                proof {
                    lemma_comment_end(cs@, i + 4);
                }
                i = e;
                continue;
            }
            let end = scan_exec(&cs, i + 1, 2, '>');
            if end >= len {
                let text = string_range(&cs, i, len);
                let d = decode_entities(text.as_str());
                let ghost dv = d@;
                tokens.push(HtmlToken::Text(d));
                assert(tokens_view(tokens@) =~= before.push(TokV::Text(dv)));
                assert(tokens_from(cs@, len as int) =~= Seq::<TokV>::empty());
                assert(tokens_view(tokens@) + tokens_from(cs@, len as int) =~= before + tokens_from(cs@, i as int));
                i = len;
                continue;
            }
            let t = trim_range(&cs, i + 1, end);
            if t.len() == 0 {
                i = end + 1;
                continue;
            }
            match tag_token_exec(&t) {
                Some(tok) => {
                    let ghost tv = token_view(tok);
                    tokens.push(tok);
                    assert(tokens_view(tokens@) =~= before.push(tv));
                    assert(tokens_view(tokens@) + tokens_from(cs@, end + 1) =~= before + tokens_from(cs@, i as int));
                },
                None => {},
            }
            i = end + 1;
        } else {
            let e = scan_exec(&cs, i, 2, '<');
            proof {
                lemma_scan_to(cs@, i as int, 2, '<');
            }
            let text = string_range(&cs, i, e);
            let d = decode_entities(text.as_str());
            let ghost dv = d@;
            tokens.push(HtmlToken::Text(d));
            assert(tokens_view(tokens@) =~= before.push(TokV::Text(dv)));
            assert(tokens_view(tokens@) + tokens_from(cs@, e as int) =~= before + tokens_from(cs@, i as int));
            i = e;
        }
    }
    assert(tokens_view(tokens@) =~= tokens_view(tokens@) + tokens_from(cs@, i as int));
    tokens
}

// ---------------------------------------------------------------------------
// Attribute lookup
// ---------------------------------------------------------------------------

/// The value of the first attribute named `key`.
pub open spec fn find_attr(av: Seq<(Seq<char>, Seq<char>)>, key: Seq<char>) -> Option<Seq<char>>
    decreases av.len(),
{
    if av.len() == 0 {
        None
    } else if av[0].0 == key {
        Some(av[0].1)
    } else {
        find_attr(av.drop_first(), key)
    }
}

/// `a` and `b` hold the same characters.
fn str_eq(a: &str, b: &str) -> (r: bool)
    ensures
        r == (a@ == b@),
{
    let ca = chars_of(a);
    let cb = chars_of(b);
    if ca.len() != cb.len() {
        return false;
    }
    let mut i: usize = 0;
    while i < ca.len()
        invariant
            i <= ca@.len() == cb@.len(),
            ca@ == a@,
            cb@ == b@,
            forall|k: int| 0 <= k < i ==> ca@[k] == cb@[k],
        decreases ca@.len() - i,
    {
        if ca[i] != cb[i] {
            return false;
        }
        i = i + 1;
    }
    assert(ca@ =~= cb@);
    true
}

/// The value of the first attribute named `key`.
pub fn get_attr<'a>(attrs: &'a [(String, String)], key: &str) -> (r: Option<&'a str>)
    ensures
        match r {
            None => find_attr(attrs_view(attrs@), key@) is None,
            Some(v) => find_attr(attrs_view(attrs@), key@) == Some(v@),
        },
{
    let ghost av = attrs_view(attrs@);
    let mut i: usize = 0;
    assert(av.skip(0) =~= av);
    while i < attrs.len()
        invariant
            i <= attrs@.len(),
            av == attrs_view(attrs@),
            find_attr(av, key@) == find_attr(av.skip(i as int), key@),
        decreases attrs@.len() - i,
    {
        assert(av.skip(i as int)[0] == av[i as int]);
        assert(av.skip(i as int).drop_first() =~= av.skip(i + 1));
        if str_eq(attrs[i].0.as_str(), key) {
            return Some(attrs[i].1.as_str());
        }
        i = i + 1;
    }
    None
}

/// Characters without spaces.
pub open spec fn no_spaces(s: Seq<char>) -> Seq<char>
    decreases s.len(),
{
    if s.len() == 0 {
        s
    } else {
        let r = no_spaces(s.drop_last());
        if s.last() != ' ' { r.push(s.last()) } else { r }
    }
}

/// `w` occurs in `s`.
pub open spec fn holds(s: Seq<char>, w: Seq<char>) -> bool {
    exists|i: int| 0 <= i && i + w.len() <= s.len() && #[trigger] s.subrange(i, i + w.len()) == w
}

/// `text-align:center`.
pub open spec fn center_rule() -> Seq<char> {
    seq!['t', 'e', 'x', 't', '-', 'a', 'l', 'i', 'g', 'n', ':', 'c', 'e', 'n', 't', 'e', 'r']
}

/// `center`.
pub open spec fn center_word() -> Seq<char> {
    seq!['c', 'e', 'n', 't', 'e', 'r']
}

/// An opening tag asks for centered content: `<center>`, `align="center"`
/// (any case) or a style with `text-align:center` (any case, spaces ignored).
pub open spec fn spec_center_align(name: Seq<char>, av: Seq<(Seq<char>, Seq<char>)>) -> bool {
    ||| name == center_word()
    ||| (find_attr(av, seq!['a', 'l', 'i', 'g', 'n']) matches Some(a) && ascii_lower(a) == center_word())
    ||| (find_attr(av, seq!['s', 't', 'y', 'l', 'e']) matches Some(st) && holds(
        no_spaces(ascii_lower(st)),
        center_rule(),
    ))
}

/// Exec [`holds`].
fn holds_exec(s: &Vec<char>, w: &Vec<char>) -> (r: bool)
    ensures
        r == holds(s@, w@),
{
    let n = s.len();
    let m = w.len();
    if m > n {
        proof {
            if holds(s@, w@) {
                let i = choose|i: int| 0 <= i && i + w@.len() <= s@.len() && #[trigger] s@.subrange(i, i + w@.len()) == w@;
            }
        }
        return false;
    }
    let mut i: usize = 0;
    while i <= n - m
        invariant
            m <= n,
            n == s@.len(),
            m == w@.len(),
            forall|k: int| 0 <= k < i ==> #[trigger] s@.subrange(k, k + m) != w@,
        decreases n - m + 1 - i,
    {
        let mut j: usize = 0;
        while j < m && s[i + j] == w[j]
            invariant
                j <= m,
                i + m <= n,
                n == s@.len(),
                m == w@.len(),
                forall|q: int| 0 <= q < j ==> s@[i + q] == w@[q],
            decreases m - j,
        {
            j = j + 1;
        }
        if j == m {
            assert(s@.subrange(i as int, i + m) =~= w@);
            return true;
        }
        assert(s@.subrange(i as int, i + m)[j as int] != w@[j as int]);
        i = i + 1;
    }
    false
}

/// Exec [`ascii_lower`] of all of `v`, without spaces.
fn lower_no_spaces(v: &Vec<char>) -> (r: Vec<char>)
    ensures
        r@ == no_spaces(ascii_lower(v@)),
{
    let mut out: Vec<char> = Vec::new();
    let mut k: usize = 0;
    while k < v.len()
        invariant
            k <= v@.len(),
            out@ == no_spaces(ascii_lower(v@.take(k as int))),
        decreases v@.len() - k,
    {
        let c = v[k];
        let l = if 'A' <= c && c <= 'Z' { ((c as u8) + 32) as char } else { c };
        proof {
            assert(ascii_lower(v@.take(k + 1)) =~= ascii_lower(v@.take(k as int)).push(l));
            assert(ascii_lower(v@.take(k + 1)).drop_last() =~= ascii_lower(v@.take(k as int)));
        }
        if l != ' ' {
            out.push(l);
        }
        k = k + 1;
    }
    assert(v@.take(k as int) =~= v@);
    out
}

/// Does an opening tag ask for centered content?
pub fn is_center_align(name: &str, attrs: &[(String, String)]) -> (r: bool)
    ensures
        r == spec_center_align(name@, attrs_view(attrs@)),
{
    let center: &[char] = &['c', 'e', 'n', 't', 'e', 'r'];
    assert(center@ =~= center_word());
    if str_is(name, center) {
        return true;
    }
    let align_key = string_from_chars(&vec!['a', 'l', 'i', 'g', 'n']);
    assert(align_key@ =~= seq!['a', 'l', 'i', 'g', 'n']);
    if let Some(align) = get_attr(attrs, align_key.as_str()) {
        let ac = chars_of(align);
        let n = ac.len();
        let low = lower_range(&ac, 0, n);
        assert(ac@.subrange(0, n as int) =~= ac@);
        if str_is(low.as_str(), center) {
            return true;
        }
    }
    let style_key = string_from_chars(&vec!['s', 't', 'y', 'l', 'e']);
    assert(style_key@ =~= seq!['s', 't', 'y', 'l', 'e']);
    if let Some(style) = get_attr(attrs, style_key.as_str()) {
        let sc = chars_of(style);
        let clean = lower_no_spaces(&sc);
        let rule = vec!['t', 'e', 'x', 't', '-', 'a', 'l', 'i', 'g', 'n', ':', 'c', 'e', 'n', 't', 'e', 'r'];
        assert(rule@ =~= center_rule());
        if holds_exec(&clean, &rule) {
            return true;
        }
    }
    false
}

// ---------------------------------------------------------------------------
// Inline tags to spans
// ---------------------------------------------------------------------------

/// Style effect of a tag name: 1 bold, 2 italic, 3 strike, 4 code,
/// 5 keeps the style (`u`, `mark`, `span`, `small`, `sub`, `sup`), 0 none.
pub open spec fn style_kind(n: Seq<char>) -> int {
    if n == seq!['b'] || n == seq!['s', 't', 'r', 'o', 'n', 'g'] {
        1
    } else if n == seq!['i'] || n == seq!['e', 'm'] {
        2
    } else if n == seq!['s'] || n == seq!['d', 'e', 'l'] || n == seq!['s', 't', 'r', 'i', 'k', 'e'] {
        3
    } else if n == seq!['c', 'o', 'd', 'e'] || n == seq!['k', 'b', 'd'] {
        4
    } else if n == seq!['u'] || n == seq!['m', 'a', 'r', 'k'] || n == seq!['s', 'p', 'a', 'n'] || n == seq![
        's',
        'm',
        'a',
        'l',
        'l',
    ] || n == seq!['s', 'u', 'b'] || n == seq!['s', 'u', 'p'] {
        5
    } else {
        0
    }
}

/// `s` with the flag of a style tag set.
pub open spec fn with_flag(s: Style, k: int) -> Style {
    if k == 1 {
        Style { bold: true, ..s }
    } else if k == 2 {
        Style { italic: true, ..s }
    } else if k == 3 {
        Style { strike: true, ..s }
    } else if k == 4 {
        Style { code: true, ..s }
    } else {
        s
    }
}

/// The spans from `start` on become the inner spans of a link.
pub open spec fn wrap_link(spans: Seq<SpanV>, link: (Seq<char>, Option<Seq<char>>, int)) -> Seq<SpanV> {
    spans.subrange(0, link.2).push(SpanV::Link(link.0, link.1, spans.subrange(link.2, spans.len() as int)))
}

/// An attribute's value, or empty.
pub open spec fn attr_or_empty(av: Seq<(Seq<char>, Seq<char>)>, key: Seq<char>) -> Seq<char> {
    match find_attr(av, key) {
        Some(v) => v,
        None => Seq::empty(),
    }
}

/// The image span of an `<img>` tag's attributes.
pub open spec fn image_of(av: Seq<(Seq<char>, Seq<char>)>) -> SpanV {
    SpanV::Image(
        attr_or_empty(av, seq!['s', 'r', 'c']),
        attr_or_empty(av, seq!['a', 'l', 't']),
        find_attr(av, seq!['t', 'i', 't', 'l', 'e']),
        find_attr(av, seq!['w', 'i', 'd', 't', 'h']),
        find_attr(av, seq!['h', 'e', 'i', 'g', 'h', 't']),
    )
}

/// One token applied to (spans, style stack, open links).
pub open spec fn inline_step(
    st: (Seq<SpanV>, Seq<Style>, Seq<(Seq<char>, Option<Seq<char>>, int)>),
    tok: TokV,
) -> (Seq<SpanV>, Seq<Style>, Seq<(Seq<char>, Option<Seq<char>>, int)>) {
    let (spans, styles, links) = st;
    match tok {
        TokV::Open(name, av, _) => {
            let k = style_kind(name);
            if k != 0 {
                (spans, styles.push(with_flag(styles.last(), k)), links)
            } else if name == seq!['b', 'r'] {
                (spans.push(SpanV::LineBreak), styles, links)
            } else if name == seq!['i', 'm', 'g'] {
                (spans.push(image_of(av)), styles, links)
            } else if name == seq!['a'] {
                (
                    spans,
                    styles,
                    links.push(
                        (attr_or_empty(av, seq!['h', 'r', 'e', 'f']), find_attr(av, seq!['t', 'i', 't', 'l', 'e']), spans.len() as int),
                    ),
                )
            } else {
                st
            }
        },
        TokV::Close(name) => {
            if style_kind(name) != 0 {
                if styles.len() > 1 { (spans, styles.drop_last(), links) } else { st }
            } else if name == seq!['a'] && links.len() > 0 {
                (wrap_link(spans, links.last()), styles, links.drop_last())
            } else {
                st
            }
        },
        TokV::Text(t) => {
            if t.len() > 0 {
                let s = styles.last();
                if s.code {
                    (spans.push(SpanV::Code(t, s)), styles, links)
                } else {
                    (spans.push(SpanV::Text(t, s)), styles, links)
                }
            } else {
                st
            }
        },
    }
}

/// All tokens applied, from `base` style.
pub open spec fn inline_fold(toks: Seq<TokV>, base: Style) -> (
    Seq<SpanV>,
    Seq<Style>,
    Seq<(Seq<char>, Option<Seq<char>>, int)>,
)
    decreases toks.len(),
{
    if toks.len() == 0 {
        (Seq::empty(), seq![base], Seq::empty())
    } else {
        inline_step(inline_fold(toks.drop_last(), base), toks.last())
    }
}

/// Links still open at the end wrap what follows them.
pub open spec fn close_links(spans: Seq<SpanV>, links: Seq<(Seq<char>, Option<Seq<char>>, int)>) -> Seq<SpanV>
    decreases links.len(),
{
    if links.len() == 0 {
        spans
    } else {
        close_links(wrap_link(spans, links.last()), links.drop_last())
    }
}

/// The spans of inline HTML tokens.
pub open spec fn inline_spans(toks: Seq<TokV>, base: Style) -> Seq<SpanV> {
    let st = inline_fold(toks, base);
    close_links(st.0, st.2)
}

/// Exec [`style_kind`].
fn style_kind_exec(n: &str) -> (k: u8)
    ensures
        k == style_kind(n@),
{
    let w0: &[char] = &['b'];
    assert(w0@ =~= seq!['b']);
    let w1: &[char] = &['s', 't', 'r', 'o', 'n', 'g'];
    assert(w1@ =~= seq!['s', 't', 'r', 'o', 'n', 'g']);
    let w2: &[char] = &['i'];
    assert(w2@ =~= seq!['i']);
    let w3: &[char] = &['e', 'm'];
    assert(w3@ =~= seq!['e', 'm']);
    let w4: &[char] = &['s'];
    assert(w4@ =~= seq!['s']);
    let w5: &[char] = &['d', 'e', 'l'];
    assert(w5@ =~= seq!['d', 'e', 'l']);
    let w6: &[char] = &['s', 't', 'r', 'i', 'k', 'e'];
    assert(w6@ =~= seq!['s', 't', 'r', 'i', 'k', 'e']);
    let w7: &[char] = &['c', 'o', 'd', 'e'];
    assert(w7@ =~= seq!['c', 'o', 'd', 'e']);
    let w8: &[char] = &['k', 'b', 'd'];
    assert(w8@ =~= seq!['k', 'b', 'd']);
    let w9: &[char] = &['u'];
    assert(w9@ =~= seq!['u']);
    let w10: &[char] = &['m', 'a', 'r', 'k'];
    assert(w10@ =~= seq!['m', 'a', 'r', 'k']);
    let w11: &[char] = &['s', 'p', 'a', 'n'];
    assert(w11@ =~= seq!['s', 'p', 'a', 'n']);
    let w12: &[char] = &['s', 'm', 'a', 'l', 'l'];
    assert(w12@ =~= seq!['s', 'm', 'a', 'l', 'l']);
    let w13: &[char] = &['s', 'u', 'b'];
    assert(w13@ =~= seq!['s', 'u', 'b']);
    let w14: &[char] = &['s', 'u', 'p'];
    assert(w14@ =~= seq!['s', 'u', 'p']);
    if str_is(n, w0) || str_is(n, w1) {
        1
    } else if str_is(n, w2) || str_is(n, w3) {
        2
    } else if str_is(n, w4) || str_is(n, w5) || str_is(n, w6) {
        3
    } else if str_is(n, w7) || str_is(n, w8) {
        4
    } else if str_is(n, w9) || str_is(n, w10) || str_is(n, w11) || str_is(n, w12) || str_is(n, w13) || str_is(n, w14) {
        5
    } else {
        0
    }
}

/// Owned copy of an optional attribute value.
fn opt_string(o: Option<&str>) -> (r: Option<String>)
    ensures
        match o {
            Some(s) => opt_view(r) == Some(s@),
            None => r is None,
        },
{
    match o {
        Some(s) => Some(s.to_owned()),
        None => None,
    }
}

/// Owned attribute value, or empty.
fn string_or_empty(o: Option<&str>) -> (r: String)
    ensures
        match o {
            Some(s) => r@ == s@,
            None => r@ == Seq::<char>::empty(),
        },
{
    match o {
        Some(s) => s.to_owned(),
        None => String::new(),
    }
}

/// The `<img>` span of attributes.
fn image_span(attrs: &Vec<(String, String)>) -> (sp: Span)
    ensures
        span_view(sp) == image_of(attrs_view(attrs@)),
{
    let k_src = string_from_chars(&vec!['s', 'r', 'c']);
    let k_alt = string_from_chars(&vec!['a', 'l', 't']);
    let k_title = string_from_chars(&vec!['t', 'i', 't', 'l', 'e']);
    let k_w = string_from_chars(&vec!['w', 'i', 'd', 't', 'h']);
    let k_h = string_from_chars(&vec!['h', 'e', 'i', 'g', 'h', 't']);
    let url = string_or_empty(get_attr(attrs.as_slice(), k_src.as_str()));
    let alt = string_or_empty(get_attr(attrs.as_slice(), k_alt.as_str()));
    let title = opt_string(get_attr(attrs.as_slice(), k_title.as_str()));
    let width = opt_string(get_attr(attrs.as_slice(), k_w.as_str()));
    let height = opt_string(get_attr(attrs.as_slice(), k_h.as_str()));
    proof {
        assert(k_src@ =~= seq!['s', 'r', 'c']);
        assert(k_alt@ =~= seq!['a', 'l', 't']);
        assert(k_title@ =~= seq!['t', 'i', 't', 'l', 'e']);
        assert(k_w@ =~= seq!['w', 'i', 'd', 't', 'h']);
        assert(k_h@ =~= seq!['h', 'e', 'i', 'g', 'h', 't']);
    }
    Span::Image { url, alt, title, width, height }
}

/// The models of the open links.
pub open spec fn links_view(v: Seq<(String, Option<String>, usize)>) -> Seq<(Seq<char>, Option<Seq<char>>, int)> {
    Seq::new(v.len(), |i: int| (v[i].0@, opt_view(v[i].1), v[i].2 as int))
}

/// Open links start in order, within the spans.
pub open spec fn links_ok(v: Seq<(String, Option<String>, usize)>, n: int) -> bool {
    &&& forall|k: int| 0 <= k < v.len() ==> #[trigger] v[k].2 <= n
    &&& forall|j: int, k: int| 0 <= j < k < v.len() ==> #[trigger] v[j].2 <= #[trigger] v[k].2
}

/// Close the innermost open link: the spans after its start become its
/// inner spans.
fn close_link(spans: &mut Vec<Span>, links: &mut Vec<(String, Option<String>, usize)>)
    requires
        old(links)@.len() > 0,
        links_ok(old(links)@, old(spans)@.len() as int),
    ensures
        spans_view(final(spans)@) == wrap_link(spans_view(old(spans)@), links_view(old(links)@).last()),
        links_view(final(links)@) == links_view(old(links)@).drop_last(),
        final(links)@ == old(links)@.drop_last(),
        links_ok(final(links)@, final(spans)@.len() as int),
{
    let ghost sv = spans_view(spans@);
    let ghost lv = links_view(links@);
    let ghost old_links = links@;
    let (url, title, start) = match links.pop() {
        Some(l) => l,
        None => (String::new(), None, 0),
    };
    assert(links_view(links@) =~= lv.drop_last());
    let ghost before = spans@;
    assert(old_links[old_links.len() - 1].2 <= before.len());
    assert(start == old_links.last().2);
    proof {
        lemma_spans_view_index(before);
    }
    let inner = spans.split_off(start);
    proof {
        lemma_spans_view_sub(before, 0, start as int);
        lemma_spans_view_sub(before, start as int, before.len() as int);
        assert(before.subrange(start as int, before.len() as int) =~= inner@);
    }
    let ghost mid = spans@;
    assert(mid == before.subrange(0, start as int));
    assert(spans_view(mid) == sv.subrange(0, start as int));
    assert(spans_view(inner@) == sv.subrange(start as int, sv.len() as int));
    let ghost lk = (url@, opt_view(title), start as int);
    assert(lv.last() == lk);
    let link = Span::Link { url, title, inner };
    assert(span_view(link) == SpanV::Link(lk.0, lk.1, sv.subrange(start as int, sv.len() as int)));
    proof {
        lemma_spans_view_push(mid, link);
    }
    spans.push(link);
    assert(spans_view(spans@) =~= wrap_link(sv, lv.last()));
    assert forall|k: int| 0 <= k < links@.len() implies #[trigger] links@[k].2 <= spans@.len() by {
        assert(old_links[k].2 <= old_links[old_links.len() - 1].2);
    }
}

/// Spans of inline HTML tokens: style tags stack up and close in order,
/// `<br>` breaks, `<img>` images, `<a href>` wraps what follows up to its
/// `</a>` (links still open at the end wrap the rest), text takes the
/// current style (code style gives code spans).
pub fn parse_inline_tokens(tokens: &[HtmlToken], base_style: Style) -> (r: Vec<Span>)
    ensures
        spans_view(r@) == inline_spans(tokens_view(tokens@), base_style),
{
    let ghost tv = tokens_view(tokens@);
    let mut spans: Vec<Span> = Vec::new();
    let mut styles: Vec<Style> = Vec::new();
    styles.push(base_style);
    let mut links: Vec<(String, Option<String>, usize)> = Vec::new();
    let mut i: usize = 0;
    assert(tv.take(0) =~= Seq::<TokV>::empty());
    assert(spans_view(spans@) =~= Seq::<SpanV>::empty());
    assert(links_view(links@) =~= Seq::<(Seq<char>, Option<Seq<char>>, int)>::empty());
    assert(styles@ =~= seq![base_style]);
    while i < tokens.len()
        invariant
            i <= tokens@.len(),
            tv == tokens_view(tokens@),
            (spans_view(spans@), styles@, links_view(links@)) == inline_fold(tv.take(i as int), base_style),
            styles@.len() >= 1,
            links_ok(links@, spans@.len() as int),
        decreases tokens@.len() - i,
    {
        assert(tv.take(i + 1).drop_last() =~= tv.take(i as int));
        assert(tv.take(i + 1).last() == token_view(tokens@[i as int]));
        let ghost sv = spans_view(spans@);
        let ghost before = spans@;
        let ghost prev = (spans_view(spans@), styles@, links_view(links@));
        let ghost tok = token_view(tokens@[i as int]);
        match &tokens[i] {
            HtmlToken::TagOpen { name, attrs, .. } => {
                let k = style_kind_exec(name.as_str());
                let top = styles[styles.len() - 1];
                if k != 0 {
                    let ns = if k == 1 {
                        Style { bold: true, ..top }
                    } else if k == 2 {
                        Style { italic: true, ..top }
                    } else if k == 3 {
                        Style { strike: true, ..top }
                    } else if k == 4 {
                        Style { code: true, ..top }
                    } else {
                        top
                    };
                    styles.push(ns);
                    assert((spans_view(spans@), styles@, links_view(links@)) == inline_step(prev, tok));
                } else if str_is(name.as_str(), &['b', 'r']) {
                    proof {
                        assert((['b', 'r'])@ =~= seq!['b', 'r']);
                        lemma_spans_view_push(before, Span::LineBreak);
                    }
                    spans.push(Span::LineBreak);
                    assert((spans_view(spans@), styles@, links_view(links@)) == inline_step(prev, tok));
                } else if str_is(name.as_str(), &['i', 'm', 'g']) {
                    proof {
                        assert((['b', 'r'])@ =~= seq!['b', 'r']);
                        assert((['i', 'm', 'g'])@ =~= seq!['i', 'm', 'g']);
                    }
                    let img = image_span(attrs);
                    proof {
                        lemma_spans_view_push(before, img);
                    }
                    spans.push(img);
                    assert((spans_view(spans@), styles@, links_view(links@)) == inline_step(prev, tok));
                } else if str_is(name.as_str(), &['a']) {
                    proof {
                        assert((['b', 'r'])@ =~= seq!['b', 'r']);
                        assert((['i', 'm', 'g'])@ =~= seq!['i', 'm', 'g']);
                        assert((['a'])@ =~= seq!['a']);
                    }
                    let k_href = string_from_chars(&vec!['h', 'r', 'e', 'f']);
                    let k_title = string_from_chars(&vec!['t', 'i', 't', 'l', 'e']);
                    assert(k_href@ =~= seq!['h', 'r', 'e', 'f']);
                    assert(k_title@ =~= seq!['t', 'i', 't', 'l', 'e']);
                    let href = string_or_empty(get_attr(attrs.as_slice(), k_href.as_str()));
                    let title = opt_string(get_attr(attrs.as_slice(), k_title.as_str()));
                    let ghost lv = links_view(links@);
                    let ghost entry = (href@, opt_view(title), spans@.len() as int);
                    proof {
                        lemma_spans_view_index(spans@);
                    }
                    links.push((href, title, spans.len()));
                    assert(links_view(links@) =~= lv.push(entry));
                    assert((spans_view(spans@), styles@, links_view(links@)) == inline_step(prev, tok));
                } else {
                    proof {
                        assert((['b', 'r'])@ =~= seq!['b', 'r']);
                        assert((['i', 'm', 'g'])@ =~= seq!['i', 'm', 'g']);
                        assert((['a'])@ =~= seq!['a']);
                    }
                }
            },
            HtmlToken::TagClose { name } => {
                let k = style_kind_exec(name.as_str());
                if k != 0 {
                    if styles.len() > 1 {
                        let _ = styles.pop();
                    }
                    assert((spans_view(spans@), styles@, links_view(links@)) == inline_step(prev, tok));
                } else if str_is(name.as_str(), &['a']) && links.len() > 0 {
                    assert((['a'])@ =~= seq!['a']);
                    close_link(&mut spans, &mut links);
                    assert((spans_view(spans@), styles@, links_view(links@)) == inline_step(prev, tok));
                } else {
                    assert((['a'])@ =~= seq!['a']);
                }
            },
            HtmlToken::Text(text) => {
                if crate::utf8_text::char_count(text.as_str()) > 0 {
                    let s = styles[styles.len() - 1];
                    let sp = if s.code {
                        Span::Code { text: text.clone(), style: s }
                    } else {
                        Span::Text { text: text.clone(), style: s }
                    };
                    proof {
                        lemma_spans_view_push(before, sp);
                    }
                    spans.push(sp);
                    assert((spans_view(spans@), styles@, links_view(links@)) == inline_step(prev, tok));
                }
            },
        }
        i = i + 1;
    }
    assert(tv.take(i as int) =~= tv);
    while links.len() > 0
        invariant
            close_links(spans_view(spans@), links_view(links@)) == inline_spans(tv, base_style),
            links_ok(links@, spans@.len() as int),
        decreases links@.len(),
    {
        close_link(&mut spans, &mut links);
    }
    spans
}

// ---------------------------------------------------------------------------
// HTML blocks
// ---------------------------------------------------------------------------

/// What an HTML block contributes: a document block, or the start or end
/// of a centered region.
pub enum HtmlBlockAction {
    Block(Block),
    OpenCenter,
    CloseCenter,
}

/// The model of an action.
pub enum ActV {
    Block(BlockV),
    OpenCenter,
    CloseCenter,
}

pub open spec fn action_view(a: HtmlBlockAction) -> ActV {
    match a {
        HtmlBlockAction::Block(b) => ActV::Block(block_view(b)),
        HtmlBlockAction::OpenCenter => ActV::OpenCenter,
        HtmlBlockAction::CloseCenter => ActV::CloseCenter,
    }
}

pub open spec fn actions_view(v: Seq<HtmlBlockAction>) -> Seq<ActV> {
    Seq::new(v.len(), |i: int| action_view(v[i]))
}

/// `h1` .. `h6`.
pub open spec fn is_heading_name(n: Seq<char>) -> bool {
    n.len() == 2 && n[0] == 'h' && '1' <= n[1] <= '6'
}

/// An opening tag that starts another block inside a heading or paragraph.
pub open spec fn starts_other_block(t: TokV) -> bool {
    match t {
        TokV::Open(o, _, _) => (o.len() > 0 && o[0] == 'h') || o == seq!['p'] || o == seq!['d', 'i', 'v'],
        _ => false,
    }
}

/// Tokens of a heading or paragraph from `j`: up to its closing tag
/// (consumed) or the start of another block (left in place).
pub open spec fn collect_block(ts: Seq<TokV>, j: int, close: Seq<char>) -> (Seq<TokV>, int)
    decreases ts.len() - j,
{
    if j < 0 || j >= ts.len() {
        (Seq::empty(), j)
    } else if ts[j] == TokV::Close(close) {
        (Seq::empty(), j + 1)
    } else if starts_other_block(ts[j]) {
        (Seq::empty(), j)
    } else {
        let (r, e) = collect_block(ts, j + 1, close);
        (seq![ts[j]] + r, e)
    }
}

/// Tokens of a blockquote from `j`, up to `</blockquote>` (consumed).
pub open spec fn collect_quote(ts: Seq<TokV>, j: int) -> (Seq<TokV>, int)
    decreases ts.len() - j,
{
    if j < 0 || j >= ts.len() {
        (Seq::empty(), j)
    } else if ts[j] == TokV::Close(seq!['b', 'l', 'o', 'c', 'k', 'q', 'u', 'o', 't', 'e']) {
        (Seq::empty(), j + 1)
    } else {
        let (r, e) = collect_quote(ts, j + 1);
        (seq![ts[j]] + r, e)
    }
}

/// `s` without the prefix `p`, if it starts with it.
pub open spec fn strip_prefix(s: Seq<char>, p: Seq<char>) -> Option<Seq<char>> {
    if p.len() <= s.len() && s.subrange(0, p.len() as int) == p {
        Some(s.skip(p.len() as int))
    } else {
        None
    }
}

/// The language named by a `<code class="language-x">` (or `lang-x`).
pub open spec fn class_lang(av: Seq<(Seq<char>, Seq<char>)>) -> Option<Seq<char>> {
    match find_attr(av, seq!['c', 'l', 'a', 's', 's']) {
        Some(class) => match strip_prefix(class, seq!['l', 'a', 'n', 'g', 'u', 'a', 'g', 'e', '-']) {
            Some(l) => Some(l),
            None => strip_prefix(class, seq!['l', 'a', 'n', 'g', '-']),
        },
        None => None,
    }
}

/// Code text and language of a `<pre>` from `j`, up to `</pre>` (consumed).
pub open spec fn collect_pre(ts: Seq<TokV>, j: int, code: Seq<char>, lang: Seq<char>) -> (Seq<char>, Seq<char>, int)
    decreases ts.len() - j,
{
    if j < 0 || j >= ts.len() {
        (code, lang, j)
    } else {
        match ts[j] {
            TokV::Close(n) => if n == seq!['p', 'r', 'e'] {
                (code, lang, j + 1)
            } else {
                collect_pre(ts, j + 1, code, lang)
            },
            TokV::Open(n, av, _) => if n == seq!['c', 'o', 'd', 'e'] {
                match class_lang(av) {
                    Some(l) => collect_pre(ts, j + 1, code, l),
                    None => collect_pre(ts, j + 1, code, lang),
                }
            } else {
                collect_pre(ts, j + 1, code, lang)
            },
            TokV::Text(t) => collect_pre(ts, j + 1, code + t, lang),
        }
    }
}

/// Block-level tag names that end a run of inline tags at the root.
pub open spec fn is_block_tag(n: Seq<char>, closing: bool) -> bool {
    ||| n == seq!['d', 'i', 'v']
    ||| n == seq!['p']
    ||| is_heading_name(n)
    ||| n == seq!['b', 'l', 'o', 'c', 'k', 'q', 'u', 'o', 't', 'e']
    ||| (!closing && (n == seq!['h', 'r'] || n == seq!['p', 'r', 'e']))
}

/// Inline tokens at the root from `j`, up to a block-level tag (left in place).
pub open spec fn collect_inline(ts: Seq<TokV>, j: int) -> (Seq<TokV>, int)
    decreases ts.len() - j,
{
    if j < 0 || j >= ts.len() {
        (Seq::empty(), j)
    } else {
        let stop = match ts[j] {
            TokV::Open(n, _, _) => is_block_tag(n, false),
            TokV::Close(n) => is_block_tag(n, true),
            TokV::Text(_) => false,
        };
        if stop {
            (Seq::empty(), j)
        } else {
            let (r, e) = collect_inline(ts, j + 1);
            (seq![ts[j]] + r, e)
        }
    }
}

pub proof fn lemma_collectors(ts: Seq<TokV>, j: int)
    requires
        0 <= j <= ts.len(),
    ensures
        j <= collect_block(ts, j, seq![]).1 <= ts.len(),
        forall|c: Seq<char>| j <= #[trigger] collect_block(ts, j, c).1 <= ts.len(),
        j <= collect_quote(ts, j).1 <= ts.len(),
        forall|code: Seq<char>, lang: Seq<char>| j <= #[trigger] collect_pre(ts, j, code, lang).2 <= ts.len(),
        j <= collect_inline(ts, j).1 <= ts.len(),
    decreases ts.len() - j,
{
    if j < ts.len() {
        lemma_collectors(ts, j + 1);
        assert forall|c: Seq<char>| j <= #[trigger] collect_block(ts, j, c).1 <= ts.len() by {
            assert(j + 1 <= collect_block(ts, j + 1, c).1 <= ts.len());
        }
        assert forall|code: Seq<char>, lang: Seq<char>| j <= #[trigger] collect_pre(ts, j, code, lang).2 <= ts.len() by {
            match ts[j] {
                TokV::Text(t) => {
                    assert(j + 1 <= collect_pre(ts, j + 1, code + t, lang).2 <= ts.len());
                },
                TokV::Open(n, av, _) => {
                    match class_lang(av) {
                        Some(l) => {
                            assert(j + 1 <= collect_pre(ts, j + 1, code, l).2 <= ts.len());
                        },
                        None => {},
                    }
                    assert(j + 1 <= collect_pre(ts, j + 1, code, lang).2 <= ts.len());
                },
                TokV::Close(_) => {
                    assert(j + 1 <= collect_pre(ts, j + 1, code, lang).2 <= ts.len());
                },
            }
        }
    }
}

/// Some span shows something: anything but blank text.
pub open spec fn has_visible(sp: Seq<SpanV>) -> bool {
    exists|k: int| 0 <= k < sp.len() && !(#[trigger] sp[k] matches SpanV::Text(t, _) && trim(t).len() == 0)
}

/// The heading level of `h1`..`h6`.
pub open spec fn heading_level(n: Seq<char>) -> u8 {
    (n[1] as int - 48) as u8
}

/// The actions of HTML block tokens from index `i` on: centering tags
/// open/close a centered region, `<hr>` is a rule, `<img>` an image
/// paragraph, `<h1>`..`<h6>`, `<p>`, `<blockquote>` and `<pre>` the
/// matching blocks, runs of inline tags a paragraph, and non-blank text a
/// paragraph; empty results are dropped.
pub open spec fn actions_from(ts: Seq<TokV>, i: int) -> Seq<ActV>
    decreases ts.len() - i,
{
    if i < 0 || i >= ts.len() {
        Seq::empty()
    } else {
        proof {
            lemma_collectors(ts, i + 1);
        }
        match ts[i] {
            TokV::Open(name, av, _) => if spec_center_align(name, av) {
                seq![ActV::OpenCenter] + actions_from(ts, i + 1)
            } else if name == seq!['d', 'i', 'v'] {
                actions_from(ts, i + 1)
            } else if name == seq!['h', 'r'] {
                seq![ActV::Block(BlockV::Rule)] + actions_from(ts, i + 1)
            } else if name == seq!['i', 'm', 'g'] {
                seq![ActV::Block(BlockV::Para(seq![image_of(av)]))] + actions_from(ts, i + 1)
            } else if is_heading_name(name) {
                let (inner, e) = collect_block(ts, i + 1, name);
                let sp = inline_spans(inner, plain_style());
                (if sp.len() > 0 {
                    seq![ActV::Block(BlockV::Heading(heading_level(name), sp))]
                } else {
                    Seq::empty()
                }) + actions_from(ts, e)
            } else if name == seq!['p'] {
                let (inner, e) = collect_block(ts, i + 1, name);
                let sp = inline_spans(inner, plain_style());
                (if sp.len() > 0 { seq![ActV::Block(BlockV::Para(sp))] } else { Seq::empty() }) + actions_from(
                    ts,
                    e,
                )
            } else if name == seq!['b', 'l', 'o', 'c', 'k', 'q', 'u', 'o', 't', 'e'] {
                let (inner, e) = collect_quote(ts, i + 1);
                let sp = inline_spans(inner, plain_style());
                (if sp.len() > 0 {
                    seq![ActV::Block(BlockV::BlockQuote(QuoteKind::Plain, seq![BlockV::Para(sp)]))]
                } else {
                    Seq::empty()
                }) + actions_from(ts, e)
            } else if name == seq!['p', 'r', 'e'] {
                let (code, lang, e) = collect_pre(ts, i + 1, Seq::empty(), Seq::empty());
                seq![ActV::Block(BlockV::CodeBlock(lang, code))] + actions_from(ts, e)
            } else {
                let (rest, e) = collect_inline(ts, i + 1);
                let sp = inline_spans(seq![ts[i]] + rest, plain_style());
                (if has_visible(sp) { seq![ActV::Block(BlockV::Para(sp))] } else { Seq::empty() }) + actions_from(
                    ts,
                    e,
                )
            },
            TokV::Close(name) => (if name == seq!['d', 'i', 'v'] || name == center_word() {
                seq![ActV::CloseCenter]
            } else {
                Seq::empty()
            }) + actions_from(ts, i + 1),
            TokV::Text(t) => (if trim(t).len() > 0 {
                seq![ActV::Block(BlockV::Para(seq![SpanV::Text(t, plain_style())]))]
            } else {
                Seq::empty()
            }) + actions_from(ts, i + 1),
        }
    }
}

/// A copy of the attribute pairs.
fn copy_attrs(a: &Vec<(String, String)>) -> (r: Vec<(String, String)>)
    ensures
        attrs_view(r@) == attrs_view(a@),
{
    let mut r: Vec<(String, String)> = Vec::new();
    let mut k: usize = 0;
    while k < a.len()
        invariant
            k <= a@.len(),
            r@.len() == k,
            attrs_view(r@) == attrs_view(a@).take(k as int),
        decreases a@.len() - k,
    {
        let ghost before = attrs_view(r@);
        let c0 = a[k].0.clone();
        let c1 = a[k].1.clone();
        assert(c0@ == a@[k as int].0@);
        assert(c1@ == a@[k as int].1@);
        let ghost rv_old = r@;
        let ghost pair = (c0, c1);
        r.push((c0, c1));
        assert(r@ == rv_old.push(pair));
        assert forall|q: int| 0 <= q < k + 1 implies #[trigger] attrs_view(r@)[q] == attrs_view(a@).take(k + 1)[q] by {
            if q < k {
                assert(attrs_view(r@)[q] == attrs_view(rv_old)[q]);
            }
        }
        assert(attrs_view(r@) =~= attrs_view(a@).take(k + 1));
        k = k + 1;
    }
    assert(attrs_view(a@).take(k as int) =~= attrs_view(a@));
    r
}

/// A copy of a token.
fn copy_token(t: &HtmlToken) -> (r: HtmlToken)
    ensures
        token_view(r) == token_view(*t),
{
    match t {
        HtmlToken::TagOpen { name, attrs, self_closing } => HtmlToken::TagOpen {
            name: name.clone(),
            attrs: copy_attrs(attrs),
            self_closing: *self_closing,
        },
        HtmlToken::TagClose { name } => HtmlToken::TagClose { name: name.clone() },
        HtmlToken::Text(s) => HtmlToken::Text(s.clone()),
    }
}

/// Push a copy of `t`.
fn push_copy(v: &mut Vec<HtmlToken>, t: &HtmlToken)
    ensures
        tokens_view(final(v)@) == tokens_view(old(v)@).push(token_view(*t)),
{
    let c = copy_token(t);
    v.push(c);
    assert(tokens_view(v@) =~= tokens_view(old(v)@).push(token_view(*t)));
}

/// The token is `</close>`.
fn is_close_named(t: &HtmlToken, close: &str) -> (r: bool)
    ensures
        r == (token_view(*t) == TokV::Close(close@)),
{
    match t {
        HtmlToken::TagClose { name } => str_eq(name.as_str(), close),
        _ => false,
    }
}

/// Exec [`starts_other_block`].
fn starts_other_block_exec(t: &HtmlToken) -> (r: bool)
    ensures
        r == starts_other_block(token_view(*t)),
{
    match t {
        HtmlToken::TagOpen { name, .. } => {
            let cs = chars_of(name.as_str());
            let p: &[char] = &['p'];
            let div: &[char] = &['d', 'i', 'v'];
            assert(p@ =~= seq!['p']);
            assert(div@ =~= seq!['d', 'i', 'v']);
            (cs.len() > 0 && cs[0] == 'h') || str_is(name.as_str(), p) || str_is(name.as_str(), div)
        },
        _ => false,
    }
}

/// Exec [`collect_block`].
fn collect_block_exec(tokens: &Vec<HtmlToken>, j: usize, close: &str) -> (r: (Vec<HtmlToken>, usize))
    requires
        j <= tokens@.len(),
    ensures
        (tokens_view(r.0@), r.1 as int) == collect_block(tokens_view(tokens@), j as int, close@),
        j <= r.1 <= tokens@.len(),
{
    let ghost ts = tokens_view(tokens@);
    let mut acc: Vec<HtmlToken> = Vec::new();
    let mut k = j;
    assert(tokens_view(acc@) =~= Seq::<TokV>::empty());
    loop
        invariant
            j <= k <= tokens@.len(),
            ts == tokens_view(tokens@),
            tokens_view(acc@) + collect_block(ts, k as int, close@).0 == collect_block(ts, j as int, close@).0,
            collect_block(ts, k as int, close@).1 == collect_block(ts, j as int, close@).1,
        decreases tokens@.len() - k,
    {
        if k >= tokens.len() {
            assert(tokens_view(acc@) =~= tokens_view(acc@) + collect_block(ts, k as int, close@).0);
            return (acc, k);
        }
        assert(ts[k as int] == token_view(tokens@[k as int]));
        if is_close_named(&tokens[k], close) {
            assert(tokens_view(acc@) =~= tokens_view(acc@) + collect_block(ts, k as int, close@).0);
            return (acc, k + 1);
        }
        if starts_other_block_exec(&tokens[k]) {
            assert(tokens_view(acc@) =~= tokens_view(acc@) + collect_block(ts, k as int, close@).0);
            return (acc, k);
        }
        let ghost before = tokens_view(acc@);
        push_copy(&mut acc, &tokens[k]);
        assert(tokens_view(acc@) + collect_block(ts, k + 1, close@).0 =~= before + collect_block(ts, k as int, close@).0);
        k = k + 1;
    }
}

/// Exec [`collect_quote`].
fn collect_quote_exec(tokens: &Vec<HtmlToken>, j: usize) -> (r: (Vec<HtmlToken>, usize))
    requires
        j <= tokens@.len(),
    ensures
        (tokens_view(r.0@), r.1 as int) == collect_quote(tokens_view(tokens@), j as int),
        j <= r.1 <= tokens@.len(),
{
    let ghost ts = tokens_view(tokens@);
    let bq = string_from_chars(&vec!['b', 'l', 'o', 'c', 'k', 'q', 'u', 'o', 't', 'e']);
    assert(bq@ =~= seq!['b', 'l', 'o', 'c', 'k', 'q', 'u', 'o', 't', 'e']);
    let mut acc: Vec<HtmlToken> = Vec::new();
    let mut k = j;
    assert(tokens_view(acc@) =~= Seq::<TokV>::empty());
    loop
        invariant
            j <= k <= tokens@.len(),
            ts == tokens_view(tokens@),
            bq@ == seq!['b', 'l', 'o', 'c', 'k', 'q', 'u', 'o', 't', 'e'],
            tokens_view(acc@) + collect_quote(ts, k as int).0 == collect_quote(ts, j as int).0,
            collect_quote(ts, k as int).1 == collect_quote(ts, j as int).1,
        decreases tokens@.len() - k,
    {
        if k >= tokens.len() {
            assert(tokens_view(acc@) =~= tokens_view(acc@) + collect_quote(ts, k as int).0);
            return (acc, k);
        }
        assert(ts[k as int] == token_view(tokens@[k as int]));
        if is_close_named(&tokens[k], bq.as_str()) {
            assert(tokens_view(acc@) =~= tokens_view(acc@) + collect_quote(ts, k as int).0);
            return (acc, k + 1);
        }
        let ghost before = tokens_view(acc@);
        push_copy(&mut acc, &tokens[k]);
        assert(tokens_view(acc@) + collect_quote(ts, k + 1).0 =~= before + collect_quote(ts, k as int).0);
        k = k + 1;
    }
}

/// Exec [`is_block_tag`].
fn is_block_tag_exec(n: &str, closing: bool) -> (r: bool)
    ensures
        r == is_block_tag(n@, closing),
{
    let div: &[char] = &['d', 'i', 'v'];
    let p: &[char] = &['p'];
    let bq: &[char] = &['b', 'l', 'o', 'c', 'k', 'q', 'u', 'o', 't', 'e'];
    let hr: &[char] = &['h', 'r'];
    let pre: &[char] = &['p', 'r', 'e'];
    assert(div@ =~= seq!['d', 'i', 'v']);
    assert(p@ =~= seq!['p']);
    assert(bq@ =~= seq!['b', 'l', 'o', 'c', 'k', 'q', 'u', 'o', 't', 'e']);
    assert(hr@ =~= seq!['h', 'r']);
    assert(pre@ =~= seq!['p', 'r', 'e']);
    let cs = chars_of(n);
    let heading = cs.len() == 2 && cs[0] == 'h' && '1' <= cs[1] && cs[1] <= '6';
    str_is(n, div) || str_is(n, p) || heading || str_is(n, bq) || (!closing && (str_is(n, hr) || str_is(n, pre)))
}

/// Exec [`collect_inline`].
fn collect_inline_exec(tokens: &Vec<HtmlToken>, j: usize) -> (r: (Vec<HtmlToken>, usize))
    requires
        j <= tokens@.len(),
    ensures
        (tokens_view(r.0@), r.1 as int) == collect_inline(tokens_view(tokens@), j as int),
        j <= r.1 <= tokens@.len(),
{
    let ghost ts = tokens_view(tokens@);
    let mut acc: Vec<HtmlToken> = Vec::new();
    let mut k = j;
    assert(tokens_view(acc@) =~= Seq::<TokV>::empty());
    loop
        invariant
            j <= k <= tokens@.len(),
            ts == tokens_view(tokens@),
            tokens_view(acc@) + collect_inline(ts, k as int).0 == collect_inline(ts, j as int).0,
            collect_inline(ts, k as int).1 == collect_inline(ts, j as int).1,
        decreases tokens@.len() - k,
    {
        if k >= tokens.len() {
            assert(tokens_view(acc@) =~= tokens_view(acc@) + collect_inline(ts, k as int).0);
            return (acc, k);
        }
        assert(ts[k as int] == token_view(tokens@[k as int]));
        let stop = match &tokens[k] {
            HtmlToken::TagOpen { name, .. } => is_block_tag_exec(name.as_str(), false),
            HtmlToken::TagClose { name } => is_block_tag_exec(name.as_str(), true),
            HtmlToken::Text(_) => false,
        };
        if stop {
            assert(tokens_view(acc@) =~= tokens_view(acc@) + collect_inline(ts, k as int).0);
            return (acc, k);
        }
        let ghost before = tokens_view(acc@);
        push_copy(&mut acc, &tokens[k]);
        assert(tokens_view(acc@) + collect_inline(ts, k + 1).0 =~= before + collect_inline(ts, k as int).0);
        k = k + 1;
    }
}

/// Exec [`strip_prefix`]: the rest of `s` after the prefix `p`.
fn strip_prefix_exec(s: &str, p: &[char]) -> (r: Option<String>)
    ensures
        match r {
            None => strip_prefix(s@, p@) is None,
            Some(x) => strip_prefix(s@, p@) == Some(x@),
        },
{
    let cs = chars_of(s);
    if p.len() > cs.len() {
        return None;
    }
    let mut i: usize = 0;
    while i < p.len()
        invariant
            i <= p@.len() <= cs@.len(),
            cs@ == s@,
            forall|k: int| 0 <= k < i ==> cs@[k] == p@[k],
        decreases p@.len() - i,
    {
        if cs[i] != p[i] {
            assert(cs@.subrange(0, p@.len() as int)[i as int] != p@[i as int]);
            return None;
        }
        i = i + 1;
    }
    assert(cs@.subrange(0, p@.len() as int) =~= p@);
    let rest = string_range(&cs, p.len(), cs.len());
    assert(cs@.subrange(p@.len() as int, cs@.len() as int) =~= cs@.skip(p@.len() as int));
    Some(rest)
}

/// Exec [`class_lang`].
fn class_lang_exec(attrs: &Vec<(String, String)>) -> (r: Option<String>)
    ensures
        match r {
            None => class_lang(attrs_view(attrs@)) is None,
            Some(x) => class_lang(attrs_view(attrs@)) == Some(x@),
        },
{
    let key = string_from_chars(&vec!['c', 'l', 'a', 's', 's']);
    assert(key@ =~= seq!['c', 'l', 'a', 's', 's']);
    let language: &[char] = &['l', 'a', 'n', 'g', 'u', 'a', 'g', 'e', '-'];
    let lang: &[char] = &['l', 'a', 'n', 'g', '-'];
    assert(language@ =~= seq!['l', 'a', 'n', 'g', 'u', 'a', 'g', 'e', '-']);
    assert(lang@ =~= seq!['l', 'a', 'n', 'g', '-']);
    match get_attr(attrs.as_slice(), key.as_str()) {
        Some(class) => match strip_prefix_exec(class, language) {
            Some(l) => Some(l),
            None => strip_prefix_exec(class, lang),
        },
        None => None,
    }
}

/// Exec [`collect_pre`] from `j` with empty code and language.
fn collect_pre_exec(tokens: &Vec<HtmlToken>, j: usize) -> (r: (String, String, usize))
    requires
        j <= tokens@.len(),
    ensures
        (r.0@, r.1@, r.2 as int) == collect_pre(tokens_view(tokens@), j as int, Seq::empty(), Seq::empty()),
        j <= r.2 <= tokens@.len(),
{
    let ghost ts = tokens_view(tokens@);
    let pre: &[char] = &['p', 'r', 'e'];
    let code_w: &[char] = &['c', 'o', 'd', 'e'];
    assert(pre@ =~= seq!['p', 'r', 'e']);
    assert(code_w@ =~= seq!['c', 'o', 'd', 'e']);
    let mut code = String::new();
    let mut lang = String::new();
    let mut k = j;
    loop
        invariant
            j <= k <= tokens@.len(),
            ts == tokens_view(tokens@),
            pre@ == seq!['p', 'r', 'e'],
            code_w@ == seq!['c', 'o', 'd', 'e'],
            collect_pre(ts, j as int, Seq::empty(), Seq::empty()) == collect_pre(ts, k as int, code@, lang@),
        decreases tokens@.len() - k,
    {
        if k >= tokens.len() {
            return (code, lang, k);
        }
        assert(ts[k as int] == token_view(tokens@[k as int]));
        match &tokens[k] {
            HtmlToken::TagClose { name } => {
                if str_is(name.as_str(), pre) {
                    return (code, lang, k + 1);
                }
            },
            HtmlToken::TagOpen { name, attrs, .. } => {
                if str_is(name.as_str(), code_w) {
                    match class_lang_exec(attrs) {
                        Some(l) => {
                            lang = l;
                        },
                        None => {},
                    }
                }
            },
            HtmlToken::Text(t) => {
                crate::utf8_text::string_push_str(&mut code, t.as_str());
            },
        }
        k = k + 1;
    }
}

/// Exec [`has_visible`].
fn has_visible_exec(spans: &Vec<Span>) -> (r: bool)
    ensures
        r == has_visible(spans_view(spans@)),
{
    proof {
        lemma_spans_view_index(spans@);
    }
    let ghost sv = spans_view(spans@);
    let mut k: usize = 0;
    while k < spans.len()
        invariant
            k <= spans@.len() == sv.len(),
            sv == spans_view(spans@),
            forall|q: int| 0 <= q < sv.len() ==> #[trigger] sv[q] == span_view(spans@[q]),
            forall|q: int| 0 <= q < k ==> (#[trigger] sv[q] matches SpanV::Text(t, _) && trim(t).len() == 0),
        decreases spans@.len() - k,
    {
        assert(sv[k as int] == span_view(spans@[k as int]));
        match &spans[k] {
            Span::Text { text, .. } => {
                let cs = chars_of(text.as_str());
                let n = cs.len();
                let t = trim_range(&cs, 0, n);
                assert(cs@.subrange(0, n as int) =~= cs@);
                if t.len() > 0 {
                    return true;
                }
            },
            _ => {
                return true;
            },
        }
        k = k + 1;
    }
    false
}

/// Document blocks and centering markers of an HTML block.
pub fn parse_html_block_content(html: &str) -> (r: Vec<HtmlBlockAction>)
    ensures
        actions_view(r@) == actions_from(tokens_from(html@, 0), 0),
{
    let tokens = tokenize_html(html);
    let ghost ts = tokens_view(tokens@);
    let n = tokens.len();
    let mut actions: Vec<HtmlBlockAction> = Vec::new();
    let mut i: usize = 0;
    assert(actions_view(actions@) + actions_from(ts, 0) =~= actions_from(ts, 0));
    while i < n
        invariant
            i <= n == tokens@.len(),
            ts == tokens_view(tokens@),
            actions_view(actions@) + actions_from(ts, i as int) == actions_from(ts, 0),
        decreases n - i,
    {
        let ghost before = actions_view(actions@);
        let next = html_step(&tokens, i, &mut actions);
        proof {
            assert(actions_view(actions@) + actions_from(ts, next as int) =~= before + actions_from(ts, i as int));
        }
        i = next;
    }
    assert(actions_view(actions@) =~= actions_view(actions@) + actions_from(ts, i as int));
    actions
}

/// Push an action.
fn push_action(actions: &mut Vec<HtmlBlockAction>, a: HtmlBlockAction)
    ensures
        actions_view(final(actions)@) == actions_view(old(actions)@).push(action_view(a)),
{
    let ghost av = action_view(a);
    actions.push(a);
    assert(actions_view(actions@) =~= actions_view(old(actions)@).push(av));
}

/// `<h1>`..`<h6>` or `<p>` at `i`.
fn step_heading_or_para(tokens: &Vec<HtmlToken>, i: usize, actions: &mut Vec<HtmlBlockAction>) -> (next: usize)
    requires
        i < tokens@.len(),
        ({
            let t = tokens_view(tokens@)[i as int];
            t matches TokV::Open(name, av, _) && !spec_center_align(name, av) && name != seq!['d', 'i', 'v']
                && name != seq!['h', 'r'] && name != seq!['i', 'm', 'g'] && (is_heading_name(name) || name == seq![
                'p',
            ])
        }),
    ensures
        i < next <= tokens@.len(),
        actions_view(old(actions)@) + actions_from(tokens_view(tokens@), i as int) == actions_view(final(actions)@)
            + actions_from(tokens_view(tokens@), next as int),
{
    let ghost ts = tokens_view(tokens@);
    assert(tokens@.len() == tokens.len());
    proof {
        lemma_collectors(ts, i + 1);
    }
    assert(ts[i as int] == token_view(tokens@[i as int]));
    match &tokens[i] {
        HtmlToken::TagOpen { name, .. } => {
            let (inner, e) = collect_block_exec(tokens, i + 1, name.as_str());
            let spans = parse_inline_tokens(inner.as_slice(), Style::default());
            proof {
                lemma_spans_view_index(spans@);
            }
            if spans.len() > 0 {
                let cs = chars_of(name.as_str());
                if cs.len() == 2 && cs[0] == 'h' {
                    let level: u8 = (cs[1] as u8) - 48;
                    push_action(actions, HtmlBlockAction::Block(Block::Heading { level, spans }));
                } else {
                    push_action(actions, HtmlBlockAction::Block(Block::Para(spans)));
                }
            }
            e
        },
        _ => i + 1,
    }
}

/// `<blockquote>` at `i`.
fn step_quote(tokens: &Vec<HtmlToken>, i: usize, actions: &mut Vec<HtmlBlockAction>) -> (next: usize)
    requires
        i < tokens@.len(),
        ({
            let t = tokens_view(tokens@)[i as int];
            t matches TokV::Open(name, av, _) && !spec_center_align(name, av) && !is_heading_name(name) && name
                != seq!['d', 'i', 'v'] && name != seq!['h', 'r'] && name != seq!['i', 'm', 'g'] && name != seq!['p']
                && name == seq!['b', 'l', 'o', 'c', 'k', 'q', 'u', 'o', 't', 'e']
        }),
    ensures
        i < next <= tokens@.len(),
        actions_view(old(actions)@) + actions_from(tokens_view(tokens@), i as int) == actions_view(final(actions)@)
            + actions_from(tokens_view(tokens@), next as int),
{
    let ghost ts = tokens_view(tokens@);
    assert(tokens@.len() == tokens.len());
    proof {
        lemma_collectors(ts, i + 1);
    }
    let (inner, e) = collect_quote_exec(tokens, i + 1);
    let spans = parse_inline_tokens(inner.as_slice(), Style::default());
    proof {
        lemma_spans_view_index(spans@);
    }
    if spans.len() > 0 {
        let mut items: Vec<Block> = Vec::new();
        let para = Block::Para(spans);
        let ghost pv = block_view(para);
        items.push(para);
        proof {
            reveal_with_fuel(crate::md::blocks_view, 2);
            assert(items@.drop_first() =~= Seq::<Block>::empty());
            assert(blocks_view(items@) =~= seq![pv]);
        }
        push_action(actions, HtmlBlockAction::Block(Block::BlockQuote { kind: QuoteKind::Plain, items }));
    }
    e
}

/// `<pre>` at `i`.
fn step_pre(tokens: &Vec<HtmlToken>, i: usize, actions: &mut Vec<HtmlBlockAction>) -> (next: usize)
    requires
        i < tokens@.len(),
        ({
            let t = tokens_view(tokens@)[i as int];
            t matches TokV::Open(name, av, _) && !spec_center_align(name, av) && !is_heading_name(name) && name
                != seq!['d', 'i', 'v'] && name != seq!['h', 'r'] && name != seq!['i', 'm', 'g'] && name != seq!['p']
                && name != seq!['b', 'l', 'o', 'c', 'k', 'q', 'u', 'o', 't', 'e'] && name == seq!['p', 'r', 'e']
        }),
    ensures
        i < next <= tokens@.len(),
        actions_view(old(actions)@) + actions_from(tokens_view(tokens@), i as int) == actions_view(final(actions)@)
            + actions_from(tokens_view(tokens@), next as int),
{
    let ghost ts = tokens_view(tokens@);
    assert(tokens@.len() == tokens.len());
    proof {
        lemma_collectors(ts, i + 1);
    }
    let (code, lang, e) = collect_pre_exec(tokens, i + 1);
    push_action(actions, HtmlBlockAction::Block(Block::CodeBlock { lang, code }));
    e
}

/// A run of inline tags starting at `i`.
fn step_inline(tokens: &Vec<HtmlToken>, i: usize, actions: &mut Vec<HtmlBlockAction>) -> (next: usize)
    requires
        i < tokens@.len(),
        ({
            let t = tokens_view(tokens@)[i as int];
            t matches TokV::Open(name, av, _) && !spec_center_align(name, av) && !is_heading_name(name) && name
                != seq!['d', 'i', 'v'] && name != seq!['h', 'r'] && name != seq!['i', 'm', 'g'] && name != seq!['p']
                && name != seq!['b', 'l', 'o', 'c', 'k', 'q', 'u', 'o', 't', 'e'] && name != seq!['p', 'r', 'e']
        }),
    ensures
        i < next <= tokens@.len(),
        actions_view(old(actions)@) + actions_from(tokens_view(tokens@), i as int) == actions_view(final(actions)@)
            + actions_from(tokens_view(tokens@), next as int),
{
    let ghost ts = tokens_view(tokens@);
    assert(tokens@.len() == tokens.len());
    proof {
        lemma_collectors(ts, i + 1);
    }
    let (rest, e) = collect_inline_exec(tokens, i + 1);
    let mut inline: Vec<HtmlToken> = Vec::new();
    push_copy(&mut inline, &tokens[i]);
    let mut k: usize = 0;
    while k < rest.len()
        invariant
            k <= rest@.len(),
            tokens_view(inline@) == seq![ts[i as int]] + tokens_view(rest@).take(k as int),
            ts == tokens_view(tokens@),
            i < ts.len(),
        decreases rest@.len() - k,
    {
        push_copy(&mut inline, &rest[k]);
        assert(tokens_view(inline@) =~= seq![ts[i as int]] + tokens_view(rest@).take(k + 1));
        k = k + 1;
    }
    assert(tokens_view(rest@).take(k as int) =~= tokens_view(rest@));
    let spans = parse_inline_tokens(inline.as_slice(), Style::default());
    if has_visible_exec(&spans) {
        push_action(actions, HtmlBlockAction::Block(Block::Para(spans)));
    }
    e
}

/// The image paragraph of an `<img>` at `i`.
fn image_para(attrs: &Vec<(String, String)>) -> (a: HtmlBlockAction)
    ensures
        action_view(a) == ActV::Block(BlockV::Para(seq![image_of(attrs_view(attrs@))])),
{
    let img = image_span(attrs);
    let mut v: Vec<Span> = Vec::new();
    let ghost iv = span_view(img);
    v.push(img);
    proof {
        reveal_with_fuel(spans_view, 2);
        assert(v@.drop_first() =~= Seq::<Span>::empty());
    }
    HtmlBlockAction::Block(Block::Para(v))
}

/// Process the token at `i`; the index of the next unprocessed token.
fn html_step(tokens: &Vec<HtmlToken>, i: usize, actions: &mut Vec<HtmlBlockAction>) -> (next: usize)
    requires
        i < tokens@.len(),
    ensures
        i < next <= tokens@.len(),
        actions_view(old(actions)@) + actions_from(tokens_view(tokens@), i as int) == actions_view(final(actions)@)
            + actions_from(tokens_view(tokens@), next as int),
{
    let ghost ts = tokens_view(tokens@);
    assert(tokens@.len() == tokens.len());
    assert(ts[i as int] == token_view(tokens@[i as int]));
    match &tokens[i] {
        HtmlToken::TagOpen { name, attrs, .. } => {
            let nm = name.as_str();
            if is_center_align(nm, attrs.as_slice()) {
                push_action(actions, HtmlBlockAction::OpenCenter);
                return i + 1;
            }
            let div: &[char] = &['d', 'i', 'v'];
            let hr: &[char] = &['h', 'r'];
            let img: &[char] = &['i', 'm', 'g'];
            let p: &[char] = &['p'];
            let bq: &[char] = &['b', 'l', 'o', 'c', 'k', 'q', 'u', 'o', 't', 'e'];
            let pre: &[char] = &['p', 'r', 'e'];
            assert(div@ =~= seq!['d', 'i', 'v']);
            assert(hr@ =~= seq!['h', 'r']);
            assert(img@ =~= seq!['i', 'm', 'g']);
            assert(p@ =~= seq!['p']);
            assert(bq@ =~= seq!['b', 'l', 'o', 'c', 'k', 'q', 'u', 'o', 't', 'e']);
            assert(pre@ =~= seq!['p', 'r', 'e']);
            if str_is(nm, div) {
                return i + 1;
            }
            if str_is(nm, hr) {
                push_action(actions, HtmlBlockAction::Block(Block::Rule));
                return i + 1;
            }
            if str_is(nm, img) {
                push_action(actions, image_para(attrs));
                return i + 1;
            }
            let cs = chars_of(nm);
            let heading = cs.len() == 2 && cs[0] == 'h' && '1' <= cs[1] && cs[1] <= '6';
            if heading || str_is(nm, p) {
                return step_heading_or_para(tokens, i, actions);
            }
            if str_is(nm, bq) {
                return step_quote(tokens, i, actions);
            }
            if str_is(nm, pre) {
                return step_pre(tokens, i, actions);
            }
            step_inline(tokens, i, actions)
        },
        HtmlToken::TagClose { name } => {
            let div: &[char] = &['d', 'i', 'v'];
            let center: &[char] = &['c', 'e', 'n', 't', 'e', 'r'];
            assert(div@ =~= seq!['d', 'i', 'v']);
            assert(center@ =~= center_word());
            if str_is(name.as_str(), div) || str_is(name.as_str(), center) {
                push_action(actions, HtmlBlockAction::CloseCenter);
            }
            i + 1
        },
        HtmlToken::Text(text) => {
            let cs = chars_of(text.as_str());
            let n = cs.len();
            let t = trim_range(&cs, 0, n);
            assert(cs@.subrange(0, n as int) =~= cs@);
            if t.len() > 0 {
                let mut v: Vec<Span> = Vec::new();
                v.push(Span::Text { text: text.clone(), style: Style::default() });
                proof {
                    reveal_with_fuel(spans_view, 2);
                    assert(v@.drop_first() =~= Seq::<Span>::empty());
                }
                push_action(actions, HtmlBlockAction::Block(Block::Para(v)));
            }
            i + 1
        },
    }
}

/// Text between an opening and a closing `<i>` or `<em>` is italic and
/// keeps the rest of the base style; between `<b>` or `<strong>` it is bold
/// and keeps the rest; between `<s>`, `<del>` or `<strike>` it is struck
/// through and keeps the rest.
pub proof fn lemma_style_tags(
    name: Seq<char>,
    av: Seq<(Seq<char>, Seq<char>)>,
    self_closing: bool,
    w: Seq<char>,
    base: Style,
)
    requires
        w.len() > 0,
        !base.code,
    ensures
        ({
            let sp = inline_spans(seq![TokV::Open(name, av, self_closing), TokV::Text(w), TokV::Close(name)], base);
            &&& (name == seq!['i'] || name == seq!['e', 'm']) ==> sp == seq![
                SpanV::Text(w, Style { bold: base.bold, italic: true, strike: base.strike, code: false }),
            ]
            &&& (name == seq!['b'] || name == seq!['s', 't', 'r', 'o', 'n', 'g']) ==> sp == seq![
                SpanV::Text(w, Style { bold: true, italic: base.italic, strike: base.strike, code: false }),
            ]
            &&& (name == seq!['s'] || name == seq!['d', 'e', 'l'] || name == seq!['s', 't', 'r', 'i', 'k', 'e']) ==> sp
                == seq![SpanV::Text(w, Style { bold: base.bold, italic: base.italic, strike: true, code: false })]
            &&& (name == seq!['c', 'o', 'd', 'e'] || name == seq!['k', 'b', 'd']) ==> sp == seq![
                SpanV::Code(w, Style { bold: base.bold, italic: base.italic, strike: base.strike, code: true }),
            ]
            &&& (name == seq!['u'] || name == seq!['s', 'p', 'a', 'n']) ==> sp == seq![SpanV::Text(w, base)]
        }),
{
    let toks = seq![TokV::Open(name, av, self_closing), TokV::Text(w), TokV::Close(name)];
    let t1 = seq![TokV::Open(name, av, self_closing)];
    let t2 = seq![TokV::Open(name, av, self_closing), TokV::Text(w)];
    assert(t1.drop_last() =~= Seq::<TokV>::empty());
    assert(t2.drop_last() =~= t1);
    assert(toks.drop_last() =~= t2);
    let k = style_kind(name);
    if k == 4 {
        let st = with_flag(base, k);
        assert(inline_fold(t1.drop_last(), base) == (Seq::<SpanV>::empty(), seq![base], Seq::<(Seq<char>, Option<Seq<char>>, int)>::empty()));
        assert(t1.last() == TokV::Open(name, av, self_closing));
        assert(seq![base].push(st) =~= seq![base, st]);
        assert(seq![base].last() == base);
        assert(inline_fold(t1, base) == (Seq::<SpanV>::empty(), seq![base, st], Seq::<(Seq<char>, Option<Seq<char>>, int)>::empty()));
        assert(t2.last() == TokV::Text(w));
        assert(seq![base, st].last() == st);
        assert(Seq::<SpanV>::empty().push(SpanV::Code(w, st)) =~= seq![SpanV::Code(w, st)]);
        assert(inline_fold(t2, base) == (seq![SpanV::Code(w, st)], seq![base, st], Seq::<(Seq<char>, Option<Seq<char>>, int)>::empty()));
        assert(seq![base, st].drop_last() =~= seq![base]);
        assert(toks.last() == TokV::Close(name));
        assert(inline_fold(toks, base) == (seq![SpanV::Code(w, st)], seq![base], Seq::<(Seq<char>, Option<Seq<char>>, int)>::empty()));
    }
    if name == seq!['c', 'o', 'd', 'e'] || name == seq!['k', 'b', 'd'] || name == seq!['u'] || name == seq![
        's',
        'p',
        'a',
        'n',
    ] {
        assert(name != seq!['b'] && name != seq!['s', 't', 'r', 'o', 'n', 'g'] && name != seq!['i'] && name
            != seq!['e', 'm'] && name != seq!['s'] && name != seq!['d', 'e', 'l'] && name != seq![
            's',
            't',
            'r',
            'i',
            'k',
            'e',
        ]) by {
            let lb = seq!['b'];
            let li = seq!['i'];
            let ls = seq!['s'];
            let ld = seq!['d', 'e', 'l'];
            assert(lb.len() == 1 && lb[0] == 'b');
            assert(li.len() == 1 && li[0] == 'i');
            assert(ls.len() == 1 && ls[0] == 's');
            assert(ld.len() == 3 && ld[0] == 'd');
            assert(seq!['e', 'm'].len() == 2);
            assert(seq!['s', 't', 'r', 'o', 'n', 'g'].len() == 6);
            assert(seq!['s', 't', 'r', 'i', 'k', 'e'].len() == 6);
            if name == seq!['u'] {
                assert(name.len() == 1 && name[0] == 'u');
            } else if name == seq!['k', 'b', 'd'] {
                assert(name.len() == 3 && name[0] == 'k');
            } else {
                assert(name.len() == 4);
            }
        }
        if name == seq!['u'] || name == seq!['s', 'p', 'a', 'n'] {
            assert(name != seq!['c', 'o', 'd', 'e'] && name != seq!['k', 'b', 'd']) by {
                if name == seq!['s', 'p', 'a', 'n'] {
                    assert(name[0] == 's');
                } else {
                    assert(name.len() == 1);
                }
            }
        }
    }
    if k == 1 || k == 2 || k == 3 || k == 5 {
        let st = with_flag(base, k);
        assert(!st.code);
        assert(inline_fold(t1.drop_last(), base) == (Seq::<SpanV>::empty(), seq![base], Seq::<(Seq<char>, Option<Seq<char>>, int)>::empty()));
        assert(t1.last() == TokV::Open(name, av, self_closing));
        assert(seq![base].push(st) =~= seq![base, st]);
        assert(seq![base].last() == base);
        assert(inline_fold(t1, base) == (Seq::<SpanV>::empty(), seq![base, st], Seq::<(Seq<char>, Option<Seq<char>>, int)>::empty()));
        assert(t2.last() == TokV::Text(w));
        assert(seq![base, st].last() == st);
        assert(Seq::<SpanV>::empty().push(SpanV::Text(w, st)) =~= seq![SpanV::Text(w, st)]);
        assert(inline_fold(t2, base) == (seq![SpanV::Text(w, st)], seq![base, st], Seq::<(Seq<char>, Option<Seq<char>>, int)>::empty()));
        assert(seq![base, st].drop_last() =~= seq![base]);
        assert(toks.last() == TokV::Close(name));
        assert(inline_fold(toks, base) == (seq![SpanV::Text(w, st)], seq![base], Seq::<(Seq<char>, Option<Seq<char>>, int)>::empty()));
    }
    if name == seq!['e', 'm'] {
        assert(name != seq!['b'] && name != seq!['s', 't', 'r', 'o', 'n', 'g']) by {
            assert(name.len() == 2);
            assert(name[0] == 'e');
        }
    }
    if name == seq!['i'] {
        assert(name != seq!['b']) by {
            assert(name[0] == 'i');
        }
    }
    if name == seq!['s'] || name == seq!['d', 'e', 'l'] || name == seq!['s', 't', 'r', 'i', 'k', 'e'] {
        assert(name != seq!['b'] && name != seq!['s', 't', 'r', 'o', 'n', 'g'] && name != seq!['i'] && name
            != seq!['e', 'm']) by {
            if name == seq!['s', 't', 'r', 'i', 'k', 'e'] {
                assert(name[3] == 'i');
            } else {
                assert(name.len() != 6 && name.len() != 2 && name[0] != 'b' && name[0] != 'i');
            }
        }
    }
}

/// `<br>` is a line break, and text between `<a href=…>` and `</a>` becomes
/// a link to that address (with the tag's title) around the text in the
/// base style.
pub proof fn lemma_break_and_link_tags(av: Seq<(Seq<char>, Seq<char>)>, sc: bool, w: Seq<char>, base: Style)
    requires
        w.len() > 0,
        !base.code,
    ensures
        inline_spans(seq![TokV::Open(seq!['b', 'r'], av, sc)], base) == seq![SpanV::LineBreak],
        inline_spans(seq![TokV::Open(seq!['a'], av, sc), TokV::Text(w), TokV::Close(seq!['a'])], base) == seq![
            SpanV::Link(attr_or_empty(av, seq!['h', 'r', 'e', 'f']), find_attr(av, seq!['t', 'i', 't', 'l', 'e']), seq![SpanV::Text(w, base)]),
        ],
{
    let br = seq!['b', 'r'];
    let a = seq!['a'];
    assert(br.len() == 2 && br[0] == 'b' && br[1] == 'r');
    assert(a.len() == 1 && a[0] == 'a');
    assert(seq!['b'].len() == 1 && seq!['i'].len() == 1 && seq!['s'].len() == 1 && seq!['u'].len() == 1);
    assert(seq!['b'][0] == 'b' && seq!['i'][0] == 'i' && seq!['s'][0] == 's' && seq!['u'][0] == 'u');
    assert(seq!['e', 'm'][0] == 'e');
    assert(seq!['s', 't', 'r', 'o', 'n', 'g'].len() == 6 && seq!['d', 'e', 'l'].len() == 3);
    assert(seq!['s', 't', 'r', 'i', 'k', 'e'].len() == 6 && seq!['c', 'o', 'd', 'e'].len() == 4);
    assert(seq!['k', 'b', 'd'].len() == 3 && seq!['m', 'a', 'r', 'k'].len() == 4 && seq!['s', 'p', 'a', 'n'].len() == 4);
    assert(seq!['s', 'm', 'a', 'l', 'l'].len() == 5 && seq!['s', 'u', 'b'].len() == 3 && seq!['s', 'u', 'p'].len() == 3);
    assert(style_kind(br) == 0);
    assert(style_kind(a) == 0);
    let e = Seq::<(Seq<char>, Option<Seq<char>>, int)>::empty();
    let t1 = seq![TokV::Open(br, av, sc)];
    assert(t1.drop_last() =~= Seq::<TokV>::empty());
    assert(inline_fold(t1.drop_last(), base) == (Seq::<SpanV>::empty(), seq![base], e));
    assert(Seq::<SpanV>::empty().push(SpanV::LineBreak) =~= seq![SpanV::LineBreak]);
    assert(inline_fold(t1, base) == (seq![SpanV::LineBreak], seq![base], e));
    let l = (attr_or_empty(av, seq!['h', 'r', 'e', 'f']), find_attr(av, seq!['t', 'i', 't', 'l', 'e']), 0int);
    let a1 = seq![TokV::Open(a, av, sc)];
    let a2 = seq![TokV::Open(a, av, sc), TokV::Text(w)];
    let a3 = seq![TokV::Open(a, av, sc), TokV::Text(w), TokV::Close(a)];
    assert(a1.drop_last() =~= Seq::<TokV>::empty());
    assert(a2.drop_last() =~= a1);
    assert(a3.drop_last() =~= a2);
    assert(a1.last() == TokV::Open(a, av, sc));
    assert(a2.last() == TokV::Text(w));
    assert(a3.last() == TokV::Close(a));
    assert(e.push(l) =~= seq![l]);
    assert(inline_fold(a1, base) == (Seq::<SpanV>::empty(), seq![base], seq![l]));
    assert(seq![base].last() == base);
    assert(Seq::<SpanV>::empty().push(SpanV::Text(w, base)) =~= seq![SpanV::Text(w, base)]);
    assert(inline_fold(a2, base) == (seq![SpanV::Text(w, base)], seq![base], seq![l]));
    let sp = seq![SpanV::Text(w, base)];
    assert(sp.subrange(0, 0) =~= Seq::<SpanV>::empty());
    assert(sp.subrange(0, 1) =~= sp);
    assert(seq![l].last() == l);
    assert(seq![l].drop_last() =~= e);
    assert(wrap_link(sp, l) =~= seq![SpanV::Link(l.0, l.1, sp)]);
    assert(inline_fold(a3, base) == (seq![SpanV::Link(l.0, l.1, sp)], seq![base], e));
}

} // verus!
