//! What the preview needs besides painting: the commands it hands back,
//! whether a paragraph holds an image, and the file path an image URL names.

use vstd::prelude::*;
use std::path::PathBuf;
use crate::md::{Span, spans_view, span_view, lemma_spans_view_index};
use crate::highlight::{trim_front, trim_back, trim_bounds};
use crate::utf8_text::{
    bytes_of, chars_of, string_push, string_from_chars, splice_string, lemma_boundary_after_ascii, all_ascii,
    lemma_ascii_valid,
};

verus! {

broadcast use vstd::utf8::encode_utf8_valid_utf8;

/// A user command generated while rendering the preview.
pub enum Cmd {
    OpenUrl(String),
    OpenFile(PathBuf),
    Reveal(PathBuf),
    Toast(String),
}

/// Does this span list hold an image at its top level?
pub fn contains_image(spans: &[Span]) -> (r: bool)
    ensures
        r == exists|k: int| 0 <= k < spans@.len() && #[trigger] spans_view(spans@)[k] is Image,
{
    proof {
        lemma_spans_view_index(spans@);
    }
    let mut i: usize = 0;
    while i < spans.len()
        invariant
            i <= spans@.len(),
            spans_view(spans@).len() == spans@.len(),
            forall|k: int| 0 <= k < spans@.len() ==> #[trigger] spans_view(spans@)[k] == span_view(spans@[k]),
            forall|k: int| 0 <= k < i ==> !(#[trigger] spans_view(spans@)[k] is Image),
        decreases spans@.len() - i,
    {
        match &spans[i] {
            Span::Image { .. } => {
                assert(spans_view(spans@)[i as int] is Image);
                return true;
            },
            _ => {},
        }
        i = i + 1;
    }
    false
}

/// Value of an ASCII hexadecimal digit.
pub open spec fn hex_value(b: u8) -> Option<u8> {
    if 48u8 <= b <= 57u8 {
        Some((b - 48) as u8)
    } else if 97u8 <= b <= 102u8 {
        Some((b - 87) as u8)
    } else if 65u8 <= b <= 70u8 {
        Some((b - 55) as u8)
    } else {
        None
    }
}

/// The byte two characters after a `%` stand for, as `u8::from_str_radix`
/// reads them in base 16: two hex digits, or `+` and one hex digit.
pub open spec fn pct_value(h1: u8, h2: u8) -> Option<u8> {
    match (hex_value(h1), hex_value(h2)) {
        (Some(a), Some(b)) => Some((a * 16 + b) as u8),
        (None, Some(b)) => if h1 == 43u8 { Some(b) } else { None },
        _ => None,
    }
}

/// The character of a byte value (U+0000 to U+00FF).
pub open spec fn byte_char(b: u8) -> char {
    (b as u32) as char
}

/// Percent-decoding of bytes: `%` and two characters that read as a byte
/// give that byte's character, anything else is kept, every byte read as
/// the character of its value.
pub open spec fn decode_pct(b: Seq<u8>) -> Seq<char>
    decreases b.len(),
{
    if b.len() == 0 {
        Seq::empty()
    } else if b[0] == 37u8 {
        if b.len() >= 3 {
            match pct_value(b[1], b[2]) {
                Some(v) => seq![byte_char(v)] + decode_pct(b.skip(3)),
                None => seq!['%', byte_char(b[1]), byte_char(b[2])] + decode_pct(b.skip(3)),
            }
        } else if b.len() == 2 {
            seq!['%', byte_char(b[1])]
        } else {
            seq!['%']
        }
    } else {
        seq![byte_char(b[0])] + decode_pct(b.skip(1))
    }
}

fn hex_exec(b: u8) -> (r: Option<u8>)
    ensures
        r == hex_value(b),
{
    if 48u8 <= b && b <= 57u8 {
        Some(b - 48)
    } else if 97u8 <= b && b <= 102u8 {
        Some(b - 87)
    } else if 65u8 <= b && b <= 70u8 {
        Some(b - 55)
    } else {
        None
    }
}

fn pct_exec(h1: u8, h2: u8) -> (r: Option<u8>)
    ensures
        r == pct_value(h1, h2),
{
    match (hex_exec(h1), hex_exec(h2)) {
        (Some(a), Some(b)) => Some(a * 16 + b),
        (None, Some(b)) => if h1 == 43u8 {
            Some(b)
        } else {
            None
        },
        _ => None,
    }
}

fn byte_char_exec(b: u8) -> (c: char)
    ensures
        c == byte_char(b),
{
    b as char
}

/// Percent-decode a URL text (see [`decode_pct`]).
pub fn decode_percent(s: &str) -> (r: String)
    ensures
        r@ == decode_pct(bytes_of(s@)),
{
    let b = s.as_bytes();
    let ghost t = b@;
    let mut out = String::new();
    let mut i: usize = 0;
    assert(t.skip(0) =~= t);
    while i < b.len()
        invariant
            i <= b@.len(),
            t == b@,
            out@ + decode_pct(t.skip(i as int)) == decode_pct(t),
        decreases b@.len() - i,
    {
        let ghost o = out@;
        let ghost rest = t.skip(i as int);
        if b[i] == 37u8 {
            if b.len() - i > 2 {
                assert(rest.skip(3) =~= t.skip(i + 3));
                match pct_exec(b[i + 1], b[i + 2]) {
                    Some(v) => {
                        string_push(&mut out, byte_char_exec(v));
                    },
                    None => {
                        string_push(&mut out, '%');
                        string_push(&mut out, byte_char_exec(b[i + 1]));
                        string_push(&mut out, byte_char_exec(b[i + 2]));
                    },
                }
                assert(out@ + decode_pct(t.skip(i + 3)) =~= o + decode_pct(rest));
                i = i + 3;
            } else {
                string_push(&mut out, '%');
                if b.len() - i > 1 {
                    string_push(&mut out, byte_char_exec(b[i + 1]));
                }
                assert(t.skip(b@.len() as int) =~= Seq::<u8>::empty());
                assert(out@ + decode_pct(t.skip(b@.len() as int)) =~= o + decode_pct(rest));
                i = b.len();
            }
        } else {
            string_push(&mut out, byte_char_exec(b[i]));
            assert(rest.skip(1) =~= t.skip(i + 1));
            assert(out@ + decode_pct(t.skip(i + 1)) =~= o + decode_pct(rest));
            i = i + 1;
        }
    }
    assert(t.skip(i as int) =~= Seq::<u8>::empty());
    assert(out@ =~= decode_pct(t));
    out
}

/// `cs` without a leading `file:///` or, failing that, `file://`.
pub open spec fn strip_file_scheme(cs: Seq<char>) -> Seq<char> {
    if cs.len() >= 8 && cs.take(8) == seq!['f', 'i', 'l', 'e', ':', '/', '/', '/'] {
        cs.skip(8)
    } else if cs.len() >= 7 && cs.take(7) == seq!['f', 'i', 'l', 'e', ':', '/', '/'] {
        cs.skip(7)
    } else {
        cs
    }
}

/// The path text an image URL names: trimmed, without a `file://` scheme,
/// percent-decoded.
pub open spec fn spec_media_text(url: Seq<char>) -> Seq<char> {
    decode_pct(bytes_of(strip_file_scheme(trim_back(trim_front(url)))))
}

/// `cs[a..]` begins with `w`.
fn chars_match(cs: &Vec<char>, a: usize, w: &[char]) -> (r: bool)
    requires
        a <= cs@.len(),
    ensures
        r == (w@.len() <= cs@.len() - a && cs@.subrange(a as int, a + w@.len()) == w@),
{
    if w.len() > cs.len() - a {
        return false;
    }
    assert(cs@.len() == cs.len());
    let mut k: usize = 0;
    while k < w.len()
        invariant
            k <= w@.len(),
            a <= cs@.len(),
            cs@.len() == cs.len(),
            w@.len() <= cs@.len() - a,
            forall|q: int| 0 <= q < k ==> cs@[a + q] == w@[q],
        decreases w@.len() - k,
    {
        if cs[a + k] != w[k] {
            assert(cs@.subrange(a as int, a + w@.len())[k as int] == cs@[a + k]);
            return false;
        }
        k = k + 1;
    }
    assert(cs@.subrange(a as int, a + w@.len()) =~= w@);
    true
}

/// The path text an image URL names (see [`spec_media_text`]).
pub fn media_path_text(url: &str) -> (r: String)
    ensures
        r@ == spec_media_text(url@),
{
    let cs = chars_of(url);
    let (a, b) = trim_bounds(&cs);
    let ghost tr = cs@.subrange(a as int, b as int);
    let p3: &[char] = &['f', 'i', 'l', 'e', ':', '/', '/', '/'];
    let p2: &[char] = &['f', 'i', 'l', 'e', ':', '/', '/'];
    assert(p3@ =~= seq!['f', 'i', 'l', 'e', ':', '/', '/', '/']);
    assert(p2@ =~= seq!['f', 'i', 'l', 'e', ':', '/', '/']);
    let mut start = a;
    if b - a >= 8 && chars_match(&cs, a, p3) {
        assert(tr.take(8) =~= cs@.subrange(a as int, a + 8));
        start = a + 8;
    } else if b - a >= 7 && chars_match(&cs, a, p2) {
        assert(tr.take(7) =~= cs@.subrange(a as int, a + 7));
        assert(!(tr.len() >= 8 && tr.take(8) == p3@)) by {
            if tr.len() >= 8 && tr.take(8) == p3@ {
                assert(tr.take(8) =~= cs@.subrange(a as int, a + 8));
            }
        }
        start = a + 7;
    } else {
        assert(!(tr.len() >= 8 && tr.take(8) == p3@)) by {
            if tr.len() >= 8 && tr.take(8) == p3@ {
                assert(tr.take(8) =~= cs@.subrange(a as int, a + 8));
            }
        }
        assert(!(tr.len() >= 7 && tr.take(7) == p2@)) by {
            if tr.len() >= 7 && tr.take(7) == p2@ {
                assert(tr.take(7) =~= cs@.subrange(a as int, a + 7));
            }
        }
    }
    let mut rest: Vec<char> = Vec::new();
    let mut k = start;
    while k < b
        invariant
            start <= k <= b <= cs@.len(),
            rest@ == cs@.subrange(start as int, k as int),
        decreases b - k,
    {
        rest.push(cs[k]);
        assert(rest@ =~= cs@.subrange(start as int, k + 1));
        k = k + 1;
    }
    assert(rest@ =~= strip_file_scheme(tr));
    let s = string_from_chars(&rest);
    decode_percent(s.as_str())
}

/// Offset of the first `{` in `t`.
pub open spec fn first_brace(t: Seq<u8>, i: int) -> Option<int>
    decreases t.len() - i,
{
    if i < 0 || i >= t.len() {
        None
    } else if t[i] == 123u8 {
        Some(i)
    } else {
        first_brace(t, i + 1)
    }
}

/// A path text with a `/` put before its first `{`, when that brace does
/// not start the text and follows no `/` or `\\`; `None` otherwise.
pub open spec fn spec_brace_fix(t: Seq<u8>) -> Option<Seq<u8>> {
    match first_brace(t, 0) {
        Some(i) => if i > 0 && t[i - 1] != 47u8 && t[i - 1] != 92u8 {
            Some(t.take(i) + seq![47u8] + t.skip(i))
        } else {
            None
        },
        None => None,
    }
}

/// Exec [`spec_brace_fix`].
pub fn brace_fix(s: &str) -> (r: Option<String>)
    ensures
        match spec_brace_fix(bytes_of(s@)) {
            Some(x) => r matches Some(q) && bytes_of(q@) == x,
            None => r is None,
        },
{
    let t = s.as_bytes();
    let mut i: usize = 0;
    while i < t.len() && t[i] != 123u8
        invariant
            i <= t@.len(),
            t@ == bytes_of(s@),
            first_brace(t@, 0) == first_brace(t@, i as int),
        decreases t@.len() - i,
    {
        i = i + 1;
    }
    if i >= t.len() {
        return None;
    }
    if i > 0 && t[i - 1] != 47u8 && t[i - 1] != 92u8 {
        let w: &[u8] = &[47u8];
        assert(w@ =~= seq![47u8]);
        proof {
            lemma_boundary_after_ascii(t@, i as int);
            assert(all_ascii(w@));
            lemma_ascii_valid(w@);
        }
        let r = splice_string(t, i, i, w);
        assert(t@.subrange(0, i as int) + w@ + t@.subrange(i as int, t@.len() as int) =~= t@.take(i as int) + seq![
            47u8,
        ] + t@.skip(i as int));
        Some(r)
    } else {
        None
    }
}

} // verus!
