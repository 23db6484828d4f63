//! Find & Replace: match extraction and atomic replacement.

use vstd::prelude::*;
use vstd::utf8::*;
use std::ops::Range;
use crate::utf8_text::{first_occ, find_from, lemma_first_occ_props, bytes_of, boundary, is_boundary, splice_string, push_valid_range, string_from_utf8, push_range};

verus! {

broadcast use vstd::utf8::encode_utf8_valid_utf8;

/// Lower-case mapping of a string (Unicode case folding rules of std).
pub uninterp spec fn lowercase(s: Seq<char>) -> Seq<char>;

/// Lower-cased copy of `s`.
/// Calls `str::to_lowercase`; its result is named [`lowercase`] of the
/// characters of `s`, nothing more is claimed.
#[verifier::external_body]
fn str_to_lowercase(s: &str) -> (r: String)
    ensures
        r@ == lowercase(s@),
{
    s.to_lowercase()
}

/// Search state owned by the app.
pub struct Finder {
    pub query: String,
    pub replace: String,
    pub case_sensitive: bool,
    pub regex: bool,
    pub open: bool,
}

impl Default for Finder {
    fn default() -> (f: Self)
        ensures
            f.query@.len() == 0,
            f.replace@.len() == 0,
            !f.case_sensitive,
            !f.regex,
            !f.open,
    {
        Finder { query: String::new(), replace: String::new(), case_sensitive: false, regex: false, open: false }
    }
}

/// Non-overlapping occurrences of a non-empty `n` in `h` from offset `i`,
/// scanning left to right, as `(start, end)` byte ranges.
pub open spec fn find_all(h: Seq<u8>, n: Seq<u8>, i: int) -> Seq<(int, int)>
    decreases h.len() - i,
{
    if n.len() == 0 {
        Seq::empty()
    } else {
        match first_occ(h, n, i) {
            None => Seq::empty(),
            Some(p) => if p + n.len() > i && p + n.len() <= h.len() {
                seq![(p, p + n.len() as int)] + find_all(h, n, p + n.len())
            } else {
                Seq::empty()
            },
        }
    }
}

/// The text searched: as is when case sensitive, lower-cased otherwise.
pub open spec fn haystack(f: &Finder, text: Seq<char>) -> Seq<char> {
    if f.case_sensitive { text } else { lowercase(text) }
}

/// The needle searched for.
pub open spec fn needle(f: &Finder) -> Seq<char> {
    if f.case_sensitive { f.query@ } else { lowercase(f.query@) }
}

/// The byte ranges of all matches of the query in `text`.
pub open spec fn spec_matches(f: &Finder, text: Seq<char>) -> Seq<(int, int)> {
    if f.query@.len() == 0 {
        Seq::empty()
    } else {
        find_all(bytes_of(haystack(f, text)), bytes_of(needle(f)), 0)
    }
}

/// The ranges as plain pairs.
pub open spec fn ranges_view(r: Seq<Range<usize>>) -> Seq<(int, int)> {
    r.map_values(|x: Range<usize>| (x.start as int, x.end as int))
}

/// Every range lies within `t` on character boundaries.
pub open spec fn ranges_on_boundaries(t: Seq<u8>, ms: Seq<(int, int)>) -> bool {
    forall|k: int|
        0 <= k < ms.len() ==> 0 <= (#[trigger] ms[k]).0 <= ms[k].1 <= t.len() && boundary(t, ms[k].0)
            && boundary(t, ms[k].1)
}

/// Text with every range replaced by `rep`, ranges taken in order from `last`.
pub open spec fn replace_ranges(t: Seq<u8>, ms: Seq<(int, int)>, rep: Seq<u8>, last: int) -> Seq<u8>
    decreases ms.len(),
{
    if ms.len() == 0 {
        t.subrange(last, t.len() as int)
    } else {
        t.subrange(last, ms[0].0) + rep + replace_ranges(t, ms.skip(1), rep, ms[0].1)
    }
}

fn bytes_copy(b: &[u8]) -> (v: Vec<u8>)
    ensures
        v@ == b@,
{
    let mut v: Vec<u8> = Vec::new();
    push_range(&mut v, b, 0, b.len());
    assert(b@.subrange(0, b@.len() as int) =~= b@);
    v
}

impl Finder {
    /// Byte ranges of all non-overlapping matches, left to right (ranges
    /// index the lower-cased text when the search is case insensitive).
    pub fn matches(&self, text: &str) -> (r: Vec<Range<usize>>)
        ensures
            ranges_view(r@) == spec_matches(self, text@),
    {
        if self.query.as_str().as_bytes().len() == 0 {
            proof {
                assert(self.query@.len() == 0) by {
                    if self.query@.len() > 0 {
                        assert(bytes_of(self.query@).len() > 0);
                    }
                }
            }
            assert(ranges_view(Seq::<Range<usize>>::empty()) =~= Seq::<(int, int)>::empty());
            return Vec::new();
        }
        let hay: Vec<u8> = if self.case_sensitive {
            bytes_copy(text.as_bytes())
        } else {
            let l = str_to_lowercase(text);
            bytes_copy(l.as_str().as_bytes())
        };
        let nd: Vec<u8> = if self.case_sensitive {
            bytes_copy(self.query.as_str().as_bytes())
        } else {
            let l = str_to_lowercase(self.query.as_str());
            bytes_copy(l.as_str().as_bytes())
        };
        let ghost h = hay@;
        let ghost n = nd@;
        let mut out: Vec<Range<usize>> = Vec::new();
        if nd.len() == 0 {
            assert(ranges_view(out@) =~= Seq::<(int, int)>::empty());
            return out;
        }
        let mut from: usize = 0;
        assert(ranges_view(out@) + find_all(h, n, 0) =~= find_all(h, n, 0));
        proof {
            if self.query@.len() == 0 {
                assert(bytes_of(self.query@) =~= Seq::<u8>::empty());
            }
            assert(h == bytes_of(haystack(self, text@)));
            assert(n == bytes_of(needle(self)));
        }
        loop
            invariant
                spec_matches(self, text@) == find_all(h, n, 0),
                h == hay@,
                n == nd@,
                n.len() > 0,
                from <= h.len(),
                ranges_view(out@) + find_all(h, n, from as int) == find_all(h, n, 0),
            decreases h.len() - from,
        {
            match find_from(hay.as_slice(), nd.as_slice(), from) {
                None => {
                    assert(find_all(h, n, from as int) =~= Seq::<(int, int)>::empty());
                    assert(ranges_view(out@) + Seq::<(int, int)>::empty() =~= ranges_view(out@));
                    return out;
                },
                Some(p) => {
                    proof {
                        lemma_first_occ_props(h, n, from as int);
                        assert(p + n.len() <= h.len());
                    }
                    let hl = hay.len();
                    let nl = nd.len();
                    assert(p + nl <= hl);
                    let end = p + nl;
                    let ghost before = out@;
                    out.push(p..end);
                    assert(ranges_view(out@) =~= ranges_view(before) + seq![(p as int, end as int)]);
                    assert(find_all(h, n, from as int) == seq![(p as int, end as int)] + find_all(h, n, end as int));
                    assert(ranges_view(out@) + find_all(h, n, end as int) =~= ranges_view(before) + find_all(h, n, from as int));
                    from = end;
                },
            }
        }
    }

    /// Replace the range `m` of `text` with `replacement`.
    pub fn replace_at(text: &str, m: &Range<usize>, replacement: &str) -> (r: String)
        requires
            m.start <= m.end <= bytes_of(text@).len(),
            boundary(bytes_of(text@), m.start as int),
            boundary(bytes_of(text@), m.end as int),
        ensures
            bytes_of(r@) == bytes_of(text@).subrange(0, m.start as int) + bytes_of(replacement@)
                + bytes_of(text@).subrange(m.end as int, bytes_of(text@).len() as int),
    {
        splice_string(text.as_bytes(), m.start, m.end, replacement.as_bytes())
    }

    /// Replace all matches as one atomic edit; returns the new text and the
    /// number of replacements. The match ranges must index `text` itself.
    pub fn replace_all(&self, text: &str) -> (r: (String, usize))
        requires
            ranges_on_boundaries(bytes_of(text@), spec_matches(self, text@)),
        ensures
            r.1 == spec_matches(self, text@).len(),
            bytes_of(r.0@) == replace_ranges(bytes_of(text@), spec_matches(self, text@), bytes_of(self.replace@), 0),
            r.1 == 0 ==> r.0@ == text@,
    {
        let ms = self.matches(text);
        let t = text.as_bytes();
        let rep = self.replace.as_str().as_bytes();
        let ghost tv = t@;
        let ghost msv = ranges_view(ms@);
        let mut out: Vec<u8> = Vec::new();
        let mut last: usize = 0;
        let mut k: usize = 0;
        proof {
            lemma_ascii_empty();
            assert(msv.skip(0) =~= msv);
            if self.query@.len() > 0 {
                lemma_find_all_sorted(bytes_of(haystack(self, text@)), bytes_of(needle(self)), 0);
            }
        }
        while k < ms.len()
            invariant
                tv == t@,
                tv == bytes_of(text@),
                msv == ranges_view(ms@),
                msv == spec_matches(self, text@),
                ranges_on_boundaries(tv, msv),
                k <= msv.len(),
                last <= tv.len(),
                boundary(tv, last as int),
                k > 0 ==> last as int == msv[k - 1].1,
                k == 0 ==> last == 0,
                valid_utf8(out@),
                rep@ == bytes_of(self.replace@),
                forall|j: int, l: int| 0 <= j < l < msv.len() ==> (#[trigger] msv[j]).1 <= (#[trigger] msv[l]).0,
                forall|j: int| k <= j < msv.len() ==> last <= (#[trigger] msv[j]).0,
                out@ + replace_ranges(tv, msv.skip(k as int), rep@, last as int) == replace_ranges(tv, msv, rep@, 0),
            decreases msv.len() - k,
        {
            let ms_k = &ms[k];
            let a = ms_k.start;
            let b = ms_k.end;
            assert(msv[k as int] == (a as int, b as int));
            proof {
                let rest = msv.skip(k as int);
                assert(rest[0] == msv[k as int]);
                assert(rest.skip(1) =~= msv.skip(k as int + 1));
            }
            push_valid_range(&mut out, t, last, a);
            proof {
                vstd::utf8::encode_utf8_valid_utf8(self.replace@);
            }
            push_valid_range(&mut out, rep, 0, rep.len());
            assert(rep@.subrange(0, rep@.len() as int) =~= rep@);
            last = b;
            k = k + 1;
        }
        push_valid_range(&mut out, t, last, t.len());
        proof {
            assert(msv.skip(k as int) =~= Seq::<(int, int)>::empty());
            if msv.len() == 0 {
                assert(tv.subrange(0, tv.len() as int) =~= tv);
                vstd::utf8::encode_utf8_decode_utf8(text@);
            }
        }
        let res = string_from_utf8(out);
        proof {
            if msv.len() == 0 {
                vstd::utf8::encode_utf8_decode_utf8(res@);
            }
        }
        (res, ms.len())
    }
}

proof fn lemma_ascii_empty()
    ensures
        valid_utf8(Seq::<u8>::empty()),
{
}

/// Replacing the range `s..e` of a text (as [`Finder::replace_at`] does)
/// puts the replacement at `s..s + len` on character boundaries, and
/// replacing that range with what was cut out gives the text back.
pub proof fn lemma_replace_at_round_trip(text: Seq<char>, s: int, e: int, rep: Seq<char>)
    requires
        0 <= s <= e <= bytes_of(text).len(),
        boundary(bytes_of(text), s),
        boundary(bytes_of(text), e),
    ensures
        ({
            let t = bytes_of(text);
            let w = bytes_of(rep);
            let r = t.subrange(0, s) + w + t.subrange(e, t.len() as int);
            &&& r.subrange(s, s + w.len()) == w
            &&& boundary(r, s)
            &&& boundary(r, s + w.len())
            &&& r.subrange(0, s) + t.subrange(s, e) + r.subrange(s + w.len(), r.len() as int) == t
        }),
{
    let t = bytes_of(text);
    let w = bytes_of(rep);
    let r = t.subrange(0, s) + w + t.subrange(e, t.len() as int);
    assert(r.subrange(s, s + w.len()) =~= w);
    assert(r.subrange(0, s) =~= t.subrange(0, s));
    assert(r.subrange(s + w.len(), r.len() as int) =~= t.subrange(e, t.len() as int));
    assert(t.subrange(0, s) + t.subrange(s, e) + t.subrange(e, t.len() as int) =~= t);
    if w.len() > 0 {
        crate::utf8_text::lemma_first_not_cont(w);
        assert(r[s] == w[0]);
    }
    if e < t.len() {
        assert(r[s + w.len()] == t[e]);
    }
}

/// Matches found from `i` start at or after `i`, are non-empty ranges, and
/// are sorted and disjoint.
pub proof fn lemma_find_all_sorted(h: Seq<u8>, n: Seq<u8>, i: int)
    ensures
        forall|j: int| 0 <= j < find_all(h, n, i).len() ==> i <= (#[trigger] find_all(h, n, i)[j]).0
            <= find_all(h, n, i)[j].1 <= h.len(),
        forall|j: int, l: int|
            0 <= j < l < find_all(h, n, i).len() ==> (#[trigger] find_all(h, n, i)[j]).1 <= (#[trigger] find_all(h, n, i)[l]).0,
    decreases h.len() - i,
{
    if n.len() > 0 {
        lemma_first_occ_props(h, n, i);
        match first_occ(h, n, i) {
            None => {},
            Some(p) => {
                if p + n.len() > i && p + n.len() <= h.len() {
                    lemma_find_all_sorted(h, n, p + n.len());
                    let fa = find_all(h, n, i);
                    let rest = find_all(h, n, p + n.len());
                    assert(fa == seq![(p, p + n.len() as int)] + rest);
                    assert forall|j: int| 0 <= j < fa.len() implies i <= (#[trigger] fa[j]).0 <= fa[j].1 <= h.len() by {
                        if j > 0 {
                            assert(fa[j] == rest[j - 1]);
                        }
                    }
                    assert forall|j: int, l: int| 0 <= j < l < fa.len() implies (#[trigger] fa[j]).1 <= (#[trigger] fa[l]).0 by {
                        assert(fa[l] == rest[l - 1]);
                        if j > 0 {
                            assert(fa[j] == rest[j - 1]);
                        }
                    }
                }
            },
        }
    }
}

} // verus!

verus! {

impl Finder {
    /// [`Finder::replace_all`] when every match range indexes `text` on
    /// character boundaries (always so for case-sensitive search);
    /// `None` otherwise.
    pub fn try_replace_all(&self, text: &str) -> (r: Option<(String, usize)>)
        ensures
            r is Some <==> ranges_on_boundaries(bytes_of(text@), spec_matches(self, text@)),
            r matches Some(p) ==> p.1 == spec_matches(self, text@).len() && bytes_of(p.0@)
                == replace_ranges(bytes_of(text@), spec_matches(self, text@), bytes_of(self.replace@), 0),
    {
        let ms = self.matches(text);
        let t = text.as_bytes();
        let ghost msv = ranges_view(ms@);
        let mut k: usize = 0;
        while k < ms.len()
            invariant
                msv == ranges_view(ms@),
                msv == spec_matches(self, text@),
                t@ == bytes_of(text@),
                k <= msv.len(),
                forall|j: int|
                    0 <= j < k ==> 0 <= (#[trigger] msv[j]).0 <= msv[j].1 <= t@.len() && boundary(t@, msv[j].0)
                        && boundary(t@, msv[j].1),
            decreases msv.len() - k,
        {
            let a = ms[k].start;
            let b = ms[k].end;
            assert(msv[k as int] == (a as int, b as int));
            if !(a <= b && b <= t.len()) {
                return None;
            }
            if !is_boundary(t, a) || !is_boundary(t, b) {
                return None;
            }
            k = k + 1;
        }
        Some(self.replace_all(text))
    }
}

} // verus!
