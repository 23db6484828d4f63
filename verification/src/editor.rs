//! Editor helpers: how the editor's text is styled (Markdown token colours
//! and find-match highlights) and the line and column shown in the status
//! bar.

use vstd::prelude::*;
use std::ops::Range;
use crate::highlight::{Tk, tokenize, toks_view, spec_tokenize, in_order, lemma_tokens_in_order};
use crate::find::ranges_view;
use crate::theme::{Palette, Rgba};
use crate::utf8_text::{bytes_of, boundary, count_starts};
use crate::text_utils::{nl_count, count_nl};

verus! {

/// Offset of the start of the line that contains offset `b`.
pub open spec fn line_begin(t: Seq<u8>, b: int) -> int
    decreases b,
{
    if b <= 0 {
        0
    } else if t[b - 1] == 10u8 {
        b
    } else {
        line_begin(t, b - 1)
    }
}

/// Line and column (both counted from 1) of a byte offset, clamped to the
/// end of the text: the line is one more than the newlines before it, the
/// column one more than the characters between the line start and it.
pub fn line_col(text: &str, byte: usize) -> (r: (usize, usize))
    requires
        byte >= bytes_of(text@).len() || boundary(bytes_of(text@), byte as int),
        bytes_of(text@).len() < usize::MAX,
    ensures
        ({
            let t = bytes_of(text@);
            let b = if byte < t.len() { byte as int } else { t.len() as int };
            &&& r.0 == nl_count(t.subrange(0, b)) + 1
            &&& r.1 == count_starts(t.subrange(line_begin(t, b), b)) + 1
        }),
{
    let t = text.as_bytes();
    let b = if byte < t.len() { byte } else { t.len() };
    let line = count_nl(t, 0, b) + 1;
    let mut ls = b;
    while ls > 0 && t[ls - 1] != 10u8
        invariant
            ls <= b <= t@.len(),
            line_begin(t@, b as int) == line_begin(t@, ls as int),
        decreases ls,
    {
        ls = ls - 1;
    }
    let mut i = ls;
    let mut c: usize = 0;
    while i < b
        invariant
            ls <= i <= b <= t@.len(),
            c == count_starts(t@.subrange(ls as int, i as int)),
            c <= i - ls,
        decreases b - i,
    {
        assert(t@.subrange(ls as int, i + 1).drop_last() =~= t@.subrange(ls as int, i as int));
        if !(0x80 <= t[i] && t[i] <= 0xbf) {
            c = c + 1;
        }
        i = i + 1;
    }
    (line, c + 1)
}

/// A stretch of the editor's text drawn in one style.
#[derive(Clone, Copy, PartialEq, Eq, Structural, Debug)]
pub struct Run {
    pub start: usize,
    pub end: usize,
    pub color: Rgba,
    /// The background, when there is one (code, find matches).
    pub background: Option<Rgba>,
    /// Drawn in the bold face (`**strong**`).
    pub bold: bool,
    /// Drawn skewed (`*emphasis*`).
    pub italics: bool,
}

/// The colour of a token kind.
pub open spec fn color_of(tk: Tk, pal: Palette) -> Rgba {
    match tk {
        Tk::Plain => pal.text,
        Tk::Heading => pal.md_heading,
        Tk::Strong => pal.md_strong,
        Tk::Emphasis => pal.md_em,
        Tk::Strike => pal.faint,
        Tk::Code => pal.md_url,
        Tk::LinkText => pal.md_link,
        Tk::LinkUrl => pal.md_url,
        Tk::ListMarker => pal.md_list,
        Tk::Quote => pal.md_quote,
        Tk::Task => pal.md_task,
        Tk::Hr => pal.md_hr,
        Tk::Html => pal.md_html,
        Tk::Fence => pal.md_fence,
        Tk::CodeText => pal.code_text,
    }
}

/// The kind of the first token (in document order) covering offset `a`,
/// from the `k`-th on; plain text when none does.
pub open spec fn kind_at(toks: Seq<(int, int, Tk)>, a: int, k: int) -> Tk
    decreases toks.len() - k,
{
    if k < 0 || k >= toks.len() {
        Tk::Plain
    } else if toks[k].0 <= a < toks[k].1 {
        toks[k].2
    } else {
        kind_at(toks, a, k + 1)
    }
}

/// Offset `a` lies in a find match.
pub open spec fn in_match(ms: Seq<(int, int)>, a: int) -> bool {
    exists|i: int| 0 <= i < ms.len() && (#[trigger] ms[i]).0 <= a < ms[i].1
}

/// The look of a stretch starting with token kind `tk`: its colour and
/// background (code on the code background; a find match in the text colour
/// on the match background), bold for strong text, skewed for emphasis.
pub open spec fn styled(r: Run, tk: Tk, matched: bool, pal: Palette) -> bool {
    &&& r.color == if matched { pal.text } else { color_of(tk, pal) }
    &&& r.background == if matched {
        Some(pal.match_bg)
    } else if tk == Tk::Code || tk == Tk::CodeText {
        Some(pal.code_bg)
    } else {
        None
    }
    &&& r.bold == (tk == Tk::Strong)
    &&& r.italics == (tk == Tk::Emphasis)
}

/// Where a style may change: the text's ends and every token's and every
/// match's ends.
pub open spec fn cut_points(toks: Seq<(int, int, Tk)>, ms: Seq<(int, int)>, len: int) -> Set<int> {
    Set::new(
        |p: int|
            p == 0 || p == len || (exists|i: int| 0 <= i < toks.len() && (p == (#[trigger] toks[i]).0 || p == toks[i].1))
                || (exists|i: int| 0 <= i < ms.len() && (p == (#[trigger] ms[i]).0 || p == ms[i].1)),
    )
}

/// `v` is strictly increasing.
pub open spec fn increasing(v: Seq<usize>) -> bool {
    forall|i: int, j: int| 0 <= i < j < v.len() ==> v[i] < v[j]
}

/// Both ends of `r` are among `v`.
pub open spec fn holds_range(v: Seq<usize>, r: Range<usize>) -> bool {
    v.contains(r.start) && v.contains(r.end)
}

/// Insert `p` into the strictly increasing `v`.
fn insert_point(v: Vec<usize>, p: usize) -> (r: Vec<usize>)
    requires
        increasing(v@),
    ensures
        increasing(r@),
        r@.contains(p),
        forall|x: usize| v@.contains(x) ==> #[trigger] r@.contains(x),
        forall|x: usize| #[trigger] r@.contains(x) ==> v@.contains(x) || x == p,
{
    let mut i: usize = 0;
    while i < v.len() && v[i] < p
        invariant
            i <= v@.len(),
            forall|j: int| 0 <= j < i ==> v@[j] < p,
        decreases v@.len() - i,
    {
        i = i + 1;
    }
    if i < v.len() && v[i] == p {
        assert(v@[i as int] == p);
        return v;
    }
    let ghost old_v = v@;
    proof {
        assert forall|j: int| i <= j < old_v.len() implies old_v[j] > p by {
            if j > i {
                assert(old_v[i as int] < old_v[j]);
            }
        }
    }
    let mut w = v;
    w.insert(i, p);
    proof {
        assert(w@[i as int] == p);
        assert forall|x: usize| w@.contains(x) implies (old_v.contains(x) || x == p) by {
            let k = choose|k: int| 0 <= k < w@.len() && w@[k] == x;
            if k < i {
                assert(old_v[k] == x);
            } else if k > i {
                assert(old_v[k - 1] == x);
            }
        }
        assert forall|x: usize| old_v.contains(x) implies w@.contains(x) by {
            let k = choose|k: int| 0 <= k < old_v.len() && old_v[k] == x;
            if k < i {
                assert(w@[k] == x);
            } else {
                assert(w@[k + 1] == x);
            }
        }
        assert forall|a: int, b: int| 0 <= a < b < w@.len() implies w@[a] < w@[b] by {
            if b < i {
                assert(w@[a] == old_v[a] && w@[b] == old_v[b]);
            } else if a < i && b == i {
                assert(w@[a] == old_v[a]);
            } else if a < i && b > i {
                assert(w@[a] == old_v[a]);
                assert(w@[b] == old_v[b - 1]);
            } else if a == i {
                assert(w@[b] == old_v[b - 1]);
            } else {
                assert(w@[a] == old_v[a - 1]);
                assert(w@[b] == old_v[b - 1]);
            }
        }
    }
    w
}

/// The editor's text cut into stretches of one style each: the stretches
/// run from the start to the end of the text, cut at exactly the
/// [`cut_points`] of its Markdown tokens and the find matches, and each is
/// styled by the first token covering its start and whether a match does.
pub fn editor_runs(text: &str, pal: &Palette, matches: &[Range<usize>]) -> (r: Vec<Run>)
    requires
        forall|i: int| 0 <= i < matches@.len() ==> (#[trigger] matches@[i]).start <= matches@[i].end <= bytes_of(
            text@,
        ).len(),
    ensures
        ({
            let len = bytes_of(text@).len() as int;
            let toks = spec_tokenize(bytes_of(text@));
            let ms = ranges_view(matches@);
            let pts = cut_points(toks, ms, len);
            &&& len == 0 <==> r@.len() == 0
            &&& r@.len() > 0 ==> r@[0].start == 0 && r@.last().end == len
            &&& forall|i: int| 0 <= i < r@.len() ==> (#[trigger] r@[i]).start < r@[i].end
            &&& forall|i: int| 0 <= i < r@.len() - 1 ==> (#[trigger] r@[i]).end == r@[i + 1].start
            &&& forall|i: int| 0 <= i < r@.len() ==> pts.contains((#[trigger] r@[i]).start as int)
            &&& forall|p: int| pts.contains(p) && p < len ==> exists|i: int| 0 <= i < r@.len() && (#[trigger] r@[i]).start == p
            &&& forall|i: int|
                0 <= i < r@.len() ==> styled(
                    #[trigger] r@[i],
                    kind_at(toks, r@[i].start as int, 0),
                    in_match(ms, r@[i].start as int),
                    *pal,
                )
        }),
{
    let len = text.as_bytes().len();
    let syn = tokenize(text);
    let toks = syn.tokens;
    let ghost tv = toks_view(toks@);
    let ghost ms = ranges_view(matches@);
    let ghost pts = cut_points(tv, ms, len as int);
    proof {
        lemma_tokens_in_order(bytes_of(text@));
    }
    let mut v: Vec<usize> = Vec::new();
    v = insert_point(v, 0);
    v = insert_point(v, len);
    let mut k: usize = 0;
    while k < toks.len()
        invariant
            k <= toks@.len(),
            tv == toks_view(toks@),
            increasing(v@),
            forall|x: usize| #[trigger] v@.contains(x) ==> pts.contains(x as int) && x <= len,
            v@.contains(0usize),
            v@.contains(len),
            forall|i: int| 0 <= i < k ==> #[trigger] holds_range(v@, toks@[i].0),
            in_order(tv, 0, len as int),
            pts == cut_points(tv, ms, len as int),
        decreases toks@.len() - k,
    {
        assert(tv[k as int] == (toks@[k as int].0.start as int, toks@[k as int].0.end as int, toks@[k as int].1));
        let ghost v0 = v@;
        v = insert_point(v, toks[k].0.start);
        let ghost v1 = v@;
        v = insert_point(v, toks[k].0.end);
        proof {
            assert forall|i: int| 0 <= i < k + 1 implies #[trigger] holds_range(v@, toks@[i].0) by {
                if i < k {
                    assert(holds_range(v0, toks@[i].0));
                }
            }
        }
        k = k + 1;
    }
    let mut k: usize = 0;
    while k < matches.len()
        invariant
            k <= matches@.len(),
            tv == toks_view(toks@),
            ms == ranges_view(matches@),
            increasing(v@),
            forall|x: usize| #[trigger] v@.contains(x) ==> pts.contains(x as int) && x <= len,
            v@.contains(0usize),
            v@.contains(len),
            forall|i: int| 0 <= i < toks@.len() ==> #[trigger] holds_range(v@, toks@[i].0),
            forall|i: int| 0 <= i < k ==> #[trigger] holds_range(v@, matches@[i]),
            forall|i: int| 0 <= i < matches@.len() ==> (#[trigger] matches@[i]).start <= matches@[i].end <= len,
            pts == cut_points(tv, ms, len as int),
        decreases matches@.len() - k,
    {
        assert(ms[k as int] == (matches@[k as int].start as int, matches@[k as int].end as int));
        let ghost v0 = v@;
        v = insert_point(v, matches[k].start);
        let ghost v1 = v@;
        v = insert_point(v, matches[k].end);
        proof {
            assert forall|i: int| 0 <= i < toks@.len() implies #[trigger] holds_range(v@, toks@[i].0) by {
                assert(holds_range(v0, toks@[i].0));
            }
            assert forall|i: int| 0 <= i < k + 1 implies #[trigger] holds_range(v@, matches@[i]) by {
                if i < k {
                    assert(holds_range(v0, matches@[i]));
                }
            }
        }
        k = k + 1;
    }
    proof {
        assert forall|p: int| pts.contains(p) implies v@.contains(p as usize) && 0 <= p by {
            if exists|i: int| 0 <= i < tv.len() && (p == (#[trigger] tv[i]).0 || p == tv[i].1) {
                let i = choose|i: int| 0 <= i < tv.len() && (p == (#[trigger] tv[i]).0 || p == tv[i].1);
                assert(holds_range(v@, toks@[i].0));
            } else if exists|i: int| 0 <= i < ms.len() && (p == (#[trigger] ms[i]).0 || p == ms[i].1) {
                let i = choose|i: int| 0 <= i < ms.len() && (p == (#[trigger] ms[i]).0 || p == ms[i].1);
                assert(holds_range(v@, matches@[i]));
            }
        }
    }
    runs_of(&v, len, &toks, matches, pal)
}

} // verus!

verus! {

/// The style of the stretch starting at `a`.
fn run_at(a: usize, b: usize, toks: &Vec<(Range<usize>, Tk)>, matches: &[Range<usize>], pal: &Palette) -> (r: Run)
    ensures
        r.start == a,
        r.end == b,
        styled(r, kind_at(toks_view(toks@), a as int, 0), in_match(ranges_view(matches@), a as int), *pal),
{
    let ghost tv = toks_view(toks@);
    let mut kind = Tk::Plain;
    let mut found = false;
    let mut k: usize = 0;
    while k < toks.len() && !found
        invariant
            k <= toks@.len(),
            tv == toks_view(toks@),
            found ==> kind_at(tv, a as int, 0) == kind,
            !found ==> kind_at(tv, a as int, 0) == kind_at(tv, a as int, k as int) && kind == Tk::Plain,
        decreases toks@.len() - k + if found { 0int } else { 1int },
    {
        assert(tv[k as int] == (toks@[k as int].0.start as int, toks@[k as int].0.end as int, toks@[k as int].1));
        if toks[k].0.start <= a && a < toks[k].0.end {
            kind = toks[k].1;
            found = true;
        } else {
            k = k + 1;
        }
    }
    let ghost ms = ranges_view(matches@);
    let mut matched = false;
    let mut j: usize = 0;
    while j < matches.len()
        invariant
            j <= matches@.len(),
            ms == ranges_view(matches@),
            matched == exists|i: int| 0 <= i < j && (#[trigger] ms[i]).0 <= a < ms[i].1,
        decreases matches@.len() - j,
    {
        assert(ms[j as int] == (matches@[j as int].start as int, matches@[j as int].end as int));
        if matches[j].start <= a && a < matches[j].end {
            matched = true;
        }
        j = j + 1;
    }
    assert(ms.len() == matches@.len());
    assert(tv.len() == toks@.len());
    assert(kind == kind_at(tv, a as int, 0));
    assert(matched == in_match(ms, a as int));
    let color = if matched { pal.text } else { color_exec(kind, pal) };
    let background = if matched {
        Some(pal.match_bg)
    } else if kind == Tk::Code || kind == Tk::CodeText {
        Some(pal.code_bg)
    } else {
        None
    };
    Run { start: a, end: b, color, background, bold: kind == Tk::Strong, italics: kind == Tk::Emphasis }
}

/// Exec [`color_of`].
fn color_exec(tk: Tk, pal: &Palette) -> (c: Rgba)
    ensures
        c == color_of(tk, *pal),
{
    match tk {
        Tk::Plain => pal.text,
        Tk::Heading => pal.md_heading,
        Tk::Strong => pal.md_strong,
        Tk::Emphasis => pal.md_em,
        Tk::Strike => pal.faint,
        Tk::Code => pal.md_url,
        Tk::LinkText => pal.md_link,
        Tk::LinkUrl => pal.md_url,
        Tk::ListMarker => pal.md_list,
        Tk::Quote => pal.md_quote,
        Tk::Task => pal.md_task,
        Tk::Hr => pal.md_hr,
        Tk::Html => pal.md_html,
        Tk::Fence => pal.md_fence,
        Tk::CodeText => pal.code_text,
    }
}

/// The stretches between consecutive cut points `v`.
fn runs_of(v: &Vec<usize>, len: usize, toks: &Vec<(Range<usize>, Tk)>, matches: &[Range<usize>], pal: &Palette) -> (r: Vec<Run>)
    requires
        increasing(v@),
        v@.contains(0usize),
        v@.contains(len),
        forall|x: usize| v@.contains(x) ==> x <= len,
    ensures
        len == 0 <==> r@.len() == 0,
        r@.len() > 0 ==> r@[0].start == 0 && r@.last().end == len,
        forall|i: int| 0 <= i < r@.len() ==> (#[trigger] r@[i]).start < r@[i].end,
        forall|i: int| 0 <= i < r@.len() - 1 ==> (#[trigger] r@[i]).end == r@[i + 1].start,
        forall|i: int| 0 <= i < r@.len() ==> v@.contains((#[trigger] r@[i]).start),
        forall|x: usize| v@.contains(x) && x < len ==> exists|i: int| 0 <= i < r@.len() && (#[trigger] r@[i]).start == x,
        forall|i: int|
            0 <= i < r@.len() ==> styled(
                #[trigger] r@[i],
                kind_at(toks_view(toks@), r@[i].start as int, 0),
                in_match(ranges_view(matches@), r@[i].start as int),
                *pal,
            ),
{
    let n = v.len();
    proof {
        let a = choose|k: int| 0 <= k < v@.len() && v@[k] == 0usize;
        let b = choose|k: int| 0 <= k < v@.len() && v@[k] == len;
        assert forall|k: int| 0 <= k < v@.len() implies v@[k] >= v@[a] && v@[k] <= v@[b] by {
            assert(v@.contains(v@[k]));
            if k < a {
                assert(v@[k] < v@[a]);
            }
        }
        if a > 0 {
            assert(v@[0] < v@[a]);
        }
        if b < n - 1 {
            assert(v@[b] < v@[n - 1]);
            assert(v@.contains(v@[n - 1]));
        }
        assert(v@[0] == 0);
        assert(v@[n - 1] == len);
    }
    let mut r: Vec<Run> = Vec::new();
    let mut i: usize = 0;
    while i + 1 < n
        invariant
            n == v@.len(),
            n >= 1,
            increasing(v@),
            v@[0] == 0,
            v@[n - 1] == len,
            i + 1 <= n,
            r@.len() == i,
            forall|k: int| 0 <= k < i ==> (#[trigger] r@[k]).start == v@[k] && r@[k].end == v@[k + 1],
            forall|k: int|
                0 <= k < i ==> styled(
                    #[trigger] r@[k],
                    kind_at(toks_view(toks@), r@[k].start as int, 0),
                    in_match(ranges_view(matches@), r@[k].start as int),
                    *pal,
                ),
        decreases n - i,
    {
        let run = run_at(v[i], v[i + 1], toks, matches, pal);
        r.push(run);
        i = i + 1;
    }
    proof {
        assert(i + 1 == n);
        if len == 0 {
            assert forall|k: int| 0 <= k < n implies v@[k] == 0 by {
                assert(v@.contains(v@[k]));
            }
            if n > 1 {
                assert(v@[0] < v@[1]);
            }
        } else {
            assert(n > 1);
        }
        assert forall|x: usize| v@.contains(x) && x < len implies exists|k: int| 0 <= k < r@.len() && (#[trigger] r@[k]).start == x by {
            let k = choose|k: int| 0 <= k < v@.len() && v@[k] == x;
            if k == n - 1 {
                assert(false);
            }
            assert(r@[k].start == x);
        }
        assert forall|k: int| 0 <= k < r@.len() implies v@.contains((#[trigger] r@[k]).start) by {
            assert(v@[k] == r@[k].start);
        }
    }
    r
}

} // verus!
