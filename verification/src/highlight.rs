//! Markdown-aware tokenization of editor text: line by line, with the
//! fenced-code state carried from line to line, and emphasis, code spans,
//! links and the like scanned within a line. Every offset is a byte offset.

use vstd::prelude::*;
use vstd::utf8::*;
use std::ops::Range;
use crate::utf8_text::{
    bytes_of, boundary, bytes_at, char_len_at, char_len, match_at, is_white_space, char_is_whitespace, chars_of,
    str_range, lemma_next_boundary, lemma_boundary_after_ascii,
};
use crate::text_utils::{next_nl, find_line_end};

verus! {

broadcast use vstd::utf8::encode_utf8_valid_utf8, vstd::utf8::encode_utf8_decode_utf8;

/// Token categories (colors are chosen by the editor).
#[derive(Clone, Copy, Debug, PartialEq, Eq, Structural)]
pub enum Tk {
    Plain,
    Heading,
    Strong,
    Emphasis,
    Strike,
    Code,
    LinkText,
    LinkUrl,
    ListMarker,
    Quote,
    Task,
    Hr,
    Html,
    Fence,
    CodeText,
}

/// A tokenized text: the text and its tokens, byte ranges in document order.
pub struct Syntax {
    pub text: String,
    pub tokens: Vec<(Range<usize>, Tk)>,
}

/// The model of tokens: `(start, end, kind)`.
pub open spec fn toks_view(v: Seq<(Range<usize>, Tk)>) -> Seq<(int, int, Tk)> {
    Seq::new(v.len(), |i: int| (v[i].0.start as int, v[i].0.end as int, v[i].1))
}

/// First offset in `[i, e)` at which `w` occurs entirely before `e`.
pub open spec fn occ_in(t: Seq<u8>, w: Seq<u8>, i: int, e: int) -> Option<int>
    decreases e - i,
{
    if i < 0 || i >= e || i + w.len() > e || e > t.len() {
        None
    } else if t.subrange(i, i + w.len()) == w {
        Some(i)
    } else {
        occ_in(t, w, i + 1, e)
    }
}

pub proof fn lemma_occ_in(t: Seq<u8>, w: Seq<u8>, i: int, e: int)
    ensures
        occ_in(t, w, i, e) matches Some(p) ==> i <= p && p + w.len() <= e && e <= t.len() && t.subrange(
            p,
            p + w.len(),
        ) == w,
    decreases e - i,
{
    if !(i < 0 || i >= e || i + w.len() > e || e > t.len()) && t.subrange(i, i + w.len()) != w {
        lemma_occ_in(t, w, i + 1, e);
    }
}

/// `w` occurs at `i`, entirely before `e`.
pub open spec fn at(t: Seq<u8>, i: int, e: int, w: Seq<u8>) -> bool {
    i + w.len() <= e && bytes_at(t, i, w)
}

/// A plain token over `[a, b)` when it is not empty.
pub open spec fn plain(a: int, b: int) -> Seq<(int, int, Tk)> {
    if b > a { seq![(a, b, Tk::Plain)] } else { Seq::empty() }
}

/// Length of the run of bytes `b` at `i`, within `[i, e)`.
pub open spec fn run_of(t: Seq<u8>, i: int, e: int, b: u8) -> nat
    decreases e - i,
{
    if 0 <= i < e && i < t.len() && t[i] == b { 1 + run_of(t, i + 1, e, b) } else { 0 }
}

/// `n` backticks.
pub open spec fn ticks(n: nat) -> Seq<u8> {
    Seq::new(n, |k: int| 96u8)
}

/// Offset of the `)` that closes the parenthesis open at depth `d`,
/// scanning from `j` within `[j, e)`.
pub open spec fn paren_close(t: Seq<u8>, j: int, e: int, d: nat) -> Option<int>
    decreases e - j,
{
    if j < 0 || j >= e || j >= t.len() {
        None
    } else if t[j] == 41u8 && d == 1 {
        Some(j)
    } else if t[j] == 40u8 {
        paren_close(t, j + 1, e, d + 1)
    } else if t[j] == 41u8 {
        paren_close(t, j + 1, e, (d - 1) as nat)
    } else {
        paren_close(t, j + 1, e, d)
    }
}

pub proof fn lemma_paren_close(t: Seq<u8>, j: int, e: int, d: nat)
    ensures
        paren_close(t, j, e, d) matches Some(k) ==> j <= k < e && k < t.len() && t[k] == 41u8,
    decreases e - j,
{
    if !(j < 0 || j >= e || j >= t.len()) && !(t[j] == 41u8 && d == 1) {
        if t[j] == 40u8 {
            lemma_paren_close(t, j + 1, e, d + 1);
        } else if t[j] == 41u8 {
            lemma_paren_close(t, j + 1, e, (d - 1) as nat);
        } else {
            lemma_paren_close(t, j + 1, e, d);
        }
    }
}

/// A link `[text](url)` (or image `![text](url)`) opening at `i`: the
/// offset of the `]` and the end of the `(url)` part.
pub open spec fn link_at(t: Seq<u8>, i: int, e: int) -> Option<(int, int)> {
    let open = if at(t, i, e, seq![33u8, 91u8]) { i + 2 } else { i + 1 };
    match occ_in(t, seq![93u8, 40u8], open, e) {
        Some(j) => match paren_close(t, j + 2, e, 1) {
            Some(k) => Some((j, k + 1)),
            None => None,
        },
        None => None,
    }
}

/// First lone `*` (not followed by another `*`) in `[j, e)`.
pub open spec fn single_star(t: Seq<u8>, j: int, e: int) -> Option<int>
    decreases e - j,
{
    if j < 0 || j >= e || j >= t.len() {
        None
    } else if t[j] == 42u8 && !(j + 1 < e && j + 1 < t.len() && t[j + 1] == 42u8) {
        Some(j)
    } else {
        single_star(t, j + 1, e)
    }
}

pub proof fn lemma_single_star(t: Seq<u8>, j: int, e: int)
    ensures
        single_star(t, j, e) matches Some(k) ==> j <= k < e && k < t.len() && t[k] == 42u8,
    decreases e - j,
{
    if !(j < 0 || j >= e || j >= t.len()) && !(t[j] == 42u8 && !(j + 1 < e && j + 1 < t.len() && t[j + 1]
        == 42u8)) {
        lemma_single_star(t, j + 1, e);
    }
}

/// The characters of the character that starts at `p`.
pub open spec fn char_at(t: Seq<u8>, p: int) -> Seq<char> {
    decode_utf8(t.subrange(p, p + char_len_at(t, p)))
}

/// A `*` at `i` may open emphasis: it is not escaped by a `\` right before
/// it on the line, and a non-whitespace character follows on the line.
pub open spec fn emph_possible(t: Seq<u8>, s: int, e: int, i: int) -> bool {
    &&& !(i > s && t[i - 1] == 92u8)
    &&& i + 1 < e
    &&& char_at(t, i + 1).len() > 0
    &&& !is_white_space(char_at(t, i + 1)[0])
}

/// A fence marker, or strong, struck-through or code text, that opens at
/// `i`: its token and where scanning resumes.
pub open spec fn inline_a(t: Seq<u8>, i: int, e: int) -> Option<(Seq<(int, int, Tk)>, int)> {
    let strong = if at(t, i, e, seq![42u8, 42u8]) || at(t, i, e, seq![95u8, 95u8]) {
        occ_in(t, seq![42u8, 42u8], i + 2, e)
    } else {
        None
    };
    let strike = if at(t, i, e, seq![126u8, 126u8]) { occ_in(t, seq![126u8, 126u8], i + 2, e) } else { None };
    let run = run_of(t, i, e, 96u8);
    let code = if run > 0 { occ_in(t, ticks(run), i + run, e) } else { None };
    if at(t, i, e, seq![96u8, 96u8, 96u8]) {
        Some((seq![(i, i + 3, Tk::Fence)], i + 3))
    } else if strong is Some {
        Some((seq![(i, strong->0 + 2, Tk::Strong)], strong->0 + 2))
    } else if strike is Some {
        Some((seq![(i, strike->0 + 2, Tk::Strike)], strike->0 + 2))
    } else if code is Some {
        Some((seq![(i, code->0 + run, Tk::Code)], code->0 + run))
    } else {
        None
    }
}

/// A link, emphasis or HTML tag that opens at `i`: its tokens and where
/// scanning resumes.
pub open spec fn inline_b(t: Seq<u8>, s: int, i: int, e: int) -> Option<(Seq<(int, int, Tk)>, int)> {
    let link = if t[i] == 91u8 || at(t, i, e, seq![33u8, 91u8]) { link_at(t, i, e) } else { None };
    let emph = if t[i] == 42u8 && emph_possible(t, s, e, i) { single_star(t, i + 1, e) } else { None };
    let html = if t[i] == 60u8 { occ_in(t, seq![62u8], i, e) } else { None };
    if link is Some {
        let (te, ue) = link->0;
        Some((seq![(i, te + 1, Tk::LinkText), (te + 1, ue, Tk::LinkUrl)], ue))
    } else if emph is Some {
        Some((seq![(i, emph->0 + 1, Tk::Emphasis)], emph->0 + 1))
    } else if html is Some {
        Some((seq![(i, html->0 + 1, Tk::Html)], html->0 + 1))
    } else {
        None
    }
}

/// The tokens that open at `i`, in the order the markers are tried, and
/// where scanning resumes.
pub open spec fn inline_at(t: Seq<u8>, s: int, i: int, e: int) -> Option<(Seq<(int, int, Tk)>, int)> {
    match inline_a(t, i, e) {
        Some(r) => Some(r),
        None => inline_b(t, s, i, e),
    }
}

/// Where scanning goes on when nothing opens at `i`: past an escaped
/// character, or past the character at `i`.
pub open spec fn skip_at(t: Seq<u8>, i: int, e: int) -> int {
    if t[i] == 92u8 {
        i + 1 + if i + 1 < e { char_len_at(t, i + 1) } else { 1 }
    } else {
        i + char_len_at(t, i)
    }
}

pub proof fn lemma_inline_at(t: Seq<u8>, s: int, i: int, e: int)
    requires
        0 <= i < e <= t.len(),
    ensures
        inline_at(t, s, i, e) matches Some((x, j)) ==> i < j <= e,
{
    let run = run_of(t, i, e, 96u8);
    lemma_occ_in(t, seq![42u8, 42u8], i + 2, e);
    lemma_occ_in(t, seq![126u8, 126u8], i + 2, e);
    lemma_occ_in(t, ticks(run), i + run, e);
    let open = if at(t, i, e, seq![33u8, 91u8]) { i + 2 } else { i + 1 };
    lemma_occ_in(t, seq![93u8, 40u8], open, e);
    lemma_occ_in(t, seq![62u8], i, e);
    lemma_single_star(t, i + 1, e);
    if let Some(j) = occ_in(t, seq![93u8, 40u8], open, e) {
        lemma_paren_close(t, j + 2, e, 1);
    }
}

/// Inline tokens of the line `[s, e)` from `i`, with plain text pending
/// since `ps`.
pub open spec fn scan(t: Seq<u8>, s: int, e: int, i: int, ps: int) -> Seq<(int, int, Tk)>
    decreases e + 5 - i,
{
    if i < 0 || i >= e || e > t.len() {
        plain(ps, e)
    } else {
        proof {
            lemma_inline_at(t, s, i, e);
        }
        match inline_at(t, s, i, e) {
            Some((x, j)) => plain(ps, i) + x + scan(t, s, e, j, j),
            None => scan(t, s, e, skip_at(t, i, e), ps),
        }
    }
}

/// Number of spaces at `i`, within `[i, e)`.
pub open spec fn spaces(t: Seq<u8>, i: int, e: int) -> nat {
    run_of(t, i, e, 32u8)
}

/// Number of ASCII digits at `i`, within `[i, e)`.
pub open spec fn digit_run(t: Seq<u8>, i: int, e: int) -> nat
    decreases e - i,
{
    if 0 <= i < e && i < t.len() && 48u8 <= t[i] <= 57u8 { 1 + digit_run(t, i + 1, e) } else { 0 }
}

/// First offset in `[i, e)` holding `a` or `b`.
pub open spec fn find2(t: Seq<u8>, i: int, e: int, a: u8, b: u8) -> Option<int>
    decreases e - i,
{
    if i < 0 || i >= e || i >= t.len() {
        None
    } else if t[i] == a || t[i] == b {
        Some(i)
    } else {
        find2(t, i + 1, e, a, b)
    }
}

pub proof fn lemma_find2(t: Seq<u8>, i: int, e: int, a: u8, b: u8)
    ensures
        find2(t, i, e, a, b) matches Some(p) ==> i <= p < e && p < t.len() && (t[p] == a || t[p] == b),
    decreases e - i,
{
    if !(i < 0 || i >= e || i >= t.len()) && !(t[i] == a || t[i] == b) {
        lemma_find2(t, i + 1, e, a, b);
    }
}

/// End of a task marker: the first `[` of `[ts, e)` opens `[ ] ` or `[x] `.
pub open spec fn task_marker(t: Seq<u8>, ts: int, e: int) -> Option<int> {
    match find2(t, ts, e, 91u8, 91u8) {
        Some(p) => if at(t, p, e, seq![91u8, 32u8, 93u8, 32u8]) || at(t, p, e, seq![91u8, 120u8, 93u8, 32u8]) {
            Some(p + 4)
        } else {
            None
        },
        None => None,
    }
}

/// End of a list marker at `ts`: `-`, `*` or `+` (with its space when one
/// follows), or digits followed by `. ` or `) `.
pub open spec fn list_marker(t: Seq<u8>, ts: int, e: int) -> Option<int> {
    if ts < 0 || ts >= e || ts >= t.len() {
        None
    } else {
        let f = t[ts];
        let m: int = if f == 45u8 || f == 42u8 || f == 43u8 {
            if ts + 1 < e && t[ts + 1] == 32u8 { 2 } else { 1 }
        } else if 48u8 <= f <= 57u8 {
            let d = digit_run(t, ts, e);
            if at(t, ts + d, e, seq![46u8, 32u8]) || at(t, ts + d, e, seq![41u8, 32u8]) { d + 2int } else { 0 }
        } else {
            0
        };
        if m > 0 { Some(ts + m) } else { None }
    }
}

/// An ATX heading starts at `a`: spaces, one to six `#`, then a space.
pub open spec fn heading_at(t: Seq<u8>, a: int, e: int) -> bool {
    let lead = spaces(t, a, e);
    let n = run_of(t, a + lead, e, 35u8);
    1 <= n <= 6 && a + lead + n < e && t[a + lead + n] == 32u8
}

/// `cs` without its leading whitespace.
pub open spec fn trim_front(cs: Seq<char>) -> Seq<char>
    decreases cs.len(),
{
    if cs.len() > 0 && is_white_space(cs[0]) { trim_front(cs.drop_first()) } else { cs }
}

/// `cs` without its trailing whitespace.
pub open spec fn trim_back(cs: Seq<char>) -> Seq<char>
    decreases cs.len(),
{
    if cs.len() > 0 && is_white_space(cs.last()) { trim_back(cs.drop_last()) } else { cs }
}

/// A thematic break: once trimmed, at least three characters, the first
/// `-`, `*` or `_`, and every one that character or a space.
pub open spec fn hr_chars(cs: Seq<char>) -> bool {
    let tr = trim_back(trim_front(cs));
    &&& tr.len() >= 3
    &&& (tr[0] == '-' || tr[0] == '*' || tr[0] == '_')
    &&& forall|k: int| 0 <= k < tr.len() ==> #[trigger] tr[k] == tr[0] || tr[k] == ' '
}

/// Tokens of the line `[s, e)` outside fenced code: a quote marker, then a
/// task or list marker after it, then a heading or the inline tokens.
pub open spec fn line_toks(t: Seq<u8>, s: int, e: int) -> Seq<(int, int, Tk)> {
    if hr_chars(decode_utf8(t.subrange(s, e))) {
        seq![(s, e, Tk::Hr)]
    } else {
        let ts = s + spaces(t, s, e);
        let quoted = ts < e && t[ts] == 62u8;
        let q = match find2(t, ts, e, 32u8, 9u8) {
            Some(p) => p + 1,
            None => ts + 1,
        };
        let ms = if quoted { q } else { ts };
        let qt = if quoted { seq![(ts, q, Tk::Quote)] } else { Seq::<(int, int, Tk)>::empty() };
        let (mt, aq) = match task_marker(t, ms, e) {
            Some(m) => (seq![(ms, m, Tk::Task)], m),
            None => match list_marker(t, ms, e) {
                Some(m) => (seq![(ms, m, Tk::ListMarker)], m),
                None => (Seq::<(int, int, Tk)>::empty(), ms),
            },
        };
        if heading_at(t, aq, e) {
            qt + mt + seq![(aq, e, Tk::Heading)]
        } else {
            qt + mt + scan(t, s, e, aq, aq)
        }
    }
}

/// A fence line: spaces, then three backticks or tildes; the offset after the spaces.
pub open spec fn fence_at(t: Seq<u8>, s: int, e: int) -> Option<int> {
    let p = s + spaces(t, s, e);
    if at(t, p, e, seq![96u8, 96u8, 96u8]) || at(t, p, e, seq![126u8, 126u8, 126u8]) { Some(p) } else { None }
}

/// Tokens of the line `[s, e)` and whether fenced code is open after it.
pub open spec fn line_step(t: Seq<u8>, s: int, e: int, fence: bool) -> (Seq<(int, int, Tk)>, bool) {
    match fence_at(t, s, e) {
        Some(p) => (seq![(p, e, Tk::Fence)], !fence),
        None => if fence {
            (seq![(s, e, Tk::CodeText)], true)
        } else {
            (line_toks(t, s, e), false)
        },
    }
}

pub proof fn lemma_next_nl_bounds(t: Seq<u8>, i: int)
    requires
        0 <= i <= t.len(),
    ensures
        i <= next_nl(t, i) <= t.len(),
        next_nl(t, i) < t.len() ==> t[next_nl(t, i)] == 10u8,
        forall|k: int| i <= k < next_nl(t, i) ==> t[k] != 10u8,
    decreases t.len() - i,
{
    if i < t.len() && t[i] != 10u8 {
        lemma_next_nl_bounds(t, i + 1);
    }
}

/// Tokens of the lines from the one starting at `s`, fenced code open or not.
pub open spec fn toks_from(t: Seq<u8>, s: int, fence: bool) -> Seq<(int, int, Tk)>
    decreases t.len() - s,
{
    if s < 0 || s > t.len() {
        Seq::empty()
    } else {
        let e = next_nl(t, s);
        let (lt, f2) = line_step(t, s, e, fence);
        proof {
            lemma_next_nl_bounds(t, s);
        }
        if e < t.len() { lt + toks_from(t, e + 1, f2) } else { lt }
    }
}

/// Tokens of a whole text (no line at all for the empty text).
pub open spec fn spec_tokenize(t: Seq<u8>) -> Seq<(int, int, Tk)> {
    if t.len() == 0 { Seq::empty() } else { toks_from(t, 0, false) }
}

/// An exec offset as a spec offset.
pub open spec fn opt_int(o: Option<usize>) -> Option<int> {
    match o {
        Some(p) => Some(p as int),
        None => None,
    }
}

/// Exec [`at`].
fn at_exec(t: &[u8], i: usize, e: usize, w: &[u8]) -> (r: bool)
    requires
        e <= t@.len(),
    ensures
        r == at(t@, i as int, e as int, w@),
{
    w.len() <= e && i <= e - w.len() && match_at(t, i, w)
}

/// Exec [`occ_in`].
fn find_in(t: &[u8], w: &[u8], from: usize, e: usize) -> (r: Option<usize>)
    requires
        e <= t@.len(),
    ensures
        opt_int(r) == occ_in(t@, w@, from as int, e as int),
{
    let mut i = from;
    while i < e && w.len() <= e - i
        invariant
            from <= i,
            e <= t@.len(),
            occ_in(t@, w@, from as int, e as int) == occ_in(t@, w@, i as int, e as int),
        decreases e - i,
    {
        if match_at(t, i, w) {
            return Some(i);
        }
        i = i + 1;
    }
    None
}

/// Exec [`run_of`].
fn count_run(t: &[u8], i: usize, e: usize, b: u8) -> (n: usize)
    requires
        i <= e <= t@.len(),
    ensures
        n == run_of(t@, i as int, e as int, b),
        i + n <= e,
        forall|k: int| i <= k < i + n ==> t@[k] == b,
{
    let mut k = i;
    while k < e && t[k] == b
        invariant
            i <= k <= e,
            e <= t@.len(),
            run_of(t@, i as int, e as int, b) == (k - i) + run_of(t@, k as int, e as int, b),
            forall|q: int| i <= q < k ==> t@[q] == b,
        decreases e - k,
    {
        k = k + 1;
    }
    k - i
}

/// Exec [`digit_run`].
fn count_digits(t: &[u8], i: usize, e: usize) -> (n: usize)
    requires
        i <= e <= t@.len(),
    ensures
        n == digit_run(t@, i as int, e as int),
        i + n <= e,
{
    let mut k = i;
    while k < e && 48u8 <= t[k] && t[k] <= 57u8
        invariant
            i <= k <= e,
            e <= t@.len(),
            digit_run(t@, i as int, e as int) == (k - i) + digit_run(t@, k as int, e as int),
        decreases e - k,
    {
        k = k + 1;
    }
    k - i
}

/// Exec [`paren_close`] from depth one.
fn find_paren_close(t: &[u8], j0: usize, e: usize) -> (r: Option<usize>)
    requires
        1 <= j0 <= e <= t@.len(),
    ensures
        opt_int(r) == paren_close(t@, j0 as int, e as int, 1),
{
    let mut j = j0;
    let mut d: usize = 1;
    while j < e
        invariant
            j0 <= j <= e,
            e <= t@.len(),
            1 <= j0,
            1 <= d <= j - j0 + 1,
            paren_close(t@, j0 as int, e as int, 1) == paren_close(t@, j as int, e as int, d as nat),
        decreases e - j,
    {
        let c = t[j];
        if c == 41u8 && d == 1 {
            return Some(j);
        }
        if c == 40u8 {
            d = d + 1;
        } else if c == 41u8 {
            d = d - 1;
        }
        j = j + 1;
    }
    None
}

/// Exec [`single_star`].
fn find_single_star(t: &[u8], j0: usize, e: usize) -> (r: Option<usize>)
    requires
        j0 <= e <= t@.len(),
    ensures
        opt_int(r) == single_star(t@, j0 as int, e as int),
{
    let mut j = j0;
    while j < e
        invariant
            j0 <= j <= e,
            e <= t@.len(),
            single_star(t@, j0 as int, e as int) == single_star(t@, j as int, e as int),
        decreases e - j,
    {
        if t[j] == 42u8 && !(j + 1 < e && t[j + 1] == 42u8) {
            return Some(j);
        }
        j = j + 1;
    }
    None
}

/// Exec [`find2`].
fn find_either(t: &[u8], i0: usize, e: usize, a: u8, b: u8) -> (r: Option<usize>)
    requires
        i0 <= e <= t@.len(),
    ensures
        opt_int(r) == find2(t@, i0 as int, e as int, a, b),
{
    let mut i = i0;
    while i < e
        invariant
            i0 <= i <= e,
            e <= t@.len(),
            find2(t@, i0 as int, e as int, a, b) == find2(t@, i as int, e as int, a, b),
        decreases e - i,
    {
        if t[i] == a || t[i] == b {
            return Some(i);
        }
        i = i + 1;
    }
    None
}

/// The character at `p` exists and is not whitespace.
fn non_space_at(text: &str, t: &[u8], p: usize, e: usize) -> (r: bool)
    requires
        t@ == bytes_of(text@),
        p < e <= t@.len(),
        boundary(t@, p as int),
    ensures
        r == (char_at(t@, p as int).len() > 0 && !is_white_space(char_at(t@, p as int)[0])),
{
    let k = char_len(t, p);
    assert(t@.len() == t.len());
    proof {
        lemma_next_boundary(t@, p as int);
    }
    let sub = str_range(text, p, p + k);
    let cs = chars_of(sub);
    if cs.len() == 0 {
        false
    } else {
        !char_is_whitespace(cs[0])
    }
}

/// Bounds of `cs` without its leading and trailing whitespace.
pub fn trim_bounds(cs: &Vec<char>) -> (r: (usize, usize))
    ensures
        r.0 <= r.1 <= cs@.len(),
        cs@.subrange(r.0 as int, r.1 as int) == trim_back(trim_front(cs@)),
{
    let n = cs.len();
    let mut a: usize = 0;
    let mut go = true;
    assert(cs@.subrange(0, n as int) =~= cs@);
    while go && a < n
        invariant
            a <= n,
            n == cs@.len(),
            trim_front(cs@) == trim_front(cs@.subrange(a as int, n as int)),
            !go ==> a < n && !is_white_space(cs@[a as int]),
        decreases n - a + if go { 1int } else { 0int },
    {
        if char_is_whitespace(cs[a]) {
            assert(cs@.subrange(a as int, n as int).drop_first() =~= cs@.subrange(a + 1, n as int));
            a = a + 1;
        } else {
            go = false;
        }
    }
    assert(trim_front(cs@) == cs@.subrange(a as int, n as int));
    let mut b: usize = n;
    go = true;
    while go && b > a
        invariant
            a <= b <= n,
            n == cs@.len(),
            trim_back(cs@.subrange(a as int, n as int)) == trim_back(cs@.subrange(a as int, b as int)),
            !go ==> b > a && !is_white_space(cs@[b - 1]),
        decreases b - a + if go { 1int } else { 0int },
    {
        if char_is_whitespace(cs[b - 1]) {
            assert(cs@.subrange(a as int, b as int).drop_last() =~= cs@.subrange(a as int, b - 1));
            b = b - 1;
        } else {
            go = false;
        }
    }
    (a, b)
}

/// Exec [`hr_chars`] of the line `[s, e)`.
fn is_hr(text: &str, t: &[u8], s: usize, e: usize) -> (r: bool)
    requires
        t@ == bytes_of(text@),
        s <= e <= t@.len(),
        boundary(t@, s as int),
        boundary(t@, e as int),
    ensures
        r == hr_chars(decode_utf8(t@.subrange(s as int, e as int))),
{
    let line = str_range(text, s, e);
    let cs = chars_of(line);
    let n = cs.len();
    let (a, b) = trim_bounds(&cs);
    let ghost tr = cs@.subrange(a as int, b as int);
    assert(trim_back(trim_front(cs@)) == tr);
    if b - a < 3 {
        return false;
    }
    let f = cs[a];
    assert(tr[0] == f);
    if !(f == '-' || f == '*' || f == '_') {
        return false;
    }
    let mut k = a;
    while k < b
        invariant
            a <= k <= b <= n,
            n == cs@.len(),
            tr == cs@.subrange(a as int, b as int),
            cs@ == decode_utf8(t@.subrange(s as int, e as int)),
            trim_back(trim_front(cs@)) == tr,
            tr.len() >= 3,
            f == '-' || f == '*' || f == '_',
            f == tr[0],
            forall|q: int| 0 <= q < k - a ==> #[trigger] tr[q] == f || tr[q] == ' ',
        decreases b - k,
    {
        if cs[k] != f && cs[k] != ' ' {
            assert(tr[k - a] == cs@[k as int]);
            return false;
        }
        k = k + 1;
    }
    true
}

/// Push the token `(a..b, k)`.
fn push_tok(out: &mut Vec<(Range<usize>, Tk)>, a: usize, b: usize, k: Tk)
    ensures
        toks_view(final(out)@) == toks_view(old(out)@).push((a as int, b as int, k)),
{
    out.push((a..b, k));
    assert(toks_view(out@) =~= toks_view(old(out)@).push((a as int, b as int, k)));
}

/// Push a plain token over `[a, b)` when it is not empty.
fn push_plain(out: &mut Vec<(Range<usize>, Tk)>, a: usize, b: usize)
    ensures
        toks_view(final(out)@) == toks_view(old(out)@) + plain(a as int, b as int),
{
    if b > a {
        push_tok(out, a, b, Tk::Plain);
        assert(toks_view(out@) =~= toks_view(old(out)@) + plain(a as int, b as int));
    } else {
        assert(toks_view(out@) =~= toks_view(old(out)@) + plain(a as int, b as int));
    }
}

/// `n` backticks.
fn ticks_vec(n: usize) -> (v: Vec<u8>)
    ensures
        v@ == ticks(n as nat),
{
    let mut v: Vec<u8> = Vec::new();
    let mut k: usize = 0;
    while k < n
        invariant
            k <= n,
            v@ == ticks(k as nat),
        decreases n - k,
    {
        v.push(96u8);
        assert(v@ =~= ticks((k + 1) as nat));
        k = k + 1;
    }
    v
}

/// Exec [`inline_a`]: when a token opens at `i`, push the plain text
/// pending since `ps`, then the token, and return where scanning resumes.
fn inline_a_exec(t: &[u8], i: usize, e: usize, ps: usize, out: &mut Vec<(Range<usize>, Tk)>) -> (r: Option<usize>)
    requires
        valid_utf8(t@),
        ps <= i < e <= t@.len(),
    ensures
        match inline_a(t@, i as int, e as int) {
            Some((x, j)) => opt_int(r) == Some(j) && i < j <= e && boundary(t@, j) && toks_view(final(out)@)
                == toks_view(old(out)@) + plain(ps as int, i as int) + x,
            None => r is None && final(out)@ == old(out)@,
        },
{
    assert(t@.len() == t.len());
    let ghost ii = i as int;
    let ghost ei = e as int;
    let ghost o0 = toks_view(out@);
    let w_fence: &[u8] = &[96u8, 96u8, 96u8];
    let w_stars: &[u8] = &[42u8, 42u8];
    let w_under: &[u8] = &[95u8, 95u8];
    let w_tilde: &[u8] = &[126u8, 126u8];
    assert(w_fence@ =~= seq![96u8, 96u8, 96u8]);
    assert(w_stars@ =~= seq![42u8, 42u8]);
    assert(w_under@ =~= seq![95u8, 95u8]);
    assert(w_tilde@ =~= seq![126u8, 126u8]);
    if at_exec(t, i, e, w_fence) {
        proof {
            assert(t@.subrange(ii, ii + 3)[2] == t@[ii + 2]);
            lemma_boundary_after_ascii(t@, ii + 2);
        }
        push_plain(out, ps, i);
        push_tok(out, i, i + 3, Tk::Fence);
        assert(toks_view(out@) =~= o0 + plain(ps as int, ii) + seq![(ii, ii + 3, Tk::Fence)]);
        return Some(i + 3);
    }
    if at_exec(t, i, e, w_stars) || at_exec(t, i, e, w_under) {
        match find_in(t, w_stars, i + 2, e) {
            Some(c) => {
                proof {
                    lemma_occ_in(t@, w_stars@, ii + 2, ei);
                    assert(t@.subrange(c as int, c + 2)[1] == t@[c + 1]);
                    lemma_boundary_after_ascii(t@, c + 1);
                }
                push_plain(out, ps, i);
                push_tok(out, i, c + 2, Tk::Strong);
                assert(toks_view(out@) =~= o0 + plain(ps as int, ii) + seq![(ii, c + 2, Tk::Strong)]);
                return Some(c + 2);
            },
            None => {},
        }
    }
    if at_exec(t, i, e, w_tilde) {
        match find_in(t, w_tilde, i + 2, e) {
            Some(c) => {
                proof {
                    lemma_occ_in(t@, w_tilde@, ii + 2, ei);
                    assert(t@.subrange(c as int, c + 2)[1] == t@[c + 1]);
                    lemma_boundary_after_ascii(t@, c + 1);
                }
                push_plain(out, ps, i);
                push_tok(out, i, c + 2, Tk::Strike);
                assert(toks_view(out@) =~= o0 + plain(ps as int, ii) + seq![(ii, c + 2, Tk::Strike)]);
                return Some(c + 2);
            },
            None => {},
        }
    }
    let run = count_run(t, i, e, 96u8);
    if run > 0 {
        let tk = ticks_vec(run);
        match find_in(t, tk.as_slice(), i + run, e) {
            Some(c) => {
                proof {
                    lemma_occ_in(t@, ticks(run as nat), ii + run, ei);
                    assert(t@.subrange(c as int, c + run)[run - 1] == t@[c + run - 1]);
                    lemma_boundary_after_ascii(t@, c + run - 1);
                }
                push_plain(out, ps, i);
                push_tok(out, i, c + run, Tk::Code);
                assert(toks_view(out@) =~= o0 + plain(ps as int, ii) + seq![(ii, c + run, Tk::Code)]);
                return Some(c + run);
            },
            None => {},
        }
    }
    None
}

/// Exec [`inline_b`]: when a token opens at `i`, push the plain text
/// pending since `ps`, then the tokens, and return where scanning resumes.
#[verifier::rlimit(30)]
fn inline_b_exec(text: &str, t: &[u8], s: usize, i: usize, e: usize, ps: usize, out: &mut Vec<(Range<usize>, Tk)>) -> (r:
    Option<usize>)
    requires
        t@ == bytes_of(text@),
        ps <= i < e <= t@.len(),
        boundary(t@, i as int),
        boundary(t@, e as int),
    ensures
        match inline_b(t@, s as int, i as int, e as int) {
            Some((x, j)) => opt_int(r) == Some(j) && i < j <= e && boundary(t@, j) && toks_view(final(out)@)
                == toks_view(old(out)@) + plain(ps as int, i as int) + x,
            None => r is None && final(out)@ == old(out)@,
        },
{
    assert(t@.len() == t.len());
    let ghost ii = i as int;
    let ghost ei = e as int;
    let ghost o0 = toks_view(out@);
    let w_img: &[u8] = &[33u8, 91u8];
    let w_close: &[u8] = &[93u8, 40u8];
    let w_gt: &[u8] = &[62u8];
    assert(w_img@ =~= seq![33u8, 91u8]);
    assert(w_close@ =~= seq![93u8, 40u8]);
    assert(w_gt@ =~= seq![62u8]);
    let img = at_exec(t, i, e, w_img);
    if t[i] == 91u8 || img {
        let open = if img { i + 2 } else { i + 1 };
        match find_in(t, w_close, open, e) {
            Some(j) => {
                proof {
                    lemma_occ_in(t@, w_close@, open as int, ei);
                }
                match find_paren_close(t, j + 2, e) {
                    Some(k) => {
                        proof {
                            lemma_paren_close(t@, j + 2, ei, 1);
                            lemma_boundary_after_ascii(t@, k as int);
                        }
                        push_plain(out, ps, i);
                        push_tok(out, i, j + 1, Tk::LinkText);
                        push_tok(out, j + 1, k + 1, Tk::LinkUrl);
                        assert(toks_view(out@) =~= o0 + plain(ps as int, ii) + seq![
                            (ii, j + 1, Tk::LinkText),
                            (j + 1, k + 1, Tk::LinkUrl),
                        ]);
                        return Some(k + 1);
                    },
                    None => {},
                }
            },
            None => {},
        }
    }
    if t[i] == 42u8 {
        let mut poss = !(i > s && t[i - 1] == 92u8) && i + 1 < e;
        if poss {
            proof {
                lemma_boundary_after_ascii(t@, ii);
            }
            poss = non_space_at(text, t, i + 1, e);
        }
        assert(poss == emph_possible(t@, s as int, ei, ii));
        if poss {
            match find_single_star(t, i + 1, e) {
                Some(c) => {
                    proof {
                        lemma_single_star(t@, ii + 1, ei);
                        lemma_boundary_after_ascii(t@, c as int);
                    }
                    push_plain(out, ps, i);
                    push_tok(out, i, c + 1, Tk::Emphasis);
                    assert(toks_view(out@) =~= o0 + plain(ps as int, ii) + seq![(ii, c + 1, Tk::Emphasis)]);
                    return Some(c + 1);
                },
                None => {},
            }
        }
    }
    if t[i] == 60u8 {
        match find_in(t, w_gt, i, e) {
            Some(c) => {
                proof {
                    lemma_occ_in(t@, w_gt@, ii, ei);
                    assert(t@.subrange(c as int, c + 1)[0] == t@[c as int]);
                    lemma_boundary_after_ascii(t@, c as int);
                }
                push_plain(out, ps, i);
                push_tok(out, i, c + 1, Tk::Html);
                assert(toks_view(out@) =~= o0 + plain(ps as int, ii) + seq![(ii, c + 1, Tk::Html)]);
                return Some(c + 1);
            },
            None => {},
        }
    }
    None
}

/// Exec [`scan`] from `from` with nothing pending: push the inline tokens
/// of the line `[s, e)`.
#[verifier::rlimit(50)]
fn scan_exec(text: &str, t: &[u8], s: usize, e: usize, from: usize, out: &mut Vec<(Range<usize>, Tk)>)
    requires
        t@ == bytes_of(text@),
        s <= from <= e <= t@.len(),
        boundary(t@, from as int),
        boundary(t@, e as int),
    ensures
        toks_view(final(out)@) == toks_view(old(out)@) + scan(t@, s as int, e as int, from as int, from as int),
{
    let ghost base = toks_view(out@);
    let ghost total = scan(t@, s as int, e as int, from as int, from as int);
    assert(t@.len() == t.len());
    let mut i = from;
    let mut ps = from;
    assert(toks_view(out@) + scan(t@, s as int, e as int, i as int, ps as int) =~= base + total);
    while i < e
        invariant
            t@ == bytes_of(text@),
            t@.len() == t.len(),
            s <= from <= ps <= i <= e <= t@.len(),
            boundary(t@, i as int),
            boundary(t@, e as int),
            toks_view(out@) + scan(t@, s as int, e as int, i as int, ps as int) == base + total,
        decreases e - i,
    {
        let ghost cur = toks_view(out@);
        let ghost si = s as int;
        let ghost ei = e as int;
        let ghost ii = i as int;
        let ghost pi = ps as int;
        proof {
            lemma_inline_at(t@, si, ii, ei);
        }
        match inline_a_exec(t, i, e, ps, out) {
            Some(j) => {
                assert(toks_view(out@) + scan(t@, si, ei, j as int, j as int) =~= cur + scan(t@, si, ei, ii, pi));
                i = j;
                ps = j;
                continue;
            },
            None => {},
        }
        match inline_b_exec(text, t, s, i, e, ps, out) {
            Some(j) => {
                assert(toks_view(out@) + scan(t@, si, ei, j as int, j as int) =~= cur + scan(t@, si, ei, ii, pi));
                i = j;
                ps = j;
                continue;
            },
            None => {},
        }
        assert(scan(t@, si, ei, ii, pi) == scan(t@, si, ei, skip_at(t@, ii, ei), pi));
        if t[i] == 92u8 {
            proof {
                lemma_boundary_after_ascii(t@, ii);
            }
            if i + 1 < e {
                let k = char_len(t, i + 1);
                proof {
                    lemma_next_boundary(t@, ii + 1);
                }
                i = i + 1 + k;
            } else {
                assert(scan(t@, si, ei, ii + 2, pi) == scan(t@, si, ei, ei, pi));
                i = e;
            }
        } else {
            let k = char_len(t, i);
            proof {
                lemma_next_boundary(t@, ii);
            }
            i = i + k;
        }
    }
    push_plain(out, ps, e);
    assert(toks_view(out@) =~= base + total);
}

/// Exec [`task_marker`].
fn task_marker_exec(t: &[u8], ts: usize, e: usize) -> (r: Option<usize>)
    requires
        ts <= e <= t@.len(),
    ensures
        opt_int(r) == task_marker(t@, ts as int, e as int),
        r matches Some(m) ==> ts + 4 <= m <= e && t@[m - 1] == 32u8,
{
    let w1: &[u8] = &[91u8, 32u8, 93u8, 32u8];
    let w2: &[u8] = &[91u8, 120u8, 93u8, 32u8];
    assert(w1@ =~= seq![91u8, 32u8, 93u8, 32u8]);
    assert(w2@ =~= seq![91u8, 120u8, 93u8, 32u8]);
    match find_either(t, ts, e, 91u8, 91u8) {
        Some(p) => {
            proof {
                lemma_find2(t@, ts as int, e as int, 91u8, 91u8);
            }
            if at_exec(t, p, e, w1) || at_exec(t, p, e, w2) {
                assert(t@.subrange(p as int, p + 4)[3] == t@[p + 3]);
                Some(p + 4)
            } else {
                None
            }
        },
        None => None,
    }
}

/// Exec [`list_marker`].
fn list_marker_exec(t: &[u8], ts: usize, e: usize) -> (r: Option<usize>)
    requires
        ts <= e <= t@.len(),
    ensures
        opt_int(r) == list_marker(t@, ts as int, e as int),
        r matches Some(m) ==> ts < m <= e && t@[m - 1] < 0x80,
{
    if ts >= e {
        return None;
    }
    let f = t[ts];
    let w1: &[u8] = &[46u8, 32u8];
    let w2: &[u8] = &[41u8, 32u8];
    assert(w1@ =~= seq![46u8, 32u8]);
    assert(w2@ =~= seq![41u8, 32u8]);
    let m: usize = if f == 45u8 || f == 42u8 || f == 43u8 {
        if ts + 1 < e && t[ts + 1] == 32u8 {
            2
        } else {
            1
        }
    } else if 48u8 <= f && f <= 57u8 {
        let d = count_digits(t, ts, e);
        if at_exec(t, ts + d, e, w1) || at_exec(t, ts + d, e, w2) {
            assert(t@.subrange(ts + d, ts + d + 2)[1] == t@[ts + d + 1]);
            d + 2
        } else {
            0
        }
    } else {
        0
    };
    if m > 0 {
        Some(ts + m)
    } else {
        None
    }
}

/// Exec [`heading_at`].
fn heading_exec(t: &[u8], a: usize, e: usize) -> (r: bool)
    requires
        a <= e <= t@.len(),
    ensures
        r == heading_at(t@, a as int, e as int),
{
    let lead = count_run(t, a, e, 32u8);
    let n = count_run(t, a + lead, e, 35u8);
    1 <= n && n <= 6 && a + lead + n < e && t[a + lead + n] == 32u8
}

/// Exec [`line_toks`]: push the tokens of the line `[s, e)`.
#[verifier::rlimit(30)]
fn line_tokens(text: &str, t: &[u8], s: usize, e: usize, out: &mut Vec<(Range<usize>, Tk)>)
    requires
        t@ == bytes_of(text@),
        s <= e <= t@.len(),
        boundary(t@, s as int),
        boundary(t@, e as int),
    ensures
        toks_view(final(out)@) == toks_view(old(out)@) + line_toks(t@, s as int, e as int),
{
    let ghost o0 = toks_view(out@);
    assert(t@.len() == t.len());
    if is_hr(text, t, s, e) {
        push_tok(out, s, e, Tk::Hr);
        assert(toks_view(out@) =~= o0 + line_toks(t@, s as int, e as int));
        return;
    }
    let ts = s + count_run(t, s, e, 32u8);
    proof {
        if ts > s {
            lemma_boundary_after_ascii(t@, ts - 1);
        }
    }
    let quoted = ts < e && t[ts] == 62u8;
    let mut ms = ts;
    if quoted {
        let q = match find_either(t, ts, e, 32u8, 9u8) {
            Some(p) => {
                proof {
                    lemma_find2(t@, ts as int, e as int, 32u8, 9u8);
                }
                p + 1
            },
            None => ts + 1,
        };
        proof {
            lemma_boundary_after_ascii(t@, q - 1);
        }
        push_tok(out, ts, q, Tk::Quote);
        ms = q;
    }
    let mut aq = ms;
    match task_marker_exec(t, ms, e) {
        Some(m) => {
            push_tok(out, ms, m, Tk::Task);
            aq = m;
        },
        None => match list_marker_exec(t, ms, e) {
            Some(m) => {
                push_tok(out, ms, m, Tk::ListMarker);
                aq = m;
            },
            None => {},
        },
    }
    proof {
        if aq > ms {
            lemma_boundary_after_ascii(t@, aq - 1);
        }
    }
    if heading_exec(t, aq, e) {
        push_tok(out, aq, e, Tk::Heading);
    } else {
        scan_exec(text, t, s, e, aq, out);
    }
    assert(toks_view(out@) =~= o0 + line_toks(t@, s as int, e as int));
}

/// Exec [`line_step`]: push the tokens of the line `[s, e)` and return
/// whether fenced code is open after it.
fn line_step_exec(text: &str, t: &[u8], s: usize, e: usize, fence: bool, out: &mut Vec<(Range<usize>, Tk)>) -> (f2:
    bool)
    requires
        t@ == bytes_of(text@),
        s <= e <= t@.len(),
        boundary(t@, s as int),
        boundary(t@, e as int),
    ensures
        toks_view(final(out)@) == toks_view(old(out)@) + line_step(t@, s as int, e as int, fence).0,
        f2 == line_step(t@, s as int, e as int, fence).1,
{
    let ghost o0 = toks_view(out@);
    let p = s + count_run(t, s, e, 32u8);
    let w1: &[u8] = &[96u8, 96u8, 96u8];
    let w2: &[u8] = &[126u8, 126u8, 126u8];
    assert(w1@ =~= seq![96u8, 96u8, 96u8]);
    assert(w2@ =~= seq![126u8, 126u8, 126u8]);
    if at_exec(t, p, e, w1) || at_exec(t, p, e, w2) {
        push_tok(out, p, e, Tk::Fence);
        assert(toks_view(out@) =~= o0 + line_step(t@, s as int, e as int, fence).0);
        return !fence;
    }
    if fence {
        push_tok(out, s, e, Tk::CodeText);
        assert(toks_view(out@) =~= o0 + line_step(t@, s as int, e as int, fence).0);
        return true;
    }
    line_tokens(text, t, s, e, out);
    false
}

/// Tokenize a whole Markdown text.
pub fn tokenize(text: &str) -> (r: Syntax)
    ensures
        r.text@ == text@,
        toks_view(r.tokens@) == spec_tokenize(bytes_of(text@)),
{
    let t = text.as_bytes();
    let mut tokens: Vec<(Range<usize>, Tk)> = Vec::new();
    assert(t@.len() == t.len());
    if t.len() > 0 {
        let ghost total = toks_from(t@, 0, false);
        let mut s: usize = 0;
        let mut fence = false;
        let mut done = false;
        assert(toks_view(tokens@) + toks_from(t@, 0, false) =~= total);
        while !done
            invariant
                t@ == bytes_of(text@),
                t@.len() == t.len(),
                s <= t@.len(),
                boundary(t@, s as int),
                !done ==> toks_view(tokens@) + toks_from(t@, s as int, fence) == total,
                done ==> toks_view(tokens@) == total,
            decreases t@.len() - s + if done { 0int } else { 1int },
        {
            let e = find_line_end(t, s);
            proof {
                lemma_next_nl_bounds(t@, s as int);
                if e < t@.len() {
                    lemma_boundary_after_ascii(t@, e as int);
                }
            }
            let ghost cur = toks_view(tokens@);
            let f2 = line_step_exec(text, t, s, e, fence, &mut tokens);
            if e < t.len() {
                assert(toks_view(tokens@) + toks_from(t@, e + 1, f2) =~= cur + toks_from(t@, s as int, fence));
                s = e + 1;
                fence = f2;
            } else {
                assert(toks_view(tokens@) =~= cur + toks_from(t@, s as int, fence));
                done = true;
            }
        }
    }
    Syntax { text: text.to_owned(), tokens }
}

/// Tokens within `[lo, hi]`, none reversed, in document order: each ends
/// before any later one starts, except that a line's quote marker starts
/// with the task marker before it.
pub open spec fn in_order(v: Seq<(int, int, Tk)>, lo: int, hi: int) -> bool {
    &&& forall|k: int| #![trigger v[k]] 0 <= k < v.len() ==> lo <= v[k].0 && v[k].0 <= v[k].1 && v[k].1 <= hi
    &&& forall|k: int, m: int|
        #![trigger v[k], v[m]]
        0 <= k < m < v.len() ==> v[k].1 <= v[m].0
}

proof fn lemma_in_order_concat(a: Seq<(int, int, Tk)>, b: Seq<(int, int, Tk)>, lo: int, mid: int, hi: int)
    requires
        in_order(a, lo, mid),
        in_order(b, mid, hi),
        lo <= mid <= hi,
    ensures
        in_order(a + b, lo, hi),
{
    let v = a + b;
    assert forall|k: int| #![trigger v[k]] 0 <= k < v.len() implies lo <= v[k].0 && v[k].0 <= v[k].1 && v[k].1 <= hi by {
        if k < a.len() {
            assert(v[k] == a[k]);
        } else {
            assert(v[k] == b[k - a.len()]);
        }
    }
    assert forall|k: int, m: int| 0 <= k < m < v.len() implies v[k].1 <= v[m].0 by {
        if m < a.len() {
            assert(v[k] == a[k] && v[m] == a[m]);
        } else if k >= a.len() {
            assert(v[k] == b[k - a.len()] && v[m] == b[m - a.len()]);
        } else {
            assert(v[k] == a[k] && v[m] == b[m - a.len()]);
        }
    }
}

proof fn lemma_in_order_widen(v: Seq<(int, int, Tk)>, lo: int, hi: int, lo2: int, hi2: int)
    requires
        in_order(v, lo, hi),
        lo2 <= lo,
        hi <= hi2,
    ensures
        in_order(v, lo2, hi2),
{
}

proof fn lemma_inline_in_order(t: Seq<u8>, s: int, i: int, e: int)
    requires
        0 <= i < e <= t.len(),
    ensures
        inline_at(t, s, i, e) matches Some((x, j)) ==> in_order(x, i, j) && i < j <= e,
{
    lemma_inline_at(t, s, i, e);
    let run = run_of(t, i, e, 96u8);
    let open = if at(t, i, e, seq![33u8, 91u8]) { i + 2 } else { i + 1 };
    lemma_occ_in(t, seq![42u8, 42u8], i + 2, e);
    lemma_occ_in(t, seq![126u8, 126u8], i + 2, e);
    lemma_occ_in(t, ticks(run), i + run, e);
    lemma_occ_in(t, seq![93u8, 40u8], open, e);
    lemma_occ_in(t, seq![62u8], i, e);
    lemma_single_star(t, i + 1, e);
    if let Some(j) = occ_in(t, seq![93u8, 40u8], open, e) {
        lemma_paren_close(t, j + 2, e, 1);
    }
}

proof fn lemma_scan_in_order(t: Seq<u8>, s: int, e: int, i: int, ps: int)
    requires
        0 <= ps <= i,
        ps <= e,
    ensures
        in_order(scan(t, s, e, i, ps), ps, e),
    decreases e + 5 - i,
{
    if i < 0 || i >= e || e > t.len() {
    } else {
        lemma_inline_in_order(t, s, i, e);
        match inline_at(t, s, i, e) {
            Some((x, j)) => {
                lemma_scan_in_order(t, s, e, j, j);
                lemma_in_order_concat(plain(ps, i), x, ps, i, j);
                lemma_in_order_concat(plain(ps, i) + x, scan(t, s, e, j, j), ps, j, e);
            },
            None => {
                lemma_scan_in_order(t, s, e, skip_at(t, i, e), ps);
            },
        }
    }
}

proof fn lemma_markers(t: Seq<u8>, ts: int, e: int)
    requires
        0 <= ts <= e <= t.len(),
    ensures
        task_marker(t, ts, e) matches Some(m) ==> ts < m <= e,
        list_marker(t, ts, e) matches Some(m) ==> ts < m <= e && t[ts] != 62u8,
        find2(t, ts, e, 32u8, 9u8) matches Some(p) ==> ts <= p < e,
{
    lemma_find2(t, ts, e, 91u8, 91u8);
    lemma_find2(t, ts, e, 32u8, 9u8);
}

proof fn lemma_line_in_order(t: Seq<u8>, s: int, e: int)
    requires
        0 <= s <= e <= t.len(),
    ensures
        in_order(line_toks(t, s, e), s, e),
{
    if !hr_chars(decode_utf8(t.subrange(s, e))) {
        let ts = s + spaces(t, s, e);
        assert(ts <= e) by {
            lemma_run_le(t, s, e, 32u8);
        }
        lemma_markers(t, ts, e);
        let quoted = ts < e && t[ts] == 62u8;
        let q = match find2(t, ts, e, 32u8, 9u8) {
            Some(p) => p + 1,
            None => ts + 1,
        };
        let ms = if quoted { q } else { ts };
        assert(ms <= e);
        lemma_markers(t, ms, e);
        let qt = if quoted { seq![(ts, q, Tk::Quote)] } else { Seq::<(int, int, Tk)>::empty() };
        let (mt, aq) = match task_marker(t, ms, e) {
            Some(m) => (seq![(ms, m, Tk::Task)], m),
            None => match list_marker(t, ms, e) {
                Some(m) => (seq![(ms, m, Tk::ListMarker)], m),
                None => (Seq::<(int, int, Tk)>::empty(), ms),
            },
        };
        assert(in_order(qt, s, ms));
        assert(in_order(mt, ms, aq));
        lemma_in_order_concat(qt, mt, s, ms, aq);
        if heading_at(t, aq, e) {
            lemma_in_order_concat(qt + mt, seq![(aq, e, Tk::Heading)], s, aq, e);
        } else {
            lemma_scan_in_order(t, s, e, aq, aq);
            lemma_in_order_concat(qt + mt, scan(t, s, e, aq, aq), s, aq, e);
        }
    }
}

proof fn lemma_run_le(t: Seq<u8>, i: int, e: int, b: u8)
    requires
        i <= e,
    ensures
        i + run_of(t, i, e, b) <= e,
    decreases e - i,
{
    if 0 <= i < e && i < t.len() && t[i] == b {
        lemma_run_le(t, i + 1, e, b);
    }
}

proof fn lemma_lines_in_order(t: Seq<u8>, s: int, fence: bool)
    requires
        0 <= s <= t.len(),
    ensures
        in_order(toks_from(t, s, fence), s, t.len() as int),
    decreases t.len() - s,
{
    let e = next_nl(t, s);
    lemma_next_nl_bounds(t, s);
    let (lt, f2) = line_step(t, s, e, fence);
    match fence_at(t, s, e) {
        Some(p) => {
            lemma_run_le(t, s, e, 32u8);
        },
        None => {
            if !fence {
                lemma_line_in_order(t, s, e);
            }
        },
    }
    assert(in_order(lt, s, e));
    if e < t.len() {
        lemma_lines_in_order(t, e + 1, f2);
        lemma_in_order_widen(toks_from(t, e + 1, f2), e + 1, t.len() as int, e, t.len() as int);
        lemma_in_order_concat(lt, toks_from(t, e + 1, f2), s, e, t.len() as int);
    } else {
        lemma_in_order_widen(lt, s, e, s, t.len() as int);
    }
}

/// Tokenized text comes out in document order: every token lies within the
/// text, none is reversed, and each ends before any later one starts.
pub proof fn lemma_tokens_in_order(t: Seq<u8>)
    ensures
        in_order(spec_tokenize(t), 0, t.len() as int),
{
    if t.len() > 0 {
        lemma_lines_in_order(t, 0, false);
    }
}

/// `run_of` counts exactly a run of `n` equal bytes that something else
/// (or the end of the range) follows.
proof fn lemma_run_of_exact(t: Seq<u8>, i: int, e: int, b: u8, n: int)
    requires
        0 <= i,
        0 <= n,
        i + n <= e <= t.len(),
        forall|j: int| i <= j < i + n ==> t[j] == b,
        i + n < e ==> t[i + n] != b,
    ensures
        run_of(t, i, e, b) == n,
    decreases n,
{
    if n > 0 {
        lemma_run_of_exact(t, i + 1, e, b, n - 1);
    }
}

/// No byte `a` or `b` in `[i, e)` means no hit.
proof fn lemma_find2_none(t: Seq<u8>, i: int, e: int, a: u8, b: u8)
    requires
        0 <= i,
        e <= t.len(),
        forall|j: int| i <= j < e ==> t[j] != a && t[j] != b,
    ensures
        find2(t, i, e, a, b) is None,
    decreases e - i,
{
    if i < e {
        lemma_find2_none(t, i + 1, e, a, b);
    }
}

/// Trimming trailing whitespace keeps a first character that is not
/// whitespace.
proof fn lemma_trim_back_keeps_first(cs: Seq<char>)
    requires
        cs.len() > 0,
        !is_white_space(cs[0]),
    ensures
        trim_back(cs).len() > 0,
        trim_back(cs)[0] == cs[0],
    decreases cs.len(),
{
    if is_white_space(cs.last()) {
        assert(cs.len() > 1);
        lemma_trim_back_keeps_first(cs.drop_last());
    }
}

/// An ATX heading line outside fenced code, `#` one to six times, a space
/// and text (with no `[` that could start a task box), is one heading token
/// over the whole line, for every level from one to six.
pub proof fn lemma_heading_line(t: Seq<u8>, s: int, e: int, n: int)
    requires
        valid_utf8(t),
        0 <= s,
        s + n < e <= t.len(),
        boundary(t, s),
        boundary(t, e),
        1 <= n <= 6,
        forall|j: int| s <= j < s + n ==> t[j] == 35u8,
        t[s + n] == 32u8,
        forall|j: int| s <= j < e ==> t[j] != 91u8,
    ensures
        line_step(t, s, e, false) == (seq![(s, e, Tk::Heading)], false),
{
    // no leading spaces, no fence
    lemma_run_of_exact(t, s, e, 32u8, 0);
    assert(spaces(t, s, e) == 0);
    if at(t, s, e, seq![96u8, 96u8, 96u8]) {
        assert(t.subrange(s, s + 3)[0] == t[s]);
    }
    if at(t, s, e, seq![126u8, 126u8, 126u8]) {
        assert(t.subrange(s, s + 3)[0] == t[s]);
    }
    assert(fence_at(t, s, e) is None);
    // not a thematic break: the line decodes to text starting with `#`
    let u = t.subrange(s, e);
    crate::utf8_text::lemma_valid_sub(t, s, e);
    assert(u[0] == 35u8);
    assert((35u8 & 0x7Fu8) == 35u8) by (bit_vector);
    let d = decode_utf8(u);
    assert(d[0] == '#');
    assert(!is_white_space('#'));
    assert(trim_front(d) == d);
    lemma_trim_back_keeps_first(d);
    assert(!hr_chars(d));
    // no quote, task or list marker; a heading from the line start
    lemma_find2_none(t, s, e, 91u8, 91u8);
    assert(task_marker(t, s, e) is None);
    assert(list_marker(t, s, e) is None);
    lemma_run_of_exact(t, s, e, 35u8, n);
    assert(heading_at(t, s, e));
    assert(line_toks(t, s, e) =~= seq![(s, e, Tk::Heading)]);
}

/// In the tokens of a text, a heading line (as in [`lemma_heading_line`])
/// that starts the text, or follows lines that leave no fenced code open,
/// gives one heading token over the whole line, first among that line's
/// tokens.
pub proof fn lemma_heading_tokens(t: Seq<u8>, s: int, e: int, n: int)
    requires
        valid_utf8(t),
        0 <= s,
        s + n < e <= t.len(),
        boundary(t, s),
        boundary(t, e),
        1 <= n <= 6,
        forall|j: int| s <= j < s + n ==> t[j] == 35u8,
        t[s + n] == 32u8,
        forall|j: int| s <= j < e ==> t[j] != 91u8 && t[j] != 10u8,
        e == t.len() || t[e] == 10u8,
    ensures
        toks_from(t, s, false).len() >= 1,
        toks_from(t, s, false)[0] == (s, e, Tk::Heading),
        s == 0 ==> spec_tokenize(t)[0] == (0int, e, Tk::Heading),
        s == 0 && e == t.len() ==> spec_tokenize(t) == seq![(0int, e, Tk::Heading)],
{
    lemma_heading_line(t, s, e, n);
    lemma_next_nl_bounds(t, s);
    let x = next_nl(t, s);
    if x < e {
        assert(t[x] == 10u8);
    }
    if x > e {
        assert(t[e] != 10u8);
    }
    assert(x == e);
}

/// A line opening or closing fenced code (three backticks or tildes at its
/// start) is one fence token and flips the fenced state; any other line
/// not starting with a space, inside fenced code, is one code-text token
/// and leaves the fence open.
pub proof fn lemma_fence_lines(t: Seq<u8>, s: int, e: int, fence: bool, tick: u8)
    requires
        0 <= s < e <= t.len(),
        tick == 96u8 || tick == 126u8,
    ensures
        s + 3 <= e && t[s] == tick && t[s + 1] == tick && t[s + 2] == tick ==> line_step(t, s, e, fence) == (
            seq![(s, e, Tk::Fence)],
            !fence,
        ),
        t[s] != 32u8 && t[s] != 96u8 && t[s] != 126u8 ==> line_step(t, s, e, true) == (seq![(s, e, Tk::CodeText)], true),
{
    if s + 3 <= e && t[s] == tick && t[s + 1] == tick && t[s + 2] == tick {
        lemma_run_of_exact(t, s, e, 32u8, 0);
        if tick == 96u8 {
            assert(t.subrange(s, s + 3) =~= seq![96u8, 96u8, 96u8]);
        } else {
            assert(t.subrange(s, s + 3) =~= seq![126u8, 126u8, 126u8]);
        }
    }
    if t[s] != 32u8 && t[s] != 96u8 && t[s] != 126u8 {
        lemma_run_of_exact(t, s, e, 32u8, 0);
        if at(t, s, e, seq![96u8, 96u8, 96u8]) {
            assert(t.subrange(s, s + 3)[0] == t[s]);
        }
        if at(t, s, e, seq![126u8, 126u8, 126u8]) {
            assert(t.subrange(s, s + 3)[0] == t[s]);
        }
    }
}

/// A line starting with `> ` outside fenced code starts with a quote
/// token over those two bytes, whatever follows.
pub proof fn lemma_quote_line(t: Seq<u8>, s: int, e: int)
    requires
        valid_utf8(t),
        0 <= s,
        s + 2 <= e <= t.len(),
        boundary(t, s),
        boundary(t, e),
        t[s] == 62u8,
        t[s + 1] == 32u8,
    ensures
        line_step(t, s, e, false).0.len() >= 1,
        line_step(t, s, e, false).0[0] == (s, s + 2, Tk::Quote),
        !line_step(t, s, e, false).1,
{
    lemma_run_of_exact(t, s, e, 32u8, 0);
    if at(t, s, e, seq![96u8, 96u8, 96u8]) {
        assert(t.subrange(s, s + 3)[0] == t[s]);
    }
    if at(t, s, e, seq![126u8, 126u8, 126u8]) {
        assert(t.subrange(s, s + 3)[0] == t[s]);
    }
    let u = t.subrange(s, e);
    crate::utf8_text::lemma_valid_sub(t, s, e);
    assert(u[0] == 62u8);
    assert((62u8 & 0x7Fu8) == 62u8) by (bit_vector);
    let d = decode_utf8(u);
    assert(d[0] == '>');
    assert(trim_front(d) == d);
    lemma_trim_back_keeps_first(d);
    assert(!hr_chars(d));
    assert(find2(t, s + 1, e, 32u8, 9u8) == Some(s + 1));
    assert(find2(t, s, e, 32u8, 9u8) == Some(s + 1));
}

} // verus!
