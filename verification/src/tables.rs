//! GFM tables: parsing the table around the caret, rendering tables with
//! padded cells, and the row/column commands.

use vstd::prelude::*;
use vstd::utf8::*;
use crate::app_text::{nth_line_byte, line_nth_byte, lemma_nth_line_byte_le};
use crate::utf8_text::{
    bytes_of, boundary, is_white_space, char_is_whitespace, str_range, chars_of, decimal, u64_to_decimal,
    string_from_chars, splice_string,
};
use crate::format::{Op, Out, Outcome, splice, applied, out_is, apply};
use crate::text_utils::{
    line_tuple, spec_line_count, line_bounds, is_line_bounds, nl_count, line_index, is_line_start, is_line_end, no_nl,
    lemma_line_functions_agree,
};

verus! {

broadcast use vstd::utf8::encode_utf8_valid_utf8;

// ---------------------------------------------------------------------------
// Characters
// ---------------------------------------------------------------------------

/// First index at or after `i` that is not whitespace (or `s.len()`).
pub open spec fn ws_skip(s: Seq<char>, i: int) -> int
    decreases s.len() - i,
{
    if i < 0 || i >= s.len() {
        if i < 0 { 0 } else { s.len() as int }
    } else if is_white_space(s[i]) {
        ws_skip(s, i + 1)
    } else {
        i
    }
}

/// End of `s[..j]` without its trailing whitespace.
pub open spec fn ws_back(s: Seq<char>, j: int) -> int
    decreases j,
{
    if j <= 0 || j > s.len() {
        if j <= 0 { 0 } else { ws_back(s, s.len() as int) }
    } else if is_white_space(s[j - 1]) {
        ws_back(s, j - 1)
    } else {
        j
    }
}

/// `s` without leading and trailing whitespace (`str::trim`).
pub open spec fn trim(s: Seq<char>) -> Seq<char> {
    let a = ws_skip(s, 0);
    let b = ws_back(s, s.len() as int);
    if a < b { s.subrange(a, b) } else { Seq::empty() }
}

proof fn lemma_ws_skip(s: Seq<char>, i: int)
    requires
        0 <= i <= s.len(),
    ensures
        i <= ws_skip(s, i) <= s.len(),
        forall|k: int| i <= k < ws_skip(s, i) ==> is_white_space(#[trigger] s[k]),
        ws_skip(s, i) < s.len() ==> !is_white_space(s[ws_skip(s, i)]),
    decreases s.len() - i,
{
    if i < s.len() && is_white_space(s[i]) {
        lemma_ws_skip(s, i + 1);
    }
}

proof fn lemma_ws_back(s: Seq<char>, j: int)
    requires
        0 <= j <= s.len(),
    ensures
        0 <= ws_back(s, j) <= j,
        forall|k: int| ws_back(s, j) <= k < j ==> is_white_space(#[trigger] s[k]),
        ws_back(s, j) > 0 ==> !is_white_space(s[ws_back(s, j) - 1]),
    decreases j,
{
    if j > 0 && is_white_space(s[j - 1]) {
        lemma_ws_back(s, j - 1);
    }
}

/// Exec [`trim`] of `v[lo..hi]`, as a new vector.
pub(crate) fn trim_range(v: &Vec<char>, lo: usize, hi: usize) -> (r: Vec<char>)
    requires
        lo <= hi <= v@.len(),
    ensures
        r@ == trim(v@.subrange(lo as int, hi as int)),
{
    let ghost s = v@.subrange(lo as int, hi as int);
    let mut a = lo;
    while a < hi && char_is_whitespace(v[a])
        invariant
            lo <= a <= hi <= v@.len(),
            s == v@.subrange(lo as int, hi as int),
            ws_skip(s, 0) == ws_skip(s, a - lo),
        decreases hi - a,
    {
        a = a + 1;
    }
    let mut b = hi;
    while b > a && char_is_whitespace(v[b - 1])
        invariant
            lo <= a <= b <= hi <= v@.len(),
            s == v@.subrange(lo as int, hi as int),
            ws_back(s, s.len() as int) == ws_back(s, b - lo),
            a < hi ==> !is_white_space(v@[a as int]),
        decreases b,
    {
        b = b - 1;
    }
    proof {
        lemma_ws_skip(s, a - lo);
        lemma_ws_back(s, b - lo);
        if a < hi {
            assert(s[a - lo] == v@[a as int]);
        }
        if b > a {
            assert(s[b - lo - 1] == v@[b - 1]);
        } else if a < hi {
            // b == a: the back scan stopped at the first non-whitespace or below it
            lemma_ws_back(s, s.len() as int);
        }
    }
    let mut r: Vec<char> = Vec::new();
    let mut k = a;
    while k < b
        invariant
            lo <= a <= k <= b <= hi <= v@.len(),
            r@ == v@.subrange(a as int, k as int),
        decreases b - k,
    {
        r.push(v[k]);
        k = k + 1;
    }
    proof {
        if a < b {
            assert(trim(s) =~= v@.subrange(a as int, b as int));
        } else {
            assert(r@ =~= Seq::<char>::empty());
        }
    }
    r
}

// ---------------------------------------------------------------------------
// Rows and delimiter lines
// ---------------------------------------------------------------------------

/// Scanning a row left to right: the finished (trimmed) cells, the open
/// cell and whether the next character is escaped by `\`.
pub open spec fn scan_cells(cs: Seq<char>) -> (Seq<Seq<char>>, Seq<char>, bool)
    decreases cs.len(),
{
    if cs.len() == 0 {
        (Seq::empty(), Seq::empty(), false)
    } else {
        let (done, cur, esc) = scan_cells(cs.drop_last());
        let ch = cs.last();
        if esc {
            (done, cur.push(ch), false)
        } else if ch == '\\' {
            (done, cur, true)
        } else if ch == '|' {
            (done.push(trim(cur)), Seq::empty(), false)
        } else {
            (done, cur.push(ch), false)
        }
    }
}

/// The cells of a table row: split on unescaped `|` (a `\` keeps the next
/// character), each trimmed; an empty first and an empty last cell (the
/// row's outer pipes) are dropped when there are more cells.
pub open spec fn split_cells(line: Seq<char>) -> Seq<Seq<char>> {
    let (done, cur, _) = scan_cells(trim(line));
    let all = done.push(trim(cur));
    let a = if all.len() > 1 && all[0].len() == 0 { all.drop_first() } else { all };
    if a.len() > 1 && a.last().len() == 0 { a.drop_last() } else { a }
}

/// The characters of each cell.
pub open spec fn cells_view(v: Seq<Vec<char>>) -> Seq<Seq<char>> {
    Seq::new(v.len(), |i: int| v[i]@)
}

/// The cells of each row.
pub open spec fn rows_view(v: Seq<Vec<Vec<char>>>) -> Seq<Seq<Seq<char>>> {
    Seq::new(v.len(), |i: int| cells_view(v[i]@))
}

proof fn lemma_cells_push(v: Seq<Vec<char>>, x: Vec<char>)
    ensures
        cells_view(v.push(x)) == cells_view(v).push(x@),
{
    assert(cells_view(v.push(x)) =~= cells_view(v).push(x@));
}

proof fn lemma_rows_push(v: Seq<Vec<Vec<char>>>, x: Vec<Vec<char>>)
    ensures
        rows_view(v.push(x)) == rows_view(v).push(cells_view(x@)),
{
    assert(rows_view(v.push(x)) =~= rows_view(v).push(cells_view(x@)));
}

/// Exec [`split_cells`].
fn split_cells_exec(line: &Vec<char>) -> (r: Vec<Vec<char>>)
    ensures
        cells_view(r@) == split_cells(line@),
{
    let tl = trim_range(line, 0, line.len());
    assert(line@.subrange(0, line@.len() as int) =~= line@);
    let ghost ts = tl@;
    let mut cells: Vec<Vec<char>> = Vec::new();
    let mut cur: Vec<char> = Vec::new();
    let mut esc = false;
    let mut i: usize = 0;
    assert(ts.take(0) =~= Seq::<char>::empty());
    assert(cells_view(cells@) =~= Seq::<Seq<char>>::empty());
    while i < tl.len()
        invariant
            i <= ts.len(),
            ts == tl@,
            (cells_view(cells@), cur@, esc) == scan_cells(ts.take(i as int)),
        decreases ts.len() - i,
    {
        let ch = tl[i];
        assert(ts.take(i + 1).drop_last() =~= ts.take(i as int));
        assert(ts.take(i + 1).last() == ch);
        if esc {
            cur.push(ch);
            esc = false;
        } else if ch == '\\' {
            esc = true;
        } else if ch == '|' {
            let c = trim_range(&cur, 0, cur.len());
            assert(cur@.subrange(0, cur@.len() as int) =~= cur@);
            let ghost old_dv = cells_view(cells@);
            cells.push(c);
            assert(cells_view(cells@) =~= old_dv.push(trim(cur@)));
            cur = Vec::new();
            assert(cur@ =~= Seq::<char>::empty());
        } else {
            cur.push(ch);
        }
        i = i + 1;
    }
    assert(ts.take(ts.len() as int) =~= ts);
    let c = trim_range(&cur, 0, cur.len());
    assert(cur@.subrange(0, cur@.len() as int) =~= cur@);
    let ghost dv0 = cells_view(cells@);
    cells.push(c);
    let ghost all = cells_view(cells@);
    assert(all =~= dv0.push(trim(cur@)));
    if cells.len() > 1 && cells[0].len() == 0 {
        assert(all[0] == cells@[0]@);
        cells.remove(0);
        assert(cells_view(cells@) =~= all.drop_first());
    }
    let ghost a = cells_view(cells@);
    let n = cells.len();
    if n > 1 && cells[n - 1].len() == 0 {
        assert(a.last() == cells@[n - 1]@);
        cells.pop();
        assert(cells_view(cells@) =~= a.drop_last());
    }
    cells
}

/// `s` split on every `sep` (`str::split`).
pub open spec fn split_on(s: Seq<char>, sep: char) -> Seq<Seq<char>>
    decreases s.len(),
{
    if s.len() == 0 {
        seq![Seq::empty()]
    } else {
        let p = split_on(s.drop_last(), sep);
        if s.last() == sep {
            p.push(Seq::empty())
        } else {
            p.update(p.len() - 1, p.last().push(s.last()))
        }
    }
}

proof fn lemma_split_on_len(s: Seq<char>, sep: char)
    ensures
        split_on(s, sep).len() >= 1,
    decreases s.len(),
{
    if s.len() > 0 {
        lemma_split_on_len(s.drop_last(), sep);
    }
}

/// First index at or after `i` that is not `|`.
pub open spec fn bar_skip(s: Seq<char>, i: int) -> int
    decreases s.len() - i,
{
    if i < 0 || i >= s.len() {
        if i < 0 { 0 } else { s.len() as int }
    } else if s[i] == '|' {
        bar_skip(s, i + 1)
    } else {
        i
    }
}

/// End of `s[..j]` without its trailing `|`s.
pub open spec fn bar_back(s: Seq<char>, j: int) -> int
    decreases j,
{
    if j <= 0 || j > s.len() {
        0
    } else if s[j - 1] == '|' {
        bar_back(s, j - 1)
    } else {
        j
    }
}

/// A delimiter cell: only `-`, `:` and spaces, with at least one `-`.
pub open spec fn delim_cell_ok(c: Seq<char>) -> bool {
    &&& c.len() > 0
    &&& forall|j: int| 0 <= j < c.len() ==> (#[trigger] c[j] == '-' || c[j] == ':' || c[j] == ' ')
    &&& c.contains('-')
}

/// The trimmed line without its outer pipes.
pub open spec fn delim_body(line: Seq<char>) -> Seq<char> {
    let t0 = trim(line);
    let a = bar_skip(t0, 0);
    let b = bar_back(t0, t0.len() as int);
    if a < b { t0.subrange(a, b) } else { Seq::empty() }
}

/// The line is a table's delimiter row (`| --- | :-: |`).
pub open spec fn is_delim(line: Seq<char>) -> bool {
    &&& delim_body(line).len() > 0
    &&& forall|i: int|
        0 <= i < split_on(delim_body(line), '|').len() ==> delim_cell_ok(
            trim(#[trigger] split_on(delim_body(line), '|')[i]),
        )
}

/// Exec [`delim_cell_ok`] of `trim(v[lo..hi])`.
fn delim_cell_exec(v: &Vec<char>, lo: usize, hi: usize) -> (r: bool)
    requires
        lo <= hi <= v@.len(),
    ensures
        r == delim_cell_ok(trim(v@.subrange(lo as int, hi as int))),
{
    let c = trim_range(v, lo, hi);
    if c.len() == 0 {
        return false;
    }
    let mut dash = false;
    let mut j: usize = 0;
    while j < c.len()
        invariant
            j <= c@.len(),
            lo <= hi <= v@.len(),
            c@ == trim(v@.subrange(lo as int, hi as int)),
            forall|k: int| 0 <= k < j ==> (#[trigger] c@[k] == '-' || c@[k] == ':' || c@[k] == ' '),
            dash == exists|k: int| 0 <= k < j && c@[k] == '-',
        decreases c@.len() - j,
    {
        let ch = c[j];
        if !(ch == '-' || ch == ':' || ch == ' ') {
            assert(!delim_cell_ok(c@));
            return false;
        }
        if ch == '-' {
            dash = true;
        }
        j = j + 1;
    }
    proof {
        if dash {
            let k = choose|k: int| 0 <= k < j && c@[k] == '-';
            assert(c@.contains('-'));
        }
        if c@.contains('-') {
            let k = choose|k: int| 0 <= k < c@.len() && c@[k] == '-';
            assert(dash);
        }
    }
    dash
}

/// Exec [`is_delim`].
fn is_delim_line(line: &Vec<char>) -> (r: bool)
    ensures
        r == is_delim(line@),
{
    let t0 = trim_range(line, 0, line.len());
    assert(line@.subrange(0, line@.len() as int) =~= line@);
    let n = t0.len();
    let mut a: usize = 0;
    while a < n && t0[a] == '|'
        invariant
            a <= n == t0@.len(),
            bar_skip(t0@, 0) == bar_skip(t0@, a as int),
        decreases n - a,
    {
        a = a + 1;
    }
    let mut b: usize = n;
    while b > 0 && t0[b - 1] == '|'
        invariant
            b <= n == t0@.len(),
            bar_back(t0@, n as int) == bar_back(t0@, b as int),
        decreases b,
    {
        b = b - 1;
    }
    proof {
        assert(bar_skip(t0@, a as int) == a);
        assert(bar_back(t0@, b as int) == b);
        assert(bar_skip(t0@, 0) == a);
        assert(bar_back(t0@, t0@.len() as int) == b);
    }
    if a >= b {
        return false;
    }
    let ghost t = t0@.subrange(a as int, b as int);
    let mut ok = true;
    let mut seg: usize = a;
    let mut k: usize = a;
    assert(t.take(0) =~= Seq::<char>::empty());
    assert(split_on(t.take(0), '|') =~= seq![Seq::<char>::empty()]);
    while k < b
        invariant
            a <= seg <= k <= b <= n == t0@.len(),
            t == t0@.subrange(a as int, b as int),
            bar_skip(t0@, 0) == a,
            bar_back(t0@, t0@.len() as int) == b,
            t0@ == trim(line@),
            split_on(t.take(k - a), '|').last() == t0@.subrange(seg as int, k as int),
            split_on(t.take(k - a), '|').len() >= 1,
            ok == forall|i: int|
                0 <= i < split_on(t.take(k - a), '|').len() - 1 ==> delim_cell_ok(
                    trim(#[trigger] split_on(t.take(k - a), '|')[i]),
                ),
        decreases b - k,
    {
        let ghost p = split_on(t.take(k - a), '|');
        assert(t.take(k - a + 1).drop_last() =~= t.take(k - a));
        assert(t.take(k - a + 1).last() == t0@[k as int]);
        if t0[k] == '|' {
            let c_ok = delim_cell_exec(&t0, seg, k);
            let ghost q = split_on(t.take(k - a + 1), '|');
            assert(q == p.push(Seq::empty()));
            assert forall|i: int| 0 <= i < q.len() - 1 implies (q[i] == p[i]) by {}
            if !c_ok {
                ok = false;
            }
            seg = k + 1;
            assert(q.last() =~= t0@.subrange(seg as int, (k + 1) as int));
        } else {
            let ghost q = split_on(t.take(k - a + 1), '|');
            assert(q == p.update(p.len() - 1, p.last().push(t0@[k as int])));
            assert forall|i: int| 0 <= i < q.len() - 1 implies (q[i] == p[i]) by {}
            assert(q.last() =~= t0@.subrange(seg as int, (k + 1) as int));
        }
        k = k + 1;
    }
    assert(t.take(b - a) =~= t);
    let last_ok = delim_cell_exec(&t0, seg, b);
    proof {
        let q = split_on(t, '|');
        assert(q.last() == q[q.len() - 1]);
        assert(q.last() == t0@.subrange(seg as int, b as int));
        assert(trim(line@) == t0@);
        assert(delim_body(line@) == t);
        if ok && last_ok {
            assert forall|i: int| 0 <= i < q.len() implies delim_cell_ok(trim(#[trigger] q[i])) by {
                if i < q.len() - 1 {
                    assert(delim_cell_ok(trim(q[i])));
                }
            }
            assert(is_delim(line@));
        } else {
            let i = if !last_ok {
                q.len() - 1
            } else {
                choose|i: int| 0 <= i < q.len() - 1 && !delim_cell_ok(trim(#[trigger] q[i]))
            };
            assert(0 <= i < q.len() && !delim_cell_ok(trim(q[i])));
            assert(delim_body(line@) == t);
            if is_delim(line@) {
                assert(delim_cell_ok(trim(split_on(delim_body(line@), '|')[i])));
            }
        }
    }
    ok && last_ok
}

// ---------------------------------------------------------------------------
// Finding tables
// ---------------------------------------------------------------------------

/// Column alignment of a table.
#[derive(Clone, Copy, PartialEq, Eq, Structural)]
pub enum Align {
    Left,
    Center,
    Right,
    Unset,
}

/// A table of the text: byte range (header line to the end of the last
/// row, its line break included), header cells, body rows, alignments.
pub struct TableModel {
    pub start: int,
    pub end: int,
    pub header: Seq<Seq<char>>,
    pub body: Seq<Seq<Seq<char>>>,
    pub aligns: Seq<Align>,
}

/// The characters of line `k`.
pub open spec fn line_chars(t: Seq<u8>, k: int) -> Seq<char> {
    let (s, e, _) = line_tuple(t, k as nat);
    decode_utf8(t.subrange(s, e))
}

/// Only whitespace (`str::trim` gives the empty string).
pub open spec fn all_ws(c: Seq<char>) -> bool {
    forall|i: int| 0 <= i < c.len() ==> is_white_space(#[trigger] c[i])
}

/// A line that continues a table body: it has a `|` and is not blank.
pub open spec fn body_line(c: Seq<char>) -> bool {
    c.contains('|') && !all_ws(c)
}

/// The first line at or after `j` that ends the body of a table.
pub open spec fn body_end(t: Seq<u8>, j: int) -> int
    decreases spec_line_count(t) - j,
{
    if j < 0 || j >= spec_line_count(t) || !body_line(line_chars(t, j)) {
        j
    } else {
        body_end(t, j + 1)
    }
}

/// Alignment written in a delimiter cell.
pub open spec fn align_of(c: Seq<char>) -> Align {
    let t = trim(c);
    let starts = t.len() > 0 && t[0] == ':';
    let ends = t.len() > 0 && t.last() == ':';
    if starts && ends {
        Align::Center
    } else if ends {
        Align::Right
    } else if starts {
        Align::Left
    } else {
        Align::Unset
    }
}

/// The table whose header is line `idx` (delimiter at `idx + 1`).
pub open spec fn table_here(t: Seq<u8>, idx: int) -> TableModel {
    let be = body_end(t, idx + 2);
    let last = if be == idx + 2 { idx + 1 } else { be - 1 };
    TableModel {
        start: line_tuple(t, idx as nat).0,
        end: line_tuple(t, last as nat).2,
        header: split_cells(line_chars(t, idx)),
        body: Seq::new((be - idx - 2) as nat, |r: int| split_cells(line_chars(t, idx + 2 + r))),
        aligns: split_cells(line_chars(t, idx + 1)).map_values(|c: Seq<char>| align_of(c)),
    }
}

/// Line `idx` starts a table.
pub open spec fn starts_table(t: Seq<u8>, idx: int) -> bool {
    line_chars(t, idx).contains('|') && is_delim(line_chars(t, idx + 1))
}

/// The tables of the text from line `idx` on, in order.
pub open spec fn tables_from(t: Seq<u8>, idx: int) -> Seq<TableModel>
    decreases spec_line_count(t) - idx,
{
    if idx < 0 || idx + 1 >= spec_line_count(t) {
        Seq::empty()
    } else if !starts_table(t, idx) {
        tables_from(t, idx + 1)
    } else {
        let be = body_end(t, idx + 2);
        proof {
            lemma_body_end(t, idx + 2);
        }
        if be <= idx {
            Seq::empty()
        } else {
            seq![table_here(t, idx)] + tables_from(t, be)
        }
    }
}

/// A parsed table.
pub struct RawTable {
    start: usize,
    end: usize,
    header: Vec<Vec<char>>,
    body: Vec<Vec<Vec<char>>>,
    aligns: Vec<Align>,
}

/// `r` holds the table `m`.
pub closed spec fn raw_is(r: RawTable, m: TableModel) -> bool {
    &&& r.start == m.start
    &&& r.end == m.end
    &&& cells_view(r.header@) == m.header
    &&& rows_view(r.body@) == m.body
    &&& r.aligns@ == m.aligns
}

pub proof fn lemma_body_end(t: Seq<u8>, j: int)
    requires
        0 <= j,
    ensures
        j <= body_end(t, j),
        body_end(t, j) <= spec_line_count(t) || body_end(t, j) == j,
        forall|k: int| j <= k < body_end(t, j) ==> body_line(#[trigger] line_chars(t, k)),
        body_end(t, j) < spec_line_count(t) ==> !body_line(line_chars(t, body_end(t, j))),
    decreases spec_line_count(t) - j,
{
    if j < spec_line_count(t) && body_line(line_chars(t, j)) {
        lemma_body_end(t, j + 1);
    }
}

/// The characters of every line of `text`.
fn all_line_chars(text: &str) -> (v: Vec<Vec<char>>)
    requires
        bytes_of(text@).len() < usize::MAX,
    ensures
        v@.len() == spec_line_count(bytes_of(text@)),
        forall|k: int| 0 <= k < v@.len() ==> (#[trigger] v@[k])@ == line_chars(bytes_of(text@), k),
{
    let ghost t = bytes_of(text@);
    let mut v: Vec<Vec<char>> = Vec::new();
    let mut i: usize = 0;
    loop
        invariant
            t == bytes_of(text@),
            t.len() < usize::MAX,
            v@.len() == i,
            i <= spec_line_count(t),
            forall|k: int| 0 <= k < v@.len() ==> (#[trigger] v@[k])@ == line_chars(t, k),
        ensures
            v@.len() == spec_line_count(t),
            forall|k: int| 0 <= k < v@.len() ==> (#[trigger] v@[k])@ == line_chars(t, k),
        decreases spec_line_count(t) - i,
    {
        match line_bounds(text, i) {
            None => {
                break;
            },
            Some((s, e, _)) => {
                proof {
                    assert(is_line_bounds(t, i as int, s as int, e as int, line_tuple(t, i as nat).2));
                    if s > 0 {
                        crate::format::lemma_ascii_prefix_boundary(t, 0, s as int);
                    }
                    crate::text_utils::lemma_nl_count_le(t.subrange(0, s as int));
                }
                let sub = str_range(text, s, e);
                let cs = chars_of(sub);
                v.push(cs);
                i = i + 1;
            },
        }
    }
    v
}

/// Index of the first line at or after `j` that ends a table body.
fn body_end_exec(lines: &Vec<Vec<char>>, j: usize, Ghost(t): Ghost<Seq<u8>>) -> (r: usize)
    requires
        lines@.len() == spec_line_count(t),
        forall|k: int| 0 <= k < lines@.len() ==> (#[trigger] lines@[k])@ == line_chars(t, k),
        j <= lines@.len(),
    ensures
        r == body_end(t, j as int),
        j <= r <= lines@.len(),
{
    let mut k = j;
    while k < lines.len() && contains_bar(&lines[k]) && !all_ws_exec(&lines[k])
        invariant
            j <= k <= lines@.len(),
            lines@.len() == spec_line_count(t),
            forall|q: int| 0 <= q < lines@.len() ==> (#[trigger] lines@[q])@ == line_chars(t, q),
            body_end(t, j as int) == body_end(t, k as int),
        decreases lines@.len() - k,
    {
        k = k + 1;
    }
    k
}

/// `c` holds a `|`.
fn contains_bar(c: &Vec<char>) -> (r: bool)
    ensures
        r == c@.contains('|'),
{
    let mut i: usize = 0;
    while i < c.len()
        invariant
            i <= c@.len(),
            forall|k: int| 0 <= k < i ==> c@[k] != '|',
        decreases c@.len() - i,
    {
        if c[i] == '|' {
            return true;
        }
        i = i + 1;
    }
    false
}

/// Exec [`all_ws`].
fn all_ws_exec(c: &Vec<char>) -> (r: bool)
    ensures
        r == all_ws(c@),
{
    let mut i: usize = 0;
    while i < c.len()
        invariant
            i <= c@.len(),
            forall|k: int| 0 <= k < i ==> is_white_space(#[trigger] c@[k]),
        decreases c@.len() - i,
    {
        if !char_is_whitespace(c[i]) {
            return false;
        }
        i = i + 1;
    }
    true
}

/// The offsets of a parsed table are in order and on character boundaries.
pub closed spec fn raw_ok(r: RawTable, t: Seq<u8>) -> bool {
    &&& r.start <= r.end <= t.len()
    &&& boundary(t, r.start as int)
    &&& boundary(t, r.end as int)
    &&& r.body@.len() + 2 <= spec_line_count(t)
}

/// The table a parsed table holds.
pub closed spec fn model_of(r: RawTable) -> TableModel {
    TableModel {
        start: r.start as int,
        end: r.end as int,
        header: cells_view(r.header@),
        body: rows_view(r.body@),
        aligns: r.aligns@,
    }
}

/// The tables parsed tables hold.
pub closed spec fn models(v: Seq<RawTable>) -> Seq<TableModel> {
    Seq::new(v.len(), |i: int| model_of(v[i]))
}

/// Exec [`align_of`].
fn align_of_exec(c: &Vec<char>) -> (a: Align)
    ensures
        a == align_of(c@),
{
    let t = trim_range(c, 0, c.len());
    assert(c@.subrange(0, c@.len() as int) =~= c@);
    let n = t.len();
    let starts = n > 0 && t[0] == ':';
    let ends = n > 0 && t[n - 1] == ':';
    if starts && ends {
        Align::Center
    } else if ends {
        Align::Right
    } else if starts {
        Align::Left
    } else {
        Align::Unset
    }
}

/// The rows `lines[a..b]` split into cells.
fn split_rows(lines: &Vec<Vec<char>>, a: usize, b: usize) -> (r: Vec<Vec<Vec<char>>>)
    requires
        a <= b <= lines@.len(),
    ensures
        rows_view(r@) == Seq::new((b - a) as nat, |k: int| split_cells(lines@[a + k]@)),
{
    let mut r: Vec<Vec<Vec<char>>> = Vec::new();
    let mut k = a;
    while k < b
        invariant
            a <= k <= b <= lines@.len(),
            r@.len() == k - a,
            rows_view(r@) == Seq::new((k - a) as nat, |q: int| split_cells(lines@[a + q]@)),
        decreases b - k,
    {
        let ghost old_r = r@;
        let c = split_cells_exec(&lines[k]);
        r.push(c);
        assert(r@ == old_r.push(c));
        assert forall|q: int| 0 <= q < k + 1 - a implies #[trigger] rows_view(r@)[q] == split_cells(lines@[a + q]@) by {
            if q < k - a {
                assert(rows_view(r@)[q] == rows_view(old_r)[q]);
            } else {
                assert(r@[q] == c);
            }
        }
        assert(rows_view(r@) =~= Seq::new((k + 1 - a) as nat, |q: int| split_cells(lines@[a + q]@)));
        k = k + 1;
    }
    r
}

/// Exec [`align_of`] over every delimiter cell.
fn aligns_of(cells: &Vec<Vec<char>>) -> (r: Vec<Align>)
    ensures
        r@ == cells_view(cells@).map_values(|c: Seq<char>| align_of(c)),
{
    let mut r: Vec<Align> = Vec::new();
    let mut k: usize = 0;
    while k < cells.len()
        invariant
            k <= cells@.len(),
            r@ == cells_view(cells@).take(k as int).map_values(|c: Seq<char>| align_of(c)),
        decreases cells@.len() - k,
    {
        r.push(align_of_exec(&cells[k]));
        assert(r@ =~= cells_view(cells@).take(k + 1).map_values(|c: Seq<char>| align_of(c)));
        k = k + 1;
    }
    assert(cells_view(cells@).take(k as int) =~= cells_view(cells@));
    r
}

/// Byte bounds of line `k`, which exists.
fn bounds_of(text: &str, k: usize) -> (r: (usize, usize, usize))
    requires
        k < spec_line_count(bytes_of(text@)),
    ensures
        (r.0 as int, r.1 as int, r.2 as int) == line_tuple(bytes_of(text@), k as nat),
        is_line_bounds(bytes_of(text@), k as int, r.0 as int, r.1 as int, r.2 as int),
{
    match line_bounds(text, k) {
        Some(b) => b,
        None => (0, 0, 0),
    }
}

/// All tables of `text`, in order.
pub fn parse_tables(text: &str) -> (r: Vec<RawTable>)
    requires
        bytes_of(text@).len() < usize::MAX,
    ensures
        models(r@) == tables_from(bytes_of(text@), 0),
        forall|i: int| 0 <= i < r@.len() ==> raw_ok(#[trigger] r@[i], bytes_of(text@)),
{
    let ghost t = bytes_of(text@);
    let lines = all_line_chars(text);
    let total = lines.len();
    let mut tables: Vec<RawTable> = Vec::new();
    let mut idx: usize = 0;
    assert(models(tables@) + tables_from(t, 0) =~= tables_from(t, 0));
    while total - idx > 1
        invariant
            t == bytes_of(text@),
            total == lines@.len() == spec_line_count(t),
            forall|k: int| 0 <= k < lines@.len() ==> (#[trigger] lines@[k])@ == line_chars(t, k),
            idx <= total,
            models(tables@) + tables_from(t, idx as int) == tables_from(t, 0),
            forall|i: int| 0 <= i < tables@.len() ==> raw_ok(#[trigger] tables@[i], t),
        decreases total - idx,
    {
        if !contains_bar(&lines[idx]) || !is_delim_line(&lines[idx + 1]) {
            idx = idx + 1;
            continue;
        }
        let be = body_end_exec(&lines, idx + 2, Ghost(t));
        proof {
            lemma_body_end(t, idx + 2);
        }
        let body = split_rows(&lines, idx + 2, be);
        let last = if be == idx + 2 { idx + 1 } else { be - 1 };
        let (hs, _, _) = bounds_of(text, idx);
        let (ls, _, le) = bounds_of(text, last);
        proof {
            if ls < hs {
                crate::text_utils::lemma_nl_count_concat(
                    t.subrange(0, ls as int),
                    t.subrange(ls as int, hs as int),
                );
                assert(t.subrange(0, ls as int) + t.subrange(ls as int, hs as int) =~= t.subrange(0, hs as int));
            }
            if hs > 0 {
                crate::format::lemma_ascii_prefix_boundary(t, 0, hs as int);
            }
            if le > 0 && le < t.len() {
                assert(t[le - 1] == 10u8);
                crate::format::lemma_ascii_prefix_boundary(t, 0, le as int);
            }
        }
        let header = split_cells_exec(&lines[idx]);
        let delim = split_cells_exec(&lines[idx + 1]);
        let aligns = aligns_of(&delim);
        let raw = RawTable { start: hs, end: le, header, body, aligns };
        proof {
            assert(model_of(raw) == table_here(t, idx as int)) by {
                assert(rows_view(raw.body@) =~= table_here(t, idx as int).body);
            }
            let ghost old_m = models(tables@);
            assert(tables_from(t, idx as int) == seq![table_here(t, idx as int)] + tables_from(t, be as int));
        }
        let ghost old_m = models(tables@);
        assert(raw.start <= raw.end <= t.len());
        assert(boundary(t, raw.start as int));
        assert(boundary(t, raw.end as int));
        assert(raw.body@.len() == rows_view(raw.body@).len());
        assert(rows_view(raw.body@).len() == be - idx - 2);
        assert(raw.body@.len() + 2 <= spec_line_count(t));
        assert(raw_ok(raw, t));
        tables.push(raw);
        assert(models(tables@) =~= old_m.push(table_here(t, idx as int)));
        assert(models(tables@) + tables_from(t, be as int) =~= old_m + (seq![table_here(t, idx as int)]
            + tables_from(t, be as int)));
        idx = be;
    }
    assert(tables_from(t, idx as int) =~= Seq::<TableModel>::empty());
    assert(models(tables@) =~= models(tables@) + tables_from(t, idx as int));
    tables
}

// ---------------------------------------------------------------------------
// The table around the caret
// ---------------------------------------------------------------------------

/// Slicing at the caret's row cannot cut a character: the caret, or the
/// last byte of the table when the caret sits at its very end.
pub open spec fn at_safe(t: Seq<u8>, byte: int) -> bool {
    first_covering(tables_from(t, 0), byte, 0) matches Some(i) ==> boundary(
        t,
        imin(byte, sat_sub(tables_from(t, 0)[i].end, 1)),
    )
}

pub open spec fn imax(a: int, b: int) -> int {
    if a >= b { a } else { b }
}

pub open spec fn imin(a: int, b: int) -> int {
    if a <= b { a } else { b }
}

/// `a - b`, or `0` below zero.
pub open spec fn sat_sub(a: int, b: int) -> int {
    if a >= b { a - b } else { 0 }
}

/// The longest body row.
pub open spec fn max_row_len(body: Seq<Seq<Seq<char>>>) -> int
    decreases body.len(),
{
    if body.len() == 0 {
        0
    } else {
        imax(max_row_len(body.drop_last()), body.last().len() as int)
    }
}

/// Number of columns of a parsed table.
pub open spec fn column_count(m: TableModel) -> int {
    imax(imax(m.header.len() as int, max_row_len(m.body)), m.aligns.len() as int)
}

/// The table covers `byte` (its end offset included).
pub open spec fn covers(m: TableModel, byte: int) -> bool {
    (m.start <= byte < m.end) || byte == m.end
}

/// Index of the first table from `i` on that covers `byte`.
pub open spec fn first_covering(ts: Seq<TableModel>, byte: int, i: int) -> Option<int>
    decreases ts.len() - i,
{
    if i < 0 || i >= ts.len() {
        None
    } else if covers(ts[i], byte) {
        Some(i)
    } else {
        first_covering(ts, byte, i + 1)
    }
}

/// Table row of `byte`: 0 header, 1 delimiter, 2.. body (clamped).
pub open spec fn table_row(t: Seq<u8>, m: TableModel, byte: int) -> int {
    let cl = nl_count(t.subrange(0, imin(byte, sat_sub(m.end, 1))));
    let sl = nl_count(t.subrange(0, m.start));
    imin(sat_sub(cl as int, sl as int), sat_sub(2 + m.body.len() as int, 1))
}

/// Number of `|` bytes.
pub open spec fn count_bars(b: Seq<u8>) -> int
    decreases b.len(),
{
    if b.len() == 0 {
        0
    } else {
        count_bars(b.drop_last()) + if b.last() == 124u8 { 1int } else { 0int }
    }
}

/// Column of `byte` on its line: pipes before it, less one.
pub open spec fn col_of(t: Seq<u8>, byte: int) -> int {
    let li = nl_count(t.subrange(0, byte));
    let (s, e) = if t.len() == 0 || li >= spec_line_count(t) {
        (0int, 0int)
    } else {
        (line_tuple(t, li).0, line_tuple(t, li).1)
    };
    let off = imin(sat_sub(imin(byte, e), s), e - s);
    let p = count_bars(t.subrange(s, s + off));
    if p == 0 { 0 } else { p - 1 }
}

/// The caret's column is the number of `|` before it on its line, less
/// one (0 before the first `|`): in `| a | b |` a caret in `a` is in column
/// 0 and one in `b` in column 1.
pub proof fn lemma_caret_column(t: Seq<u8>, s: int, c: int, e: int)
    requires
        0 <= s <= c <= e <= t.len(),
        is_line_start(t, s),
        no_nl(t, s, c),
        is_line_end(t, e),
        no_nl(t, c, e),
    ensures
        col_of(t, c) == if count_bars(t.subrange(s, c)) == 0 { 0 } else { count_bars(t.subrange(s, c)) - 1 },
{
    lemma_line_functions_agree(t, c, s, e);
}

/// Number of columns of a table: the widest of its header and body rows.
pub fn table_cols(t: &RawTable) -> (n: usize)
    ensures
        n == column_count(model_of(*t)),
{
    let mut m: usize = 0;
    let mut k: usize = 0;
    while k < t.body.len()
        invariant
            k <= t.body@.len(),
            m == max_row_len(rows_view(t.body@).take(k as int)),
        decreases t.body@.len() - k,
    {
        assert(rows_view(t.body@).take(k + 1).drop_last() =~= rows_view(t.body@).take(k as int));
        let l = t.body[k].len();
        if l > m {
            m = l;
        }
        k = k + 1;
    }
    assert(rows_view(t.body@).take(k as int) =~= rows_view(t.body@));
    let h = t.header.len();
    let a = t.aligns.len();
    let x = if h >= m { h } else { m };
    if x >= a { x } else { a }
}

/// Exec [`count_bars`] of `b[a..c]`.
fn count_bars_exec(b: &[u8], a: usize, c: usize) -> (n: usize)
    requires
        a <= c <= b@.len(),
    ensures
        n == count_bars(b@.subrange(a as int, c as int)),
{
    let mut n: usize = 0;
    let mut i = a;
    assert(b@.subrange(a as int, a as int) =~= Seq::<u8>::empty());
    while i < c
        invariant
            a <= i <= c <= b@.len(),
            n == count_bars(b@.subrange(a as int, i as int)),
            n <= i - a,
        decreases c - i,
    {
        assert(b@.subrange(a as int, i + 1).drop_last() =~= b@.subrange(a as int, i as int));
        if b[i] == 124u8 {
            n = n + 1;
        }
        i = i + 1;
    }
    n
}

/// Exec [`col_of`].
fn table_col_of(text: &str, byte: usize) -> (c: usize)
    requires
        byte <= bytes_of(text@).len(),
        boundary(bytes_of(text@), byte as int),
    ensures
        c == col_of(bytes_of(text@), byte as int),
{
    let t = text.as_bytes();
    let li = line_index(text, byte);
    let (s, e, _) = match line_bounds(text, li) {
        Some(b) => b,
        None => (0, 0, 0),
    };
    let m = if byte < e { byte } else { e };
    let d = if m >= s { m - s } else { 0 };
    let off = if d <= e - s { d } else { e - s };
    let p = count_bars_exec(t, s, s + off);
    if p == 0 { 0 } else { p - 1 }
}

/// Whether [`table_op`] can run at `byte`: slicing the caret's row cuts no
/// character in two.
pub fn table_caret_safe(text: &str, byte: usize) -> (r: bool)
    requires
        bytes_of(text@).len() < usize::MAX,
    ensures
        r == at_safe(bytes_of(text@), byte as int),
{
    let t = text.as_bytes();
    let tables = parse_tables(text);
    let ghost ts = tables_from(t@, 0);
    let mut i: usize = 0;
    while i < tables.len()
        invariant
            t@ == bytes_of(text@),
            ts == tables_from(t@, 0),
            models(tables@) == ts,
            forall|j: int| 0 <= j < tables@.len() ==> raw_ok(#[trigger] tables@[j], t@),
            i <= tables@.len(),
            first_covering(ts, byte as int, 0) == first_covering(ts, byte as int, i as int),
        decreases tables@.len() - i,
    {
        let st = tables[i].start;
        let en = tables[i].end;
        assert(model_of(tables@[i as int]) == ts[i as int]);
        if (st <= byte && byte < en) || byte == en {
            let last = if en >= 1 { en - 1 } else { 0 };
            let at = if byte <= last { byte } else { last };
            assert(raw_ok(tables@[i as int], t@));
            return crate::utf8_text::is_boundary(t, at);
        }
        i = i + 1;
    }
    true
}

/// The table covering `byte` and the caret's row in it.
fn table_at(text: &str, byte: usize) -> (r: Option<(RawTable, usize)>)
    requires
        bytes_of(text@).len() < usize::MAX,
        byte <= bytes_of(text@).len(),
        boundary(bytes_of(text@), byte as int),
        at_safe(bytes_of(text@), byte as int),
    ensures
        ({
            let ts = tables_from(bytes_of(text@), 0);
            match r {
                None => first_covering(ts, byte as int, 0) is None,
                Some((tb, row)) => first_covering(ts, byte as int, 0) matches Some(i) && model_of(tb) == ts[i]
                    && row == table_row(bytes_of(text@), ts[i], byte as int) && raw_ok(tb, bytes_of(text@)),
            }
        }),
{
    let ghost t = bytes_of(text@);
    let mut tables = parse_tables(text);
    let ghost ts = tables_from(t, 0);
    let ghost all = tables@;
    assert(all.len() == tables.len());
    let mut i: usize = 0;
    while tables.len() > 0
        invariant
            t == bytes_of(text@),
            ts == tables_from(t, 0),
            models(all) == ts,
            all.len() <= usize::MAX,
            forall|j: int| 0 <= j < all.len() ==> raw_ok(#[trigger] all[j], t),
            i <= all.len(),
            tables@ == all.skip(i as int),
            first_covering(ts, byte as int, 0) == first_covering(ts, byte as int, i as int),
            byte <= t.len(),
            boundary(t, byte as int),
            at_safe(t, byte as int),
            t.len() < usize::MAX,
        decreases tables@.len(),
    {
        let tb = tables.remove(0);
        assert(tb == all[i as int]);
        assert(model_of(tb) == ts[i as int]);
        assert(tables@ =~= all.skip(i + 1));
        let inside = if byte >= tb.start && byte < tb.end {
            true
        } else {
            byte == tb.end
        };
        if inside {
            proof {
                assert(raw_ok(all[i as int], t));
                crate::text_utils::lemma_nl_count_le(t);
            }
            let last = if tb.end >= 1 { tb.end - 1 } else { 0 };
            let b = if byte <= last { byte } else { last };
            let caret_line = line_index(text, b);
            let start_line = line_index(text, tb.start);
            let total: usize = 2 + tb.body.len();
            let d = if caret_line >= start_line { caret_line - start_line } else { 0 };
            let row = if d <= total - 1 { d } else { total - 1 };
            return Some((tb, row));
        }
        i = i + 1;
    }
    None
}

// ---------------------------------------------------------------------------
// Rendering
// ---------------------------------------------------------------------------

/// Width of column `i`: the widest cell of the rows, at least 3.
pub open spec fn col_width(rows: Seq<Seq<Seq<char>>>, i: int) -> int
    decreases rows.len(),
{
    if rows.len() == 0 {
        3
    } else {
        let w = col_width(rows.drop_last(), i);
        let r = rows.last();
        if 0 <= i < r.len() && r[i].len() > w { r[i].len() as int } else { w }
    }
}

/// `n` copies of `c` (none when `n <= 0`).
pub open spec fn repeat(c: char, n: int) -> Seq<char> {
    Seq::new(if n > 0 { n as nat } else { 0 }, |k: int| c)
}

/// ` cell␣␣ |` padded to width `w`.
pub open spec fn cell_text(cells: Seq<Seq<char>>, i: int, w: int) -> Seq<char> {
    let content = if 0 <= i < cells.len() { cells[i] } else { Seq::empty() };
    seq![' '] + content + repeat(' ', w - content.len()) + seq![' ', '|']
}

/// The first `k` padded cells of a row.
pub open spec fn row_cells(cells: Seq<Seq<char>>, rows: Seq<Seq<Seq<char>>>, k: int) -> Seq<char>
    decreases k,
{
    if k <= 0 {
        Seq::empty()
    } else {
        row_cells(cells, rows, k - 1) + cell_text(cells, k - 1, col_width(rows, k - 1))
    }
}

/// A rendered row: `|` then `cols` padded cells, then a line break.
pub open spec fn row_text(cells: Seq<Seq<char>>, rows: Seq<Seq<Seq<char>>>, cols: int) -> Seq<char> {
    seq!['|'] + row_cells(cells, rows, cols) + seq!['\n']
}

/// The dashes (and colons) of a delimiter cell of width `w`.
pub open spec fn delim_pattern(a: Align, w: int) -> Seq<char> {
    match a {
        Align::Left => seq![':'] + repeat('-', w - 1),
        Align::Right => repeat('-', w - 1) + seq![':'],
        Align::Center => seq![':'] + repeat('-', imax(w - 2, 1)) + seq![':'],
        Align::Unset => repeat('-', w),
    }
}

/// The first `k` cells of the delimiter row.
pub open spec fn delim_cells(aligns: Seq<Align>, rows: Seq<Seq<Seq<char>>>, k: int) -> Seq<char>
    decreases k,
{
    if k <= 0 {
        Seq::empty()
    } else {
        let a = if k - 1 < aligns.len() { aligns[k - 1] } else { Align::Unset };
        delim_cells(aligns, rows, k - 1) + seq![' '] + delim_pattern(a, col_width(rows, k - 1)) + seq![' ', '|']
    }
}

/// The first `n` body rows, rendered.
pub open spec fn body_text(body: Seq<Seq<Seq<char>>>, rows: Seq<Seq<Seq<char>>>, cols: int, n: int) -> Seq<char>
    decreases n,
{
    if n <= 0 {
        Seq::empty()
    } else {
        body_text(body, rows, cols, n - 1) + row_text(body[n - 1], rows, cols)
    }
}

/// Number of columns rendered (at least one).
pub open spec fn render_cols(header: Seq<Seq<char>>, body: Seq<Seq<Seq<char>>>, aligns: Seq<Align>) -> int {
    imax(imax(imax(header.len() as int, aligns.len() as int), max_row_len(body)), 1)
}

/// The table rendered with padded cells: header, delimiter, body rows,
/// each line ending in a line break.
pub open spec fn render(header: Seq<Seq<char>>, body: Seq<Seq<Seq<char>>>, aligns: Seq<Align>) -> Seq<char> {
    let rows = seq![header] + body;
    let cols = render_cols(header, body, aligns);
    row_text(header, rows, cols) + seq!['|'] + delim_cells(aligns, rows, cols) + seq!['\n'] + body_text(
        body,
        rows,
        cols,
        body.len() as int,
    )
}

/// Push `n` copies of `c`.
fn push_repeat(out: &mut Vec<char>, c: char, n: usize)
    ensures
        final(out)@ == old(out)@ + repeat(c, n as int),
{
    let mut k: usize = 0;
    while k < n
        invariant
            k <= n,
            out@ == old(out)@ + repeat(c, k as int),
        decreases n - k,
    {
        out.push(c);
        assert(out@ =~= old(out)@ + repeat(c, (k + 1) as int));
        k = k + 1;
    }
}

/// Push all characters of `v`.
fn push_chars(out: &mut Vec<char>, v: &Vec<char>)
    ensures
        final(out)@ == old(out)@ + v@,
{
    let mut k: usize = 0;
    while k < v.len()
        invariant
            k <= v@.len(),
            out@ == old(out)@ + v@.take(k as int),
        decreases v@.len() - k,
    {
        out.push(v[k]);
        assert(out@ =~= old(out)@ + v@.take(k + 1));
        k = k + 1;
    }
    assert(v@.take(k as int) =~= v@);
}

/// Widen the column widths by the cells of one more row.
fn widen(w: &mut Vec<usize>, row: &Vec<Vec<char>>, cols: usize, Ghost(before): Ghost<Seq<Seq<Seq<char>>>>)
    requires
        old(w)@.len() == cols,
        forall|q: int| 0 <= q < cols ==> #[trigger] old(w)@[q] == col_width(before, q),
    ensures
        final(w)@.len() == cols,
        forall|q: int| 0 <= q < cols ==> #[trigger] final(w)@[q] == col_width(before.push(cells_view(row@)), q),
{
    let ghost after = before.push(cells_view(row@));
    assert(after.drop_last() =~= before);
    let n = if row.len() < cols { row.len() } else { cols };
    let mut j: usize = 0;
    while j < cols
        invariant
            j <= cols,
            n == (if row@.len() < cols { row@.len() as int } else { cols as int }),
            w@.len() == cols,
            after == before.push(cells_view(row@)),
            after.drop_last() == before,
            forall|q: int| 0 <= q < j ==> #[trigger] w@[q] == col_width(after, q),
            forall|q: int| j <= q < cols ==> #[trigger] w@[q] == col_width(before, q),
        decreases cols - j,
    {
        if j < n {
            let l = row[j].len();
            assert(cells_view(row@)[j as int] == row@[j as int]@);
            if l > w[j] {
                w.set(j, l);
            }
        }
        assert(w@[j as int] == col_width(after, j as int));
        j = j + 1;
    }
}

/// Column widths for `cols` columns over the header and body rows.
fn column_widths(header: &Vec<Vec<char>>, body: &Vec<Vec<Vec<char>>>, cols: usize) -> (w: Vec<usize>)
    ensures
        w@.len() == cols,
        forall|i: int| 0 <= i < cols ==> #[trigger] w@[i] == col_width(
            seq![cells_view(header@)] + rows_view(body@),
            i,
        ),
{
    let ghost rows = seq![cells_view(header@)] + rows_view(body@);
    let mut w: Vec<usize> = Vec::new();
    let mut i: usize = 0;
    while i < cols
        invariant
            i <= cols,
            w@.len() == i,
            forall|j: int| 0 <= j < i ==> #[trigger] w@[j] == 3,
        decreases cols - i,
    {
        w.push(3);
        i = i + 1;
    }
    assert forall|j: int| 0 <= j < cols implies #[trigger] w@[j] == col_width(Seq::<Seq<Seq<char>>>::empty(), j) by {}
    widen(&mut w, header, cols, Ghost(Seq::empty()));
    assert(Seq::<Seq<Seq<char>>>::empty().push(cells_view(header@)) =~= rows.take(1));
    let mut k: usize = 0;
    while k < body.len()
        invariant
            k <= body@.len(),
            rows == seq![cells_view(header@)] + rows_view(body@),
            w@.len() == cols,
            forall|j: int| 0 <= j < cols ==> #[trigger] w@[j] == col_width(rows.take(k + 1), j),
        decreases body@.len() - k,
    {
        assert(rows.take(k + 2) =~= rows.take(k + 1).push(cells_view(body@[k as int]@)));
        widen(&mut w, &body[k], cols, Ghost(rows.take(k + 1)));
        k = k + 1;
    }
    assert(rows.take((body@.len() + 1) as int) =~= rows);
    w
}

/// Push one rendered row.
fn push_row(
    out: &mut Vec<char>,
    cells: &Vec<Vec<char>>,
    w: &Vec<usize>,
    cols: usize,
    Ghost(rows): Ghost<Seq<Seq<Seq<char>>>>,
)
    requires
        w@.len() == cols,
        forall|q: int| 0 <= q < cols ==> #[trigger] w@[q] == col_width(rows, q),
    ensures
        final(out)@ == old(out)@ + row_text(cells_view(cells@), rows, cols as int),
{
    let ghost cv = cells_view(cells@);
    out.push('|');
    let mut i: usize = 0;
    while i < cols
        invariant
            i <= cols,
            w@.len() == cols,
            cv == cells_view(cells@),
            forall|q: int| 0 <= q < cols ==> #[trigger] w@[q] == col_width(rows, q),
            out@ == old(out)@ + seq!['|'] + row_cells(cv, rows, i as int),
        decreases cols - i,
    {
        out.push(' ');
        let ghost before = out@;
        let mut n: usize = 0;
        if i < cells.len() {
            push_chars(out, &cells[i]);
            n = cells[i].len();
            assert(cv[i as int] == cells@[i as int]@);
        }
        let pad = if w[i] > n { w[i] - n } else { 0 };
        push_repeat(out, ' ', pad);
        out.push(' ');
        out.push('|');
        proof {
            let content = if 0 <= i < cv.len() { cv[i as int] } else { Seq::empty() };
            assert(repeat(' ', pad as int) =~= repeat(' ', w@[i as int] - content.len()));
            assert(out@ =~= old(out)@ + seq!['|'] + row_cells(cv, rows, i + 1));
        }
        i = i + 1;
    }
    out.push('\n');
    assert(out@ =~= old(out)@ + row_text(cv, rows, cols as int));
}

/// Push the rendered delimiter row.
fn push_delim(
    out: &mut Vec<char>,
    aligns: &Vec<Align>,
    w: &Vec<usize>,
    cols: usize,
    Ghost(rows): Ghost<Seq<Seq<Seq<char>>>>,
)
    requires
        w@.len() == cols,
        forall|q: int| 0 <= q < cols ==> #[trigger] w@[q] == col_width(rows, q),
    ensures
        final(out)@ == old(out)@ + seq!['|'] + delim_cells(aligns@, rows, cols as int) + seq!['\n'],
{
    out.push('|');
    let mut i: usize = 0;
    while i < cols
        invariant
            i <= cols,
            w@.len() == cols,
            forall|q: int| 0 <= q < cols ==> #[trigger] w@[q] == col_width(rows, q),
            out@ == old(out)@ + seq!['|'] + delim_cells(aligns@, rows, i as int),
        decreases cols - i,
    {
        let a = if i < aligns.len() { aligns[i] } else { Align::Unset };
        let wi = w[i];
        out.push(' ');
        let ghost before = out@;
        match a {
            Align::Left => {
                out.push(':');
                push_repeat(out, '-', if wi >= 1 { wi - 1 } else { 0 });
            },
            Align::Right => {
                push_repeat(out, '-', if wi >= 1 { wi - 1 } else { 0 });
                out.push(':');
            },
            Align::Center => {
                out.push(':');
                let d = if wi >= 2 { wi - 2 } else { 0 };
                push_repeat(out, '-', if d >= 1 { d } else { 1 });
                out.push(':');
            },
            Align::Unset => {
                push_repeat(out, '-', wi);
            },
        }
        proof {
            let pat = delim_pattern(a, wi as int);
            match a {
                Align::Left => {
                    assert(repeat('-', (if wi >= 1 { wi - 1 } else { 0 }) as int) =~= repeat('-', wi - 1));
                },
                Align::Right => {
                    assert(repeat('-', (if wi >= 1 { wi - 1 } else { 0 }) as int) =~= repeat('-', wi - 1));
                },
                Align::Center => {
                    let d = if wi >= 2 { wi - 2 } else { 0 };
                    assert(repeat('-', (if d >= 1 { d } else { 1 }) as int) =~= repeat('-', imax(wi - 2, 1)));
                },
                Align::Unset => {},
            }
            assert(out@ =~= before + pat);
        }
        out.push(' ');
        out.push('|');
        assert(out@ =~= old(out)@ + seq!['|'] + delim_cells(aligns@, rows, i + 1));
        i = i + 1;
    }
    out.push('\n');
}

/// Render a table with padded cells.
fn render_table(header: &Vec<Vec<char>>, body: &Vec<Vec<Vec<char>>>, aligns: &Vec<Align>) -> (s: Vec<char>)
    ensures
        s@ == render(cells_view(header@), rows_view(body@), aligns@),
{
    let ghost rows = seq![cells_view(header@)] + rows_view(body@);
    let mut m: usize = 0;
    let mut k: usize = 0;
    while k < body.len()
        invariant
            k <= body@.len(),
            m == max_row_len(rows_view(body@).take(k as int)),
        decreases body@.len() - k,
    {
        assert(rows_view(body@).take(k + 1).drop_last() =~= rows_view(body@).take(k as int));
        let l = body[k].len();
        if l > m {
            m = l;
        }
        k = k + 1;
    }
    assert(rows_view(body@).take(k as int) =~= rows_view(body@));
    let h = header.len();
    let a = aligns.len();
    let x = if h >= a { h } else { a };
    let y = if x >= m { x } else { m };
    let cols = if y >= 1 { y } else { 1 };
    let w = column_widths(header, body, cols);
    let mut out: Vec<char> = Vec::new();
    push_row(&mut out, header, &w, cols, Ghost(rows));
    push_delim(&mut out, aligns, &w, cols, Ghost(rows));
    let ghost head = out@;
    let mut r: usize = 0;
    while r < body.len()
        invariant
            r <= body@.len(),
            w@.len() == cols,
            forall|q: int| 0 <= q < cols ==> #[trigger] w@[q] == col_width(rows, q),
            out@ == head + body_text(rows_view(body@), rows, cols as int, r as int),
        decreases body@.len() - r,
    {
        push_row(&mut out, &body[r], &w, cols, Ghost(rows));
        assert(rows_view(body@)[r as int] == cells_view(body@[r as int]@));
        assert(out@ =~= head + body_text(rows_view(body@), rows, cols as int, r + 1));
        r = r + 1;
    }
    assert(out@ =~= render(cells_view(header@), rows_view(body@), aligns@));
    out
}

// ---------------------------------------------------------------------------
// Inserting a table
// ---------------------------------------------------------------------------

/// `Column n` for the column at index `i`.
pub open spec fn column_name(i: int) -> Seq<char> {
    seq!['C', 'o', 'l', 'u', 'm', 'n', ' '] + decimal((i + 1) as nat)
}

/// `n` empty cells.
pub open spec fn empties(n: int) -> Seq<Seq<char>> {
    Seq::new(if n > 0 { n as nat } else { 0 }, |k: int| Seq::<char>::empty())
}

/// A new table with `rows` empty body rows and `cols` columns (each at
/// least one), headed `Column 1`, `Column 2`, ...
pub open spec fn new_table(rows: int, cols: int) -> Seq<char> {
    let r = imax(rows, 1);
    let c = imax(cols, 1);
    render(
        Seq::new(c as nat, |i: int| column_name(i)),
        Seq::new(r as nat, |k: int| empties(c)),
        Seq::new(c as nat, |i: int| Align::Unset),
    )
}

/// Exec [`empties`].
fn empty_cells(n: usize) -> (v: Vec<Vec<char>>)
    ensures
        cells_view(v@) == empties(n as int),
        v@.len() == n,
{
    let mut v: Vec<Vec<char>> = Vec::new();
    let mut k: usize = 0;
    while k < n
        invariant
            k <= n,
            cells_view(v@) == empties(k as int),
            v@.len() == k,
        decreases n - k,
    {
        let ghost old_v = v@;
        let e: Vec<char> = Vec::new();
        v.push(e);
        proof {
            lemma_cells_push(old_v, e);
        }
        assert(cells_view(v@) =~= empties((k + 1) as int));
        k = k + 1;
    }
    v
}

/// The markdown of a new table of `rows` x `cols` (at least 1 x 1).
pub fn new_table_text(rows: usize, cols: usize) -> (s: String)
    ensures
        s@ == new_table(rows as int, cols as int),
{
    let r = if rows >= 1 { rows } else { 1 };
    let c = if cols >= 1 { cols } else { 1 };
    let mut header: Vec<Vec<char>> = Vec::new();
    let mut i: usize = 0;
    while i < c
        invariant
            i <= c,
            cells_view(header@) == Seq::new(i as nat, |k: int| column_name(k)),
        decreases c - i,
    {
        let mut name: Vec<char> = Vec::new();
        name.push('C');
        name.push('o');
        name.push('l');
        name.push('u');
        name.push('m');
        name.push('n');
        name.push(' ');
        let num = u64_to_decimal((i as u64) + 1);
        let digits = chars_of(num.as_str());
        push_chars(&mut name, &digits);
        assert(name@ =~= column_name(i as int));
        let ghost old_h = header@;
        let ghost nv = name;
        header.push(name);
        proof {
            lemma_cells_push(old_h, nv);
        }
        assert(cells_view(header@) =~= Seq::new((i + 1) as nat, |k: int| column_name(k)));
        i = i + 1;
    }
    let mut body: Vec<Vec<Vec<char>>> = Vec::new();
    let mut k: usize = 0;
    while k < r
        invariant
            k <= r,
            rows_view(body@) == Seq::new(k as nat, |q: int| empties(c as int)),
        decreases r - k,
    {
        let ghost old_b = body@;
        let row = empty_cells(c);
        let ghost rv = row;
        body.push(row);
        proof {
            lemma_rows_push(old_b, rv);
        }
        assert(rows_view(body@) =~= Seq::new((k + 1) as nat, |q: int| empties(c as int)));
        k = k + 1;
    }
    let mut aligns: Vec<Align> = Vec::new();
    let mut j: usize = 0;
    while j < c
        invariant
            j <= c,
            aligns@ == Seq::new(j as nat, |q: int| Align::Unset),
        decreases c - j,
    {
        aligns.push(Align::Unset);
        assert(aligns@ =~= Seq::new((j + 1) as nat, |q: int| Align::Unset));
        j = j + 1;
    }
    let rendered = render_table(&header, &body, &aligns);
    let s = string_from_chars(&rendered);
    s
}

/// Offset, in a new table's text `m`, where its first body cell's padding
/// starts: two bytes (`| `) into its third line.
pub open spec fn first_body_cell(m: Seq<u8>) -> int {
    let b = nth_line_byte(m, 2);
    if b + 2 <= m.len() { b + 2 } else { m.len() as int }
}

/// Insert a new table (see [`new_table`]) at the caret, with the caret in
/// its first body cell.
pub fn insert_table(text: &str, caret: usize, rows: usize, cols: usize) -> (op: Op)
    requires
        caret <= bytes_of(text@).len(),
        boundary(bytes_of(text@), caret as int),
        bytes_of(text@).len() + bytes_of(new_table(rows as int, cols as int)).len() <= isize::MAX,
    ensures
        bytes_of(op.new_text@) == splice(
            bytes_of(text@),
            caret as int,
            caret as int,
            bytes_of(new_table(rows as int, cols as int)),
        ),
        op.selection.start == caret + first_body_cell(bytes_of(new_table(rows as int, cols as int))),
        op.selection.end == op.selection.start,
{
    let s = new_table_text(rows, cols);
    let w = s.as_str().as_bytes();
    let new_text = splice_string(text.as_bytes(), caret, caret, w);
    let b = line_nth_byte(s.as_str(), 2);
    proof {
        lemma_nth_line_byte_le(bytes_of(s@), 2);
    }
    let off = if w.len() >= 2 && b <= w.len() - 2 { b + 2 } else { w.len() };
    let at = caret + off;
    Op { new_text, selection: at..at }
}

// ---------------------------------------------------------------------------
// Row and column commands
// ---------------------------------------------------------------------------

/// A row/column command on the table around the caret.
#[derive(Clone, Copy)]
pub enum TableCmd {
    InsertRowBelow,
    InsertRowAbove,
    InsertColRight,
    InsertColLeft,
    DeleteRow,
    DeleteCol,
    AlignCol(Align),
}

/// `cells` padded with empty cells to `cols`.
pub open spec fn pad(cells: Seq<Seq<char>>, cols: int) -> Seq<Seq<char>> {
    if cells.len() < cols { cells + empties(cols - cells.len()) } else { cells }
}

/// `a` padded with `Unset` to `n`.
pub open spec fn pad_aligns(a: Seq<Align>, n: int) -> Seq<Align> {
    if a.len() < n { a + Seq::new((n - a.len()) as nat, |k: int| Align::Unset) } else { a }
}

/// Every row padded to `cols`.
pub open spec fn pad_rows(body: Seq<Seq<Seq<char>>>, cols: int) -> Seq<Seq<Seq<char>>> {
    body.map_values(|r: Seq<Seq<char>>| pad(r, cols))
}

/// An empty column inserted at `at` (clamped per row).
pub open spec fn insert_col(h: Seq<Seq<char>>, body: Seq<Seq<Seq<char>>>, al: Seq<Align>, at: int) -> (
    Seq<Seq<char>>,
    Seq<Seq<Seq<char>>>,
    Seq<Align>,
) {
    (
        h.insert(at, Seq::empty()),
        body.map_values(|r: Seq<Seq<char>>| r.insert(imin(at, r.len() as int), Seq::empty())),
        al.insert(imin(at, al.len() as int), Align::Unset),
    )
}

/// Column `col` removed where it exists.
pub open spec fn remove_col(h: Seq<Seq<char>>, body: Seq<Seq<Seq<char>>>, al: Seq<Align>, col: int) -> (
    Seq<Seq<char>>,
    Seq<Seq<Seq<char>>>,
    Seq<Align>,
) {
    (
        if col < h.len() { h.remove(col) } else { h },
        body.map_values(|r: Seq<Seq<char>>| if col < r.len() { r.remove(col) } else { r }),
        if al.len() > col { al.remove(col) } else { al },
    )
}

/// The table after `cmd` at (`row`, `col`); `None` when the command
/// deletes the only column, which removes the whole table. Inserted
/// rows are empty; deleting the header promotes the first body row; at
/// least one (possibly empty) body row is kept.
pub open spec fn edit_table(
    h: Seq<Seq<char>>,
    body: Seq<Seq<Seq<char>>>,
    al: Seq<Align>,
    row: int,
    col: int,
    cols: int,
    cmd: TableCmd,
) -> Option<(Seq<Seq<char>>, Seq<Seq<Seq<char>>>, Seq<Align>)> {
    match cmd {
        TableCmd::InsertRowBelow => if row <= 1 {
            Some((h, body.insert(0, empties(cols)), al))
        } else {
            Some((h, body.insert(imin(row - 1, body.len() as int), empties(cols)), al))
        },
        TableCmd::InsertRowAbove => if row == 0 {
            Some((empties(cols), body.insert(0, h), al))
        } else if row == 1 {
            Some((h, body.insert(0, empties(cols)), al))
        } else {
            Some((h, body.insert(imin(row - 2, body.len() as int), empties(cols)), al))
        },
        TableCmd::InsertColRight => Some(insert_col(h, body, al, imin(col + 1, h.len() as int))),
        TableCmd::InsertColLeft => Some(insert_col(h, body, al, imin(col, h.len() as int))),
        TableCmd::DeleteRow => if row == 0 {
            if body.len() > 0 {
                Some((body[0], body.drop_first(), al))
            } else {
                Some((empties(cols), body, al))
            }
        } else if row == 1 {
            if body.len() == 0 {
                Some((h, body, al))
            } else if body.len() <= 1 {
                Some((h, seq![empties(cols)], al))
            } else {
                Some((h, body.drop_first(), al))
            }
        } else if body.len() <= 1 {
            Some((h, seq![empties(cols)], al))
        } else {
            Some((h, body.remove(imin(row - 2, body.len() - 1)), al))
        },
        TableCmd::DeleteCol => if cols <= 1 {
            None
        } else {
            Some(remove_col(h, body, al, col))
        },
        TableCmd::AlignCol(a) => Some((h, body, pad_aligns(al, col + 1).update(col, a))),
    }
}

/// `s2` is `s` with `x` put in at index `at`, everything from `at` on moved
/// one place right.
pub open spec fn put_at<A>(s: Seq<A>, s2: Seq<A>, at: int, x: A) -> bool {
    &&& s2.len() == s.len() + 1
    &&& forall|j: int| 0 <= j < at ==> s2[j] == s[j]
    &&& s2[at] == x
    &&& forall|j: int| at <= j < s.len() ==> #[trigger] s2[j + 1] == s[j]
}

/// The table (header, body, alignments) with an empty, unaligned column
/// put in at `at` of every row.
pub open spec fn column_put_at(
    h: Seq<Seq<char>>,
    body: Seq<Seq<Seq<char>>>,
    al: Seq<Align>,
    r: (Seq<Seq<char>>, Seq<Seq<Seq<char>>>, Seq<Align>),
    at: int,
) -> bool {
    &&& put_at(h, r.0, at, Seq::empty())
    &&& put_at(al, r.2, at, Align::Unset)
    &&& r.1.len() == body.len()
    &&& forall|i: int| 0 <= i < body.len() ==> put_at(body[i], #[trigger] r.1[i], at, Seq::empty())
}

/// On a table of `cols` columns with the caret in column `col`, "insert
/// column right" puts an empty, unaligned column just after the caret's
/// column (keeping that column and everything before it in place), and
/// "insert column left" puts it just before, in place of the caret's
/// column, which moves right.
pub proof fn lemma_insert_col_sides(
    h: Seq<Seq<char>>,
    body: Seq<Seq<Seq<char>>>,
    al: Seq<Align>,
    row: int,
    col: int,
    cols: int,
)
    requires
        0 <= col < cols,
        h.len() == cols,
        al.len() == cols,
        forall|i: int| 0 <= i < body.len() ==> (#[trigger] body[i]).len() == cols,
    ensures
        edit_table(h, body, al, row, col, cols, TableCmd::InsertColRight) matches Some(r) && column_put_at(
            h,
            body,
            al,
            r,
            col + 1,
        ),
        edit_table(h, body, al, row, col, cols, TableCmd::InsertColLeft) matches Some(r) && column_put_at(
            h,
            body,
            al,
            r,
            col,
        ),
{
    let rr = insert_col(h, body, al, col + 1);
    let rl = insert_col(h, body, al, col);
    assert forall|i: int| 0 <= i < body.len() implies put_at(body[i], #[trigger] rr.1[i], col + 1, Seq::empty()) by {
        assert(rr.1[i] == body[i].insert(col + 1, Seq::empty()));
    }
    assert forall|i: int| 0 <= i < body.len() implies put_at(body[i], #[trigger] rl.1[i], col, Seq::empty()) by {
        assert(rl.1[i] == body[i].insert(col, Seq::empty()));
    }
}

/// `s2` is `s` without the element at index `at`.
pub open spec fn dropped_at<A>(s: Seq<A>, s2: Seq<A>, at: int) -> bool {
    &&& s2.len() + 1 == s.len()
    &&& forall|j: int| 0 <= j < at ==> s2[j] == s[j]
    &&& forall|j: int| at <= j < s2.len() ==> #[trigger] s2[j] == s[j + 1]
}

/// A table of `cols` columns, every row (header, body rows, alignments)
/// that wide.
pub open spec fn full_width(h: Seq<Seq<char>>, body: Seq<Seq<Seq<char>>>, al: Seq<Align>, cols: int) -> bool {
    &&& h.len() == cols
    &&& al.len() == cols
    &&& forall|i: int| 0 <= i < body.len() ==> (#[trigger] body[i]).len() == cols
}

/// The other table commands on a full-width table with the caret on line
/// `row` (0 the header, 1 the delimiter row, `2 + i` body row `i`) and in
/// column `col`:
/// - "insert row below" puts an empty row after the caret's body row (as
///   the first body row from the header or delimiter row);
/// - "insert row above" puts an empty row before the caret's body row (an
///   empty header above the header, which becomes the first body row);
/// - "delete row" drops the caret's body row (the header gives way to the
///   first body row; a last body row is emptied instead of dropped);
/// - "delete column" drops the caret's column from every row (the whole
///   table when it is the only column);
/// - "align column" sets the caret's column's alignment and nothing else.
pub proof fn lemma_table_row_and_col_cmds(
    h: Seq<Seq<char>>,
    body: Seq<Seq<Seq<char>>>,
    al: Seq<Align>,
    row: int,
    col: int,
    cols: int,
    a: Align,
)
    requires
        0 <= col < cols,
        0 <= row < body.len() + 2,
        full_width(h, body, al, cols),
    ensures
        edit_table(h, body, al, row, col, cols, TableCmd::InsertRowBelow) matches Some((h2, b2, a2)) && h2 == h
            && a2 == al && put_at(body, b2, if row <= 1 { 0 } else { row - 1 }, empties(cols)),
        edit_table(h, body, al, row, col, cols, TableCmd::InsertRowAbove) matches Some((h2, b2, a2)) && a2 == al
            && if row == 0 {
            h2 == empties(cols) && put_at(body, b2, 0, h)
        } else {
            h2 == h && put_at(body, b2, if row == 1 { 0 } else { row - 2 }, empties(cols))
        },
        row == 0 && body.len() > 0 ==> (edit_table(h, body, al, row, col, cols, TableCmd::DeleteRow) matches Some(
            (h2, b2, a2),
        ) && h2 == body[0] && dropped_at(body, b2, 0) && a2 == al),
        row >= 2 && body.len() > 1 ==> (edit_table(h, body, al, row, col, cols, TableCmd::DeleteRow) matches Some(
            (h2, b2, a2),
        ) && h2 == h && dropped_at(body, b2, row - 2) && a2 == al),
        row >= 1 && body.len() == 1 ==> edit_table(h, body, al, row, col, cols, TableCmd::DeleteRow) == Some(
            (h, seq![empties(cols)], al),
        ),
        cols == 1 ==> edit_table(h, body, al, row, col, cols, TableCmd::DeleteCol) is None,
        cols > 1 ==> (edit_table(h, body, al, row, col, cols, TableCmd::DeleteCol) matches Some((h2, b2, a2))
            && dropped_at(h, h2, col) && dropped_at(al, a2, col) && b2.len() == body.len() && forall|i: int|
            0 <= i < body.len() ==> dropped_at(body[i], #[trigger] b2[i], col)),
        edit_table(h, body, al, row, col, cols, TableCmd::AlignCol(a)) matches Some((h2, b2, a2)) && h2 == h && b2
            == body && a2.len() == cols && a2[col] == a && forall|j: int| 0 <= j < cols && j != col ==> a2[j] == al[j],
{
    assert(pad_aligns(al, col + 1) == al);
    if cols > 1 {
        let r = remove_col(h, body, al, col);
        assert forall|i: int| 0 <= i < body.len() implies dropped_at(body[i], #[trigger] r.1[i], col) by {
            assert(r.1[i] == body[i].remove(col));
        }
    }
}

/// What a table command does to the text: `Noop` when the caret is in no
/// table; otherwise the table (cells padded to its column count) is
/// edited and rendered back in place, keeping a missing final line break
/// missing, with the caret kept where it was (clamped to the new table).
pub open spec fn spec_table_op(t: Seq<u8>, caret: int, cmd: TableCmd) -> Outcome {
    let ts = tables_from(t, 0);
    match first_covering(ts, caret, 0) {
        None => Outcome::Noop("caret is not inside a table"@),
        Some(i) => {
            let m = ts[i];
            let row = table_row(t, m, caret);
            let cols = column_count(m);
            let col = imin(col_of(t, caret), sat_sub(cols, 1));
            match edit_table(
                pad(m.header, cols),
                pad_rows(m.body, cols),
                pad_aligns(m.aligns, cols),
                row,
                col,
                cols,
                cmd,
            ) {
                None => applied(splice(t, m.start, m.end, Seq::empty()), m.start, m.start),
                Some((h2, b2, a2)) => {
                    let rendered = render(h2, b2, a2);
                    let had_nl = m.end > 0 && t[m.end - 1] == 10u8;
                    let block = if !had_nl && rendered.len() > 0 && rendered.last() == '\n' {
                        rendered.drop_last()
                    } else {
                        rendered
                    };
                    let bb = bytes_of(block);
                    let sel = imin(caret, m.start + bb.len());
                    applied(splice(t, m.start, m.end, bb), sel, sel)
                },
            }
        },
    }
}

/// Pad `v` with empty cells to `cols`.
fn pad_cells(v: &mut Vec<Vec<char>>, cols: usize)
    ensures
        cells_view(final(v)@) == pad(cells_view(old(v)@), cols as int),
        final(v)@.len() == if old(v)@.len() < cols { cols as int } else { old(v)@.len() as int },
{
    let ghost o = cells_view(v@);
    while v.len() < cols
        invariant
            o == cells_view(old(v)@),
            v@.len() <= if old(v)@.len() < cols { cols as int } else { old(v)@.len() as int },
            v@.len() >= old(v)@.len(),
            cells_view(v@) == o + empties(v@.len() - o.len()),
        decreases cols - v@.len(),
    {
        let ghost before = v@;
        let e: Vec<char> = Vec::new();
        v.push(e);
        proof {
            lemma_cells_push(before, e);
        }
        assert(cells_view(v@) =~= o + empties(v@.len() - o.len()));
    }
    assert(o + empties(0) =~= o);
}

/// Apply a per-row change to every body row.
fn map_rows(body: Vec<Vec<Vec<char>>>, kind: u8, n: usize) -> (r: Vec<Vec<Vec<char>>>)
    requires
        kind <= 2,
    ensures
        rows_view(r@) == if kind == 0 {
            pad_rows(rows_view(body@), n as int)
        } else if kind == 1 {
            rows_view(body@).map_values(|r: Seq<Seq<char>>| r.insert(imin(n as int, r.len() as int), Seq::empty()))
        } else {
            rows_view(body@).map_values(|r: Seq<Seq<char>>| if n < r.len() { r.remove(n as int) } else { r })
        },
{
    let ghost f = if kind == 0 {
        |r: Seq<Seq<char>>| pad(r, n as int)
    } else if kind == 1 {
        |r: Seq<Seq<char>>| r.insert(imin(n as int, r.len() as int), Seq::empty())
    } else {
        |r: Seq<Seq<char>>| if n < r.len() { r.remove(n as int) } else { r }
    };
    let ghost orig = rows_view(body@);
    let ghost total = body@.len();
    let mut src = body;
    let mut out: Vec<Vec<Vec<char>>> = Vec::new();
    while src.len() > 0
        invariant
            total == orig.len(),
            out@.len() + src@.len() == total,
            rows_view(src@) == orig.skip(out@.len() as int),
            rows_view(out@) == orig.take(out@.len() as int).map_values(f),
            kind <= 2,
            f == (if kind == 0 {
                |r: Seq<Seq<char>>| pad(r, n as int)
            } else if kind == 1 {
                |r: Seq<Seq<char>>| r.insert(imin(n as int, r.len() as int), Seq::empty())
            } else {
                |r: Seq<Seq<char>>| if n < r.len() { r.remove(n as int) } else { r }
            }),
        decreases src@.len(),
    {
        let ghost k = out@.len() as int;
        let ghost before_src = src@;
        let mut row = src.remove(0);
        assert(cells_view(row@) == rows_view(before_src)[0]);
        assert(rows_view(src@) =~= rows_view(before_src).drop_first());
        let ghost rv = cells_view(row@);
        if kind == 0 {
            pad_cells(&mut row, n);
        } else if kind == 1 {
            let l = row.len();
            let at = if n <= l { n } else { l };
            let ghost before_row = row@;
            row.insert(at, Vec::new());
            assert(cells_view(row@) =~= rv.insert(at as int, Seq::empty()));
        } else {
            if n < row.len() {
                let ghost before_row = row@;
                let _gone = row.remove(n);
                assert(cells_view(row@) =~= rv.remove(n as int));
            }
        }
        assert(cells_view(row@) == f(rv));
        let ghost before_out = out@;
        let ghost fin = row;
        out.push(row);
        proof {
            lemma_rows_push(before_out, fin);
            assert(orig[k] == rv);
            assert(orig.take(k + 1).map_values(f) =~= orig.take(k).map_values(f).push(f(rv)));
            assert(orig.skip(k + 1) =~= orig.skip(k).drop_first());
        }
    }
    assert(orig.take(total as int) =~= orig);
    out
}

/// Exec [`edit_table`] for the row insertions.
fn edit_insert_row(
    h: Vec<Vec<char>>,
    body: Vec<Vec<Vec<char>>>,
    al: Vec<Align>,
    row: usize,
    col: usize,
    cols: usize,
    cmd: TableCmd,
) -> (r: Option<(Vec<Vec<char>>, Vec<Vec<Vec<char>>>, Vec<Align>)>)
    requires
        col < cols || (cols == 0 && col == 0),
        cmd is InsertRowBelow || cmd is InsertRowAbove,
    ensures
        match r {
            None => edit_table(cells_view(h@), rows_view(body@), al@, row as int, col as int, cols as int, cmd)
                is None,
            Some((h2, b2, a2)) => edit_table(
                cells_view(h@),
                rows_view(body@),
                al@,
                row as int,
                col as int,
                cols as int,
                cmd,
            ) == Some((cells_view(h2@), rows_view(b2@), a2@)),
        },
{
    let ghost hv = cells_view(h@);
    let ghost bv = rows_view(body@);
    let mut h = h;
    let mut body = body;
    let mut al = al;
    if matches!(cmd, TableCmd::InsertRowAbove) && row == 0 {
        let nh = empty_cells(cols);
        body.insert(0, h);
        assert(rows_view(body@) =~= bv.insert(0, hv));
        return Some((nh, body, al));
    }
    let at = if matches!(cmd, TableCmd::InsertRowBelow) {
        if row <= 1 {
            0
        } else {
            let x = row - 1;
            if x <= body.len() { x } else { body.len() }
        }
    } else if row == 1 {
        0
    } else {
        let x = row - 2;
        if x <= body.len() { x } else { body.len() }
    };
    let nr = empty_cells(cols);
    let ghost nrv = cells_view(nr@);
    body.insert(at, nr);
    assert(rows_view(body@) =~= bv.insert(at as int, nrv));
    Some((h, body, al))
}

/// Exec [`edit_table`] for the column insertions.
fn edit_insert_col(
    h: Vec<Vec<char>>,
    body: Vec<Vec<Vec<char>>>,
    al: Vec<Align>,
    row: usize,
    col: usize,
    cols: usize,
    cmd: TableCmd,
) -> (r: Option<(Vec<Vec<char>>, Vec<Vec<Vec<char>>>, Vec<Align>)>)
    requires
        col < cols || (cols == 0 && col == 0),
        cmd is InsertColRight || cmd is InsertColLeft,
    ensures
        match r {
            None => edit_table(cells_view(h@), rows_view(body@), al@, row as int, col as int, cols as int, cmd)
                is None,
            Some((h2, b2, a2)) => edit_table(
                cells_view(h@),
                rows_view(body@),
                al@,
                row as int,
                col as int,
                cols as int,
                cmd,
            ) == Some((cells_view(h2@), rows_view(b2@), a2@)),
        },
{
    let ghost hv = cells_view(h@);
    let ghost bv = rows_view(body@);
    let mut h = h;
    let mut body = body;
    let mut al = al;
    let base = if matches!(cmd, TableCmd::InsertColRight) { col + 1 } else { col };
    let at = if base <= h.len() { base } else { h.len() };
    h.insert(at, Vec::new());
    assert(cells_view(h@) =~= hv.insert(at as int, Seq::empty()));
    let b2 = map_rows(body, 1, at);
    let aat = if at <= al.len() { at } else { al.len() };
    al.insert(aat, Align::Unset);
    Some((h, b2, al))
}

/// Exec [`edit_table`] for the row deletion.
fn edit_delete_row(
    h: Vec<Vec<char>>,
    body: Vec<Vec<Vec<char>>>,
    al: Vec<Align>,
    row: usize,
    col: usize,
    cols: usize,
    cmd: TableCmd,
) -> (r: Option<(Vec<Vec<char>>, Vec<Vec<Vec<char>>>, Vec<Align>)>)
    requires
        col < cols || (cols == 0 && col == 0),
        cmd is DeleteRow,
    ensures
        match r {
            None => edit_table(cells_view(h@), rows_view(body@), al@, row as int, col as int, cols as int, cmd)
                is None,
            Some((h2, b2, a2)) => edit_table(
                cells_view(h@),
                rows_view(body@),
                al@,
                row as int,
                col as int,
                cols as int,
                cmd,
            ) == Some((cells_view(h2@), rows_view(b2@), a2@)),
        },
{
    let ghost hv = cells_view(h@);
    let ghost bv = rows_view(body@);
    let mut h = h;
    let mut body = body;
    let mut al = al;
    if row == 0 {
        if body.len() > 0 {
            let first = body.remove(0);
            assert(cells_view(first@) == bv[0]);
            assert(rows_view(body@) =~= bv.drop_first());
            Some((first, body, al))
        } else {
            Some((empty_cells(cols), body, al))
        }
    } else if row == 1 && body.len() == 0 {
        Some((h, body, al))
    } else if body.len() <= 1 {
        let mut nb: Vec<Vec<Vec<char>>> = Vec::new();
        let e = empty_cells(cols);
        let ghost ev = cells_view(e@);
        nb.push(e);
        assert(rows_view(nb@) =~= seq![ev]);
        Some((h, nb, al))
    } else if row == 1 {
        let _gone = body.remove(0);
        assert(rows_view(body@) =~= bv.drop_first());
        Some((h, body, al))
    } else {
        let x = row - 2;
        let at = if x <= body.len() - 1 { x } else { body.len() - 1 };
        let _gone = body.remove(at);
        assert(rows_view(body@) =~= bv.remove(at as int));
        Some((h, body, al))
    }
}

/// Exec [`edit_table`] for the column deletion.
fn edit_delete_col(
    h: Vec<Vec<char>>,
    body: Vec<Vec<Vec<char>>>,
    al: Vec<Align>,
    row: usize,
    col: usize,
    cols: usize,
    cmd: TableCmd,
) -> (r: Option<(Vec<Vec<char>>, Vec<Vec<Vec<char>>>, Vec<Align>)>)
    requires
        col < cols || (cols == 0 && col == 0),
        cmd is DeleteCol,
    ensures
        match r {
            None => edit_table(cells_view(h@), rows_view(body@), al@, row as int, col as int, cols as int, cmd)
                is None,
            Some((h2, b2, a2)) => edit_table(
                cells_view(h@),
                rows_view(body@),
                al@,
                row as int,
                col as int,
                cols as int,
                cmd,
            ) == Some((cells_view(h2@), rows_view(b2@), a2@)),
        },
{
    let ghost hv = cells_view(h@);
    let ghost bv = rows_view(body@);
    let mut h = h;
    let mut body = body;
    let mut al = al;
    if cols <= 1 {
        return None;
    }
    if col < h.len() {
        let _gone = h.remove(col);
        assert(cells_view(h@) =~= hv.remove(col as int));
    }
    let b2 = map_rows(body, 2, col);
    if al.len() > col {
        let _gone = al.remove(col);
    }
    Some((h, b2, al))
}

/// Exec [`edit_table`] for setting a column's alignment.
fn edit_align(
    h: Vec<Vec<char>>,
    body: Vec<Vec<Vec<char>>>,
    al: Vec<Align>,
    row: usize,
    col: usize,
    cols: usize,
    cmd: TableCmd,
) -> (r: Option<(Vec<Vec<char>>, Vec<Vec<Vec<char>>>, Vec<Align>)>)
    requires
        col < cols || (cols == 0 && col == 0),
        cmd is AlignCol,
    ensures
        match r {
            None => edit_table(cells_view(h@), rows_view(body@), al@, row as int, col as int, cols as int, cmd)
                is None,
            Some((h2, b2, a2)) => edit_table(
                cells_view(h@),
                rows_view(body@),
                al@,
                row as int,
                col as int,
                cols as int,
                cmd,
            ) == Some((cells_view(h2@), rows_view(b2@), a2@)),
        },
{
    let ghost hv = cells_view(h@);
    let ghost bv = rows_view(body@);
    let mut h = h;
    let mut body = body;
    let mut al = al;
    let a = match cmd {
        TableCmd::AlignCol(a) => a,
        _ => Align::Unset,
    };
    let ghost av = al@;
    while al.len() <= col
        invariant
            av.len() <= al@.len() <= if av.len() < col + 1 { col + 1 } else { av.len() as int },
            al@ == av + Seq::new((al@.len() - av.len()) as nat, |k: int| Align::Unset),
        decreases col + 1 - al@.len(),
    {
        al.push(Align::Unset);
        assert(al@ =~= av + Seq::new((al@.len() - av.len()) as nat, |k: int| Align::Unset));
    }
    assert(al@ =~= pad_aligns(av, col + 1));
    al.set(col, a);
    Some((h, body, al))
}

/// Exec [`edit_table`].
fn edit_parts(
    h: Vec<Vec<char>>,
    body: Vec<Vec<Vec<char>>>,
    al: Vec<Align>,
    row: usize,
    col: usize,
    cols: usize,
    cmd: TableCmd,
) -> (r: Option<(Vec<Vec<char>>, Vec<Vec<Vec<char>>>, Vec<Align>)>)
    requires
        col < cols || (cols == 0 && col == 0),
    ensures
        match r {
            None => edit_table(cells_view(h@), rows_view(body@), al@, row as int, col as int, cols as int, cmd)
                is None,
            Some((h2, b2, a2)) => edit_table(
                cells_view(h@),
                rows_view(body@),
                al@,
                row as int,
                col as int,
                cols as int,
                cmd,
            ) == Some((cells_view(h2@), rows_view(b2@), a2@)),
        },
{
    match cmd {
        TableCmd::InsertRowBelow | TableCmd::InsertRowAbove => edit_insert_row(h, body, al, row, col, cols, cmd),
        TableCmd::InsertColRight | TableCmd::InsertColLeft => edit_insert_col(h, body, al, row, col, cols, cmd),
        TableCmd::DeleteRow => edit_delete_row(h, body, al, row, col, cols, cmd),
        TableCmd::DeleteCol => edit_delete_col(h, body, al, row, col, cols, cmd),
        TableCmd::AlignCol(_) => edit_align(h, body, al, row, col, cols, cmd),
    }
}

/// Row/column command on the table containing the caret (`Noop` when the
/// caret is in no table).
#[verifier::rlimit(30)]
pub fn table_op(text: &str, caret: usize, op: TableCmd) -> (o: Out)
    requires
        bytes_of(text@).len() < usize::MAX,
        caret <= bytes_of(text@).len(),
        boundary(bytes_of(text@), caret as int),
        at_safe(bytes_of(text@), caret as int),
    ensures
        out_is(o, spec_table_op(bytes_of(text@), caret as int, op)),
{
    let t = text.as_bytes();
    let (tb, row) = match table_at(text, caret) {
        Some(x) => x,
        None => {
            return Out::Noop("caret is not inside a table");
        },
    };
    let ghost m = model_of(tb);
    let cols = table_cols(&tb);
    let RawTable { start, end, header, body, aligns } = tb;
    let mut header = header;
    let mut aligns = aligns;
    let ghost av = aligns@;
    while aligns.len() < cols
        invariant
            av.len() <= aligns@.len() <= if av.len() < cols { cols as int } else { av.len() as int },
            aligns@ == av + Seq::new((aligns@.len() - av.len()) as nat, |k: int| Align::Unset),
        decreases cols - aligns@.len(),
    {
        aligns.push(Align::Unset);
        assert(aligns@ =~= av + Seq::new((aligns@.len() - av.len()) as nat, |k: int| Align::Unset));
    }
    assert(aligns@ =~= pad_aligns(av, cols as int));
    pad_cells(&mut header, cols);
    let body = map_rows(body, 0, cols);
    let c0 = table_col_of(text, caret);
    let last = if cols >= 1 { cols - 1 } else { 0 };
    let col = if c0 <= last { c0 } else { last };
    match edit_parts(header, body, aligns, row, col, cols, op) {
        None => {
            let empty: &[u8] = &[];
            assert(empty@ =~= Seq::<u8>::empty());
            apply(t, start, end, empty, start, start)
        },
        Some((h2, b2, a2)) => {
            let mut rendered = render_table(&h2, &b2, &a2);
            let had_nl = end > 0 && t[end - 1] == 10u8;
            let n = rendered.len();
            if !had_nl && n > 0 && rendered[n - 1] == '\n' {
                let _nl = rendered.pop();
                assert(rendered@ =~= render(cells_view(h2@), rows_view(b2@), a2@).drop_last());
            }
            let s = string_from_chars(&rendered);
            let w = s.as_str().as_bytes();
            let sel = if caret <= start || caret - start <= w.len() { caret } else { start + w.len() };
            apply(t, start, end, w, sel, sel)
        },
    }
}

} // verus!
