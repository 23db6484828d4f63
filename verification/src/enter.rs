//! Smart Enter: continuing and leaving Markdown lists.

use vstd::prelude::*;
use vstd::utf8::*;
use crate::utf8_text::{
    bytes_of, boundary, blank, decimal, first_occ, u64_to_decimal, push_range, lemma_ascii_valid,
    find_from, push_valid_range, splice_string, push_ascii, all_ascii,
};
use crate::format::{
    Op, run_end, run_end_at, lemma_run_end, digit_end, digit_end_at, lemma_digit_end,
    lemma_ascii_prefix_boundary, line_start_of, splice, line_start_at,
};
use crate::text_utils::{next_nl, find_line_end};

verus! {

broadcast use vstd::utf8::encode_utf8_valid_utf8;

// ---------------------------------------------------------------------------
// Smart Enter in lists
// ---------------------------------------------------------------------------

/// `-`, `*` or `+`.
pub open spec fn bullet_char(b: u8) -> bool {
    b == 45u8 || b == 42u8 || b == 43u8
}

/// `- [ ]`, `- [x]` or `- [X]` (any bullet) at the start of `rest`.
pub open spec fn task_head(rest: Seq<u8>) -> bool {
    &&& rest.len() >= 5
    &&& bullet_char(rest[0])
    &&& rest[1] == 32u8
    &&& rest[2] == 91u8
    &&& (rest[3] == 32u8 || rest[3] == 120u8 || rest[3] == 88u8)
    &&& rest[4] == 93u8
}

/// Value of a run of ASCII digits.
pub open spec fn digits_value(c: Seq<u8>) -> nat
    decreases c.len(),
{
    if c.len() == 0 {
        0
    } else {
        digits_value(c.drop_last()) * 10 + (c.last() - 48) as nat
    }
}

/// The digits parsed as `u64`, `0` when they do not fit.
pub open spec fn parsed_u64(c: Seq<u8>) -> int {
    if digits_value(c) <= u64::MAX { digits_value(c) as int } else { 0 }
}

/// The number of the next item (saturating).
pub open spec fn next_number(c: Seq<u8>) -> nat {
    let n = parsed_u64(c);
    if n < u64::MAX { (n + 1) as nat } else { u64::MAX as nat }
}

/// `- `, `* ` or `+ ` at the start of `rest`.
pub open spec fn bullet_head(rest: Seq<u8>) -> bool {
    rest.len() >= 2 && bullet_char(rest[0]) && rest[1] == 32u8
}

/// The task item after an indent of `il` bytes.
pub open spec fn task_item(rest: Seq<u8>, il: int) -> Option<(int, int, Seq<u8>, bool)> {
    let ml = if rest.len() >= 6 && rest[5] == 32u8 { 6int } else { 5int };
    Some((il, il + ml, rest.subrange(0, 2) + seq![91u8, 32u8, 93u8, 32u8], blank(rest.skip(ml))))
}

/// The bullet item after an indent of `il` bytes.
pub open spec fn bullet_item(rest: Seq<u8>, il: int) -> Option<(int, int, Seq<u8>, bool)> {
    Some((il, il + 2, rest.subrange(0, 2), blank(rest.skip(2))))
}

/// The numbered item (`N. `, `N) `, or a bare `N.`/`N)`) after an indent.
pub open spec fn number_item(rest: Seq<u8>, il: int) -> Option<(int, int, Seq<u8>, bool)> {
    let d = digit_end(rest, 0);
    let num = bytes_of(decimal(next_number(rest.subrange(0, d))));
    if d > 0 && d + 2 <= rest.len() && (rest[d] == 46u8 || rest[d] == 41u8) && rest[d + 1] == 32u8 {
        Some((il, il + d + 2, num + rest.subrange(d, d + 2), blank(rest.skip(d + 2))))
    } else if d > 0 && d + 1 == rest.len() && (rest[d] == 46u8 || rest[d] == 41u8) {
        Some((il, il + d + 1, num + seq![rest[d], 32u8], true))
    } else {
        None
    }
}

/// A list line: `(indent length, prefix length, next marker, empty item)`,
/// or `None` when `line` is no list item.
pub open spec fn list_line(line: Seq<u8>) -> Option<(int, int, Seq<u8>, bool)> {
    let il = run_end(line, 0, 32u8, 9u8);
    let rest = line.skip(il);
    if task_head(rest) {
        task_item(rest, il)
    } else if bullet_head(rest) {
        bullet_item(rest, il)
    } else {
        number_item(rest, il)
    }
}

/// The caret (clamped), the start of its line and the line's end before
/// any `\r`.
pub open spec fn enter_bounds(t: Seq<u8>, caret: int) -> (int, int, int) {
    let c = if caret < t.len() { caret } else { t.len() as int };
    let ls = line_start_of(t, c);
    let le = next_nl(t, c);
    let ee = if le > ls && t[le - 1] == 13u8 { le - 1 } else { le };
    (c, ls, ee)
}

/// The line break used for a new item.
pub open spec fn line_break(t: Seq<u8>) -> Seq<u8> {
    if first_occ(t, seq![13u8, 10u8], 0) is Some { seq![13u8, 10u8] } else { seq![10u8] }
}

/// Enter on the line `t[ls..ee]` whose list shape is `x`.
pub open spec fn enter_result(t: Seq<u8>, c: int, ls: int, ee: int, x: Option<(int, int, Seq<u8>, bool)>) -> Option<
    (Seq<u8>, int),
> {
    match x {
        None => None,
        Some((il, pl, nm, empty)) => if empty {
            Some((t.subrange(0, ls) + t.subrange(ee, t.len() as int), ls))
        } else if c - ls >= pl {
            let ins = line_break(t) + t.subrange(ls, ls + il) + nm;
            Some((splice(t, c, c, ins), c + ins.len()))
        } else {
            None
        },
    }
}

/// What Enter does on the caret's list line: `(new text, caret)`, or `None`
/// when the line is no list item or the caret stands before its marker.
pub open spec fn spec_smart_enter(t: Seq<u8>, caret: int) -> Option<(Seq<u8>, int)> {
    let (c, ls, ee) = enter_bounds(t, caret);
    enter_result(t, c, ls, ee, list_line(t.subrange(ls, ee)))
}

/// `10` to the power `k`.
pub open spec fn ten_pow(k: nat) -> nat
    decreases k,
{
    if k == 0 { 1 } else { 10 * ten_pow((k - 1) as nat) }
}

/// A number below `10^k` has at most `k` decimal digits, one byte each.
proof fn lemma_decimal_len(n: nat, k: nat)
    requires
        k >= 1,
        n < ten_pow(k),
    ensures
        decimal(n).len() <= k,
        bytes_of(decimal(n)).len() == decimal(n).len(),
    decreases n,
{
    if n < 10 {
        let ch = (n + 48) as char;
        assert(decimal(n) == seq![ch]);
        assert(seq![ch].drop_first() =~= Seq::<char>::empty());
        assert(bytes_of(seq![ch]) == encode_scalar(ch as u32) + encode_utf8(Seq::<char>::empty()));
    } else {
        let d = ((n % 10) + 48) as char;
        assert(k >= 2) by {
            if k == 1 {
                assert(ten_pow(1) == 10 * ten_pow(0));
            }
        }
        assert(ten_pow(k) == 10 * ten_pow((k - 1) as nat));
        lemma_decimal_len(n / 10, (k - 1) as nat);
        crate::utf8_text::lemma_encode_concat(decimal(n / 10), seq![d]);
        assert(decimal(n / 10).push(d) =~= decimal(n / 10) + seq![d]);
        assert(seq![d].drop_first() =~= Seq::<char>::empty());
        assert(bytes_of(seq![d]) == encode_scalar(d as u32) + encode_utf8(Seq::<char>::empty()));
    }
}

proof fn lemma_line_start_of_bounds(t: Seq<u8>, i: int)
    requires
        0 <= i <= t.len(),
    ensures
        0 <= line_start_of(t, i) <= i,
    decreases i,
{
    if i > 0 && t[i - 1] != 10u8 {
        lemma_line_start_of_bounds(t, i - 1);
    }
}

proof fn lemma_next_nl_bounds(t: Seq<u8>, i: int)
    requires
        0 <= i <= t.len(),
    ensures
        i <= next_nl(t, i) <= t.len(),
    decreases t.len() - i,
{
    if i < t.len() && t[i] != 10u8 {
        lemma_next_nl_bounds(t, i + 1);
    }
}

/// The text Enter leaves is less than twice as long as the text, plus a
/// few bytes.
pub proof fn lemma_smart_enter_len(t: Seq<u8>, caret: int)
    ensures
        spec_smart_enter(t, caret) matches Some((nt, _)) ==> nt.len() <= 2 * t.len() + 32,
{
    let (c, ls, ee) = enter_bounds(t, caret);
    if c >= 0 {
        lemma_line_start_of_bounds(t, c);
        lemma_next_nl_bounds(t, c);
    } else {
        lemma_next_nl_bounds(t, 0);
    }
    let line = t.subrange(ls, ee);
    if let Some((il, pl, nm, empty)) = list_line(line) {
        let il0 = run_end(line, 0, 32u8, 9u8);
        lemma_run_end(line, 0, 32u8, 9u8);
        let rest = line.skip(il0);
        if !task_head(rest) && !bullet_head(rest) {
            let dd = digit_end(rest, 0);
            let nn = next_number(rest.subrange(0, dd));
            assert(ten_pow(20) > u64::MAX) by {
                reveal_with_fuel(ten_pow, 21);
            }
            lemma_decimal_len(nn, 20);
        }
        assert(nm.len() <= 22);
        assert(il <= pl);
    }
}

/// A detected list line (offsets relative to the line).
struct ListLineInfo {
    indent_len: usize,
    prefix_len: usize,
    next_marker: Vec<u8>,
    is_empty: bool,
}

/// Exec [`parsed_u64`] of the digits `t[a..b]`.
fn parse_digits(t: &[u8], a: usize, b: usize) -> (n: u64)
    requires
        a <= b <= t@.len(),
        forall|j: int| a <= j < b ==> 48u8 <= #[trigger] t@[j] <= 57u8,
    ensures
        n == parsed_u64(t@.subrange(a as int, b as int)),
{
    let mut val: u64 = 0;
    let mut over = false;
    let mut i = a;
    assert(t@.subrange(a as int, a as int) =~= Seq::<u8>::empty());
    while i < b
        invariant
            a <= i <= b <= t@.len(),
            forall|j: int| a <= j < b ==> 48u8 <= #[trigger] t@[j] <= 57u8,
            !over ==> val == digits_value(t@.subrange(a as int, i as int)),
            over ==> digits_value(t@.subrange(a as int, i as int)) > u64::MAX,
        decreases b - i,
    {
        let ghost prev = digits_value(t@.subrange(a as int, i as int));
        let d = t[i] - 48u8;
        assert(t@.subrange(a as int, i + 1).drop_last() =~= t@.subrange(a as int, i as int));
        assert(t@.subrange(a as int, i + 1).last() == t@[i as int]);
        let ghost next = digits_value(t@.subrange(a as int, i + 1));
        assert(next == prev * 10 + d);
        if !over {
            match val.checked_mul(10) {
                Some(m) => match m.checked_add(d as u64) {
                    Some(v) => {
                        val = v;
                    },
                    None => {
                        over = true;
                    },
                },
                None => {
                    assert(prev * 10 + d >= prev * 10) by (nonlinear_arith)
                        requires d >= 0;
                    over = true;
                },
            }
        } else {
            assert(prev * 10 + d >= prev) by (nonlinear_arith)
                requires prev >= 0, d >= 0;
        }
        i = i + 1;
    }
    if over { 0 } else { val }
}

} // verus!

verus! {

/// The marker bytes of the item that follows a numbered item.
fn number_marker(next: u64, a: u8, b: u8) -> (v: Vec<u8>)
    requires
        a < 0x80,
        b < 0x80,
    ensures
        v@ == bytes_of(decimal(next as nat)) + seq![a, b],
        valid_utf8(v@),
{
    let ds = u64_to_decimal(next);
    let db = ds.as_str().as_bytes();
    let mut v: Vec<u8> = Vec::new();
    push_range(&mut v, db, 0, db.len());
    assert(db@.subrange(0, db@.len() as int) =~= db@);
    crate::utf8_text::push_ascii(&mut v, a);
    crate::utf8_text::push_ascii(&mut v, b);
    proof {
        assert(v@ =~= bytes_of(decimal(next as nat)) + seq![a, b]);
    }
    v
}

/// Postcondition shape shared by the list-line detectors.
spec fn info_is(r: Option<ListLineInfo>, x: Option<(int, int, Seq<u8>, bool)>) -> bool {
    match r {
        None => x is None,
        Some(info) => {
            &&& x == Some((info.indent_len as int, info.prefix_len as int, info.next_marker@, info.is_empty))
            &&& valid_utf8(info.next_marker@)
        },
    }
}

/// Exec [`task_item`] / [`bullet_item`] for the marker at `t[rs..]`.
fn bullet_info(text: &str, t: &[u8], rs: usize, ee: usize, il: usize, task: bool) -> (r: Option<ListLineInfo>)
    requires
        t@ == bytes_of(text@),
        rs <= ee <= t@.len(),
        il <= rs,
        boundary(t@, ee as int),
        task ==> task_head(t@.subrange(rs as int, ee as int)),
        !task ==> bullet_head(t@.subrange(rs as int, ee as int)),
    ensures
        r is Some,
        info_is(r, if task { task_item(t@.subrange(rs as int, ee as int), il as int) } else {
            bullet_item(t@.subrange(rs as int, ee as int), il as int)
        }),
        r matches Some(info) ==> info.indent_len == il && il <= info.prefix_len <= il + ee - rs,
{
    let ghost rest = t@.subrange(rs as int, ee as int);
    let n = ee - rs;
    let mut nm: Vec<u8> = Vec::new();
    nm.push(t[rs]);
    nm.push(32u8);
    let ml: usize = if !task { 2 } else if n >= 6 && t[rs + 5] == 32u8 { 6 } else { 5 };
    if task {
        nm.push(91u8);
        nm.push(32u8);
        nm.push(93u8);
        nm.push(32u8);
    }
    proof {
        assert(rest[0] == t@[rs as int]);
        if task {
            assert(nm@ =~= rest.subrange(0, 2) + seq![91u8, 32u8, 93u8, 32u8]);
        } else {
            assert(nm@ =~= rest.subrange(0, 2));
        }
        assert(crate::utf8_text::all_ascii(nm@));
        lemma_ascii_valid(nm@);
        assert(rest[ml - 1] == t@[rs + ml - 1]);
        lemma_ascii_prefix_boundary(t@, rs as int, ml as int);
        assert(rest.skip(ml as int) =~= t@.subrange(rs + ml, ee as int));
    }
    let empty = crate::utf8_text::is_blank(text, rs + ml, ee);
    Some(ListLineInfo { indent_len: il, prefix_len: il + ml, next_marker: nm, is_empty: empty })
}

/// Exec [`number_item`] for the marker at `t[rs..]`.
fn number_info(text: &str, t: &[u8], rs: usize, ee: usize, il: usize) -> (r: Option<ListLineInfo>)
    requires
        t@ == bytes_of(text@),
        rs <= ee <= t@.len(),
        il <= rs,
        boundary(t@, ee as int),
    ensures
        info_is(r, number_item(t@.subrange(rs as int, ee as int), il as int)),
        r matches Some(info) ==> info.indent_len == il && il <= info.prefix_len <= il + ee - rs,
{
    let ghost rest = t@.subrange(rs as int, ee as int);
    let n = ee - rs;
    let d = digit_end_at(t, rs, ee, 0);
    proof {
        lemma_digit_end(rest, 0);
    }
    if d > 0 && d < n && (t[rs + d] == 46u8 || t[rs + d] == 41u8) {
        proof {
            assert forall|j: int| rs <= j < rs + d implies 48u8 <= #[trigger] t@[j] <= 57u8 by {
                assert(rest[j - rs] == t@[j]);
            }
            assert(rest.subrange(0, d as int) =~= t@.subrange(rs as int, rs + d));
            assert(rest[d as int] == t@[rs + d]);
        }
        let num = parse_digits(t, rs, rs + d);
        let next: u64 = if num < u64::MAX { num + 1 } else { u64::MAX };
        if n - d >= 2 && t[rs + d + 1] == 32u8 {
            let nm = number_marker(next, t[rs + d], 32u8);
            proof {
                assert(rest[d + 1] == t@[rs + d + 1]);
                assert(rest.subrange(d as int, d + 2) =~= seq![t@[rs + d], 32u8]);
                lemma_ascii_prefix_boundary(t@, rs as int, d + 2);
                assert(rest.skip(d + 2) =~= t@.subrange(rs + d + 2, ee as int));
            }
            let empty = crate::utf8_text::is_blank(text, rs + d + 2, ee);
            return Some(ListLineInfo { indent_len: il, prefix_len: il + d + 2, next_marker: nm, is_empty: empty });
        } else if d + 1 == n {
            let nm = number_marker(next, t[rs + d], 32u8);
            return Some(ListLineInfo { indent_len: il, prefix_len: il + d + 1, next_marker: nm, is_empty: true });
        }
    }
    None
}

/// Exec [`list_line`] for the line `t[ls..ee]`.
fn detect_list_line(text: &str, t: &[u8], ls: usize, ee: usize) -> (r: Option<ListLineInfo>)
    requires
        t@ == bytes_of(text@),
        ls <= ee <= t@.len(),
        boundary(t@, ls as int),
        boundary(t@, ee as int),
    ensures
        info_is(r, list_line(t@.subrange(ls as int, ee as int))),
        r matches Some(info) ==> info.indent_len <= info.prefix_len <= ee - ls && boundary(
            t@,
            ls + info.indent_len,
        ),
{
    let ghost c = t@.subrange(ls as int, ee as int);
    let il = run_end_at(t, ls, ee, 0, 32u8, 9u8);
    proof {
        lemma_run_end(c, 0, 32u8, 9u8);
        if il > 0 {
            assert(c[il - 1] == t@[ls + il - 1]);
            lemma_ascii_prefix_boundary(t@, ls as int, il as int);
        }
    }
    let rs = ls + il;
    let n = ee - rs;
    let ghost rest = c.skip(il as int);
    assert(rest =~= t@.subrange(rs as int, ee as int));
    if n >= 5 && (t[rs] == 45u8 || t[rs] == 42u8 || t[rs] == 43u8) && t[rs + 1] == 32u8 && t[rs + 2] == 91u8
        && (t[rs + 3] == 32u8 || t[rs + 3] == 120u8 || t[rs + 3] == 88u8) && t[rs + 4] == 93u8 {
        proof {
            assert(rest[0] == t@[rs as int] && rest[1] == t@[rs + 1] && rest[2] == t@[rs + 2]
                && rest[3] == t@[rs + 3] && rest[4] == t@[rs + 4]);
        }
        return bullet_info(text, t, rs, ee, il, true);
    }
    proof {
        if n >= 5 {
            assert(rest[0] == t@[rs as int] && rest[1] == t@[rs + 1] && rest[2] == t@[rs + 2]
                && rest[3] == t@[rs + 3] && rest[4] == t@[rs + 4]);
        }
    }
    if n >= 2 && (t[rs] == 45u8 || t[rs] == 42u8 || t[rs] == 43u8) && t[rs + 1] == 32u8 {
        proof {
            assert(rest[0] == t@[rs as int] && rest[1] == t@[rs + 1]);
        }
        return bullet_info(text, t, rs, ee, il, false);
    }
    proof {
        if n >= 2 {
            assert(rest[0] == t@[rs as int] && rest[1] == t@[rs + 1]);
        }
    }
    number_info(text, t, rs, ee, il)
}

} // verus!

verus! {

/// Start the next item at `c`: a line break, the indent `t[ls..ls+il]`
/// and the marker `nm`.
fn continue_list(t: &[u8], c: usize, ls: usize, il: usize, nm: &Vec<u8>) -> (op: Op)
    requires
        valid_utf8(t@),
        ls + il <= c <= t@.len(),
        boundary(t@, c as int),
        boundary(t@, ls as int),
        boundary(t@, ls + il),
        valid_utf8(nm@),
        t@.len() + line_break(t@).len() + il + nm@.len() <= isize::MAX,
    ensures
        ({
            let ins = line_break(t@) + t@.subrange(ls as int, ls + il) + nm@;
            &&& bytes_of(op.new_text@) == splice(t@, c as int, c as int, ins)
            &&& op.selection.start == c + ins.len()
            &&& op.selection.end == op.selection.start
        }),
{
    let crlf_pat: &[u8] = &[13u8, 10u8];
    assert(crlf_pat@ =~= seq![13u8, 10u8]);
    let crlf = find_from(t, crlf_pat, 0).is_some();
    let mut ins: Vec<u8> = Vec::new();
    if crlf {
        push_ascii(&mut ins, 13u8);
    }
    push_ascii(&mut ins, 10u8);
    let ghost nl = ins@;
    proof {
        if crlf {
            assert(nl =~= seq![13u8, 10u8]);
        } else {
            assert(nl =~= seq![10u8]);
        }
    }
    push_valid_range(&mut ins, t, ls, ls + il);
    let ghost mid = ins@;
    push_range(&mut ins, nm.as_slice(), 0, nm.len());
    proof {
        assert(nm@.subrange(0, nm@.len() as int) =~= nm@);
        vstd::utf8::valid_utf8_concat(mid, nm@);
        assert(ins@ =~= line_break(t@) + t@.subrange(ls as int, ls + il) + nm@);
    }
    let nt = splice_string(t, c, c, ins.as_slice());
    let nc = c + ins.len();
    Op { new_text: nt, selection: nc..nc }
}

/// Drop the line `t[ls..ee]` (its line break stays) and put the caret there.
fn leave_list(t: &[u8], ls: usize, ee: usize) -> (op: Op)
    requires
        valid_utf8(t@),
        ls <= ee <= t@.len(),
        boundary(t@, ls as int),
        boundary(t@, ee as int),
    ensures
        bytes_of(op.new_text@) == t@.subrange(0, ls as int) + t@.subrange(ee as int, t@.len() as int),
        op.selection.start == ls,
        op.selection.end == ls,
{
    let empty: &[u8] = &[];
    assert(empty@ =~= Seq::<u8>::empty());
    proof {
        lemma_ascii_valid(empty@);
    }
    let nt = splice_string(t, ls, ee, empty);
    proof {
        assert(bytes_of(nt@) =~= t@.subrange(0, ls as int) + t@.subrange(ee as int, t@.len() as int));
    }
    Op { new_text: nt, selection: ls..ls }
}

/// Smart Enter on list lines.
///
/// On an empty list item (only its marker) Enter removes the marker, leaving
/// the list. With the caret inside or after the content of a list item,
/// Enter starts the next item: same indentation and bullet, the next number
/// for numbered items, an unchecked box for tasks; the line break is `\r\n`
/// when the text already uses it. `None` when the caret's line is no list
/// item or the caret stands before the marker.
pub fn smart_enter(text: &str, caret: usize) -> (r: Option<Op>)
    requires
        caret < bytes_of(text@).len() ==> boundary(bytes_of(text@), caret as int),
        spec_smart_enter(bytes_of(text@), caret as int) matches Some((nt, _)) ==> nt.len() <= isize::MAX,
    ensures
        match r {
            None => spec_smart_enter(bytes_of(text@), caret as int) is None,
            Some(op) => {
                &&& spec_smart_enter(bytes_of(text@), caret as int) == Some(
                    (bytes_of(op.new_text@), op.selection.start as int),
                )
                &&& op.selection.end == op.selection.start
            },
        },
{
    let t = text.as_bytes();
    let len = t.len();
    let c = if caret < len { caret } else { len };
    let ls = line_start_at(t, c);
    let le = find_line_end(t, c);
    let ee = if le > ls && t[le - 1] == 13u8 { le - 1 } else { le };
    proof {
        if ls > 0 {
            lemma_ascii_prefix_boundary(t@, 0, ls as int);
        }
        if le < len {
            assert(t@[le as int] == 10u8);
        }
        assert(enter_bounds(t@, caret as int) == (c as int, ls as int, ee as int));
    }
    let info = detect_list_line(text, t, ls, ee);
    match info {
        None => None,
        Some(info) => {
            if info.is_empty {
                Some(leave_list(t, ls, ee))
            } else if c - ls >= info.prefix_len {
                Some(continue_list(t, c, ls, info.indent_len, &info.next_marker))
            } else {
                None
            }
        },
    }
}

} // verus!
