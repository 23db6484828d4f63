//! Small edits: inserting links and images, ticking a task box, and
//! stripping heading/quote markers from a line.

use vstd::prelude::*;
use vstd::utf8::*;
use crate::utf8_text::{
    bytes_of, boundary, first_occ, find_from, lemma_first_occ_props, push_range, push_valid_range,
    splice_string, push_ascii, lemma_ascii_valid, lemma_match_start_boundary, lemma_match_end_boundary, all_ascii, string_from_utf8, lemma_encode_concat,
    bytes_at, match_at,
};
use crate::format::{Op, splice, heading_prefix, quote_prefix, run_end_at, lemma_run_end};
use crate::text_utils::{nl_count, line_tuple, spec_line_count, line_index, line_bounds, line_count};

verus! {

broadcast use vstd::utf8::encode_utf8_valid_utf8;

/// `[display](url)`.
pub open spec fn link_markup(display: Seq<u8>, url: Seq<u8>) -> Seq<u8> {
    seq![91u8] + display + seq![93u8, 40u8] + url + seq![41u8]
}

/// Every `\` of `u` turned into `/`.
pub open spec fn slashes(u: Seq<char>) -> Seq<char> {
    u.map_values(|c: char| if c == '\\' { '/' } else { c })
}

/// `![alt](url)`, the url with forward slashes and wrapped in `<>` when
/// it holds a space.
pub open spec fn image_markup(alt: Seq<char>, url: Seq<char>) -> Seq<char> {
    let n = slashes(url);
    if n.contains(' ') {
        seq!['!', '['] + alt + seq![']', '(', '<'] + n + seq!['>', ')']
    } else {
        seq!['!', '['] + alt + seq![']', '('] + n + seq![')']
    }
}

/// An ASCII text is as many bytes long as it has characters.
proof fn ascii_len(cs: Seq<char>)
    requires
        is_ascii_chars(cs),
    ensures
        bytes_of(cs).len() == cs.len(),
{
    is_ascii_chars_encode_utf8(cs);
}

/// Turning backslashes into slashes keeps the UTF-8 length.
proof fn lemma_slashes_len(u: Seq<char>)
    ensures
        bytes_of(slashes(u)).len() == bytes_of(u).len(),
    decreases u.len(),
{
    if u.len() > 0 {
        let p = u.drop_last();
        let c = u.last();
        let d = if c == '\\' { '/' } else { c };
        lemma_slashes_len(p);
        assert(u =~= p + seq![c]);
        assert(slashes(u) =~= slashes(p) + seq![d]);
        lemma_encode_concat(p, seq![c]);
        lemma_encode_concat(slashes(p), seq![d]);
        if c == '\\' {
            ascii_len(seq!['\\']);
            ascii_len(seq!['/']);
        }
    }
}

/// The markup of an image without alt text is seven bytes longer than its
/// url at most.
pub proof fn lemma_image_markup_len(url: Seq<char>)
    ensures
        bytes_of(image_markup(Seq::empty(), url)).len() <= bytes_of(url).len() + 7,
{
    let n = slashes(url);
    lemma_slashes_len(url);
    let a: Seq<char> = seq!['!', '['];
    let b: Seq<char> = seq![']', '(', '<'];
    let b2: Seq<char> = seq![']', '('];
    let c: Seq<char> = seq!['>', ')'];
    let c2: Seq<char> = seq![')'];
    ascii_len(a);
    ascii_len(b);
    ascii_len(b2);
    ascii_len(c);
    ascii_len(c2);
    assert(a + Seq::<char>::empty() =~= a);
    lemma_encode_concat(a, b);
    lemma_encode_concat(a + b, n);
    lemma_encode_concat(a + b + n, c);
    lemma_encode_concat(a, b2);
    lemma_encode_concat(a + b2, n);
    lemma_encode_concat(a + b2 + n, c2);
}

/// Append all of `w` (valid UTF-8) to `out`.
fn push_all(out: &mut Vec<u8>, w: &[u8])
    requires
        valid_utf8(old(out)@),
        valid_utf8(w@),
    ensures
        final(out)@ == old(out)@ + w@,
        valid_utf8(final(out)@),
{
    push_range(out, w, 0, w.len());
    proof {
        assert(w@.subrange(0, w@.len() as int) =~= w@);
        valid_utf8_concat(old(out)@, w@);
    }
}

/// Insert `[display](url)` at the caret and select the display text (the
/// byte range of `display`, starting after `[`).
pub fn insert_link(text: &str, caret: usize, display: &str, url: &str) -> (op: Op)
    requires
        caret <= bytes_of(text@).len(),
        boundary(bytes_of(text@), caret as int),
        bytes_of(text@).len() + bytes_of(display@).len() + bytes_of(url@).len() + 4 <= isize::MAX,
    ensures
        bytes_of(op.new_text@) == splice(
            bytes_of(text@),
            caret as int,
            caret as int,
            link_markup(bytes_of(display@), bytes_of(url@)),
        ),
        op.selection.start == caret + 1,
        op.selection.end == caret + 1 + bytes_of(display@).len(),
{
    let t = text.as_bytes();
    let mut md: Vec<u8> = Vec::new();
    push_ascii(&mut md, 91u8);
    push_all(&mut md, display.as_bytes());
    push_ascii(&mut md, 93u8);
    push_ascii(&mut md, 40u8);
    push_all(&mut md, url.as_bytes());
    push_ascii(&mut md, 41u8);
    proof {
        assert(md@ =~= link_markup(bytes_of(display@), bytes_of(url@)));
    }
    let new_text = splice_string(t, caret, caret, md.as_slice());
    let n = display.as_bytes().len();
    Op { new_text, selection: (caret + 1)..(caret + 1 + n) }
}

/// Insert `![alt](url)` at the caret (backslashes of the path turned into
/// `/`, the path put in `<>` when it holds a space) and select the alt text.
pub fn insert_image(text: &str, caret: usize, alt: &str, url: &str) -> (op: Op)
    requires
        caret <= bytes_of(text@).len(),
        boundary(bytes_of(text@), caret as int),
        bytes_of(text@).len() + bytes_of(image_markup(alt@, url@)).len() <= isize::MAX,
    ensures
        bytes_of(op.new_text@) == splice(
            bytes_of(text@),
            caret as int,
            caret as int,
            bytes_of(image_markup(alt@, url@)),
        ),
        op.selection.start == caret + 2,
        op.selection.end == caret + 2 + bytes_of(alt@).len(),
{
    let t = text.as_bytes();
    let cs = crate::utf8_text::chars_of(url);
    let mut n: Vec<char> = Vec::new();
    let mut has_space = false;
    let mut i: usize = 0;
    while i < cs.len()
        invariant
            i <= cs@.len(),
            cs@ == url@,
            n@ == slashes(cs@.take(i as int)),
            has_space == n@.contains(' '),
        decreases cs@.len() - i,
    {
        let c = if cs[i] == '\\' { '/' } else { cs[i] };
        proof {
            assert(slashes(cs@.take(i + 1)) =~= slashes(cs@.take(i as int)).push(c));
            assert(n@.push(c).last() == c);
            if n@.contains(' ') {
                let j = choose|j: int| 0 <= j < n@.len() && n@[j] == ' ';
                assert(n@.push(c)[j] == ' ');
            }
            if n@.push(c).contains(' ') && c != ' ' {
                let j = choose|j: int| 0 <= j < n@.push(c).len() && n@.push(c)[j] == ' ';
                assert(n@[j] == ' ');
            }
        }
        n.push(c);
        if c == ' ' {
            has_space = true;
        }
        i = i + 1;
    }
    assert(cs@.take(cs@.len() as int) =~= cs@);
    let mut md = String::new();
    crate::utf8_text::string_push(&mut md, '!');
    crate::utf8_text::string_push(&mut md, '[');
    crate::utf8_text::string_push_str(&mut md, alt);
    crate::utf8_text::string_push(&mut md, ']');
    crate::utf8_text::string_push(&mut md, '(');
    if has_space {
        crate::utf8_text::string_push(&mut md, '<');
    }
    let nstr = crate::utf8_text::string_from_chars(&n);
    crate::utf8_text::string_push_str(&mut md, nstr.as_str());
    if has_space {
        crate::utf8_text::string_push(&mut md, '>');
    }
    crate::utf8_text::string_push(&mut md, ')');
    proof {
        assert(md@ =~= image_markup(alt@, url@));
        let p = seq!['!', '['];
        let q = md@.skip(2 + alt@.len() as int);
        assert(md@ =~= (p + alt@) + q);
        crate::utf8_text::lemma_encode_concat(p + alt@, q);
        crate::utf8_text::lemma_encode_concat(p, alt@);
        crate::utf8_text::lemma_chars_le_bytes(p);
        crate::utf8_text::lemma_chars_le_bytes(alt@);
    }
    let new_text = splice_string(t, caret, caret, md.as_str().as_bytes());
    let k = alt.as_bytes().len();
    Op { new_text, selection: (caret + 2)..(caret + 2 + k) }
}

/// A task box, `[ ]` or `[x]`, at offset `i` of `c`.
pub open spec fn box_at(c: Seq<u8>, i: int) -> bool {
    bytes_at(c, i, seq![91u8, 32u8, 93u8]) || bytes_at(c, i, seq![91u8, 120u8, 93u8])
}

/// Offset of the first task box of `c` from `i` on.
pub open spec fn first_box(c: Seq<u8>, i: int) -> Option<int>
    decreases c.len() - i,
{
    if i < 0 || i + 3 > c.len() {
        None
    } else if box_at(c, i) {
        Some(i)
    } else {
        first_box(c, i + 1)
    }
}

/// Flipping the first task box on the caret's line (`[ ]` becomes `[x]`,
/// `[x]` becomes `[ ]`): `(new text, selection)`, the mark selected.
pub open spec fn spec_toggle_task_item(t: Seq<u8>, caret: int) -> Option<(Seq<u8>, int, int)> {
    let li = nl_count(t.subrange(0, caret));
    if t.len() == 0 || li >= spec_line_count(t) {
        None
    } else {
        let (s, e, _) = line_tuple(t, li);
        match first_box(t.subrange(s, e), 0) {
            Some(i) => {
                let mark: u8 = if t[s + i + 1] == 32u8 { 120u8 } else { 32u8 };
                Some((splice(t, s + i, s + i + 3, seq![91u8, mark, 93u8]), s + i + 1, s + i + 2))
            },
            None => None,
        }
    }
}

/// Exec [`first_box`] from the start.
fn find_box(c: &[u8]) -> (r: Option<usize>)
    ensures
        match first_box(c@, 0) {
            Some(i) => r == Some(i as usize) && 0 <= i && i + 3 <= c@.len() && box_at(c@, i),
            None => r is None,
        },
{
    let n = c.len();
    let mut i: usize = 0;
    while n >= 3 && i <= n - 3
        invariant
            n == c@.len(),
            first_box(c@, 0) == first_box(c@, i as int),
        decreases n - i,
    {
        let pa: &[u8] = &[91u8, 32u8, 93u8];
        let pb: &[u8] = &[91u8, 120u8, 93u8];
        assert(pa@ =~= seq![91u8, 32u8, 93u8]);
        assert(pb@ =~= seq![91u8, 120u8, 93u8]);
        if match_at(c, i, pa) || match_at(c, i, pb) {
            return Some(i);
        }
        i = i + 1;
    }
    None
}

/// Flip the first task box on the caret's line (`[ ]` becomes `[x]` and
/// `[x]` becomes `[ ]`, the mark selected); `None` when the line has none.
pub fn toggle_task_item(text: &str, caret: usize) -> (r: Option<Op>)
    requires
        caret <= bytes_of(text@).len(),
        boundary(bytes_of(text@), caret as int),
    ensures
        match r {
            None => spec_toggle_task_item(bytes_of(text@), caret as int) is None,
            Some(op) => spec_toggle_task_item(bytes_of(text@), caret as int) == Some(
                (bytes_of(op.new_text@), op.selection.start as int, op.selection.end as int),
            ),
        },
{
    let t = text.as_bytes();
    let li = line_index(text, caret);
    let (s, e, _) = match line_bounds(text, li) {
        Some(b) => b,
        None => {
            return None;
        },
    };
    proof {
        if s > 0 {
            crate::format::lemma_ascii_prefix_boundary(t@, 0, s as int);
        }
    }
    let mut line: Vec<u8> = Vec::new();
    push_range(&mut line, t, s, e);
    let idx = match find_box(line.as_slice()) {
        Some(i) => i,
        None => {
            return None;
        },
    };
    assert(t@.subrange(s + idx, s + idx + 3) =~= line@.subrange(idx as int, idx + 3));
    assert(line@[idx + 1] == t@[s + idx + 1]);
    let at = s + idx;
    let mark: u8 = if t[at + 1] == 32u8 { 120u8 } else { 32u8 };
    let flipped: [u8; 3] = [91u8, mark, 93u8];
    let fl: &[u8] = &flipped;
    assert(fl@ =~= seq![91u8, mark, 93u8]);
    proof {
        let w = t@.subrange(at as int, at + 3);
        assert(w == seq![91u8, 32u8, 93u8] || w == seq![91u8, 120u8, 93u8]);
        assert(all_ascii(w));
        lemma_ascii_valid(w);
        lemma_match_start_boundary(t@, at as int, w);
        lemma_match_end_boundary(t@, at as int, w);
        assert(all_ascii(fl@));
        lemma_ascii_valid(fl@);
    }
    let new_text = splice_string(t, at, at + 3, fl);
    Some(Op { new_text, selection: (at + 1)..(at + 2) })
}

/// A line without its heading marker and then without a quote marker.
pub open spec fn spec_plain_line(c: Seq<u8>) -> Seq<u8> {
    let a = match heading_prefix(c) {
        Some((_, k)) => c.skip(k),
        None => c,
    };
    match quote_prefix(a) {
        Some(k) => a.skip(k),
        None => a,
    }
}

/// Strip a heading marker and then a quote marker from `line`.
pub fn plain_line(line: &str) -> (r: String)
    ensures
        bytes_of(r@) == spec_plain_line(bytes_of(line@)),
{
    let t = line.as_bytes();
    let len = t.len();
    let n = run_end_at(t, 0, len, 0, 35u8, 35u8);
    proof {
        assert(t@.subrange(0, len as int) =~= t@);
        lemma_run_end(t@, 0, 35u8, 35u8);
    }
    let k: usize = if n != 0 && n <= 6 && n < len && (t[n] == 32u8 || t[n] == 9u8) { n + 1 } else { 0 };
    let ghost a = t@.skip(k as int);
    assert(a =~= t@.subrange(k as int, len as int));
    let q: usize = if len - k >= 2 && t[k] == 62u8 && t[k + 1] == 32u8 {
        2
    } else if len - k == 1 && t[k] == 62u8 {
        1
    } else {
        0
    };
    proof {
        if len - k >= 2 {
            assert(a.subrange(0, 2) =~= seq![t@[k as int], t@[k + 1]]);
        }
        if len - k == 1 {
            assert(a =~= seq![t@[k as int]]);
        }
        if k + q > 0 {
            crate::format::lemma_ascii_prefix_boundary(t@, 0, k + q);
        }
        assert(a.skip(q as int) =~= t@.subrange(k + q, len as int));
    }
    let mut out: Vec<u8> = Vec::new();
    push_valid_range(&mut out, t, k + q, len);
    string_from_utf8(out)
}

/// Number of lines available for caret navigation.
pub fn _lines_available(text: &str) -> (n: usize)
    requires
        bytes_of(text@).len() < usize::MAX,
    ensures
        n == spec_line_count(bytes_of(text@)),
{
    line_count(text)
}

} // verus!
