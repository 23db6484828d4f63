//! The list of recently opened files kept in the settings.

use vstd::prelude::*;
use crate::md_doc::strings_view;

verus! {

/// `v` without the entries equal to `s`, order kept.
pub open spec fn without(v: Seq<Seq<char>>, s: Seq<char>) -> Seq<Seq<char>>
    decreases v.len(),
{
    if v.len() == 0 {
        Seq::empty()
    } else {
        let r = without(v.drop_last(), s);
        if v.last() == s { r } else { r.push(v.last()) }
    }
}

/// The recent list after opening `s`: `s` first, then the earlier entries
/// other than `s` in their order, at most ten in all.
pub open spec fn spec_push_recent(recent: Seq<Seq<char>>, s: Seq<char>) -> Seq<Seq<char>> {
    let all = seq![s] + without(recent, s);
    if all.len() > 10 { all.take(10) } else { all }
}

/// No entry occurs twice.
pub open spec fn distinct(v: Seq<Seq<char>>) -> bool {
    forall|i: int, j: int| 0 <= i < j < v.len() ==> v[i] != v[j]
}

/// Record `s` as the most recently opened file.
pub fn push_recent(recent: &mut Vec<String>, s: String)
    ensures
        strings_view(final(recent)@) == spec_push_recent(strings_view(old(recent)@), s@),
{
    let ghost old_v = strings_view(recent@);
    let mut kept: Vec<String> = Vec::new();
    let mut i: usize = 0;
    while i < recent.len()
        invariant
            i <= recent@.len(),
            old_v == strings_view(recent@),
            strings_view(kept@) == without(old_v.take(i as int), s@),
        decreases recent@.len() - i,
    {
        assert(old_v.take(i + 1).drop_last() =~= old_v.take(i as int));
        assert(old_v[i as int] == recent@[i as int]@);
        if recent[i] != s {
            let ghost kv = strings_view(kept@);
            kept.push(recent[i].clone());
            assert(strings_view(kept@) =~= kv.push(old_v[i as int]));
        }
        i = i + 1;
    }
    assert(old_v.take(i as int) =~= old_v);
    let ghost sv = s@;
    let ghost kv = strings_view(kept@);
    kept.insert(0, s);
    assert(strings_view(kept@) =~= seq![sv] + kv);
    if kept.len() > 10 {
        kept.truncate(10);
        assert(strings_view(kept@) =~= (seq![sv] + kv).take(10));
    }
    *recent = kept;
}

proof fn lemma_without(v: Seq<Seq<char>>, s: Seq<char>)
    ensures
        forall|k: int| 0 <= k < without(v, s).len() ==> #[trigger] without(v, s)[k] != s && v.contains(without(v, s)[k]),
        distinct(v) ==> distinct(without(v, s)),
        without(v, s).len() <= v.len(),
    decreases v.len(),
{
    if v.len() > 0 {
        lemma_without(v.drop_last(), s);
        let r = without(v.drop_last(), s);
        assert forall|k: int| 0 <= k < r.len() implies v.contains(#[trigger] r[k]) by {
            let j = choose|j: int| 0 <= j < v.drop_last().len() && v.drop_last()[j] == r[k];
            assert(v[j] == r[k]);
        }
        if v.last() != s {
            assert(v[v.len() - 1] == v.last());
            if distinct(v) {
                assert forall|i: int, j: int| 0 <= i < j < r.push(v.last()).len() implies r.push(v.last())[i]
                    != r.push(v.last())[j] by {
                    if j == r.len() {
                        let q = choose|q: int| 0 <= q < v.drop_last().len() && v.drop_last()[q] == r[i];
                        assert(v[q] == r[i]);
                    }
                }
            }
        }
    }
}

/// Opening a file puts it first in the recent list, keeps it there once,
/// keeps the list at ten entries at most, and keeps a list without repeats
/// without repeats.
pub proof fn lemma_push_recent(recent: Seq<Seq<char>>, s: Seq<char>)
    ensures
        spec_push_recent(recent, s)[0] == s,
        spec_push_recent(recent, s).len() <= 10,
        forall|k: int| 0 < k < spec_push_recent(recent, s).len() ==> #[trigger] spec_push_recent(recent, s)[k] != s,
        distinct(recent) ==> distinct(spec_push_recent(recent, s)),
{
    lemma_without(recent, s);
    let all = seq![s] + without(recent, s);
    assert forall|k: int| 0 < k < all.len() implies #[trigger] all[k] != s by {
        assert(all[k] == without(recent, s)[k - 1]);
    }
    if distinct(recent) {
        assert forall|i: int, j: int| 0 <= i < j < all.len() implies all[i] != all[j] by {
            assert(all[j] == without(recent, s)[j - 1]);
            if i > 0 {
                assert(all[i] == without(recent, s)[i - 1]);
            }
        }
    }
}

} // verus!
