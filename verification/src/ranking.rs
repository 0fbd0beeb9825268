//! Rankings of files: by a numeric key, highest first, and by path among equal keys.
//!
//! A ranking is built by inserting entries one at a time into an ordered
//! list. Two entries with the same key and the same path count as one: the
//! one that came first stays. Since the order on paths is total, the
//! ranking of a collection does not depend on anything but its content.

use vstd::prelude::*;
use crate::path_order::{
    lemma_path_lt_asymmetric, lemma_path_lt_connected, lemma_path_lt_transitive, path_less, path_lt,
};

verus! {

/// One candidate of a ranking, as the contracts see it.
pub struct RankItem {
    pub key: nat,
    pub path: Seq<char>,
    pub index: nat,
}

/// One candidate of a ranking: a file's path, the key it is ranked by, and
/// the position it had in the collection it was taken from.
pub struct RankEntry {
    pub key: u128,
    pub path: String,
    pub index: usize,
}

impl View for RankEntry {
    type V = RankItem;

    open spec fn view(&self) -> RankItem {
        RankItem { key: self.key as nat, path: self.path@, index: self.index as nat }
    }
}

/// The candidates that a list of entries stands for.
pub open spec fn rank_views(s: Seq<RankEntry>) -> Seq<RankItem> {
    Seq::new(s.len(), |i: int| s[i]@)
}

/// `a` is ranked ahead of `b`: by the larger key, or by the smaller path when the keys agree.
pub open spec fn ranks_before(a: RankItem, b: RankItem) -> bool {
    a.key > b.key || (a.key == b.key && path_lt(a.path, b.path))
}

/// `a` and `b` take the same place in any ranking.
pub open spec fn same_rank(a: RankItem, b: RankItem) -> bool {
    a.key == b.key && a.path == b.path
}

/// Every item is ranked ahead of all that follow it.
pub open spec fn strictly_ranked(s: Seq<RankItem>) -> bool {
    forall|i: int, j: int| 0 <= i < j < s.len() ==> ranks_before(s[i], s[j])
}

/// The first position from `k` on whose item is not ranked ahead of `e`.
pub open spec fn rank_slot(s: Seq<RankItem>, e: RankItem, k: int) -> int
    decreases s.len() - k,
{
    if k < 0 || k >= s.len() {
        s.len() as int
    } else if ranks_before(s[k], e) {
        rank_slot(s, e, k + 1)
    } else {
        k
    }
}

/// The ranking `s` with `e` put in its place, unless an item of the same
/// rank is already there.
pub open spec fn rank_insert(s: Seq<RankItem>, e: RankItem) -> Seq<RankItem> {
    let k = rank_slot(s, e, 0);
    if k < s.len() && same_rank(s[k], e) {
        s
    } else {
        s.insert(k, e)
    }
}

/// The ranking of a collection of candidates.
pub open spec fn ranked(items: Seq<RankItem>) -> Seq<RankItem>
    decreases items.len(),
{
    if items.len() == 0 {
        Seq::empty()
    } else {
        rank_insert(ranked(items.drop_last()), items.last())
    }
}

/// The paths of a ranking, in its order.
pub open spec fn rank_paths(s: Seq<RankItem>) -> Seq<Seq<char>> {
    Seq::new(s.len(), |i: int| s[i].path)
}

/// The ranking `s` holds a candidate of the rank of `e`.
pub open spec fn has_rank(s: Seq<RankItem>, e: RankItem) -> bool {
    exists|i: int| 0 <= i < s.len() && same_rank(#[trigger] s[i], e)
}

/// No two candidates take the same place.
pub open spec fn distinct_ranks(items: Seq<RankItem>) -> bool {
    forall|i: int, j: int| 0 <= i < j < items.len() ==> !same_rank(items[i], items[j])
}

/// The ranking order is transitive.
pub proof fn lemma_ranks_before_transitive(a: RankItem, b: RankItem, c: RankItem)
    requires
        ranks_before(a, b),
        ranks_before(b, c),
    ensures
        ranks_before(a, c),
{
    if a.key == b.key && b.key == c.key {
        lemma_path_lt_transitive(a.path, b.path, c.path);
    }
}

/// Of two candidates, at most one is ranked ahead of the other, and none ahead of its like.
pub proof fn lemma_ranks_before_asymmetric(a: RankItem, b: RankItem)
    requires
        ranks_before(a, b),
    ensures
        !ranks_before(b, a),
        !same_rank(a, b),
{
    if a.key == b.key {
        lemma_path_lt_asymmetric(a.path, b.path);
    }
}

/// Two candidates of which neither is ranked ahead of the other take the same place.
pub proof fn lemma_ranks_connected(a: RankItem, b: RankItem)
    requires
        !ranks_before(a, b),
        !ranks_before(b, a),
    ensures
        same_rank(a, b),
{
    lemma_path_lt_connected(a.path, b.path);
}

/// Where `rank_slot` points, all before from `k` on are ranked ahead of `e`, and the item there is not.
pub proof fn lemma_rank_slot(s: Seq<RankItem>, e: RankItem, k: int)
    requires
        0 <= k <= s.len(),
    ensures
        k <= rank_slot(s, e, k) <= s.len(),
        forall|j: int| k <= j < rank_slot(s, e, k) ==> ranks_before(s[j], e),
        rank_slot(s, e, k) < s.len() ==> !ranks_before(s[rank_slot(s, e, k)], e),
    decreases s.len() - k,
{
    if k < s.len() && ranks_before(s[k], e) {
        lemma_rank_slot(s, e, k + 1);
    }
}

/// Putting a candidate in its place keeps a ranking in order.
pub proof fn lemma_rank_insert_ordered(s: Seq<RankItem>, e: RankItem)
    requires
        strictly_ranked(s),
    ensures
        strictly_ranked(rank_insert(s, e)),
{
    let k = rank_slot(s, e, 0);
    lemma_rank_slot(s, e, 0);
    if k < s.len() && same_rank(s[k], e) {
    } else {
        let t = s.insert(k, e);
        assert forall|i: int, j: int| 0 <= i < j < t.len() implies ranks_before(t[i], t[j]) by {
            if j == k {
                assert(t[i] == s[i]);
            } else if i == k {
                assert(t[j] == s[j - 1]);
                if !ranks_before(e, s[k]) {
                    lemma_ranks_connected(e, s[k]);
                }
                if j - 1 > k {
                    lemma_ranks_before_transitive(e, s[k], s[j - 1]);
                }
            } else {
                let i0 = if i < k { i } else { i - 1 };
                let j0 = if j < k { j } else { j - 1 };
                assert(t[i] == s[i0]);
                assert(t[j] == s[j0]);
            }
        }
    }
}

/// What a ranking holds after one more candidate was put in its place: all
/// that it held, and a candidate of the rank of the new one.
pub proof fn lemma_rank_insert_content(s: Seq<RankItem>, e: RankItem)
    ensures
        forall|i: int| 0 <= i < s.len() ==> rank_insert(s, e).contains(#[trigger] s[i]),
        forall|i: int|
            0 <= i < rank_insert(s, e).len() ==> (#[trigger] rank_insert(s, e)[i] == e
                || s.contains(rank_insert(s, e)[i])),
        has_rank(rank_insert(s, e), e),
        rank_insert(s, e).len() == s.len() || rank_insert(s, e).len() == s.len() + 1,
{
    let k = rank_slot(s, e, 0);
    let t = rank_insert(s, e);
    lemma_rank_slot(s, e, 0);
    if k < s.len() && same_rank(s[k], e) {
        assert(same_rank(t[k], e));
        assert forall|i: int| 0 <= i < t.len() implies (#[trigger] t[i] == e || s.contains(
            t[i],
        )) by {
            assert(s[i] == t[i]);
        }
    } else {
        assert(t[k] == e);
        assert(same_rank(t[k], e));
        assert forall|i: int| 0 <= i < s.len() implies t.contains(#[trigger] s[i]) by {
            if i < k {
                assert(t[i] == s[i]);
            } else {
                assert(t[i + 1] == s[i]);
            }
        }
        assert forall|i: int| 0 <= i < t.len() implies (#[trigger] t[i] == e || s.contains(
            t[i],
        )) by {
            if i < k {
                assert(s[i] == t[i]);
            } else if i > k {
                assert(s[i - 1] == t[i]);
            }
        }
    }
}

/// A ranking is in order.
pub proof fn lemma_ranked_ordered(items: Seq<RankItem>)
    ensures
        strictly_ranked(ranked(items)),
    decreases items.len(),
{
    if items.len() > 0 {
        lemma_ranked_ordered(items.drop_last());
        lemma_rank_insert_ordered(ranked(items.drop_last()), items.last());
    }
}

/// A ranking holds candidates of the collection only, and one of the rank of
/// each candidate of the collection.
pub proof fn lemma_ranked_content(items: Seq<RankItem>)
    ensures
        ranked(items).len() <= items.len(),
        forall|i: int|
            0 <= i < ranked(items).len() ==> items.contains(#[trigger] ranked(items)[i]),
        forall|j: int| 0 <= j < items.len() ==> has_rank(ranked(items), #[trigger] items[j]),
    decreases items.len(),
{
    if items.len() > 0 {
        let head = items.drop_last();
        let e = items.last();
        let s = ranked(head);
        let t = ranked(items);
        lemma_ranked_content(head);
        lemma_rank_insert_content(s, e);
        assert forall|i: int| 0 <= i < t.len() implies items.contains(#[trigger] t[i]) by {
            if t[i] == e {
                assert(items[items.len() - 1] == e);
            } else {
                assert(s.contains(t[i]));
                let k = choose|k: int| 0 <= k < s.len() && s[k] == t[i];
                assert(head.contains(s[k]));
                let m = choose|m: int| 0 <= m < head.len() && head[m] == s[k];
                assert(items[m] == t[i]);
            }
        }
        assert forall|j: int| 0 <= j < items.len() implies has_rank(t, #[trigger] items[j]) by {
            if j < head.len() {
                assert(head[j] == items[j]);
                assert(has_rank(s, head[j]));
                let k = choose|k: int| 0 <= k < s.len() && same_rank(#[trigger] s[k], head[j]);
                assert(t.contains(s[k]));
                let m = choose|m: int| 0 <= m < t.len() && t[m] == s[k];
                assert(same_rank(t[m], items[j]));
            }
        }
    }
}

/// A collection in which no two candidates take the same place is ranked
/// without loss: the ranking is as long as the collection.
pub proof fn lemma_ranked_len(items: Seq<RankItem>)
    requires
        distinct_ranks(items),
    ensures
        ranked(items).len() == items.len(),
    decreases items.len(),
{
    if items.len() > 0 {
        let head = items.drop_last();
        let e = items.last();
        let s = ranked(head);
        assert(distinct_ranks(head)) by {
            assert forall|i: int, j: int| 0 <= i < j < head.len() implies !same_rank(
                head[i],
                head[j],
            ) by {
                assert(head[i] == items[i] && head[j] == items[j]);
            }
        }
        lemma_ranked_len(head);
        lemma_ranked_content(head);
        lemma_rank_insert_content(s, e);
        let k = rank_slot(s, e, 0);
        lemma_rank_slot(s, e, 0);
        if k < s.len() && same_rank(s[k], e) {
            assert(head.contains(s[k]));
            let m = choose|m: int| 0 <= m < head.len() && head[m] == s[k];
            assert(same_rank(items[m], items[items.len() - 1]));
        }
    }
}

/// Tells whether `a` is ranked ahead of `b`.
pub fn entry_ranks_before(a: &RankEntry, b: &RankEntry) -> (r: bool)
    ensures
        r == ranks_before(a@, b@),
{
    a.key > b.key || (a.key == b.key && path_less(a.path.as_str(), b.path.as_str()))
}

/// Puts `e` in its place in the ranking `v`, unless an entry of the same
/// rank is already there.
pub fn insert_ranked(v: &mut Vec<RankEntry>, e: RankEntry)
    ensures
        rank_views(final(v)@) == rank_insert(rank_views(old(v)@), e@),
{
    let ghost s = rank_views(v@);
    let mut k: usize = 0;
    while k < v.len() && entry_ranks_before(&v[k], &e)
        invariant
            k <= v.len(),
            s == rank_views(v@),
            rank_slot(s, e@, 0) == rank_slot(s, e@, k as int),
        decreases v.len() - k,
    {
        k += 1;
    }
    if k < v.len() && v[k].key == e.key && v[k].path == e.path {
    } else {
        v.insert(k, e);
        assert(rank_views(v@) =~= s.insert(k as int, e@));
    }
}

} // verus!
