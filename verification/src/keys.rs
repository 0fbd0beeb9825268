//! Lists of paths used as keys: where a path stands in such a list, and
//! what it means that no path stands in it twice.

use vstd::prelude::*;

verus! {

/// What a list of strings holds.
pub open spec fn texts(s: Seq<String>) -> Seq<Seq<char>> {
    Seq::new(s.len(), |i: int| s[i]@)
}

/// The first position from `k` on at which `p` stands in `keys`, or the
/// length of `keys` where it stands at none.
pub open spec fn position_from(keys: Seq<Seq<char>>, p: Seq<char>, k: int) -> int
    decreases keys.len() - k,
{
    if k < 0 || k >= keys.len() {
        keys.len() as int
    } else if keys[k] == p {
        k
    } else {
        position_from(keys, p, k + 1)
    }
}

/// The first position at which `p` stands in `keys`, or the length of `keys`
/// where `p` is not among them.
pub open spec fn position(keys: Seq<Seq<char>>, p: Seq<char>) -> int {
    position_from(keys, p, 0)
}

/// `p` is one of `keys`.
pub open spec fn has_key(keys: Seq<Seq<char>>, p: Seq<char>) -> bool {
    position(keys, p) < keys.len()
}

/// No path stands in `keys` twice.
pub open spec fn distinct(keys: Seq<Seq<char>>) -> bool {
    forall|i: int, j: int| 0 <= i < j < keys.len() ==> keys[i] != keys[j]
}

/// Where `position_from` points, the path stands, and nowhere before from `k` on.
pub proof fn lemma_position_from(keys: Seq<Seq<char>>, p: Seq<char>, k: int)
    requires
        0 <= k <= keys.len(),
    ensures
        k <= position_from(keys, p, k) <= keys.len(),
        forall|j: int| k <= j < position_from(keys, p, k) ==> keys[j] != p,
        position_from(keys, p, k) < keys.len() ==> keys[position_from(keys, p, k)] == p,
    decreases keys.len() - k,
{
    if k < keys.len() && keys[k] != p {
        lemma_position_from(keys, p, k + 1);
    }
}

/// Where `position` points, the path stands, and nowhere before; where it
/// points past the end, the path stands nowhere.
pub proof fn lemma_position(keys: Seq<Seq<char>>, p: Seq<char>)
    ensures
        0 <= position(keys, p) <= keys.len(),
        forall|j: int| 0 <= j < position(keys, p) ==> keys[j] != p,
        position(keys, p) < keys.len() ==> keys[position(keys, p)] == p,
{
    lemma_position_from(keys, p, 0);
}

/// In a list without repetition, each key is found where it stands.
pub proof fn lemma_position_of_key(keys: Seq<Seq<char>>, i: int)
    requires
        distinct(keys),
        0 <= i < keys.len(),
    ensures
        position(keys, keys[i]) == i,
{
    lemma_position(keys, keys[i]);
}

/// Where paths are found after one more key was added at the end.
pub proof fn lemma_position_push(keys: Seq<Seq<char>>, q: Seq<char>, p: Seq<char>)
    ensures
        position(keys.push(q), p) == if has_key(keys, p) {
            position(keys, p)
        } else if p == q {
            keys.len() as int
        } else {
            keys.len() as int + 1
        },
{
    let more = keys.push(q);
    lemma_position(keys, p);
    lemma_position(more, p);
    let a = position(keys, p);
    let b = position(more, p);
    if a < keys.len() {
        assert(more[a] == p);
        if b < a {
            assert(keys[b] == more[b]);
        }
    } else {
        if b < keys.len() {
            assert(keys[b] == more[b]);
        }
        if p == q {
            assert(more[keys.len() as int] == p);
        }
    }
}

/// Adding a key that is not yet there keeps a list free of repetition.
pub proof fn lemma_distinct_push(keys: Seq<Seq<char>>, q: Seq<char>)
    requires
        distinct(keys),
        !has_key(keys, q),
    ensures
        distinct(keys.push(q)),
{
    lemma_position(keys, q);
}

/// Where `key` stands in `keys`, or their number where it is not among them.
pub fn find_key(keys: &Vec<String>, key: &String) -> (r: usize)
    ensures
        r == position(texts(keys@), key@),
{
    let ghost views = texts(keys@);
    let mut i: usize = 0;
    while i < keys.len()
        invariant
            i <= keys.len(),
            views == texts(keys@),
            position(views, key@) == position_from(views, key@, i as int),
        decreases keys.len() - i,
    {
        if keys[i] == *key {
            return i;
        }
        i += 1;
    }
    i
}

} // verus!
