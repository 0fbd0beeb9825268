//! A map from paths to paths, kept as a list of entries without repeated keys.

use vstd::prelude::*;
use crate::keys::{
    distinct, find_key, has_key, lemma_distinct_push, lemma_position, lemma_position_of_key,
    lemma_position_push, position, texts,
};

verus! {

/// A map from paths to paths.
pub struct PathMap {
    keys: Vec<String>,
    values: Vec<String>,
}

/// The path that `m` gives for `p`, or `p` itself where `m` has no entry for it.
pub open spec fn resolve(m: Map<Seq<char>, Seq<char>>, p: Seq<char>) -> Seq<char> {
    if m.contains_key(p) {
        m[p]
    } else {
        p
    }
}

/// The map `m` with every entry that gives `from` made to give `to`.
pub open spec fn redirected(
    m: Map<Seq<char>, Seq<char>>,
    from: Seq<char>,
    to: Seq<char>,
) -> Map<Seq<char>, Seq<char>> {
    Map::new(
        |k: Seq<char>| m.contains_key(k),
        |k: Seq<char>|
            if m[k] == from {
                to
            } else {
                m[k]
            },
    )
}

/// The keys of a list of entries, in its order.
pub open spec fn entry_keys(entries: Seq<(String, String)>) -> Seq<Seq<char>> {
    Seq::new(entries.len(), |i: int| entries[i].0@)
}

/// A list of keys without repetition has as many keys as it is long.
pub proof fn lemma_keys_counted(keys: Seq<Seq<char>>)
    requires
        distinct(keys),
    ensures
        Set::new(|k: Seq<char>| has_key(keys, k)).finite(),
        Set::new(|k: Seq<char>| has_key(keys, k)).len() == keys.len(),
{
    let domain = Set::new(|k: Seq<char>| has_key(keys, k));
    assert forall|k: Seq<char>| domain.contains(k) <==> keys.to_set().contains(k) by {
        lemma_position(keys, k);
        if keys.contains(k) {
            let i = choose|i: int| 0 <= i < keys.len() && keys[i] == k;
            assert(has_key(keys, k));
        }
    }
    assert(domain =~= keys.to_set());
    vstd::seq_lib::seq_to_set_is_finite(keys);
    assert(keys.no_duplicates());
    keys.unique_seq_to_set();
}

impl View for PathMap {
    type V = Map<Seq<char>, Seq<char>>;

    closed spec fn view(&self) -> Map<Seq<char>, Seq<char>> {
        Map::new(
            |k: Seq<char>| has_key(texts(self.keys@), k),
            |k: Seq<char>| texts(self.values@)[position(texts(self.keys@), k)],
        )
    }
}

impl PathMap {
    #[verifier::type_invariant]
    spec fn in_order(self) -> bool {
        self.keys.len() == self.values.len() && distinct(texts(self.keys@))
    }

    /// A map without entries.
    pub fn new() -> (map: Self)
        ensures
            map@ == Map::<Seq<char>, Seq<char>>::empty(),
    {
        let map = PathMap { keys: Vec::new(), values: Vec::new() };
        assert(map@ =~= Map::<Seq<char>, Seq<char>>::empty());
        map
    }

    /// The number of entries.
    pub fn len(&self) -> (n: usize)
        ensures
            self@.dom().finite(),
            n == self@.len(),
    {
        proof {
            use_type_invariant(self);
            lemma_keys_counted(texts(self.keys@));
            assert(self@.dom() =~= Set::new(|k: Seq<char>| has_key(texts(self.keys@), k)));
        }
        self.keys.len()
    }

    /// Tells whether the map has no entry.
    pub fn is_empty(&self) -> (empty: bool)
        ensures
            empty == (self@ == Map::<Seq<char>, Seq<char>>::empty()),
    {
        proof {
            use_type_invariant(self);
            if self.keys.len() == 0 {
                assert(self@ =~= Map::<Seq<char>, Seq<char>>::empty());
            } else {
                let keys = texts(self.keys@);
                lemma_position_of_key(keys, 0);
                assert(self@.contains_key(keys[0]));
            }
        }
        self.keys.len() == 0
    }

    /// The entries of the map, each once: every key with the path that the
    /// map gives for it.
    pub fn entries(&self) -> (entries: Vec<(String, String)>)
        ensures
            self@.dom().finite(),
            entries.len() == self@.len(),
            distinct(entry_keys(entries@)),
            forall|k: Seq<char>| self@.contains_key(k) <==> #[trigger] has_key(entry_keys(entries@), k),
            forall|i: int|
                0 <= i < entries.len() ==> self@.contains_key((#[trigger] entries[i]).0@)
                    && self@[entries[i].0@] == entries[i].1@,
    {
        proof {
            use_type_invariant(self);
            lemma_keys_counted(texts(self.keys@));
            assert(self@.dom() =~= Set::new(|k: Seq<char>| has_key(texts(self.keys@), k)));
        }
        let mut entries: Vec<(String, String)> = Vec::new();
        let mut i: usize = 0;
        while i < self.keys.len()
            invariant
                i <= self.keys.len(),
                self.keys.len() == self.values.len(),
                entries.len() == i,
                forall|k: int|
                    0 <= k < i ==> (#[trigger] entries[k]).0@ == self.keys[k]@ && entries[k].1@
                        == self.values[k]@,
            decreases self.keys.len() - i,
        {
            entries.push((self.keys[i].clone(), self.values[i].clone()));
            i += 1;
        }
        proof {
            let keys = texts(self.keys@);
            assert(entry_keys(entries@) =~= keys);
            assert forall|k: int| 0 <= k < entries.len() implies self@.contains_key(
                (#[trigger] entries[k]).0@,
            ) && self@[entries[k].0@] == entries[k].1@ by {
                lemma_position_of_key(keys, k);
            }
        }
        entries
    }

    /// Tells whether the map has an entry for `key`.
    pub fn contains_key(&self, key: &String) -> (found: bool)
        ensures
            found == self@.contains_key(key@),
    {
        proof {
            use_type_invariant(self);
        }
        find_key(&self.keys, key) < self.keys.len()
    }

    /// The path that the map gives for `key`, if it has an entry for it.
    pub fn get(&self, key: &String) -> (value: Option<&String>)
        ensures
            match value {
                Some(v) => self@.contains_key(key@) && v@ == self@[key@],
                None => !self@.contains_key(key@),
            },
    {
        proof {
            use_type_invariant(self);
        }
        let at = find_key(&self.keys, key);
        if at < self.keys.len() {
            Some(&self.values[at])
        } else {
            None
        }
    }

    /// Makes the map give `value` for `key`, whatever it gave before.
    pub fn insert(&mut self, key: String, value: String)
        ensures
            final(self)@ == old(self)@.insert(key@, value@),
    {
        proof {
            use_type_invariant(&*self);
        }
        let mut work = PathMap::new();
        core::mem::swap(self, &mut work);
        let PathMap { mut keys, mut values } = work;
        let ghost old_keys = texts(keys@);
        let ghost old_values = texts(values@);
        let at = find_key(&keys, &key);
        proof {
            lemma_position(old_keys, key@);
        }
        if at < keys.len() {
            values[at] = value;
            proof {
                assert(texts(keys@) =~= old_keys);
                assert(texts(values@) =~= old_values.update(at as int, value@));
            }
        } else {
            keys.push(key);
            values.push(value);
            proof {
                assert(texts(keys@) =~= old_keys.push(key@));
                assert(texts(values@) =~= old_values.push(value@));
                lemma_distinct_push(old_keys, key@);
            }
        }
        let next = PathMap { keys, values };
        proof {
            assert forall|k: Seq<char>| #[trigger]
                next@.contains_key(k) == old(self)@.insert(key@, value@).contains_key(k) by {
                lemma_position(old_keys, k);
                lemma_position_push(old_keys, key@, k);
            }
            assert forall|k: Seq<char>| next@.contains_key(k) implies #[trigger] next@[k] == old(
                self,
            )@.insert(key@, value@)[k] by {
                lemma_position(old_keys, k);
                lemma_position_push(old_keys, key@, k);
            }
            assert(next@ =~= old(self)@.insert(key@, value@));
        }
        *self = next;
    }

    /// Makes every entry that gives `from` give `to`.
    pub fn redirect(&mut self, from: &String, to: &String)
        ensures
            final(self)@ == redirected(old(self)@, from@, to@),
    {
        proof {
            use_type_invariant(&*self);
        }
        let mut work = PathMap::new();
        core::mem::swap(self, &mut work);
        let PathMap { keys, mut values } = work;
        let ghost old_values = texts(values@);
        let mut i: usize = 0;
        while i < values.len()
            invariant
                i <= values.len(),
                values.len() == old_values.len(),
                forall|k: int|
                    0 <= k < i ==> (#[trigger] values[k])@ == if old_values[k] == from@ {
                        to@
                    } else {
                        old_values[k]
                    },
                forall|k: int| i <= k < values.len() ==> (#[trigger] values[k])@ == old_values[k],
            decreases values.len() - i,
        {
            if values[i] == *from {
                values[i] = to.clone();
            }
            i += 1;
        }
        let next = PathMap { keys, values };
        proof {
            assert forall|k: Seq<char>| next@.contains_key(k) implies #[trigger] next@[k]
                == redirected(old(self)@, from@, to@)[k] by {
                lemma_position(texts(keys@), k);
            }
            assert(next@ =~= redirected(old(self)@, from@, to@));
        }
        *self = next;
    }
}

} // verus!
