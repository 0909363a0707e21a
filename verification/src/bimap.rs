//! A two-way association map.
//!
//! Pairs are kept in insertion order and looked up from the newest to
//! the oldest, so a later insertion under a known key (or value) shadows
//! the earlier one in the direction it was inserted.

use vstd::prelude::*;

use vstd::std_specs::cmp::PartialEqSpec;

verus! {

/// An association of keys to values readable in both directions.
pub struct BiMap<K, V> {
    pairs: Vec<(K, V)>,
}

impl<K, V> View for BiMap<K, V> {
    type V = Seq<(K, V)>;

    closed spec fn view(&self) -> Seq<(K, V)> {
        self.pairs@
    }
}

impl<K: PartialEq + PartialEqSpec, V: PartialEq + PartialEqSpec> BiMap<K, V> {
    /// An empty association.
    pub fn new() -> (r: BiMap<K, V>)
        ensures
            r@ == Seq::<(K, V)>::empty(),
    {
        let r = BiMap { pairs: Vec::new() };
        proof {
            assert(r@ =~= Seq::<(K, V)>::empty());
        }
        r
    }

    /// Associates `key` and `value`, shadowing older pairs under either.
    pub fn insert(&mut self, key: K, value: V)
        ensures
            final(self)@ == old(self)@.push((key, value)),
    {
        self.pairs.push((key, value));
    }

    /// The key most recently associated with `value`.
    pub fn get_key(&self, value: &V) -> (r: Option<&K>)
        requires
            V::obeys_eq_spec(),
        ensures
            match r {
                Some(k) => exists|i: int|
                    0 <= i < self@.len() && (#[trigger] self@[i].1).eq_spec(value) && *k
                        == self@[i].0 && (forall|j: int|
                        i < j < self@.len() ==> !(#[trigger] self@[j].1).eq_spec(value)),
                None => forall|j: int| 0 <= j < self@.len() ==> !(#[trigger] self@[j].1).eq_spec(
                    value,
                ),
            },
    {
        let n = self.pairs.len();
        let mut i: usize = n;
        while i > 0
            invariant
                n == self.pairs@.len(),
                0 <= i <= n,
                V::obeys_eq_spec(),
                forall|j: int| i <= j < n ==> !(#[trigger] self.pairs@[j].1).eq_spec(value),
            decreases i,
        {
            i -= 1;
            if self.pairs[i].1 == *value {
                proof {
                    assert((self@[i as int].1).eq_spec(value));
                }
                return Some(&self.pairs[i].0);
            }
        }
        None
    }

    /// The value most recently associated with `key`.
    pub fn get_value(&self, key: &K) -> (r: Option<&V>)
        requires
            K::obeys_eq_spec(),
        ensures
            match r {
                Some(v) => exists|i: int|
                    0 <= i < self@.len() && (#[trigger] self@[i].0).eq_spec(key) && *v
                        == self@[i].1 && (forall|j: int|
                        i < j < self@.len() ==> !(#[trigger] self@[j].0).eq_spec(key)),
                None => forall|j: int| 0 <= j < self@.len() ==> !(#[trigger] self@[j].0).eq_spec(
                    key,
                ),
            },
    {
        let n = self.pairs.len();
        let mut i: usize = n;
        while i > 0
            invariant
                n == self.pairs@.len(),
                0 <= i <= n,
                K::obeys_eq_spec(),
                forall|j: int| i <= j < n ==> !(#[trigger] self.pairs@[j].0).eq_spec(key),
            decreases i,
        {
            i -= 1;
            if self.pairs[i].0 == *key {
                proof {
                    assert((self@[i as int].0).eq_spec(key));
                }
                return Some(&self.pairs[i].1);
            }
        }
        None
    }
}

} // verus!
