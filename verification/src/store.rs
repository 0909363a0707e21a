//! The typed resource store.
//!
//! A mapping from a run-time resource key (`u64`) to at most one owned
//! value. The embedding application chooses one value type `V` — normally
//! an enum over every resource it registers — and a key for each resource;
//! the store guarantees the mapping semantics: an insert overwrites any
//! prior binding of the same key, a removal leaves every other binding
//! alone, and a lookup returns exactly what the last insert under that key
//! put there.

use vstd::prelude::*;

use crate::event::EventQueueHandler;

verus! {

/// A store of owned resources, keyed by `u64`. Keys are unique; the view
/// is the map the entries induce.
pub struct ResourceStore<V> {
    entries: Vec<(u64, V)>,
}

impl<V> View for ResourceStore<V> {
    type V = Map<u64, V>;

    closed spec fn view(&self) -> Map<u64, V> {
        Map::new(
            |k: u64| exists|i: int| 0 <= i < self.entries@.len() && self.entries@[i].0 == k,
            |k: u64|
                self.entries@[choose|i: int|
                    0 <= i < self.entries@.len() && self.entries@[i].0 == k].1,
        )
    }
}

impl<V> ResourceStore<V> {
    spec fn keys_unique(self) -> bool {
        forall|i: int, j: int|
            0 <= i < j < self.entries@.len() ==> self.entries@[i].0 != self.entries@[j].0
    }

    /// Well-formedness: keys are unique. Constructors establish it and
    /// every method preserves it.
    pub closed spec fn wf(self) -> bool {
        self.keys_unique()
    }

    proof fn lemma_view_entry(self, i: int)
        requires
            self.keys_unique(),
            0 <= i < self.entries@.len(),
        ensures
            self@.dom().contains(self.entries@[i].0),
            self@[self.entries@[i].0] == self.entries@[i].1,
    {
        let k = self.entries@[i].0;
        assert(exists|j: int| 0 <= j < self.entries@.len() && self.entries@[j].0 == k);
        let j = choose|j: int| 0 <= j < self.entries@.len() && self.entries@[j].0 == k;
        assert(j == i);
    }

    proof fn lemma_view_absent(self, k: u64)
        requires
            self.keys_unique(),
            forall|i: int| 0 <= i < self.entries@.len() ==> self.entries@[i].0 != k,
        ensures
            !self@.dom().contains(k),
    {
    }

    /// An empty store.
    pub fn new() -> (r: ResourceStore<V>)
        ensures
            r@ == Map::<u64, V>::empty(),
            r.wf(),
    {
        let r = ResourceStore { entries: Vec::new() };
        proof {
            assert(r@ =~= Map::<u64, V>::empty());
        }
        r
    }

    /// The index holding `key`, if any.
    fn position_of(&self, key: u64) -> (r: Option<usize>)
        requires
            self.wf(),
        ensures
            r matches Some(i) ==> 0 <= i < self.entries@.len() && self.entries@[i as int].0 == key
                && self@.dom().contains(key) && self@[key] == self.entries@[i as int].1,
            r is None ==> !self@.dom().contains(key),
    {
        let n = self.entries.len();
        let mut i: usize = 0;
        while i < n
            invariant
                n == self.entries@.len(),
                0 <= i <= n,
                forall|j: int| 0 <= j < i ==> self.entries@[j].0 != key,
                self.keys_unique(),
            decreases n - i,
        {
            if self.entries[i].0 == key {
                proof {
                    self.lemma_view_entry(i as int);
                }
                return Some(i);
            }
            i += 1;
        }
        proof {
            self.lemma_view_absent(key);
        }
        None
    }

    /// Whether a resource is bound under `key`.
    pub fn contains(&self, key: u64) -> (r: bool)
        requires
            self.wf(),
        ensures
            r == self@.dom().contains(key),
    {
        self.position_of(key).is_some()
    }

    /// Binds `value` under `key`, replacing any earlier binding of that
    /// key and touching no other.
    pub fn insert(&mut self, key: u64, value: V)
        requires
            old(self).wf(),
        ensures
            final(self).wf(),
            final(self)@ == old(self)@.insert(key, value),
    {
        let ghost old_map = self@;
        match self.position_of(key) {
            Some(i) => {
                self.entries.set(i, (key, value));
                proof {
                    assert(self.keys_unique());
                    assert forall|k: u64|
                        self@.dom().contains(k) <==> old_map.insert(key, value).dom().contains(
                            k,
                        ) by {
                        if exists|j: int|
                            0 <= j < self.entries@.len() && self.entries@[j].0 == k {
                            let j = choose|j: int|
                                0 <= j < self.entries@.len() && self.entries@[j].0 == k;
                            assert(old(self).entries@[j].0 == k);
                        }
                        if exists|j: int|
                            0 <= j < old(self).entries@.len() && old(self).entries@[j].0 == k {
                            let j = choose|j: int|
                                0 <= j < old(self).entries@.len() && old(self).entries@[j].0 == k;
                            assert(self.entries@[j].0 == k);
                        }
                    }
                    assert forall|k: u64| self@.dom().contains(k) implies self@[k]
                        == old_map.insert(key, value)[k] by {
                        let j = choose|j: int|
                            0 <= j < self.entries@.len() && self.entries@[j].0 == k;
                        self.lemma_view_entry(j);
                        if k == key {
                            assert(j == i as int);
                        } else {
                            assert(old(self).entries@[j] == self.entries@[j]);
                            old(self).lemma_view_entry(j);
                        }
                    }
                    assert(self@ =~= old_map.insert(key, value));
                }
            },
            None => {
                self.entries.push((key, value));
                proof {
                    assert(self.keys_unique());
                    let n = self.entries@.len();
                    assert forall|k: u64|
                        self@.dom().contains(k) <==> old_map.insert(key, value).dom().contains(
                            k,
                        ) by {
                        if k == key {
                            assert(self.entries@[n - 1].0 == k);
                        } else {
                            if exists|j: int| 0 <= j < n && self.entries@[j].0 == k {
                                let j = choose|j: int| 0 <= j < n && self.entries@[j].0 == k;
                                assert(j < n - 1);
                                assert(old(self).entries@[j].0 == k);
                            }
                            if old_map.dom().contains(k) {
                                let j = choose|j: int|
                                    0 <= j < old(self).entries@.len() && old(self).entries@[j].0 == k;
                                assert(self.entries@[j].0 == k);
                            }
                        }
                    }
                    assert forall|k: u64| self@.dom().contains(k) implies self@[k]
                        == old_map.insert(key, value)[k] by {
                        let j = choose|j: int| 0 <= j < n && self.entries@[j].0 == k;
                        self.lemma_view_entry(j);
                        if k == key {
                            assert(j == n - 1);
                        } else {
                            assert(j < n - 1);
                            assert(old(self).entries@[j] == self.entries@[j]);
                            old(self).lemma_view_entry(j);
                        }
                    }
                    assert(self@ =~= old_map.insert(key, value));
                }
            },
        }
    }

    /// Unbinds `key` and hands the value back; no effect if absent.
    pub fn remove(&mut self, key: u64) -> (r: Option<V>)
        requires
            old(self).wf(),
        ensures
            final(self).wf(),
            final(self)@ == old(self)@.remove(key),
            r matches Some(v) ==> old(self)@.dom().contains(key) && v == old(self)@[key],
            r is None ==> !old(self)@.dom().contains(key),
    {
        let ghost old_map = self@;
        match self.position_of(key) {
            Some(i) => {
                let (_, v) = self.entries.remove(i);
                proof {
                    assert(self.keys_unique());
                    assert forall|k: u64|
                        self@.dom().contains(k) <==> old_map.remove(key).dom().contains(k) by {
                        let n = self.entries@.len();
                        if exists|j: int| 0 <= j < n && self.entries@[j].0 == k {
                            let j = choose|j: int| 0 <= j < n && self.entries@[j].0 == k;
                            if j < i as int {
                                assert(old(self).entries@[j].0 == k);
                            } else {
                                assert(old(self).entries@[j + 1].0 == k);
                            }
                        }
                        if k != key && exists|j: int|
                            0 <= j < old(self).entries@.len() && old(self).entries@[j].0 == k {
                            let j = choose|j: int|
                                0 <= j < old(self).entries@.len() && old(self).entries@[j].0 == k;
                            assert(j != i as int);
                            if j < i as int {
                                assert(self.entries@[j].0 == k);
                            } else {
                                assert(self.entries@[j - 1].0 == k);
                            }
                        }
                    }
                    assert forall|k: u64| self@.dom().contains(k) implies self@[k]
                        == old_map.remove(key)[k] by {
                        let n = self.entries@.len();
                        let j = choose|j: int| 0 <= j < n && self.entries@[j].0 == k;
                        self.lemma_view_entry(j);
                        if j < i as int {
                            assert(old(self).entries@[j] == self.entries@[j]);
                            old(self).lemma_view_entry(j);
                        } else {
                            assert(old(self).entries@[j + 1] == self.entries@[j]);
                            old(self).lemma_view_entry(j + 1);
                        }
                    }
                    assert(self@ =~= old_map.remove(key));
                }
                Some(v)
            },
            None => {
                proof {
                    assert(self@ =~= old_map.remove(key));
                }
                None
            },
        }
    }

    /// Reads the resource bound under `key`.
    pub fn get(&self, key: u64) -> (r: Option<&V>)
        requires
            self.wf(),
        ensures
            r matches Some(v) ==> self@.dom().contains(key) && *v == self@[key],
            r is None ==> !self@.dom().contains(key),
    {
        match self.position_of(key) {
            Some(i) => Some(&self.entries[i].1),
            None => None,
        }
    }

    /// How many resources are bound.
    pub fn len(&self) -> (r: usize)
        requires
            self.wf(),
        ensures
            r == self@.dom().len(),
    {
        proof {
            self.lemma_len(self.entries@.len() as int);
        }
        self.entries.len()
    }

    /// The set of keys bound by the first `n` entries has exactly `n`
    /// elements when keys are unique.
    proof fn lemma_len(self, n: int)
        requires
            self.keys_unique(),
            0 <= n <= self.entries@.len(),
        ensures
            Set::new(
                |k: u64| exists|i: int| 0 <= i < n && self.entries@[i].0 == k,
            ).finite(),
            Set::new(
                |k: u64| exists|i: int| 0 <= i < n && self.entries@[i].0 == k,
            ).len() == n,
            n == self.entries@.len() ==> self@.dom() =~= Set::new(
                |k: u64| exists|i: int| 0 <= i < n && self.entries@[i].0 == k,
            ),
        decreases n,
    {
        let s = Set::new(|k: u64| exists|i: int| 0 <= i < n && self.entries@[i].0 == k);
        if n == 0 {
            assert(s =~= Set::<u64>::empty());
        } else {
            let s0 = Set::new(
                |k: u64| exists|i: int| 0 <= i < n - 1 && self.entries@[i].0 == k,
            );
            self.lemma_len(n - 1);
            assert(!s0.contains(self.entries@[n - 1].0));
            assert(s =~= s0.insert(self.entries@[n - 1].0));
        }
    }
}

impl<V> ResourceStore<V> {
    /// Every bound key, once each.
    pub fn keys(&self) -> (r: Vec<u64>)
        requires
            self.wf(),
        ensures
            r@.no_duplicates(),
            forall|k: u64| r@.contains(k) <==> self@.dom().contains(k),
    {
        let n = self.entries.len();
        let mut r: Vec<u64> = Vec::new();
        let mut i: usize = 0;
        while i < n
            invariant
                n == self.entries@.len(),
                0 <= i <= n,
                self.keys_unique(),
                r@.len() == i,
                forall|j: int| 0 <= j < i ==> r@[j] == self.entries@[j].0,
            decreases n - i,
        {
            r.push(self.entries[i].0);
            i += 1;
        }
        proof {
            assert(r@.no_duplicates()) by {
                assert forall|a: int, b: int| 0 <= a < b < r@.len() implies r@[a] != r@[b] by {
                    assert(r@[a] == self.entries@[a].0);
                    assert(r@[b] == self.entries@[b].0);
                }
            }
            assert forall|k: u64| r@.contains(k) <==> self@.dom().contains(k) by {
                if r@.contains(k) {
                    let j = choose|j: int| 0 <= j < r@.len() && r@[j] == k;
                    self.lemma_view_entry(j);
                }
                if self@.dom().contains(k) {
                    let j = choose|j: int|
                        0 <= j < self.entries@.len() && self.entries@[j].0 == k;
                    assert(r@[j] == k);
                }
            }
        }
        r
    }
}

impl<V: EventQueueHandler> ResourceStore<V> {
    /// Ages and sweeps every event queue bound in the store, through the
    /// values' [`EventQueueHandler`] answer: the set of bound keys is
    /// unchanged and every value is replaced by its swept form, which
    /// leaves non-queue resources untouched.
    pub fn sweep_events(&mut self)
        requires
            old(self).wf(),
        ensures
            final(self).wf(),
            final(self)@.dom() == old(self)@.dom(),
            forall|k: u64|
                old(self)@.dom().contains(k) ==> V::sweep_spec(
                    old(self)@[k],
                    #[trigger] final(self)@[k],
                ),
    {
        let ks = self.keys();
        let n = ks.len();
        let mut i: usize = 0;
        while i < n
            invariant
                n == ks@.len(),
                ks@.no_duplicates(),
                forall|k: u64| ks@.contains(k) <==> old(self)@.dom().contains(k),
                0 <= i <= n,
                self.wf(),
                self@.dom() == old(self)@.dom(),
                forall|j: int|
                    0 <= j < i ==> V::sweep_spec(
                        old(self)@[ks@[j]],
                        #[trigger] self@[ks@[j]],
                    ),
                forall|k: u64|
                    old(self)@.dom().contains(k) && !ks@.take(i as int).contains(k)
                        ==> #[trigger] self@[k] == old(self)@[k],
            decreases n - i,
        {
            let k = ks[i];
            let ghost pre = self@;
            proof {
                assert(ks@.contains(k));
                assert(old(self)@.dom().contains(k));
                assert(!ks@.take(i as int).contains(k)) by {
                    if ks@.take(i as int).contains(k) {
                        let j = choose|j: int|
                            0 <= j < i && ks@.take(i as int)[j] == k;
                        assert(ks@[j] == k);
                        assert(ks@[i as int] == k);
                    }
                }
                assert(pre[k] == old(self)@[k]);
            }
            match self.remove(k) {
                Some(v) => {
                    let mut v = v;
                    v.increment_and_cleanup();
                    self.insert(k, v);
                    proof {
                        assert(self@.dom() =~= pre.dom());
                        assert(self@[k] == v);
                        assert(forall|k2: u64|
                            pre.dom().contains(k2) && k2 != k ==> #[trigger] self@[k2] == pre[
                                k2
                            ]);
                        assert(forall|k2: u64|
                            ks@.take(i as int + 1).contains(k2) ==> ks@.take(
                                i as int,
                            ).contains(k2) || k2 == k) by {
                            assert(forall|j: int|
                                0 <= j < i + 1 ==> ks@.take(i as int + 1)[j] == ks@[j]);
                        }
                        assert(forall|j: int|
                            0 <= j < i ==> ks@[j] != k && #[trigger] self@[ks@[j]] == pre[ks@[
                                j
                            ]]);
                    }
                },
                None => {
                    proof {
                        assert(false);
                    }
                },
            }
            i += 1;
            proof {
                assert forall|k2: u64|
                    old(self)@.dom().contains(k2) && !ks@.take(i as int).contains(
                        k2,
                    ) implies !ks@.take(i as int - 1).contains(k2) && k2 != ks@[i as int
                    - 1] by {
                    if ks@.take(i as int - 1).contains(k2) {
                        let j = choose|j: int|
                            0 <= j < i - 1 && #[trigger] ks@.take(i as int - 1)[j] == k2;
                        assert(ks@.take(i as int)[j] == k2);
                    }
                    assert(ks@.take(i as int)[i as int - 1] == ks@[i as int - 1]);
                }
            }
        }
        proof {
            assert forall|k: u64| old(self)@.dom().contains(k) implies V::sweep_spec(
                old(self)@[k],
                #[trigger] self@[k],
            ) by {
                assert(ks@.contains(k));
                let j = choose|j: int| 0 <= j < ks@.len() && ks@[j] == k;
            }
        }
    }
}

/// A second insertion under one key replaces the first: at most one
/// binding per key ever exists, and the later value wins.
pub proof fn lemma_insert_overwrites<V>(m: Map<u64, V>, key: u64, v1: V, v2: V)
    ensures
        m.insert(key, v1).insert(key, v2) == m.insert(key, v2),
{
    assert(m.insert(key, v1).insert(key, v2) =~= m.insert(key, v2));
}

} // verus!
