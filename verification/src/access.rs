//! Per-phase access declarations and the table that checks them.
//!
//! Within one phase every system contributes one declaration per resource
//! key it touches. A read succeeds if the key is so far undeclared or
//! declared read; a write succeeds only if the key is so far undeclared.
//! The table lives for a single phase and is cleared between phases, not
//! between the systems of one phase — that is where aliasing is caught.

use vstd::prelude::*;

use crate::errors::SchedulerError;

verus! {

/// The mode in which a system touches a resource key.
#[derive(Debug, Clone, Copy, PartialEq, Eq, Structural)]
pub enum Access {
    Read,
    Write,
}

/// One declaration: a resource key together with the access mode claimed
/// on it.
#[derive(Debug, Clone, Copy, PartialEq, Eq, Structural)]
pub struct AccessDecl {
    pub key: u64,
    pub access: Access,
}

impl AccessDecl {
    /// A read declaration on `key`.
    pub fn read(key: u64) -> (r: AccessDecl)
        ensures
            r == (AccessDecl { key, access: Access::Read }),
    {
        AccessDecl { key, access: Access::Read }
    }

    /// A write declaration on `key`.
    pub fn write(key: u64) -> (r: AccessDecl)
        ensures
            r == (AccessDecl { key, access: Access::Write }),
    {
        AccessDecl { key, access: Access::Write }
    }
}

/// Result of feeding one declaration to a table state: the new state, or
/// the aliasing error the declaration provokes.
pub open spec fn declare_step(m: Map<u64, Access>, d: AccessDecl) -> Result<
    Map<u64, Access>,
    SchedulerError,
> {
    match d.access {
        Access::Read => {
            if !m.dom().contains(d.key) {
                Ok(m.insert(d.key, Access::Read))
            } else if m[d.key] == Access::Read {
                Ok(m)
            } else {
                Err(SchedulerError::AliasRw { key: d.key })
            }
        },
        Access::Write => {
            if !m.dom().contains(d.key) {
                Ok(m.insert(d.key, Access::Write))
            } else if m[d.key] == Access::Read {
                Err(SchedulerError::AliasRw { key: d.key })
            } else {
                Err(SchedulerError::AliasWw { key: d.key })
            }
        },
    }
}

/// Folds a whole sequence of declarations into a table state; the first
/// failing declaration decides the error.
pub open spec fn declare_all(m: Map<u64, Access>, ds: Seq<AccessDecl>) -> Result<
    Map<u64, Access>,
    SchedulerError,
>
    decreases ds.len(),
{
    if ds.len() == 0 {
        Ok(m)
    } else {
        match declare_step(m, ds[0]) {
            Ok(m2) => declare_all(m2, ds.drop_first()),
            Err(e) => Err(e),
        }
    }
}

/// The per-phase table of declared accesses.
///
/// Keys are unique in `entries`; the view is the map they induce.
pub struct AccessTable {
    entries: Vec<(u64, Access)>,
}

impl View for AccessTable {
    type V = Map<u64, Access>;

    closed spec fn view(&self) -> Map<u64, Access> {
        Map::new(
            |k: u64| exists|i: int| 0 <= i < self.entries@.len() && self.entries@[i].0 == k,
            |k: u64|
                self.entries@[choose|i: int|
                    0 <= i < self.entries@.len() && self.entries@[i].0 == k].1,
        )
    }
}

impl AccessTable {
    spec fn keys_unique(self) -> bool {
        forall|i: int, j: int|
            0 <= i < j < self.entries@.len() ==> self.entries@[i].0 != self.entries@[j].0
    }

    /// Well-formedness: keys are unique. Constructors establish it and
    /// every method preserves it.
    pub closed spec fn wf(self) -> bool {
        self.keys_unique()
    }

    proof fn lemma_view_entry(self, i: int)
        requires
            self.keys_unique(),
            0 <= i < self.entries@.len(),
        ensures
            self@.dom().contains(self.entries@[i].0),
            self@[self.entries@[i].0] == self.entries@[i].1,
    {
        let k = self.entries@[i].0;
        assert(exists|j: int| 0 <= j < self.entries@.len() && self.entries@[j].0 == k);
        let j = choose|j: int| 0 <= j < self.entries@.len() && self.entries@[j].0 == k;
        assert(j == i);
    }

    proof fn lemma_view_absent(self, k: u64)
        requires
            self.keys_unique(),
            forall|i: int| 0 <= i < self.entries@.len() ==> self.entries@[i].0 != k,
        ensures
            !self@.dom().contains(k),
    {
    }

    /// An empty table: nothing declared.
    pub fn new() -> (r: AccessTable)
        ensures
            r@ == Map::<u64, Access>::empty(),
            r.wf(),
    {
        let r = AccessTable { entries: Vec::new() };
        proof {
            assert(r@ =~= Map::<u64, Access>::empty());
        }
        r
    }

    /// Forgets every declaration; run at the end of each phase.
    pub fn clear(&mut self)
        ensures
            final(self)@ == Map::<u64, Access>::empty(),
            final(self).wf(),
    {
        self.entries.clear();
        proof {
            assert(self@ =~= Map::<u64, Access>::empty());
        }
    }

    /// The mode currently declared on `key`, if any.
    fn lookup(&self, key: u64) -> (r: Option<Access>)
        requires
            self.wf(),
        ensures
            r matches Some(a) ==> self@.dom().contains(key) && self@[key] == a,
            r is None ==> !self@.dom().contains(key),
    {
        let n = self.entries.len();
        let mut i: usize = 0;
        while i < n
            invariant
                n == self.entries@.len(),
                0 <= i <= n,
                forall|j: int| 0 <= j < i ==> self.entries@[j].0 != key,
                self.keys_unique(),
            decreases n - i,
        {
            if self.entries[i].0 == key {
                proof {
                    self.lemma_view_entry(i as int);
                }
                return Some(self.entries[i].1);
            }
            i += 1;
        }
        proof {
            self.lemma_view_absent(key);
        }
        None
    }

    /// Feeds one declaration to the table.
    ///
    /// The exec behaviour is exactly the specification step
    /// [`declare_step`]: reads are idempotent, a write demands an
    /// undeclared key, and a failure names the colliding key.
    pub fn declare(&mut self, d: AccessDecl) -> (r: Result<(), SchedulerError>)
        requires
            old(self).wf(),
        ensures
            final(self).wf(),
            match declare_step(old(self)@, d) {
                Ok(m2) => r is Ok && final(self)@ == m2,
                Err(e) => r == Err::<(), SchedulerError>(e) && final(self)@ == old(self)@,
            },
    {
        let ghost old_map = self@;
        match self.lookup(d.key) {
            None => {
                self.entries.push((d.key, d.access));
                proof {
                    assert(self.keys_unique());
                    assert forall|k: u64| self@.dom().contains(k) <==> old_map.insert(
                        d.key,
                        d.access,
                    ).dom().contains(k) by {
                        let n = self.entries@.len();
                        if k == d.key {
                            assert(self.entries@[n - 1].0 == k);
                        } else {
                            if exists|i: int| 0 <= i < n && self.entries@[i].0 == k {
                                let i = choose|i: int| 0 <= i < n && self.entries@[i].0 == k;
                                assert(i < n - 1);
                                assert(old(self).entries@[i].0 == k);
                            }
                            if old_map.dom().contains(k) {
                                let i = choose|i: int|
                                    0 <= i < old(self).entries@.len() && old(
                                        self,
                                    ).entries@[i].0 == k;
                                assert(self.entries@[i].0 == k);
                            }
                        }
                    }
                    assert forall|k: u64| self@.dom().contains(k) implies self@[k] == old_map.insert(
                        d.key,
                        d.access,
                    )[k] by {
                        let n = self.entries@.len();
                        let i = choose|i: int| 0 <= i < n && self.entries@[i].0 == k;
                        self.lemma_view_entry(i);
                        if k == d.key {
                            assert(i == n - 1);
                        } else {
                            assert(i < n - 1);
                            assert(old(self).entries@[i] == self.entries@[i]);
                            old(self).lemma_view_entry(i);
                        }
                    }
                    assert(self@ =~= old_map.insert(d.key, d.access));
                }
                Ok(())
            },
            Some(Access::Read) => {
                match d.access {
                    Access::Read => Ok(()),
                    Access::Write => Err(SchedulerError::AliasRw { key: d.key }),
                }
            },
            Some(Access::Write) => {
                match d.access {
                    Access::Read => Err(SchedulerError::AliasRw { key: d.key }),
                    Access::Write => Err(SchedulerError::AliasWw { key: d.key }),
                }
            },
        }
    }

    /// Feeds a system's whole declaration list to the table, stopping at
    /// the first conflict; mirrors [`declare_all`].
    pub fn declare_all_of(&mut self, ds: &Vec<AccessDecl>) -> (r: Result<(), SchedulerError>)
        requires
            old(self).wf(),
        ensures
            final(self).wf(),
            match declare_all(old(self)@, ds@) {
                Ok(m2) => r is Ok && final(self)@ == m2,
                Err(e) => r == Err::<(), SchedulerError>(e),
            },
    {
        let n = ds.len();
        let mut i: usize = 0;
        proof {
            assert(ds@.skip(0) =~= ds@);
        }
        while i < n
            invariant
                n == ds@.len(),
                0 <= i <= n,
                self.wf(),
                declare_all(old(self)@, ds@) == declare_all(self@, ds@.skip(i as int)),
            decreases n - i,
        {
            let ghost pre = self@;
            match self.declare(ds[i]) {
                Ok(()) => {
                    proof {
                        assert(ds@.skip(i as int)[0] == ds@[i as int]);
                        assert(ds@.skip(i as int).drop_first() =~= ds@.skip(i as int + 1));
                    }
                    i += 1;
                },
                Err(e) => {
                    proof {
                        assert(ds@.skip(i as int)[0] == ds@[i as int]);
                    }
                    return Err(e);
                },
            }
        }
        proof {
            assert(ds@.skip(n as int) =~= Seq::<AccessDecl>::empty());
        }
        Ok(())
    }
}

} // verus!
