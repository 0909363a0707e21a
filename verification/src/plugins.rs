//! Plugin identities and the registry that keeps them unique.
//!
//! A plugin is an external bundle of registrations — systems, resources,
//! event types — applied by the driver. The scheduler core only demands
//! that each registered plugin carry a stable identifier no other
//! registered plugin shares.

use vstd::prelude::*;

verus! {

/// The stable identifier of a plugin.
#[derive(Debug, Clone, PartialEq, Eq, Hash)]
pub struct PluginId(pub String);

impl PluginId {
    /// An identifier with the given name.
    pub fn new(name: &str) -> (r: PluginId)
        ensures
            r.0@ == name@,
    {
        PluginId(name.to_owned())
    }
}

/// The identifiers of every plugin registered so far; registration
/// refuses a duplicate.
pub struct PluginRegistry {
    ids: Vec<PluginId>,
}

impl View for PluginRegistry {
    type V = Seq<Seq<char>>;

    closed spec fn view(&self) -> Seq<Seq<char>> {
        self.ids@.map(|i: int, p: PluginId| p.0@)
    }
}

impl PluginRegistry {
    /// Identifiers are unique.
    pub open spec fn wf(self) -> bool {
        forall|i: int, j: int| 0 <= i < j < self@.len() ==> self@[i] != self@[j]
    }

    /// An empty registry.
    pub fn new() -> (r: PluginRegistry)
        ensures
            r@ == Seq::<Seq<char>>::empty(),
            r.wf(),
    {
        let r = PluginRegistry { ids: Vec::new() };
        proof {
            assert(r@ =~= Seq::<Seq<char>>::empty());
        }
        r
    }

    /// Whether an identifier with this name is registered.
    pub fn contains(&self, id: &PluginId) -> (r: bool)
        ensures
            r == self@.contains(id.0@),
    {
        let n = self.ids.len();
        let mut i: usize = 0;
        while i < n
            invariant
                n == self.ids@.len(),
                self@.len() == n,
                0 <= i <= n,
                forall|j: int| 0 <= j < n ==> self@[j] == (#[trigger] self.ids@[j]).0@,
                forall|j: int| 0 <= j < i ==> self@[j] != id.0@,
            decreases n - i,
        {
            if self.ids[i].0 == id.0 {
                proof {
                    assert(self@[i as int] == id.0@);
                }
                return true;
            }
            i += 1;
        }
        proof {
            if self@.contains(id.0@) {
                let j = choose|j: int| 0 <= j < self@.len() && self@[j] == id.0@;
                assert(false);
            }
        }
        false
    }

    /// Registers `id` unless its name is taken; reports whether it was
    /// admitted.
    pub fn register(&mut self, id: PluginId) -> (r: bool)
        requires
            old(self).wf(),
        ensures
            final(self).wf(),
            r == !old(self)@.contains(id.0@),
            r ==> final(self)@ == old(self)@.push(id.0@),
            !r ==> final(self)@ == old(self)@,
    {
        if self.contains(&id) {
            false
        } else {
            let ghost pre = self@;
            let ghost name = id.0@;
            self.ids.push(id);
            proof {
                assert(self@ =~= pre.push(name));
            }
            true
        }
    }
}

} // verus!
