//! The erased system abstraction and the parameter model.
//!
//! A system is a user procedure together with the access declarations of
//! its parameters. The declarations are plain data fixed at registration,
//! so the scheduler can check them against the per-phase access table
//! before it invokes the procedure; the procedure itself runs over the
//! resource store, the world slot and the command buffer in turn.

use vstd::prelude::*;

use core::marker::PhantomData;

use crate::access::AccessDecl;
use crate::event::Event;
use crate::event::EventQueue;
use crate::event::EventReader;
use crate::event::EventWriter;
use crate::store::ResourceStore;
use crate::world::CommandBuffer;

verus! {

/// The resource key reserved for the entity world; `RefWorld` and
/// `MutWorld` parameters declare their accesses under it.
pub const WORLD_RESOURCE_KEY: u64 = 0xFFFF_FFFF_FFFF_FFFF;

/// A user procedure the scheduler can invoke.
///
/// The procedure receives the resource store, the world slot and the
/// deferred command log; it must hand the store back well-formed and
/// leave no pending entity reservations in the world, so that the
/// tick-boundary flush can account for what it spawns. What it does
/// within one invocation is otherwise its own business — the scheduler
/// guarantees the order of invocations and the aliasing discipline of
/// the declarations made for it.
pub trait System<V>: Sized {
    fn run(
        &mut self,
        resources: &mut ResourceStore<V>,
        world: &mut Option<hecs::World>,
        commands: &mut CommandBuffer,
    )
        requires
            old(resources).wf(),
        ensures
            final(resources).wf(),
            *final(world) matches Some(w) ==> crate::world::world_reserved_count(w) == 0,
    ;
}

/// A system of arity N erased to a uniform shape: the N parameter
/// declarations as data, and the procedure they belong to.
pub struct FunctionSystem<S> {
    pub accesses: Vec<AccessDecl>,
    pub f: S,
}

impl<S> FunctionSystem<S> {
    /// Wraps `f` with no declarations yet.
    pub fn new(f: S) -> (r: FunctionSystem<S>)
        ensures
            r.accesses@ == Seq::<AccessDecl>::empty(),
            r.f == f,
    {
        FunctionSystem { accesses: Vec::new(), f }
    }

    /// Records the declaration that parameter family `P` makes on `key`,
    /// if it makes one.
    pub fn with_param<P: SystemParam>(self, key: u64) -> (r: FunctionSystem<S>)
        ensures
            r.f == self.f,
            r.accesses@ == match P::declared_access(key) {
                Some(d) => self.accesses@.push(d),
                None => self.accesses@,
            },
    {
        let mut s = self;
        match P::accesses(key) {
            Some(d) => {
                s.accesses.push(d);
            },
            None => {},
        }
        s
    }
}

/// Anything that can be turned into an erased system.
pub trait IntoSystem<V>: Sized {
    type System: System<V>;

    fn into_system(self) -> FunctionSystem<Self::System>;
}

impl<V, S: System<V>> IntoSystem<V> for FunctionSystem<S> {
    type System = S;

    fn into_system(self) -> FunctionSystem<S> {
        self
    }
}

/// How a parameter family declares its access to the resource store: one
/// declaration per key it touches, or none where the family is exempt.
pub trait SystemParam {
    /// The declaration this family makes on `key`.
    spec fn declared_access(key: u64) -> Option<AccessDecl>;

    /// Executable twin of [`SystemParam::declared_access`].
    fn accesses(key: u64) -> (r: Option<AccessDecl>)
        ensures
            r == Self::declared_access(key),
    ;
}

/// A read-only view of one resource, borrowed from the store for the
/// duration of one system invocation; declares a read.
pub struct Res<'a, T> {
    pub value: &'a T,
}

impl<'a, T> Res<'a, T> {
    /// The borrowed resource.
    pub fn value(&self) -> (r: &T)
        ensures
            r == self.value,
    {
        self.value
    }
}

impl<'a, T> SystemParam for Res<'a, T> {
    open spec fn declared_access(key: u64) -> Option<AccessDecl> {
        Some(AccessDecl { key, access: crate::access::Access::Read })
    }

    fn accesses(key: u64) -> (r: Option<AccessDecl>) {
        Some(AccessDecl::read(key))
    }
}

/// The intent to mutate one resource; declares a write. The mutation
/// itself goes through the store the system receives.
pub struct ResMut<T> {
    marker: PhantomData<T>,
}

impl<T> SystemParam for ResMut<T> {
    open spec fn declared_access(key: u64) -> Option<AccessDecl> {
        Some(AccessDecl { key, access: crate::access::Access::Write })
    }

    fn accesses(key: u64) -> (r: Option<AccessDecl>) {
        Some(AccessDecl::write(key))
    }
}

/// A shared borrow of the entity world; declares a read, conventionally
/// under [`WORLD_RESOURCE_KEY`].
pub struct RefWorld {
}

impl SystemParam for RefWorld {
    open spec fn declared_access(key: u64) -> Option<AccessDecl> {
        Some(AccessDecl { key, access: crate::access::Access::Read })
    }

    fn accesses(key: u64) -> (r: Option<AccessDecl>) {
        Some(AccessDecl::read(key))
    }
}

/// An exclusive borrow of the entity world; declares a write,
/// conventionally under [`WORLD_RESOURCE_KEY`].
pub struct MutWorld {
}

impl SystemParam for MutWorld {
    open spec fn declared_access(key: u64) -> Option<AccessDecl> {
        Some(AccessDecl { key, access: crate::access::Access::Write })
    }

    fn accesses(key: u64) -> (r: Option<AccessDecl>) {
        Some(AccessDecl::write(key))
    }
}

/// The deferred command log is exempt from same-phase aliasing: its only
/// operation is an append whose effect is invisible until a tick
/// boundary, so it declares nothing.
impl SystemParam for CommandBuffer {
    open spec fn declared_access(key: u64) -> Option<AccessDecl> {
        None
    }

    fn accesses(key: u64) -> (r: Option<AccessDecl>) {
        None
    }
}

/// An event reader declares a read on its queue's key.
impl<'a, E: Event> SystemParam for EventReader<'a, E> {
    open spec fn declared_access(key: u64) -> Option<AccessDecl> {
        Some(AccessDecl { key, access: crate::access::Access::Read })
    }

    fn accesses(key: u64) -> (r: Option<AccessDecl>) {
        Some(AccessDecl::read(key))
    }
}

/// An event writer declares a write on its queue's key.
impl<E: Event> SystemParam for EventWriter<E> {
    open spec fn declared_access(key: u64) -> Option<AccessDecl> {
        Some(AccessDecl { key, access: crate::access::Access::Write })
    }

    fn accesses(key: u64) -> (r: Option<AccessDecl>) {
        Some(AccessDecl::write(key))
    }
}

/// An event queue likewise: reading it through the store is a read.
impl<E: Event> SystemParam for EventQueue<E> {
    open spec fn declared_access(key: u64) -> Option<AccessDecl> {
        Some(AccessDecl { key, access: crate::access::Access::Read })
    }

    fn accesses(key: u64) -> (r: Option<AccessDecl>) {
        Some(AccessDecl::read(key))
    }
}

} // verus!
