//! The entity world and the deferred command buffer.
//!
//! The world is an outside entity-component store, opaque to the
//! scheduler; the scheduler only counts its entities and spawns into it.
//! Three names stand for its state: the multiset of `u64` label
//! components its entities carry, its live-entity count, and the number
//! of entities reserved through its interior-mutable reservation API but
//! not yet materialised. The scheduler keeps reservation-free worlds —
//! spawning into a world with pending reservations first materialises
//! them, which would shift the count under the contracts here — so the
//! wrappers demand a zero reservation count and preserve it.
//!
//! The command buffer is this crate's own deferred-mutation log: an
//! append-only list of labels to spawn, applied to the world in enqueue
//! order at the tick boundaries the scheduler defines. Its observable
//! effect is deferred until it is run on the world.

use vstd::multiset::Multiset;
use vstd::prelude::*;

verus! {

/// Declares hecs::World, the outside entity-component store, as an
/// opaque type the scheduler can hold and hand to systems.
#[verifier::external_type_specification]
#[verifier::external_body]
pub struct ExWorld(hecs::World);

/// The multiset of `u64` label components carried by the world's
/// entities. The value is a function of the world alone; the wrappers
/// below say how each call moves it.
pub uninterp spec fn world_values(w: hecs::World) -> Multiset<u64>;

/// How many live entities the world holds.
pub uninterp spec fn world_entity_count(w: hecs::World) -> nat;

/// How many entities were reserved through hecs::World::reserve_entity
/// (or its batch form) and not yet materialised by a flush. A fresh
/// world has none, and nothing this crate does creates any.
pub uninterp spec fn world_reserved_count(w: hecs::World) -> nat;

/// Relies on hecs::World::len: the number of live entities in the world.
#[verifier::external_body]
pub(crate) fn world_len(w: &hecs::World) -> (r: u32)
    ensures
        r == world_entity_count(*w),
{
    w.len()
}

/// Relies on hecs::World::spawn: on a world without pending
/// reservations, its internal flush is a no-op, so it adds exactly one
/// new entity holding the given components — here one `u64` label — and
/// despawns and reserves nothing. The count bound keeps hecs's id
/// allocator below its "too many entities" limit.
#[verifier::external_body]
pub(crate) fn world_spawn_value(w: &mut hecs::World, value: u64)
    requires
        world_entity_count(*old(w)) < u32::MAX,
        world_reserved_count(*old(w)) == 0,
    ensures
        world_entity_count(*final(w)) == world_entity_count(*old(w)) + 1,
        world_reserved_count(*final(w)) == 0,
        world_values(*final(w)) == world_values(*old(w)).insert(value),
{
    w.spawn((value,));
}

/// The deferred command log: labels to spawn, in order of enqueueing.
///
/// Appending is the only operation systems perform on it; the log is
/// drained into the world only when the scheduler runs it at a tick
/// boundary, so nothing enqueued here is visible in the world before
/// that.
pub struct CommandBuffer {
    staged: Vec<u64>,
}

impl View for CommandBuffer {
    type V = Seq<u64>;

    closed spec fn view(&self) -> Seq<u64> {
        self.staged@
    }
}

impl CommandBuffer {
    /// An empty log.
    pub fn new() -> (r: CommandBuffer)
        ensures
            r@ == Seq::<u64>::empty(),
    {
        let r = CommandBuffer { staged: Vec::new() };
        proof {
            assert(r@ =~= Seq::<u64>::empty());
        }
        r
    }

    /// Enqueues one spawn; the world is untouched until the buffer is
    /// run.
    pub fn spawn(&mut self, value: u64)
        ensures
            final(self)@ == old(self)@.push(value),
    {
        self.staged.push(value);
    }

    /// How many spawns are queued.
    pub fn len(&self) -> (r: usize)
        ensures
            r == self@.len(),
    {
        self.staged.len()
    }

    /// Applies every queued spawn to the world, in enqueue order, and
    /// empties the log; the drain happens if and only if the world can
    /// hold the queued entities, and otherwise nothing changes.
    pub fn run_on(&mut self, world: &mut hecs::World) -> (r: bool)
        requires
            world_reserved_count(*old(world)) == 0,
        ensures
            r <==> old(self)@.len() + world_entity_count(*old(world)) <= u32::MAX,
            r ==> final(self)@ == Seq::<u64>::empty() && world_entity_count(*final(world))
                == world_entity_count(*old(world)) + old(self)@.len() && world_values(
                *final(world),
            ) == world_values(*old(world)).add(old(self)@.to_multiset())
                && world_reserved_count(*final(world)) == 0,
            !r ==> final(self)@ == old(self)@ && *final(world) == *old(world),
    {
        broadcast use vstd::seq_lib::group_to_multiset_ensures;

        let count = world_len(world);
        let n = self.staged.len();
        if n > (u32::MAX - count) as usize {
            return false;
        }
        let ghost orig = self@;
        let mut i: usize = 0;
        proof {
            assert(orig.take(0) =~= Seq::<u64>::empty());
            assert(orig.take(0).to_multiset() =~= Multiset::<u64>::empty());
            assert(world_values(*world).add(Multiset::<u64>::empty()) =~= world_values(*world));
        }
        while i < n
            invariant
                n == orig.len(),
                orig == old(self)@,
                self@ == orig,
                0 <= i <= n,
                world_entity_count(*world) == world_entity_count(*old(world)) + i,
                world_reserved_count(*world) == 0,
                world_entity_count(*old(world)) + n <= u32::MAX,
                world_values(*world) == world_values(*old(world)).add(
                    orig.take(i as int).to_multiset(),
                ),
            decreases n - i,
        {
            let v = self.staged[i];
            world_spawn_value(world, v);
            proof {
                assert(orig.take(i as int + 1) =~= orig.take(i as int).push(v));
                vstd::seq_lib::to_multiset_build(orig.take(i as int), v);
                assert(world_values(*old(world)).add(orig.take(i as int).to_multiset()).insert(v)
                    =~= world_values(*old(world)).add(orig.take(i as int + 1).to_multiset()));
            }
            i += 1;
        }
        self.staged.clear();
        proof {
            assert(orig.take(n as int) =~= orig);
            assert(self@ =~= Seq::<u64>::empty());
        }
        true
    }
}

} // verus!
