//! The phase scheduler.
//!
//! An ordered map from phase key to the systems registered at that key.
//! `run(start, end_exclusive)` executes every bucket whose key `k`
//! satisfies `start <= k < end_exclusive`, in ascending key order, and
//! within a bucket in registration order. Before each system runs, its
//! access declarations are fed to the per-phase table; a conflict aborts
//! the run with the colliding key. The table is cleared between buckets,
//! not between the systems of one bucket. Around the `TICK` boundary the
//! scheduler ages and sweeps every event queue (before the systems of a
//! `TICK`-started run) and drains the command buffer into the world
//! (after the systems of any run that touches `TICK`).

use vstd::prelude::*;

use crate::access::Access;
use crate::access::AccessDecl;
use crate::access::AccessTable;
use crate::access::declare_all;
use crate::errors::SchedulerError;
use crate::event::EventQueueHandler;
use crate::phase::PhaseKey;
use crate::phase::TICK_BITS;
use crate::store::ResourceStore;
use crate::system::FunctionSystem;
use crate::system::System;
use crate::world::CommandBuffer;

verus! {

/// One phase: a key and the systems registered at it, in registration
/// order.
pub struct PhaseBucket<S> {
    pub key: PhaseKey,
    pub systems: Vec<FunctionSystem<S>>,
}

/// Whether key `k` falls in the half-open run range `[lo, hi)`.
pub open spec fn phase_in_range(k: u64, lo: u64, hi: u64) -> bool {
    lo <= k < hi
}

/// All declarations of a bucket's systems, flattened in execution order.
pub open spec fn flat_decls<S>(ss: Seq<FunctionSystem<S>>) -> Seq<AccessDecl>
    decreases ss.len(),
{
    if ss.len() == 0 {
        Seq::empty()
    } else {
        ss[0].accesses@ + flat_decls(ss.drop_first())
    }
}

/// A bucket is conflict-free when its flattened declarations pass an
/// empty access table.
pub open spec fn bucket_ok<S>(ss: Seq<FunctionSystem<S>>) -> bool {
    declare_all(Map::<u64, Access>::empty(), flat_decls(ss)) is Ok
}

/// The invocation trace of one bucket: its key paired with each system
/// index in registration order.
pub open spec fn bucket_log(key: u64, n: nat) -> Seq<(u64, usize)> {
    Seq::new(n, |i: int| (key, i as usize))
}

/// The invocation trace `run` owes for a bucket sequence and a range:
/// the in-range buckets' traces, concatenated in bucket order.
pub open spec fn planned<S>(bs: Seq<PhaseBucket<S>>, lo: u64, hi: u64) -> Seq<(u64, usize)>
    decreases bs.len(),
{
    if bs.len() == 0 {
        Seq::empty()
    } else {
        (if phase_in_range(bs[0].key@, lo, hi) {
            bucket_log(bs[0].key@, bs[0].systems@.len())
        } else {
            Seq::empty()
        }) + planned(bs.drop_first(), lo, hi)
    }
}

/// How many buckets carry a key strictly below `k`.
pub open spec fn count_keys_below<S>(bs: Seq<PhaseBucket<S>>, k: u64) -> int
    decreases bs.len(),
{
    if bs.len() == 0 {
        0
    } else {
        (if bs[0].key@ < k {
            1int
        } else {
            0int
        }) + count_keys_below(bs.drop_first(), k)
    }
}

/// Whether some bucket carries exactly key `k`.
pub open spec fn has_key<S>(bs: Seq<PhaseBucket<S>>, k: u64) -> bool {
    exists|i: int| 0 <= i < bs.len() && bs[i].key@ == k
}

/// Bucket keys strictly ascend.
pub open spec fn keys_sorted<S>(bs: Seq<PhaseBucket<S>>) -> bool {
    forall|i: int, j: int| 0 <= i < j < bs.len() ==> bs[i].key@ < bs[j].key@
}

/// What one `run` reports back: the invocation trace, and whether the
/// tick-boundary bookkeeping fired.
pub struct RunLog {
    /// `(key bits, index in bucket)` of every system invoked, in
    /// invocation order.
    pub entries: Vec<(u64, usize)>,
    /// Whether the event queues were aged and swept before the systems.
    pub aged: bool,
    /// Whether the command buffer was drained into the world after the
    /// systems.
    pub flushed: bool,
}

/// The scheduler: the ordered phase map, the resource store, the world
/// slot, the deferred command log and the per-phase access table.
pub struct Scheduler<V, S> {
    systems: Vec<PhaseBucket<S>>,
    resources: ResourceStore<V>,
    world: Option<hecs::World>,
    command_buffer: CommandBuffer,
    accesses: AccessTable,
}

impl<V, S> Scheduler<V, S> {
    /// The phase map as a bucket sequence, sorted by key.
    pub closed spec fn buckets(self) -> Seq<PhaseBucket<S>> {
        self.systems@
    }

    /// The resource store's mapping.
    pub closed spec fn resources_view(self) -> Map<u64, V> {
        self.resources@
    }

    /// The world slot.
    pub closed spec fn world_state(self) -> Option<hecs::World> {
        self.world
    }

    /// The queued deferred commands.
    pub closed spec fn commands(self) -> Seq<u64> {
        self.command_buffer@
    }

    /// Well-formedness: keys strictly ascend and the store and table are
    /// well-formed.
    pub closed spec fn wf(self) -> bool {
        &&& keys_sorted(self.systems@)
        &&& self.resources.wf()
        &&& self.accesses.wf()
        &&& (self.world matches Some(w) ==> crate::world::world_reserved_count(w) == 0)
    }

    /// A well-formed scheduler keeps its phase keys strictly ascending,
    /// so the public ordering lemmas apply to `buckets()`.
    pub proof fn lemma_keys_sorted(self)
        requires
            self.wf(),
        ensures
            keys_sorted(self.buckets()),
    {
    }

    /// An empty scheduler: no phases, no resources, no world, no queued
    /// commands.
    pub fn new() -> (r: Scheduler<V, S>)
        ensures
            r.wf(),
            r.buckets() == Seq::<PhaseBucket<S>>::empty(),
            r.resources_view() == Map::<u64, V>::empty(),
            r.world_state() is None,
            r.commands() == Seq::<u64>::empty(),
    {
        Scheduler {
            systems: Vec::new(),
            resources: ResourceStore::new(),
            world: None,
            command_buffer: CommandBuffer::new(),
            accesses: AccessTable::new(),
        }
    }

    /// Inserts or overwrites the resource bound under `key`.
    pub fn add_resource(&mut self, key: u64, value: V)
        requires
            old(self).wf(),
        ensures
            final(self).wf(),
            final(self).resources_view() == old(self).resources_view().insert(key, value),
            final(self).buckets() == old(self).buckets(),
            final(self).world_state() == old(self).world_state(),
            final(self).commands() == old(self).commands(),
    {
        self.resources.insert(key, value);
    }

    /// Removes the resource bound under `key`, handing it back; no effect
    /// if absent.
    pub fn remove_resource(&mut self, key: u64) -> (r: Option<V>)
        requires
            old(self).wf(),
        ensures
            final(self).wf(),
            final(self).resources_view() == old(self).resources_view().remove(key),
            r matches Some(v) ==> old(self).resources_view().dom().contains(key) && v == old(self).resources_view()[key],
            r is None ==> !old(self).resources_view().dom().contains(key),
            final(self).buckets() == old(self).buckets(),
            final(self).world_state() == old(self).world_state(),
            final(self).commands() == old(self).commands(),
    {
        self.resources.remove(key)
    }

    /// Reads the resource bound under `key`.
    pub fn get_resource(&self, key: u64) -> (r: Option<&V>)
        requires
            self.wf(),
        ensures
            r matches Some(v) ==> self.resources_view().dom().contains(key) && *v
                == self.resources_view()[key],
            r is None ==> !self.resources_view().dom().contains(key),
    {
        self.resources.get(key)
    }

    /// Registers an event queue under `key` if none is bound there yet;
    /// `empty_queue` is the store value wrapping the fresh queue.
    pub fn add_event(&mut self, key: u64, empty_queue: V)
        requires
            old(self).wf(),
        ensures
            final(self).wf(),
            !old(self).resources_view().dom().contains(key) ==> final(self).resources_view()
                == old(self).resources_view().insert(key, empty_queue),
            old(self).resources_view().dom().contains(key) ==> final(self).resources_view()
                == old(self).resources_view(),
            final(self).buckets() == old(self).buckets(),
            final(self).world_state() == old(self).world_state(),
            final(self).commands() == old(self).commands(),
    {
        if !self.resources.contains(key) {
            self.resources.insert(key, empty_queue);
        }
    }

    /// Puts a world into the world slot, replacing any present one. The
    /// world must carry no pending entity reservations — true of a fresh
    /// world and of one only driven through this scheduler — so that the
    /// tick-boundary flush can account for what it spawns.
    pub fn insert_world(&mut self, world: hecs::World)
        requires
            old(self).wf(),
            crate::world::world_reserved_count(world) == 0,
        ensures
            final(self).wf(),
            final(self).world_state() == Some(world),
            final(self).buckets() == old(self).buckets(),
            final(self).resources_view() == old(self).resources_view(),
            final(self).commands() == old(self).commands(),
    {
        self.world = Some(world);
    }

    /// Takes the world out of its slot, if one is there.
    pub fn remove_world(&mut self) -> (r: Option<hecs::World>)
        requires
            old(self).wf(),
        ensures
            final(self).wf(),
            r == old(self).world_state(),
            final(self).world_state() is None,
            final(self).buckets() == old(self).buckets(),
            final(self).resources_view() == old(self).resources_view(),
            final(self).commands() == old(self).commands(),
    {
        self.world.take()
    }

    /// Borrows the world slot; the driver-side accessor that bypasses the
    /// access table between runs.
    pub fn get_world(&mut self) -> (r: &mut Option<hecs::World>)
        requires
            old(self).wf(),
        ensures
            *r == old(self).world_state(),
            final(self).world_state() == *final(r),
            (*final(r) matches Some(w) ==> crate::world::world_reserved_count(w) == 0)
                ==> final(self).wf(),
            final(self).buckets() == old(self).buckets(),
            final(self).resources_view() == old(self).resources_view(),
            final(self).commands() == old(self).commands(),
    {
        &mut self.world
    }

    /// Borrows the deferred command log; the driver-side accessor.
    pub fn get_command_buffer(&mut self) -> (r: &mut CommandBuffer)
        requires
            old(self).wf(),
        ensures
            r@ == old(self).commands(),
            final(self).commands() == final(r)@,
            final(self).wf(),
            final(self).buckets() == old(self).buckets(),
            final(self).resources_view() == old(self).resources_view(),
            final(self).world_state() == old(self).world_state(),
    {
        &mut self.command_buffer
    }
}

impl<V, S> Scheduler<V, S> {
    /// Appends `system` to the bucket of `phase`, creating the bucket in
    /// key order if the key is new. Registration order within a bucket is
    /// execution order.
    pub fn add_system(&mut self, phase: PhaseKey, system: FunctionSystem<S>)
        requires
            old(self).wf(),
        ensures
            final(self).wf(),
            final(self).resources_view() == old(self).resources_view(),
            final(self).world_state() == old(self).world_state(),
            final(self).commands() == old(self).commands(),
            ({
                let bs = old(self).buckets();
                let fs = final(self).buckets();
                let p = count_keys_below(bs, phase@);
                if has_key(bs, phase@) {
                    &&& fs.len() == bs.len()
                    &&& forall|i: int| 0 <= i < bs.len() && i != p ==> fs[i] == bs[i]
                    &&& fs[p].key@ == phase@
                    &&& fs[p].systems@ == bs[p].systems@.push(system)
                } else {
                    &&& fs.len() == bs.len() + 1
                    &&& forall|i: int| 0 <= i < p ==> fs[i] == bs[i]
                    &&& fs[p].key@ == phase@
                    &&& fs[p].systems@ == seq![system]
                    &&& forall|i: int| p < i < fs.len() ==> fs[i] == bs[i - 1]
                }
            }),
    {
        let kb = phase.bits();
        let n = self.systems.len();
        let mut i: usize = 0;
        while i < n && self.systems[i].key.bits() < kb
            invariant
                n == self.systems@.len(),
                0 <= i <= n,
                forall|j: int| 0 <= j < i ==> self.systems@[j].key@ < kb,
                keys_sorted(self.systems@),
            decreases n - i,
        {
            i += 1;
        }
        proof {
            lemma_count_keys_below(self.systems@, kb, i as int);
        }
        if i < n && self.systems[i].key.bits() == kb {
            let mut bucket = self.systems.remove(i);
            bucket.systems.push(system);
            self.systems.insert(i, bucket);
            proof {
                assert(self.systems@ =~= old(self).systems@.update(
                    i as int,
                    self.systems@[i as int],
                ));
                assert(has_key(old(self).buckets(), phase@)) by {
                    assert(old(self).systems@[i as int].key@ == phase@);
                }
            }
        } else {
            proof {
                if has_key(self.systems@, phase@) {
                    let w = choose|w: int|
                        0 <= w < self.systems@.len() && self.systems@[w].key@ == phase@;
                    if w < i as int {
                        assert(self.systems@[w].key@ < kb);
                    } else {
                        assert(w < n);
                        assert(i < n);
                        assert(self.systems@[i as int].key@ >= kb);
                        if w > i as int {
                            assert(self.systems@[i as int].key@ < self.systems@[w].key@);
                        } else {
                            assert(self.systems@[i as int].key@ == kb);
                        }
                    }
                    assert(false);
                }
            }
            let mut fresh: Vec<FunctionSystem<S>> = Vec::new();
            fresh.push(system);
            self.systems.insert(i, PhaseBucket { key: phase, systems: fresh });
            proof {
                let bs = old(self).systems@;
                let fs = self.systems@;
                assert(fs =~= bs.insert(i as int, fs[i as int]));
                assert(fs[i as int].systems@ =~= seq![system]);
                assert(keys_sorted(fs)) by {
                    assert forall|a: int, b: int| 0 <= a < b < fs.len() implies fs[a].key@
                        < fs[b].key@ by {
                        if a < i as int && b == i as int {
                            assert(fs[a] == bs[a]);
                        } else if a == i as int && b > i as int {
                            assert(fs[b] == bs[b - 1]);
                            assert(bs[b - 1].key@ >= kb);
                            assert(bs[b - 1].key@ != kb);
                        } else if a < i as int && b > i as int {
                            assert(fs[a] == bs[a]);
                            assert(fs[b] == bs[b - 1]);
                        } else if a > i as int && b > i as int {
                            assert(fs[a] == bs[a - 1]);
                            assert(fs[b] == bs[b - 1]);
                        }
                    }
                }
            }
        }
    }
}

/// In a sorted bucket sequence, if the first `i` keys are below `k` and
/// the key at `i` (when there is one) is not, then exactly `i` keys are
/// below `k`.
proof fn lemma_count_keys_below<S>(bs: Seq<PhaseBucket<S>>, k: u64, i: int)
    requires
        keys_sorted(bs),
        0 <= i <= bs.len(),
        forall|j: int| 0 <= j < i ==> bs[j].key@ < k,
        i < bs.len() ==> bs[i].key@ >= k,
    ensures
        count_keys_below(bs, k) == i,
    decreases bs.len(),
{
    if bs.len() == 0 {
    } else if i == 0 {
        assert(bs[0].key@ >= k);
        lemma_count_none_below(bs, k);
    } else {
        assert(bs[0].key@ < k);
        let tail = bs.drop_first();
        assert(keys_sorted(tail)) by {
            assert(forall|a: int, b: int|
                0 <= a < b < tail.len() ==> tail[a].key@ == bs[a + 1].key@ && tail[b].key@
                    == bs[b + 1].key@);
        }
        assert(forall|j: int| 0 <= j < i - 1 ==> tail[j].key@ == bs[j + 1].key@ && tail[j].key@
            < k);
        assert(i - 1 < tail.len() ==> tail[i - 1].key@ == bs[i].key@ && tail[i - 1].key@ >= k);
        lemma_count_keys_below(tail, k, i - 1);
    }
}

/// When every key is at least `k`, none is below it.
proof fn lemma_count_none_below<S>(bs: Seq<PhaseBucket<S>>, k: u64)
    requires
        keys_sorted(bs),
        bs.len() > 0 ==> bs[0].key@ >= k,
    ensures
        count_keys_below(bs, k) == 0,
    decreases bs.len(),
{
    if bs.len() > 0 {
        let tail = bs.drop_first();
        assert(keys_sorted(tail)) by {
            assert(forall|a: int, b: int|
                0 <= a < b < tail.len() ==> tail[a].key@ == bs[a + 1].key@ && tail[b].key@
                    == bs[b + 1].key@);
        }
        if tail.len() > 0 {
            assert(tail[0].key@ == bs[1].key@);
            assert(bs[0].key@ < bs[1].key@);
        }
        lemma_count_none_below(tail, k);
    }
}

/// Processing a concatenation of declarations is processing the first
/// part, then the second from where the first left off; the first error
/// wins.
proof fn lemma_declare_all_concat(m: Map<u64, Access>, a: Seq<AccessDecl>, b: Seq<AccessDecl>)
    ensures
        declare_all(m, a + b) == (match declare_all(m, a) {
            Ok(m2) => declare_all(m2, b),
            Err(e) => Err::<Map<u64, Access>, SchedulerError>(e),
        }),
    decreases a.len(),
{
    if a.len() == 0 {
        assert(a + b =~= b);
    } else {
        assert((a + b)[0] == a[0]);
        assert((a + b).drop_first() =~= a.drop_first() + b);
        match crate::access::declare_step(m, a[0]) {
            Ok(m2) => {
                lemma_declare_all_concat(m2, a.drop_first(), b);
            },
            Err(e) => {},
        }
    }
}

/// Flattened declarations split at any index.
proof fn lemma_flat_split<S>(ss: Seq<FunctionSystem<S>>, j: int)
    requires
        0 <= j <= ss.len(),
    ensures
        flat_decls(ss) == flat_decls(ss.take(j)) + flat_decls(ss.skip(j)),
    decreases j,
{
    if j == 0 {
        assert(ss.take(0) =~= Seq::<FunctionSystem<S>>::empty());
        assert(ss.skip(0) =~= ss);
        assert(flat_decls(ss.take(0)) + flat_decls(ss) =~= flat_decls(ss));
    } else {
        let t = ss.drop_first();
        lemma_flat_split(t, j - 1);
        assert(ss.take(j)[0] == ss[0]);
        assert(ss.take(j).drop_first() =~= t.take(j - 1));
        assert(ss.skip(j) =~= t.skip(j - 1));
        assert((ss[0].accesses@ + flat_decls(t.take(j - 1))) + flat_decls(t.skip(j - 1)) =~= ss[
            0
        ].accesses@ + (flat_decls(t.take(j - 1)) + flat_decls(t.skip(j - 1))));
    }
}

/// Taking one more system appends exactly its declarations.
proof fn lemma_flat_take_step<S>(ss: Seq<FunctionSystem<S>>, j: int)
    requires
        0 <= j < ss.len(),
    ensures
        flat_decls(ss.take(j + 1)) == flat_decls(ss.take(j)) + ss[j].accesses@,
{
    let t = ss.take(j + 1);
    lemma_flat_split(t, j);
    assert(t.take(j) =~= ss.take(j));
    assert(t.skip(j) =~= seq![ss[j]]);
    assert(seq![ss[j]].len() == 1);
    assert(seq![ss[j]][0] == ss[j]);
    assert(seq![ss[j]].drop_first() =~= Seq::<FunctionSystem<S>>::empty());
    assert(flat_decls(Seq::<FunctionSystem<S>>::empty()) =~= Seq::<AccessDecl>::empty());
    assert(flat_decls(seq![ss[j]]) == ss[j].accesses@ + flat_decls(
        Seq::<FunctionSystem<S>>::empty(),
    ));
    assert(ss[j].accesses@ + Seq::<AccessDecl>::empty() =~= ss[j].accesses@);
}

/// The trace a bucket contributes when one more bucket is taken.
proof fn lemma_planned_take_step<S>(bs: Seq<PhaseBucket<S>>, lo: u64, hi: u64, i: int)
    requires
        0 <= i < bs.len(),
    ensures
        planned(bs.take(i + 1), lo, hi) == planned(bs.take(i), lo, hi) + (if phase_in_range(
            bs[i].key@,
            lo,
            hi,
        ) {
            bucket_log(bs[i].key@, bs[i].systems@.len())
        } else {
            Seq::<(u64, usize)>::empty()
        }),
    decreases i,
{
    let chunk_i = if phase_in_range(bs[i].key@, lo, hi) {
        bucket_log(bs[i].key@, bs[i].systems@.len())
    } else {
        Seq::<(u64, usize)>::empty()
    };
    if i == 0 {
        assert(bs.take(1).len() == 1);
        assert(bs.take(1)[0] == bs[0]);
        assert(bs.take(1).drop_first() =~= Seq::<PhaseBucket<S>>::empty());
        assert(bs.take(0) =~= Seq::<PhaseBucket<S>>::empty());
        assert(planned(Seq::<PhaseBucket<S>>::empty(), lo, hi) =~= Seq::<(u64, usize)>::empty());
        assert(planned(bs.take(1), lo, hi) =~= chunk_i + Seq::<(u64, usize)>::empty());
        assert(chunk_i + Seq::<(u64, usize)>::empty() =~= Seq::<(u64, usize)>::empty() + chunk_i);
    } else {
        let t = bs.drop_first();
        let chunk0 = if phase_in_range(bs[0].key@, lo, hi) {
            bucket_log(bs[0].key@, bs[0].systems@.len())
        } else {
            Seq::<(u64, usize)>::empty()
        };
        lemma_planned_take_step(t, lo, hi, i - 1);
        assert(t =~= bs.skip(1));
        assert(bs.skip(1)[i - 1] == bs[i]);
        assert(t[i - 1] == bs[i]);
        assert(bs.take(i + 1)[0] == bs[0]);
        assert(bs.take(i + 1).drop_first() =~= t.take(i));
        assert(bs.take(i)[0] == bs[0]);
        assert(bs.take(i).drop_first() =~= t.take(i - 1));
        assert(planned(bs.take(i + 1), lo, hi) == chunk0 + planned(t.take(i), lo, hi));
        assert(planned(bs.take(i), lo, hi) == chunk0 + planned(t.take(i - 1), lo, hi));
        assert(chunk0 + (planned(t.take(i - 1), lo, hi) + chunk_i) =~= (chunk0 + planned(
            t.take(i - 1),
            lo,
            hi,
        )) + chunk_i);
    }
}

impl<V: EventQueueHandler, S: System<V>> Scheduler<V, S> {
    /// Ages and sweeps every event queue in the store; run before the
    /// systems of a `TICK`-started run. Every resource is replaced by its
    /// swept form, which leaves non-queue resources untouched.
    fn process_event_queues(&mut self)
        requires
            old(self).wf(),
        ensures
            final(self).wf(),
            final(self).buckets() == old(self).buckets(),
            final(self).resources_view().dom() == old(self).resources_view().dom(),
            forall|k: u64|
                old(self).resources_view().dom().contains(k) ==> V::sweep_spec(
                    old(self).resources_view()[k],
                    #[trigger] final(self).resources_view()[k],
                ),
            final(self).world_state() == old(self).world_state(),
            final(self).commands() == old(self).commands(),
    {
        self.resources.sweep_events();
    }

    /// Drains the command buffer into the world; the boundary effect of
    /// `TICK`. The drain happens if and only if a world is present and
    /// can hold the queued entities; it applies every queued spawn and
    /// empties the log, and otherwise changes nothing.
    fn command_world(&mut self) -> (r: bool)
        requires
            old(self).wf(),
        ensures
            final(self).wf(),
            final(self).buckets() == old(self).buckets(),
            final(self).resources_view() == old(self).resources_view(),
            r <==> old(self).world_state() is Some && old(self).commands().len()
                + crate::world::world_entity_count(old(self).world_state().unwrap())
                <= u32::MAX,
            r ==> final(self).world_state() is Some && final(self).commands() == Seq::<
                u64,
            >::empty() && crate::world::world_values(final(self).world_state().unwrap())
                == crate::world::world_values(old(self).world_state().unwrap()).add(
                old(self).commands().to_multiset(),
            ) && crate::world::world_entity_count(final(self).world_state().unwrap())
                == crate::world::world_entity_count(old(self).world_state().unwrap()) + old(self).commands().len(),
            !r ==> final(self).world_state() == old(self).world_state() && final(self).commands()
                == old(self).commands(),
    {
        match &mut self.world {
            Some(w) => self.command_buffer.run_on(w),
            None => false,
        }
    }

    /// Executes every phase bucket with `start <= key < end_exclusive`,
    /// in ascending key order and in registration order within a bucket.
    ///
    /// Each system's declarations are checked against the access table,
    /// which accumulates over the systems of one bucket and is cleared
    /// between buckets; the first conflict ends the run with the
    /// colliding key's error. A run starting at `TICK` first ages and
    /// sweeps the event queues; a run touching `TICK` drains the command
    /// buffer into the world after its systems.
    ///
    /// On success the log's entries are exactly the planned trace: every
    /// in-range bucket's key, in ascending order, paired with each system
    /// index in registration order — the phase-ordering guarantee.
    pub fn run(&mut self, start: PhaseKey, end_exclusive: PhaseKey) -> (r: Result<
        RunLog,
        SchedulerError,
    >)
        requires
            old(self).wf(),
        ensures
            final(self).wf(),
            (forall|i: int|
                0 <= i < old(self).buckets().len() && phase_in_range(
                    #[trigger] old(self).buckets()[i].key@,
                    start@,
                    end_exclusive@,
                ) ==> bucket_ok(old(self).buckets()[i].systems@)) <==> r is Ok,
            final(self).buckets().len() == old(self).buckets().len(),
            forall|i: int|
                0 <= i < old(self).buckets().len() ==> (
                #[trigger] final(self).buckets()[i].key)@ == old(self).buckets()[i].key@
                    && final(self).buckets()[i].systems@.len() == old(
                    self,
                ).buckets()[i].systems@.len(),
            forall|i: int, j: int|
                0 <= i < old(self).buckets().len() && 0 <= j < old(
                    self,
                ).buckets()[i].systems@.len() ==> (
                #[trigger] final(self).buckets()[i].systems@[j].accesses)@ == old(
                    self,
                ).buckets()[i].systems@[j].accesses@,
            match r {
                Ok(log) => {
                    let bs = old(self).buckets();
                    &&& log.entries@ == planned(bs, start@, end_exclusive@)
                    &&& log.aged == (start@ == TICK_BITS)
                    &&& (log.flushed ==> (start@ == TICK_BITS || end_exclusive@ == TICK_BITS)
                        && final(self).world_state() is Some && final(self).commands() == Seq::<
                        u64,
                    >::empty())
                    &&& (start@ != TICK_BITS && end_exclusive@ != TICK_BITS ==> !log.flushed)
                    &&& ((start@ == TICK_BITS || end_exclusive@ == TICK_BITS) && !log.flushed
                        ==> final(self).world_state() is None || final(self).commands().len()
                        + crate::world::world_entity_count(final(self).world_state().unwrap())
                        > u32::MAX)
                },
                Err(e) => exists|i: int|
                    0 <= i < old(self).buckets().len() && phase_in_range(
                        #[trigger] old(self).buckets()[i].key@,
                        start@,
                        end_exclusive@,
                    ) && declare_all(
                        Map::<u64, Access>::empty(),
                        flat_decls(old(self).buckets()[i].systems@),
                    ) == Err::<Map<u64, Access>, SchedulerError>(e),
            },
    {
        let lo = start.bits();
        let hi = end_exclusive.bits();
        let ghost bs0 = self.buckets();
        let aged = lo == TICK_BITS;
        if aged {
            self.process_event_queues();
        }
        self.accesses.clear();
        let nb = self.systems.len();
        let mut entries: Vec<(u64, usize)> = Vec::new();
        let mut bi: usize = 0;
        proof {
            assert(bs0.take(0) =~= Seq::<PhaseBucket<S>>::empty());
            assert(entries@ =~= planned(bs0.take(0), lo, hi));
        }
        while bi < nb
            invariant
                nb == self.systems@.len(),
                bs0 == old(self).buckets(),
                bs0.len() == nb,
                lo == start@,
                hi == end_exclusive@,
                0 <= bi <= nb,
                forall|i: int| 0 <= i < nb ==> (#[trigger] self.systems@[i].key) == bs0[i].key,
                forall|i: int|
                    bi <= i < nb ==> (#[trigger] self.systems@[i].systems)@ == bs0[i].systems@,
                forall|i: int|
                    0 <= i < bi ==> (#[trigger] self.systems@[i].systems)@.len()
                        == bs0[i].systems@.len(),
                forall|i: int, j: int|
                    0 <= i < bi && 0 <= j < bs0[i].systems@.len() ==> (
                    #[trigger] self.systems@[i].systems@[j].accesses)@
                        == bs0[i].systems@[j].accesses@,
                forall|i: int|
                    0 <= i < bi && phase_in_range(#[trigger] bs0[i].key@, lo, hi) ==> bucket_ok(
                        bs0[i].systems@,
                    ),
                entries@ == planned(bs0.take(bi as int), lo, hi),
                keys_sorted(self.systems@),
                self.resources.wf(),
                self.accesses.wf(),
                self.accesses@ == Map::<u64, Access>::empty(),
                self.world matches Some(w) ==> crate::world::world_reserved_count(w) == 0,
            decreases nb - bi,
        {
            let key_bits = self.systems[bi].key.bits();
            if lo <= key_bits && key_bits < hi {
                let ghost pre = self.systems@;
                let bucket = self.systems.remove(bi);
                let key = bucket.key;
                let mut rest = bucket.systems;
                let ghost orig_ss = rest@;
                let ns = rest.len();
                let mut done: Vec<FunctionSystem<S>> = Vec::new();
                let mut sj: usize = 0;
                proof {
                    assert(orig_ss.skip(0) =~= orig_ss);
                    assert(orig_ss.take(0) =~= Seq::<FunctionSystem<S>>::empty());
                    assert(bucket_log(key_bits as u64, 0nat) =~= Seq::<(u64, usize)>::empty());
                    assert(entries@ =~= planned(bs0.take(bi as int), lo, hi) + bucket_log(
                        key_bits as u64,
                        0nat,
                    ));
                    assert(keys_sorted(self.systems@)) by {
                        assert(forall|a: int|
                            0 <= a < self.systems@.len() ==> (#[trigger] self.systems@[a].key)
                                == (if a < bi as int {
                                pre[a].key
                            } else {
                                pre[a + 1].key
                            }));
                    }
                }
                while sj < ns
                    invariant
                        ns == orig_ss.len(),
                        bs0 == old(self).buckets(),
                        0 <= bi < bs0.len(),
                        orig_ss == bs0[bi as int].systems@,
                        key_bits == bs0[bi as int].key@,
                        lo == start@,
                        hi == end_exclusive@,
                        phase_in_range(key_bits as u64, lo, hi),
                        0 <= sj <= ns,
                        rest@ == orig_ss.skip(sj as int),
                        done@.len() == sj,
                        forall|j: int|
                            0 <= j < sj ==> (#[trigger] done@[j].accesses)@ == orig_ss[
                                j
                            ].accesses@,
                        declare_all(
                            Map::<u64, Access>::empty(),
                            flat_decls(orig_ss.take(sj as int)),
                        ) == Ok::<Map<u64, Access>, SchedulerError>(self.accesses@),
                        entries@ == planned(bs0.take(bi as int), lo, hi) + bucket_log(
                            key_bits as u64,
                            sj as nat,
                        ),
                        self.systems@ == pre.remove(bi as int),
                        keys_sorted(self.systems@),
                        keys_sorted(pre),
                        self.resources.wf(),
                        self.accesses.wf(),
                        self.world matches Some(w)
                            ==> crate::world::world_reserved_count(w) == 0,
                        nb == bs0.len(),
                        pre.len() == nb,
                        key == pre[bi as int].key,
                        forall|i: int| 0 <= i < nb ==> (#[trigger] pre[i].key) == bs0[i].key,
                        forall|i: int|
                            0 <= i < bi ==> (#[trigger] pre[i].systems)@.len() == bs0[
                                i
                            ].systems@.len(),
                        forall|i: int, j: int|
                            0 <= i < bi && 0 <= j < bs0[i].systems@.len() ==> (
                            #[trigger] pre[i].systems@[j].accesses)@ == bs0[
                                i
                            ].systems@[j].accesses@,
                        forall|i: int|
                            bi < i < nb ==> (#[trigger] pre[i].systems)@ == bs0[i].systems@,
                    decreases ns - sj,
                {
                    proof {
                        assert(orig_ss.skip(sj as int)[0] == orig_ss[sj as int]);
                        assert(orig_ss.skip(sj as int).drop_first() =~= orig_ss.skip(
                            sj as int + 1,
                        ));
                    }
                    let mut entry = rest.remove(0);
                    let ghost table_before = self.accesses@;
                    let declared = self.accesses.declare_all_of(&entry.accesses);
                    match declared {
                        Ok(()) => {},
                        Err(e) => {
                            proof {
                                lemma_flat_take_step(orig_ss, sj as int);
                                lemma_declare_all_concat(
                                    Map::<u64, Access>::empty(),
                                    flat_decls(orig_ss.take(sj as int)),
                                    entry.accesses@,
                                );
                                assert(declare_all(
                                    Map::<u64, Access>::empty(),
                                    flat_decls(orig_ss.take(sj as int + 1)),
                                ) == Err::<Map<u64, Access>, SchedulerError>(e));
                                lemma_flat_split(orig_ss, sj as int + 1);
                                lemma_declare_all_concat(
                                    Map::<u64, Access>::empty(),
                                    flat_decls(orig_ss.take(sj as int + 1)),
                                    flat_decls(orig_ss.skip(sj as int + 1)),
                                );
                                assert(declare_all(
                                    Map::<u64, Access>::empty(),
                                    flat_decls(orig_ss),
                                ) == Err::<Map<u64, Access>, SchedulerError>(e));
                                assert(bs0[bi as int].systems@ == orig_ss);
                                assert(phase_in_range(bs0[bi as int].key@, lo, hi));
                            }
                            // Fatal, but leave the schedule whole: hand the
                            // current and remaining systems back to their
                            // bucket before reporting.
                            done.push(entry);
                            while rest.len() > 0
                                invariant
                                    ns == orig_ss.len(),
                                    done@.len() + rest@.len() == ns,
                                    rest@ == orig_ss.skip(done@.len() as int),
                                    forall|j: int|
                                        0 <= j < done@.len() ==> (
                                        #[trigger] done@[j].accesses)@ == orig_ss[j].accesses@,
                                decreases rest@.len(),
                            {
                                proof {
                                    assert(orig_ss.skip(done@.len() as int)[0] == orig_ss[done@.len() as int]);
                                }
                                let moved = rest.remove(0);
                                done.push(moved);
                                proof {
                                    assert(rest@ =~= orig_ss.skip(done@.len() as int));
                                }
                            }
                            self.systems.insert(bi, PhaseBucket { key, systems: done });
                            proof {
                                assert(self.systems@ =~= pre.update(
                                    bi as int,
                                    self.systems@[bi as int],
                                ));
                                assert(keys_sorted(self.systems@)) by {
                                    assert(forall|a: int|
                                        0 <= a < self.systems@.len() ==> (
                                        #[trigger] self.systems@[a].key) == pre[a].key);
                                }
                            }
                            return Err(e);
                        },
                    }
                    entry.f.run(&mut self.resources, &mut self.world, &mut self.command_buffer);
                    entries.push((key_bits, sj));
                    done.push(entry);
                    proof {
                        lemma_flat_take_step(orig_ss, sj as int);
                        lemma_declare_all_concat(
                            Map::<u64, Access>::empty(),
                            flat_decls(orig_ss.take(sj as int)),
                            orig_ss[sj as int].accesses@,
                        );
                        assert(bucket_log(key_bits as u64, (sj + 1) as nat) =~= bucket_log(
                            key_bits as u64,
                            sj as nat,
                        ).push((key_bits, sj)));
                        assert(entries@ =~= planned(bs0.take(bi as int), lo, hi) + bucket_log(
                            key_bits as u64,
                            (sj + 1) as nat,
                        ));
                    }
                    sj += 1;
                }
                proof {
                    assert(orig_ss.take(ns as int) =~= orig_ss);
                    assert(bucket_ok(orig_ss));
                    assert(bs0[bi as int].systems@ == orig_ss);
                }
                self.systems.insert(bi, PhaseBucket { key, systems: done });
                self.accesses.clear();
                proof {
                    assert(self.systems@ =~= pre.update(
                        bi as int,
                        PhaseBucket { key, systems: done },
                    ));
                    lemma_planned_take_step(bs0, lo, hi, bi as int);
                    assert(entries@ =~= planned(bs0.take(bi as int + 1), lo, hi));
                    assert(keys_sorted(self.systems@)) by {
                        assert(forall|a: int|
                            0 <= a < self.systems@.len() ==> (#[trigger] self.systems@[a].key)
                                == pre[a].key);
                    }
                }
            } else {
                proof {
                    lemma_planned_take_step(bs0, lo, hi, bi as int);
                    assert(entries@ =~= planned(bs0.take(bi as int + 1), lo, hi));
                }
            }
            bi += 1;
        }
        proof {
            assert(bs0.take(nb as int) =~= bs0);
        }
        let mut flushed = false;
        if lo == TICK_BITS || hi == TICK_BITS {
            flushed = self.command_world();
        }
        Ok(RunLog { entries, aged, flushed })
    }
}

/// Every entry of the planned trace names an in-range registered bucket,
/// and a system index within it.
pub proof fn lemma_planned_entries_valid<S>(bs: Seq<PhaseBucket<S>>, lo: u64, hi: u64, a: int)
    requires
        0 <= a < planned(bs, lo, hi).len(),
    ensures
        exists|i: int|
            0 <= i < bs.len() && (#[trigger] bs[i].key)@ == planned(bs, lo, hi)[a].0
                && phase_in_range(bs[i].key@, lo, hi) && planned(bs, lo, hi)[a].1 < bs[
                i
            ].systems@.len(),
    decreases bs.len(),
{
    let p = planned(bs, lo, hi);
    let chunk0 = if phase_in_range(bs[0].key@, lo, hi) {
        bucket_log(bs[0].key@, bs[0].systems@.len())
    } else {
        Seq::<(u64, usize)>::empty()
    };
    if a < chunk0.len() {
        assert(p[a] == chunk0[a]);
        assert(bs[0].key@ == p[a].0 && phase_in_range(bs[0].key@, lo, hi) && p[a].1 < bs[
            0
        ].systems@.len());
    } else {
        let t = bs.drop_first();
        lemma_planned_entries_valid(t, lo, hi, a - chunk0.len());
        let i = choose|i: int|
            0 <= i < t.len() && (#[trigger] t[i].key)@ == planned(t, lo, hi)[a - chunk0.len()].0
                && phase_in_range(t[i].key@, lo, hi) && planned(t, lo, hi)[a - chunk0.len()].1
                < t[i].systems@.len();
        assert(t[i] == bs[i + 1]);
        assert(p[a] == planned(t, lo, hi)[a - chunk0.len()]);
        assert(bs[i + 1].key@ == p[a].0 && phase_in_range(bs[i + 1].key@, lo, hi) && p[a].1 < bs[
            i + 1
        ].systems@.len());
    }
}

/// Phase ordering: in the planned trace of a sorted schedule, every
/// system of a lower-keyed phase stands before every system of a
/// higher-keyed phase, and systems of one phase stand in registration
/// order. Since `run` executes the trace left to right, every system at
/// key `a` completes before any system at key `b > a` begins, however
/// they were registered.
pub proof fn lemma_planned_ordered<S>(bs: Seq<PhaseBucket<S>>, lo: u64, hi: u64, a: int, b: int)
    requires
        keys_sorted(bs),
        forall|i: int| 0 <= i < bs.len() ==> (#[trigger] bs[i].systems)@.len() <= usize::MAX,
        0 <= a <= b < planned(bs, lo, hi).len(),
    ensures
        planned(bs, lo, hi)[a].0 <= planned(bs, lo, hi)[b].0,
        planned(bs, lo, hi)[a].0 == planned(bs, lo, hi)[b].0 ==> planned(bs, lo, hi)[a].1
            <= planned(bs, lo, hi)[b].1,
    decreases bs.len(),
{
    let p = planned(bs, lo, hi);
    let chunk0 = if phase_in_range(bs[0].key@, lo, hi) {
        bucket_log(bs[0].key@, bs[0].systems@.len())
    } else {
        Seq::<(u64, usize)>::empty()
    };
    let t = bs.drop_first();
    assert(keys_sorted(t)) by {
        assert(forall|x: int, y: int|
            0 <= x < y < t.len() ==> t[x].key@ == bs[x + 1].key@ && t[y].key@ == bs[y + 1].key@);
    }
    if b < chunk0.len() {
        assert(p[a] == chunk0[a] && p[b] == chunk0[b]);
    } else if a >= chunk0.len() {
        assert(forall|i: int|
            0 <= i < t.len() ==> (#[trigger] t[i].systems)@ == bs[i + 1].systems@);
        lemma_planned_ordered(t, lo, hi, a - chunk0.len(), b - chunk0.len());
        assert(p[a] == planned(t, lo, hi)[a - chunk0.len()]);
        assert(p[b] == planned(t, lo, hi)[b - chunk0.len()]);
    } else {
        assert(p[a] == chunk0[a]);
        assert(p[a].0 == bs[0].key@);
        assert(p[b] == planned(t, lo, hi)[b - chunk0.len()]);
        lemma_planned_entries_valid(t, lo, hi, b - chunk0.len());
        let i = choose|i: int|
            0 <= i < t.len() && (#[trigger] t[i].key)@ == planned(t, lo, hi)[b - chunk0.len()].0
                && phase_in_range(t[i].key@, lo, hi) && planned(t, lo, hi)[b - chunk0.len()].1
                < t[i].systems@.len();
        assert(t[i] == bs[i + 1]);
        assert(bs[0].key@ < bs[i + 1].key@);
    }
}

/// Every registered system of an in-range bucket appears in the planned
/// trace: nothing in range is skipped.
pub proof fn lemma_planned_complete<S>(bs: Seq<PhaseBucket<S>>, lo: u64, hi: u64, i: int, j: int)
    requires
        0 <= i < bs.len(),
        phase_in_range(bs[i].key@, lo, hi),
        0 <= j < bs[i].systems@.len(),
    ensures
        planned(bs, lo, hi).contains((bs[i].key@, j as usize)),
    decreases bs.len(),
{
    let p = planned(bs, lo, hi);
    let chunk0 = if phase_in_range(bs[0].key@, lo, hi) {
        bucket_log(bs[0].key@, bs[0].systems@.len())
    } else {
        Seq::<(u64, usize)>::empty()
    };
    if i == 0 {
        assert(chunk0[j] == (bs[0].key@, j as usize));
        assert(p[j] == (bs[0].key@, j as usize));
    } else {
        let t = bs.drop_first();
        assert(t[i - 1] == bs[i]);
        lemma_planned_complete(t, lo, hi, i - 1, j);
        let q = planned(t, lo, hi);
        let a = choose|a: int| 0 <= a < q.len() && q[a] == (t[i - 1].key@, j as usize);
        assert(p[a + chunk0.len()] == q[a]);
    }
}

/// Same-phase alias detection, write side: once `k` is declared written,
/// any later declaration on `k` in the same phase fails.
proof fn lemma_written_key_conflicts(m: Map<u64, Access>, ds: Seq<AccessDecl>, b: int, k: u64)
    requires
        m.dom().contains(k),
        m[k] == Access::Write,
        0 <= b < ds.len(),
        ds[b].key == k,
    ensures
        declare_all(m, ds) is Err,
    decreases b,
{
    match crate::access::declare_step(m, ds[0]) {
        Ok(m2) => {
            assert(b != 0);
            assert(m2.dom().contains(k) && m2[k] == Access::Write);
            assert(ds.drop_first()[b - 1] == ds[b]);
            lemma_written_key_conflicts(m2, ds.drop_first(), b - 1, k);
        },
        Err(e) => {},
    }
}

/// Same-phase alias detection, read side: once `k` is declared at all, a
/// later write declaration on `k` in the same phase fails.
proof fn lemma_known_key_conflicts_with_write(
    m: Map<u64, Access>,
    ds: Seq<AccessDecl>,
    b: int,
    k: u64,
)
    requires
        m.dom().contains(k),
        0 <= b < ds.len(),
        ds[b].key == k,
        ds[b].access == Access::Write,
    ensures
        declare_all(m, ds) is Err,
    decreases b,
{
    match crate::access::declare_step(m, ds[0]) {
        Ok(m2) => {
            assert(b != 0);
            assert(m2.dom().contains(k));
            assert(ds.drop_first()[b - 1] == ds[b]);
            lemma_known_key_conflicts_with_write(m2, ds.drop_first(), b - 1, k);
        },
        Err(e) => {},
    }
}

/// Two declarations on one key, of which at least one is a write, make a
/// declaration sequence fail whatever table state they meet.
proof fn lemma_decl_pair_conflicts(m: Map<u64, Access>, ds: Seq<AccessDecl>, a: int, b: int, k: u64)
    requires
        0 <= a < b < ds.len(),
        ds[a].key == k,
        ds[b].key == k,
        ds[a].access == Access::Write || ds[b].access == Access::Write,
    ensures
        declare_all(m, ds) is Err,
    decreases a,
{
    match crate::access::declare_step(m, ds[0]) {
        Ok(m2) => {
            if a == 0 {
                assert(m2.dom().contains(k));
                if ds[0].access == Access::Write {
                    assert(m2[k] == Access::Write);
                    assert(ds.drop_first()[b - 1] == ds[b]);
                    lemma_written_key_conflicts(m2, ds.drop_first(), b - 1, k);
                } else {
                    assert(ds[b].access == Access::Write);
                    assert(ds.drop_first()[b - 1] == ds[b]);
                    lemma_known_key_conflicts_with_write(m2, ds.drop_first(), b - 1, k);
                }
            } else {
                assert(ds.drop_first()[a - 1] == ds[a]);
                assert(ds.drop_first()[b - 1] == ds[b]);
                lemma_decl_pair_conflicts(m2, ds.drop_first(), a - 1, b - 1, k);
            }
        },
        Err(e) => {},
    }
}

/// Index of a system's declaration inside the flattened bucket list.
proof fn lemma_flat_index<S>(ss: Seq<FunctionSystem<S>>, i: int, di: int)
    requires
        0 <= i < ss.len(),
        0 <= di < ss[i].accesses@.len(),
    ensures
        flat_decls(ss.take(i)).len() + di < flat_decls(ss).len(),
        flat_decls(ss)[flat_decls(ss.take(i)).len() + di] == ss[i].accesses@[di],
        flat_decls(ss.take(i + 1)).len() <= flat_decls(ss).len(),
        flat_decls(ss.take(i)).len() + di < flat_decls(ss.take(i + 1)).len(),
{
    lemma_flat_take_step(ss, i);
    lemma_flat_split(ss, i + 1);
    let pre = flat_decls(ss.take(i));
    assert(flat_decls(ss.take(i + 1)) == pre + ss[i].accesses@);
    assert(flat_decls(ss) == (pre + ss[i].accesses@) + flat_decls(ss.skip(i + 1)));
    assert(((pre + ss[i].accesses@) + flat_decls(ss.skip(i + 1)))[pre.len() + di] == ss[
        i
    ].accesses@[di]);
}

/// Same-phase alias detection: when two systems of one phase both touch
/// a key and at least one of them writes it, that phase cannot pass the
/// access table — `run` over any range containing it reports an aliasing
/// error instead of executing.
pub proof fn lemma_same_phase_alias<S>(
    ss: Seq<FunctionSystem<S>>,
    i: int,
    j: int,
    di: int,
    dj: int,
    k: u64,
)
    requires
        0 <= i < j < ss.len(),
        0 <= di < ss[i].accesses@.len(),
        0 <= dj < ss[j].accesses@.len(),
        ss[i].accesses@[di].key == k,
        ss[j].accesses@[dj].key == k,
        ss[i].accesses@[di].access == Access::Write || ss[j].accesses@[dj].access
            == Access::Write,
    ensures
        !bucket_ok(ss),
{
    lemma_flat_index(ss, i, di);
    lemma_flat_index(ss, j, dj);
    let pa = flat_decls(ss.take(i)).len() + di;
    let pb = flat_decls(ss.take(j)).len() + dj;
    assert(flat_decls(ss.take(i + 1)).len() <= flat_decls(ss.take(j)).len()) by {
        lemma_flat_prefix_monotone(ss, i + 1, j);
    }
    lemma_decl_pair_conflicts(Map::<u64, Access>::empty(), flat_decls(ss), pa, pb, k);
}

/// Flattened declaration lists of longer prefixes are at least as long.
proof fn lemma_flat_prefix_monotone<S>(ss: Seq<FunctionSystem<S>>, a: int, b: int)
    requires
        0 <= a <= b <= ss.len(),
    ensures
        flat_decls(ss.take(a)).len() <= flat_decls(ss.take(b)).len(),
    decreases b - a,
{
    if a < b {
        lemma_flat_take_step(ss, b - 1);
        lemma_flat_prefix_monotone(ss, a, b - 1);
    }
}

/// Cross-phase alias freedom, read side: a phase whose systems only read
/// passes the access table however many of them touch one key.
pub proof fn lemma_reads_never_conflict(m: Map<u64, Access>, ds: Seq<AccessDecl>)
    requires
        forall|j: int| 0 <= j < ds.len() ==> (#[trigger] ds[j].access) == Access::Read,
        forall|k: u64| #[trigger] m.dom().contains(k) ==> m[k] == Access::Read,
    ensures
        declare_all(m, ds) is Ok,
    decreases ds.len(),
{
    if ds.len() > 0 {
        assert(ds[0].access == Access::Read);
        match crate::access::declare_step(m, ds[0]) {
            Ok(m2) => {
                assert(forall|k: u64| #[trigger] m2.dom().contains(k) ==> m2[k] == Access::Read);
                lemma_reads_never_conflict(m2, ds.drop_first());
            },
            Err(e) => {
                assert(false);
            },
        }
    }
}

/// Cross-phase alias freedom: declarations on pairwise distinct keys
/// pass the access table whatever their modes; in particular a writer at
/// one phase and a reader at a later phase never collide, because each
/// phase starts from an empty table.
pub proof fn lemma_distinct_keys_ok(m: Map<u64, Access>, ds: Seq<AccessDecl>)
    requires
        forall|a: int, b: int|
            0 <= a < b < ds.len() ==> (#[trigger] ds[a].key) != (#[trigger] ds[b].key),
        forall|a: int| 0 <= a < ds.len() ==> !m.dom().contains(#[trigger] ds[a].key),
    ensures
        declare_all(m, ds) is Ok,
    decreases ds.len(),
{
    if ds.len() > 0 {
        match crate::access::declare_step(m, ds[0]) {
            Ok(m2) => {
                assert(forall|a: int|
                    0 <= a < ds.drop_first().len() ==> (#[trigger] ds.drop_first()[a]) == ds[a
                        + 1]);
                assert(forall|a: int|
                    0 <= a < ds.drop_first().len() ==> !m2.dom().contains(
                        #[trigger] ds.drop_first()[a].key,
                    ));
                lemma_distinct_keys_ok(m2, ds.drop_first());
            },
            Err(e) => {
                assert(false);
            },
        }
    }
}

/// Cross-phase alias freedom, stated for the canonical pair: a lone
/// writer of a key passes its phase and a lone reader of the same key
/// passes another, because every phase feeds an empty table — only
/// systems sharing one phase can alias.
pub proof fn lemma_cross_phase_writer_reader<S>(w: FunctionSystem<S>, r: FunctionSystem<S>, k: u64)
    requires
        w.accesses@ == seq![AccessDecl { key: k, access: Access::Write }],
        r.accesses@ == seq![AccessDecl { key: k, access: Access::Read }],
    ensures
        bucket_ok(seq![w]),
        bucket_ok(seq![r]),
{
    assert(seq![w].drop_first() =~= Seq::<FunctionSystem<S>>::empty());
    assert(seq![r].drop_first() =~= Seq::<FunctionSystem<S>>::empty());
    assert(flat_decls(Seq::<FunctionSystem<S>>::empty()) =~= Seq::<AccessDecl>::empty());
    assert(flat_decls(seq![w]) == w.accesses@ + flat_decls(Seq::<FunctionSystem<S>>::empty()));
    assert(flat_decls(seq![w]) =~= w.accesses@);
    assert(flat_decls(seq![r]) == r.accesses@ + flat_decls(Seq::<FunctionSystem<S>>::empty()));
    assert(flat_decls(seq![r]) =~= r.accesses@);
    lemma_distinct_keys_ok(Map::<u64, Access>::empty(), w.accesses@);
    lemma_distinct_keys_ok(Map::<u64, Access>::empty(), r.accesses@);
}

} // verus!
