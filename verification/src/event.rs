//! Event queues with a one-bit lifetime.
//!
//! Every registered event type gets a dedicated FIFO of payloads, each
//! carrying an age that starts at zero. At a tick boundary the scheduler
//! ages every live entry by one and then sweeps every entry whose age
//! reached one, so an event is readable for exactly one full tick cycle
//! and then vanishes. Reads do not consume the queue: any number of
//! readers observe the same entries.

use vstd::prelude::*;

verus! {

/// Marker for types that can travel through an event queue.
pub trait Event {
}

/// Ages and sweeps a pair sequence: keeps, in order, exactly the entries
/// whose age is still below one.
pub open spec fn swept<E>(s: Seq<(E, u8)>) -> Seq<(E, u8)>
    decreases s.len(),
{
    if s.len() == 0 {
        Seq::empty()
    } else if s[0].1 < 1 {
        seq![s[0]] + swept(s.drop_first())
    } else {
        swept(s.drop_first())
    }
}

/// A FIFO of events of one type, each entry tagged with its age in ticks.
///
/// The payload and age sequences run in parallel; the view is the
/// sequence of `(payload, age)` pairs.
pub struct EventQueue<E: Event> {
    events: Vec<E>,
    ages: Vec<u8>,
}

impl<E: Event> Event for EventQueue<E> {
}

impl<E: Event> View for EventQueue<E> {
    type V = Seq<(E, u8)>;

    closed spec fn view(&self) -> Seq<(E, u8)> {
        Seq::new(self.events@.len(), |i: int| (self.events@[i], self.ages@[i]))
    }
}

impl<E: Event> EventQueue<E> {
    /// Well-formedness: one age per payload.
    pub closed spec fn wf(self) -> bool {
        self.events@.len() == self.ages@.len()
    }

    /// The payloads alone, in queue order.
    pub open spec fn payloads(self) -> Seq<E> {
        self@.map(|i: int, p: (E, u8)| p.0)
    }

    /// An empty queue.
    pub fn new() -> (r: EventQueue<E>)
        ensures
            r@ == Seq::<(E, u8)>::empty(),
            r.wf(),
    {
        let r = EventQueue { events: Vec::new(), ages: Vec::new() };
        proof {
            assert(r@ =~= Seq::<(E, u8)>::empty());
        }
        r
    }

    /// Appends `event` with age zero.
    pub fn push(&mut self, event: E)
        requires
            old(self).wf(),
        ensures
            final(self).wf(),
            final(self)@ == old(self)@.push((event, 0u8)),
    {
        self.events.push(event);
        self.ages.push(0);
        proof {
            assert(self@ =~= old(self)@.push((event, 0u8)));
        }
    }

    /// The queued payloads, ages stripped; reading leaves the queue as it
    /// is.
    pub fn copy_of_events(&self) -> (r: &Vec<E>)
        requires
            self.wf(),
        ensures
            r@ == self.payloads(),
    {
        proof {
            assert(self.events@ =~= self.payloads());
        }
        &self.events
    }

    /// How many events are queued.
    pub fn len(&self) -> (r: usize)
        requires
            self.wf(),
        ensures
            r == self@.len(),
    {
        self.events.len()
    }

    /// Ages every live entry by one tick.
    pub fn increment_tick_count(&mut self)
        requires
            old(self).wf(),
            forall|i: int| 0 <= i < old(self)@.len() ==> old(self)@[i].1 < 255,
        ensures
            final(self).wf(),
            final(self)@.len() == old(self)@.len(),
            forall|i: int|
                0 <= i < old(self)@.len() ==> final(self)@[i] == (
                old(self)@[i].0,
                (old(self)@[i].1 + 1) as u8,
                ),
    {
        let n = self.ages.len();
        let mut i: usize = 0;
        while i < n
            invariant
                self.wf(),
                n == self.ages@.len(),
                0 <= i <= n,
                self.events@ == old(self).events@,
                forall|j: int| 0 <= j < old(self)@.len() ==> old(self)@[j].1 < 255,
                forall|j: int| 0 <= j < i ==> self.ages@[j] == old(self).ages@[j] + 1,
                forall|j: int| i <= j < n ==> self.ages@[j] == old(self).ages@[j],
            decreases n - i,
        {
            proof {
                assert(old(self)@[i as int].1 == old(self).ages@[i as int]);
            }
            let a = self.ages[i];
            self.ages.set(i, a + 1);
            i += 1;
        }
    }

    /// Drops every entry whose age reached one, keeping the rest in
    /// order.
    pub fn clean_up(&mut self)
        requires
            old(self).wf(),
        ensures
            final(self).wf(),
            final(self)@ == swept(old(self)@),
    {
        let ghost orig = self@;
        let n = self.events.len();
        let mut kept_events: Vec<E> = Vec::new();
        let mut kept_ages: Vec<u8> = Vec::new();
        let mut rest: Vec<E> = Vec::new();
        core::mem::swap(&mut rest, &mut self.events);
        let mut i: usize = 0;
        proof {
            assert(rest@ =~= old(self).events@.skip(0));
            assert(orig.skip(0) =~= orig);
        }
        while i < n
            invariant
                n == orig.len(),
                orig == old(self)@,
                orig.len() == old(self).events@.len(),
                forall|j: int|
                    0 <= j < n ==> orig[j] == (old(self).events@[j], old(self).ages@[j]),
                self.ages@ == old(self).ages@,
                n == self.ages@.len(),
                0 <= i <= n,
                rest@ == old(self).events@.skip(i as int),
                kept_events@.len() == kept_ages@.len(),
                Seq::new(kept_events@.len(), |k: int| (kept_events@[k], kept_ages@[k]))
                    + swept(orig.skip(i as int)) == swept(orig),
            decreases n - i,
        {
            let ghost pre = Seq::new(
                kept_events@.len(),
                |k: int| (kept_events@[k], kept_ages@[k]),
            );
            proof {
                assert(orig.skip(i as int)[0] == orig[i as int]);
                assert(orig.skip(i as int).drop_first() =~= orig.skip(i as int + 1));
            }
            let e = rest.remove(0);
            proof {
                assert(rest@ =~= old(self).events@.skip(i as int + 1));
                assert(e == old(self).events@[i as int]);
            }
            let a = self.ages[i];
            proof {
                assert(orig[i as int] == (e, a));
            }
            if a < 1 {
                kept_events.push(e);
                kept_ages.push(a);
                proof {
                    assert(Seq::new(
                        kept_events@.len(),
                        |k: int| (kept_events@[k], kept_ages@[k]),
                    ) =~= pre.push((e, a)));
                    assert(swept(orig.skip(i as int)) =~= seq![orig[i as int]] + swept(
                        orig.skip(i as int + 1),
                    ));
                    assert(pre.push((e, a)) + swept(orig.skip(i as int + 1)) =~= pre + swept(
                        orig.skip(i as int),
                    ));
                }
            } else {
                proof {
                    assert(swept(orig.skip(i as int)) =~= swept(orig.skip(i as int + 1)));
                }
            }
            i += 1;
        }
        self.events = kept_events;
        self.ages = kept_ages;
        proof {
            assert(orig.skip(n as int) =~= Seq::<(E, u8)>::empty());
            assert(swept(Seq::<(E, u8)>::empty()) =~= Seq::<(E, u8)>::empty());
            assert(self@ =~= Seq::new(
                self.events@.len(),
                |k: int| (self.events@[k], self.ages@[k]),
            ));
        }
    }
}

/// How the scheduler reaches a queue it cannot name: every value in the
/// resource store answers the tick-boundary sweep through this trait,
/// ageing and sweeping whatever event queues it holds and leaving other
/// resources alone. `sweep_spec` says, per value type, how the swept
/// value relates to the one before; the sweep method must realise it.
pub trait EventQueueHandler: Sized {
    /// What the tick-boundary sweep does to a value of this type. The
    /// default promises nothing; a type whose sweep is meaningful — the
    /// event queue itself — overrides it with the exact relation.
    open spec fn sweep_spec(pre: Self, post: Self) -> bool {
        true
    }

    fn increment_and_cleanup(&mut self)
        ensures
            Self::sweep_spec(*old(self), *final(self)),
    ;
}

impl<E: Event> EventQueueHandler for EventQueue<E> {
    /// A well-formed queue is aged by one tick and swept of everything
    /// that reached age one; a malformed value is left alone.
    open spec fn sweep_spec(pre: Self, post: Self) -> bool {
        if pre.wf() && (forall|i: int| 0 <= i < pre@.len() ==> (#[trigger] pre@[i]).1 < 255) {
            post.wf() && post@ == swept(aged(pre@))
        } else {
            post == pre
        }
    }

    fn increment_and_cleanup(&mut self) {
        // The trait promises nothing of its receiver's shape, so
        // re-establish what every queue built through this module already
        // satisfies.
        if self.events.len() != self.ages.len() {
            return ;
        }
        if !self.check_ages() {
            return ;
        }
        let ghost pre = self@;
        self.increment_tick_count();
        proof {
            assert(self@ =~= aged(pre));
        }
        self.clean_up();
    }
}

impl<E: Event> EventQueue<E> {
    /// Whether every age is still below the counter's maximum; the age of
    /// a live entry never exceeds one in a queue driven through the
    /// public interface, so this is a formality the sweep needs.
    fn check_ages(&self) -> (r: bool)
        requires
            self.wf(),
        ensures
            r == forall|i: int| 0 <= i < self@.len() ==> self@[i].1 < 255,
    {
        let n = self.ages.len();
        let mut i: usize = 0;
        while i < n
            invariant
                self.wf(),
                n == self.ages@.len(),
                0 <= i <= n,
                forall|j: int| 0 <= j < i ==> self@[j].1 < 255,
            decreases n - i,
        {
            if self.ages[i] >= 255 {
                proof {
                    assert(self@[i as int].1 == self.ages@[i as int]);
                }
                return false;
            }
            i += 1;
        }
        true
    }
}

/// A read-only window onto an event queue, handed to systems that
/// declared a read on it.
pub struct EventReader<'a, E: Event> {
    pub events: &'a EventQueue<E>,
}

impl<'a, E: Event> EventReader<'a, E> {
    /// Opens a reader over `queue`.
    pub fn new(queue: &'a EventQueue<E>) -> (r: EventReader<'a, E>)
        ensures
            r.events == queue,
    {
        EventReader { events: queue }
    }

    /// The readable payloads; multiple readers observe the same events
    /// independently.
    pub fn read(&self) -> (r: &Vec<E>)
        requires
            self.events.wf(),
        ensures
            r@ == self.events.payloads(),
    {
        self.events.copy_of_events()
    }
}

/// A sending handle that owns its queue while systems write to it; the
/// queue is taken out of the store, written, and put back.
pub struct EventWriter<E: Event> {
    pub events: EventQueue<E>,
}

impl<E: Event> EventWriter<E> {
    /// Wraps `queue` for sending.
    pub fn new(queue: EventQueue<E>) -> (r: EventWriter<E>)
        ensures
            r.events == queue,
    {
        EventWriter { events: queue }
    }

    /// Queues `event` with a fresh age.
    pub fn send(&mut self, event: E)
        requires
            old(self).events.wf(),
        ensures
            final(self).events.wf(),
            final(self).events@ == old(self).events@.push((event, 0u8)),
    {
        self.events.push(event);
    }

    /// Releases the queue so it can return to the store.
    pub fn into_queue(self) -> (r: EventQueue<E>)
        ensures
            r == self.events,
    {
        self.events
    }
}

/// Ageing by one tick, entrywise, as the scheduler does at a tick
/// boundary.
pub open spec fn aged<E>(s: Seq<(E, u8)>) -> Seq<(E, u8)> {
    Seq::new(s.len(), |i: int| (s[i].0, (s[i].1 + 1) as u8))
}

/// One-cycle lifetime: sweeping right after ageing drops every entry
/// that was live before the boundary — an event is readable for exactly
/// one tick cycle.
pub proof fn lemma_one_tick_lifetime<E>(s: Seq<(E, u8)>)
    requires
        forall|i: int| 0 <= i < s.len() ==> (#[trigger] s[i]).1 < 255,
    ensures
        swept(aged(s)) == Seq::<(E, u8)>::empty(),
    decreases s.len(),
{
    if s.len() == 0 {
        assert(aged(s) =~= Seq::<(E, u8)>::empty());
        assert(swept(Seq::<(E, u8)>::empty()) =~= Seq::<(E, u8)>::empty());
    } else {
        assert(aged(s)[0].1 == s[0].1 + 1);
        assert(aged(s)[0].1 >= 1);
        assert(aged(s).drop_first() =~= aged(s.drop_first()));
        lemma_one_tick_lifetime(s.drop_first());
    }
}

/// Events sent after the boundary's sweep — age zero — all survive the
/// next plain sweep: they are visible to every later reader in the same
/// cycle.
pub proof fn lemma_fresh_events_survive<E>(s: Seq<(E, u8)>)
    requires
        forall|i: int| 0 <= i < s.len() ==> (#[trigger] s[i]).1 == 0,
    ensures
        swept(s) == s,
    decreases s.len(),
{
    if s.len() == 0 {
        assert(swept(s) =~= s);
    } else {
        assert(s[0].1 == 0);
        lemma_fresh_events_survive(s.drop_first());
        assert(seq![s[0]] + s.drop_first() =~= s);
    }
}

/// Pushing an event appends exactly its payload to what readers see.
pub proof fn lemma_push_visible<E: Event>(q: EventQueue<E>, e: E, q2: EventQueue<E>)
    requires
        q2@ == q@.push((e, 0u8)),
    ensures
        q2.payloads() == q.payloads().push(e),
{
    assert(q2.payloads() =~= q.payloads().push(e));
}

} // verus!
