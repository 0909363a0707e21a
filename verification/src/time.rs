//! Frame-time bookkeeping.
//!
//! The scheduler is agnostic of the platform clock: the driver reads the
//! clock and hands every update the current instant as a nanosecond
//! count. The types here only do the arithmetic on those counts.

use vstd::prelude::*;

verus! {

/// The running clock resource: the instant of the latest update, the
/// delta to the one before, and the instant of creation, all in
/// nanoseconds of the driver's clock.
#[derive(Debug, Clone, Copy, PartialEq, Eq, Structural)]
pub struct Time {
    pub now: u64,
    pub dt: u64,
    pub init: u64,
}

impl Time {
    /// A clock starting at `now_nanos` with an empty first delta.
    pub fn new(now_nanos: u64) -> (r: Time)
        ensures
            r == (Time { now: now_nanos, dt: 0u64, init: now_nanos }),
    {
        Time { now: now_nanos, dt: 0, init: now_nanos }
    }
}

/// Advances the clock to `now_nanos`: the delta becomes the time since
/// the previous update and the creation instant stays.
pub fn update_time(time: &mut Time, now_nanos: u64)
    requires
        now_nanos >= old(time).now,
    ensures
        final(time).now == now_nanos,
        final(time).dt == now_nanos - old(time).now,
        final(time).init == old(time).init,
{
    time.dt = now_nanos - time.now;
    time.now = now_nanos;
}

/// The tick counter resource.
#[derive(Debug, Clone, Copy, PartialEq, Eq, Structural, Default)]
pub struct Tick(pub u64);

/// Counts one more tick.
pub fn update_tick_count(ticks: &mut Tick)
    requires
        old(ticks).0 < u64::MAX,
    ensures
        final(ticks).0 == old(ticks).0 + 1,
{
    ticks.0 = ticks.0 + 1;
}

/// A named stopwatch: the instant it was last reset, in nanoseconds of
/// the driver's clock.
#[derive(Debug, Clone, Copy, PartialEq, Eq, Structural)]
pub struct Accumulator {
    pub time: u64,
}

impl Accumulator {
    /// A stopwatch reset at `now_nanos`.
    pub fn new(now_nanos: u64) -> (r: Accumulator)
        ensures
            r == (Accumulator { time: now_nanos }),
    {
        Accumulator { time: now_nanos }
    }

    /// Nanoseconds elapsed between the last reset and `now_nanos`.
    pub fn time_since(&self, now_nanos: u64) -> (r: u64)
        requires
            now_nanos >= self.time,
        ensures
            r == now_nanos - self.time,
    {
        now_nanos - self.time
    }

    /// Resets the stopwatch to `now_nanos`.
    pub fn update(&mut self, now_nanos: u64)
        ensures
            final(self).time == now_nanos,
    {
        self.time = now_nanos;
    }
}

/// The labelled stopwatches of the application, keyed by name; a fresh
/// insertion under a known name replaces that stopwatch.
pub struct Accumulators {
    pub accumulators: Vec<(String, Accumulator)>,
}

impl Accumulators {
    /// Labels are unique.
    pub open spec fn wf(self) -> bool {
        forall|i: int, j: int|
            0 <= i < j < self.accumulators@.len() ==> (#[trigger] self.accumulators@[i].0)@ != (
            #[trigger] self.accumulators@[j].0)@
    }

    /// No stopwatches yet.
    pub fn new() -> (r: Accumulators)
        ensures
            r.accumulators@ == Seq::<(String, Accumulator)>::empty(),
            r.wf(),
    {
        let r = Accumulators { accumulators: Vec::new() };
        proof {
            assert(r.accumulators@ =~= Seq::<(String, Accumulator)>::empty());
        }
        r
    }

    /// Starts (or restarts) the stopwatch called `label` at `now_nanos`,
    /// handing back the stopwatch it replaced, if any.
    pub fn insert_one(&mut self, label: &str, now_nanos: u64) -> (r: Option<Accumulator>)
        requires
            old(self).wf(),
        ensures
            final(self).wf(),
            match r {
                Some(prev) => exists|i: int|
                    0 <= i < old(self).accumulators@.len() && (
                    #[trigger] old(self).accumulators@[i].0)@ == label@ && prev == old(self).accumulators@[i].1 && final(self).accumulators@.len() == old(self).accumulators@.len() && final(self).accumulators@[i].0@ == label@ && final(self).accumulators@[i].1 == (Accumulator { time: now_nanos }) && (forall|j: int|
                        0 <= j < old(self).accumulators@.len() && j != i
                            ==> #[trigger] final(self).accumulators@[j] == old(self).accumulators@[j]),
                None => {
                    &&& forall|i: int|
                        0 <= i < old(self).accumulators@.len() ==> (
                        #[trigger] old(self).accumulators@[i].0)@ != label@
                    &&& final(self).accumulators@.len() == old(self).accumulators@.len() + 1
                    &&& forall|j: int|
                        0 <= j < old(self).accumulators@.len()
                            ==> #[trigger] final(self).accumulators@[j] == old(self).accumulators@[j]
                    &&& final(self).accumulators@.last().0@ == label@
                    &&& final(self).accumulators@.last().1 == (Accumulator { time: now_nanos })
                },
            },
    {
        let key: String = label.to_owned();
        let n = self.accumulators.len();
        let mut i: usize = 0;
        while i < n
            invariant
                n == self.accumulators@.len(),
                self.accumulators@ == old(self).accumulators@,
                0 <= i <= n,
                key@ == label@,
                self.wf(),
                forall|j: int| 0 <= j < i ==> (#[trigger] self.accumulators@[j].0)@ != label@,
            decreases n - i,
        {
            if self.accumulators[i].0 == key {
                let prev = self.accumulators[i].1;
                self.accumulators.set(i, (key, Accumulator { time: now_nanos }));
                return Some(prev);
            }
            i += 1;
        }
        self.accumulators.push((key, Accumulator { time: now_nanos }));
        None
    }
}

} // verus!
