//! Error taxonomy of the scheduler.
//!
//! Every variant marks a programming error in the embedding application; the
//! scheduler reports it to the caller instead of continuing the run.

use vstd::prelude::*;

verus! {

/// A fatal condition detected by the scheduler.
///
/// `InvalidPhase` carries the raw key bits that were rejected at
/// registration. The aliasing variants carry the resource key on which two
/// same-phase declarations collided.
#[derive(Debug, Clone, Copy, PartialEq, Eq, Structural)]
pub enum SchedulerError {
    /// The bit pattern handed to `PhaseKey::from_bits` encodes NaN or a
    /// number outside `[0, 4)`.
    InvalidPhase { bits: u64 },
    /// A write declaration met an earlier read declaration on the same key
    /// in the same phase, or a read declaration met an earlier write.
    AliasRw { key: u64 },
    /// Two write declarations named the same key in the same phase.
    AliasWw { key: u64 },
}

} // verus!
