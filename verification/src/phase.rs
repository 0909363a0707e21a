//! Total-ordered phase keys.
//!
//! A phase key is a real number in the half-open interval `[0, 4)` supplied
//! by the caller as the raw bit pattern of an IEEE-754 double
//! (`f64::to_bits`). For non-negative doubles the unsigned order of the bit
//! patterns coincides with the IEEE-754 total order of the numbers, so a key
//! is kept as its (canonicalised) bit pattern and keys are compared as
//! `u64`s. NaN patterns and patterns of numbers outside `[0, 4)` are
//! rejected; the pattern of negative zero is canonicalised to positive zero,
//! which compares equal to it under the ordinary IEEE-754 comparison.

use vstd::prelude::*;

use crate::errors::SchedulerError;

verus! {

/// Exponent field of an IEEE-754 double.
pub const EXPONENT_MASK: u64 = 0x7FF0_0000_0000_0000;
/// Mantissa field of an IEEE-754 double.
pub const MANTISSA_MASK: u64 = 0x000F_FFFF_FFFF_FFFF;
/// Sign bit of an IEEE-754 double.
pub const SIGN_MASK: u64 = 0x8000_0000_0000_0000;
/// Bit pattern of `-0.0`.
pub const NEGATIVE_ZERO_BITS: u64 = 0x8000_0000_0000_0000;

/// Bit pattern of `0.0`, the `START` boundary.
pub const START_BITS: u64 = 0;
/// Bit pattern of `1.0`, the `TICK` boundary.
pub const TICK_BITS: u64 = 0x3FF0_0000_0000_0000;
/// Bit pattern of `2.0`, the `END` boundary.
pub const END_BITS: u64 = 0x4000_0000_0000_0000;
/// Bit pattern of `3.0`, the `EXIT` boundary.
pub const EXIT_BITS: u64 = 0x4008_0000_0000_0000;
/// Bit pattern of `4.0`, the exclusive upper bound of the key range.
pub const PHASE_LIMIT_BITS: u64 = 0x4010_0000_0000_0000;

/// Whether `bits` is the pattern of an IEEE-754 double NaN.
pub open spec fn bits_is_nan(bits: u64) -> bool {
    bits & EXPONENT_MASK == EXPONENT_MASK && bits & MANTISSA_MASK != 0
}

/// Whether `bits` has the sign bit set.
pub open spec fn bits_is_negative(bits: u64) -> bool {
    bits & SIGN_MASK != 0
}

/// The bit patterns accepted as phase keys: everything encoding a number
/// `x` with `0 <= x < 4`, NaN excluded, negative zero included.
pub open spec fn bits_in_phase_range(bits: u64) -> bool {
    &&& !bits_is_nan(bits)
    &&& (bits == NEGATIVE_ZERO_BITS || (!bits_is_negative(bits) && bits < PHASE_LIMIT_BITS))
}

/// Canonical form of an accepted pattern: negative zero becomes positive
/// zero, every other pattern stays itself.
pub open spec fn canonical_bits(bits: u64) -> u64 {
    if bits == NEGATIVE_ZERO_BITS {
        0
    } else {
        bits
    }
}

/// Whether `bits` is the canonical pattern of a key in `[0, 4)`: sign bit
/// clear and strictly below the pattern of `4.0`.
pub open spec fn canonical_phase_bits(bits: u64) -> bool {
    bits < PHASE_LIMIT_BITS
}

/// A validated phase key. The wrapped value is the canonical bit pattern of
/// a double in `[0, 4)`; keys order and compare as those patterns do.
#[derive(Debug, Clone, Copy, PartialEq, Eq, Structural)]
pub struct PhaseKey {
    bits: u64,
}

impl View for PhaseKey {
    type V = u64;

    closed spec fn view(&self) -> u64 {
        self.bits
    }
}

impl PhaseKey {
    #[verifier::type_invariant]
    spec fn type_inv(self) -> bool {
        canonical_phase_bits(self.bits)
    }

    /// Validates a raw `f64::to_bits` pattern and returns the key it
    /// encodes, or `InvalidPhase` for NaN and for numbers outside `[0, 4)`.
    pub fn from_bits(bits: u64) -> (r: Result<PhaseKey, SchedulerError>)
        ensures
            bits_in_phase_range(bits) ==> (r matches Ok(k) && k@ == canonical_bits(bits)),
            !bits_in_phase_range(bits) ==> r == Err::<PhaseKey, SchedulerError>(
                SchedulerError::InvalidPhase { bits },
            ),
    {
        if (bits & EXPONENT_MASK) == EXPONENT_MASK && (bits & MANTISSA_MASK) != 0 {
            return Err(SchedulerError::InvalidPhase { bits });
        }
        if bits == NEGATIVE_ZERO_BITS {
            return Ok(PhaseKey { bits: 0 });
        }
        if (bits & SIGN_MASK) == 0 && bits < PHASE_LIMIT_BITS {
            proof {
                assert(bits < PHASE_LIMIT_BITS);
            }
            Ok(PhaseKey { bits })
        } else {
            Err(SchedulerError::InvalidPhase { bits })
        }
    }

    /// The canonical bit pattern of this key.
    pub fn bits(&self) -> (r: u64)
        ensures
            r == self@,
    {
        proof {
            use_type_invariant(self);
        }
        self.bits
    }

    /// The `START` boundary, key `0.0`.
    pub fn start() -> (r: PhaseKey)
        ensures
            r@ == START_BITS,
    {
        PhaseKey { bits: START_BITS }
    }

    /// The `TICK` boundary, key `1.0`.
    pub fn tick() -> (r: PhaseKey)
        ensures
            r@ == TICK_BITS,
    {
        PhaseKey { bits: TICK_BITS }
    }

    /// The `END` boundary, key `2.0`.
    pub fn end() -> (r: PhaseKey)
        ensures
            r@ == END_BITS,
    {
        PhaseKey { bits: END_BITS }
    }

    /// The `EXIT` boundary, key `3.0`.
    pub fn exit() -> (r: PhaseKey)
        ensures
            r@ == EXIT_BITS,
    {
        PhaseKey { bits: EXIT_BITS }
    }

    /// Strict order on keys: the IEEE-754 total order of the numbers they
    /// encode, realised as unsigned order of the canonical patterns.
    pub fn lt(&self, other: &PhaseKey) -> (r: bool)
        ensures
            r == (self@ < other@),
    {
        proof {
            use_type_invariant(self);
            use_type_invariant(other);
        }
        self.bits < other.bits
    }

    /// Non-strict counterpart of [`PhaseKey::lt`].
    pub fn le(&self, other: &PhaseKey) -> (r: bool)
        ensures
            r == (self@ <= other@),
    {
        proof {
            use_type_invariant(self);
            use_type_invariant(other);
        }
        self.bits <= other.bits
    }
}

} // verus!
