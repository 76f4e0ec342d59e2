//! Subset-digest accumulators.
//!
//! A router keeps a compact, keyed, order-independent summary (an
//! *accumulator*) of every packet it forwards.  A verifier that holds the
//! full packet log can later ask whether the multiset of packets the router
//! processed is a subset of the log, and, when it is, recover the indices of
//! the dropped packets.  Four accumulator variants are provided: naive
//! (combinatorial), power-sum (algebraic over a prime field), counting Bloom
//! filter, and invertible Bloom lookup table.

pub mod cbf;
pub mod cbf_acc;
pub mod digest;
pub mod field;
pub mod hashing;
pub mod iblt;
pub mod iblt_acc;
pub mod logs;
pub mod naive;
pub mod power_sum;
pub mod seqsum;
pub mod serial;
pub mod solver;
pub mod valuevec;

pub use cbf_acc::CBFAccumulator;
pub use iblt_acc::IBLTAccumulator;
pub use naive::NaiveAccumulator;
pub use power_sum::PowerSumAccumulator;

use vstd::prelude::*;

verus! {

/// The verdict of validating an accumulator against a candidate log.
///
/// Variants that carry a `Vec<usize>` assert a subset witness: the indices
/// (into the candidate log) of the elements the accumulator did not process.
#[derive(Debug)]
pub enum ValidationResult {
    /// Clean subset witness.
    Valid(Vec<usize>),
    /// Proven not a subset.
    Invalid,
    /// Power-sum roots collided with candidate values, but a witness exists.
    PsumCollisionsValid(Vec<usize>),
    /// Power-sum roots collided and no witness exists.
    PsumCollisionsInvalid,
    /// More elements were lost than the power-sum threshold; undetermined.
    PsumExceedsThreshold,
    /// The difference polynomial did not fully split over the candidates.
    PsumErrorFindingRoots,
    /// IBLT counters wrapped although the loss count made that possible;
    /// undetermined, retry with wider counters.
    IbltBenignWraparound,
    /// IBLT counters disagree although wraparound was impossible.
    IbltMaliciousWraparound,
    /// Peeling succeeded but observed DJB hash collisions.
    IbltCollisionsValid(Vec<usize>),
    /// Peeling observed DJB hash collisions and the digest did not match.
    IbltCollisionsInvalid,
    /// The ILP fallback produced a digest-verified witness.
    IbltIlpValid(Vec<usize>),
    /// The ILP fallback failed or its witness did not match the digest.
    IbltIlpInvalid,
    /// ILP fallback witness with DJB hash collisions.
    IbltIlpCollisionsValid(Vec<usize>),
    /// ILP fallback failure with DJB hash collisions.
    IbltIlpCollisionsInvalid,
}

impl ValidationResult {
    /// Whether the verdict asserts a subset witness.
    pub open spec fn spec_is_valid(&self) -> bool {
        match self {
            ValidationResult::Valid(_) => true,
            ValidationResult::PsumCollisionsValid(_) => true,
            ValidationResult::IbltCollisionsValid(_) => true,
            ValidationResult::IbltIlpValid(_) => true,
            ValidationResult::IbltIlpCollisionsValid(_) => true,
            _ => false,
        }
    }

    /// Whether the verdict asserts a subset witness.
    pub fn is_valid(&self) -> (r: bool)
        ensures
            r == self.spec_is_valid(),
    {
        match self {
            ValidationResult::Valid(_) => true,
            ValidationResult::PsumCollisionsValid(_) => true,
            ValidationResult::IbltCollisionsValid(_) => true,
            ValidationResult::IbltIlpValid(_) => true,
            ValidationResult::IbltIlpCollisionsValid(_) => true,
            _ => false,
        }
    }

    /// Whether the verdict decides nothing; callers should retry with
    /// larger parameters.
    pub open spec fn spec_is_undetermined(&self) -> bool {
        match self {
            ValidationResult::PsumExceedsThreshold => true,
            ValidationResult::IbltBenignWraparound => true,
            _ => false,
        }
    }

    /// Whether the verdict came out of the exact-cover fallback.
    pub open spec fn spec_is_ilp(&self) -> bool {
        match self {
            ValidationResult::IbltIlpValid(_) => true,
            ValidationResult::IbltIlpInvalid => true,
            ValidationResult::IbltIlpCollisionsValid(_) => true,
            ValidationResult::IbltIlpCollisionsInvalid => true,
            _ => false,
        }
    }

    /// Whether the verdict came out of the exact-cover fallback.
    pub fn is_ilp(&self) -> (r: bool)
        ensures
            r == self.spec_is_ilp(),
    {
        match self {
            ValidationResult::IbltIlpValid(_) => true,
            ValidationResult::IbltIlpInvalid => true,
            ValidationResult::IbltIlpCollisionsValid(_) => true,
            ValidationResult::IbltIlpCollisionsInvalid => true,
            _ => false,
        }
    }

    /// Whether hash collisions were observed while recovering the witness.
    pub open spec fn spec_is_collisions(&self) -> bool {
        match self {
            ValidationResult::PsumCollisionsValid(_) => true,
            ValidationResult::PsumCollisionsInvalid => true,
            ValidationResult::IbltCollisionsValid(_) => true,
            ValidationResult::IbltCollisionsInvalid => true,
            ValidationResult::IbltIlpCollisionsValid(_) => true,
            ValidationResult::IbltIlpCollisionsInvalid => true,
            _ => false,
        }
    }

    /// Whether hash collisions were observed while recovering the witness.
    pub fn is_collisions(&self) -> (r: bool)
        ensures
            r == self.spec_is_collisions(),
    {
        match self {
            ValidationResult::PsumCollisionsValid(_) => true,
            ValidationResult::PsumCollisionsInvalid => true,
            ValidationResult::IbltCollisionsValid(_) => true,
            ValidationResult::IbltCollisionsInvalid => true,
            ValidationResult::IbltIlpCollisionsValid(_) => true,
            ValidationResult::IbltIlpCollisionsInvalid => true,
            _ => false,
        }
    }

    /// Whether the verdict decides nothing; callers should retry with
    /// larger parameters.
    pub fn is_undetermined(&self) -> (r: bool)
        ensures
            r == self.spec_is_undetermined(),
    {
        match self {
            ValidationResult::PsumExceedsThreshold => true,
            ValidationResult::IbltBenignWraparound => true,
            _ => false,
        }
    }
}

} // verus!
