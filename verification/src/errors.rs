//! The ways a batch verification can be refused.
//!
//! Structural errors are raised before any cryptographic work; a missing
//! proof level aborts the reduction; a root mismatch is a verification
//! failure proper and carries both the computed and the claimed value.

use vstd::prelude::*;
use crate::u256::U256;

verus! {

/// Why a reduction or a batch verification failed.
#[derive(Debug, PartialEq, Eq)]
pub enum VerifyError {
    /// The batch's keys and values differ in number.
    LengthMismatch,
    /// The batch holds no keys.
    EmptyBatch,
    /// The sibling proof does not hold exactly `depth` levels.
    ProofLengthMismatch,
    /// The tree depth is zero.
    ZeroDepth,
    /// The sibling proof holds no map for the named level, counted from the
    /// leaf level upward.
    MissingLevel(u32),
    /// The root reduced from all-default leaves differs from the claimed
    /// old root.
    Root1Mismatch { computed: U256, expected: U256 },
    /// The root reduced from the filled leaves differs from the claimed
    /// new root.
    Root2Mismatch { computed: U256, expected: U256 },
}

} // verus!
