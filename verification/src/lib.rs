//! Verification core for sparse-Merkle non-deletion batch updates.
//!
//! A batch update claims that a set of previously-empty leaf slots of a
//! sparse Merkle tree were filled with new values, moving the tree's root
//! from `old_root` to `new_root` while touching nothing else.  The library
//! reduces the batch bottom-up against a per-level sibling proof, once with
//! all-default leaves and once with the supplied values, and checks the two
//! resulting roots against the claim.

pub mod errors;
pub mod forest;
pub mod hash;
pub mod sibling_map;
pub mod u256;
pub mod verify;
