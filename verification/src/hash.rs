//! The hash-combination primitive of the sparse Merkle scheme.
//!
//! Two child node values are combined into their parent's value.  The
//! default (all-zero) value acts as an identity on either side, so empty
//! subtrees never need materialized internal hashes; only when both children
//! are non-default is a real digest taken, over the concatenation of their
//! 32-byte big-endian forms.
//!
//! The scheme assumes a legitimately computed digest is never exactly the
//! default value; with a 256-bit digest this fails only with negligible
//! probability and is treated as unconditional.

use vstd::prelude::*;
use sha2::Digest;
use crate::u256::{U256, zero_node};

verus! {

/// The SHA-256 digest of a byte sequence.  The digest is a fixed function
/// of the input bytes; its definition is left to the hash implementation.
pub uninterp spec fn sha256_of(data: Seq<u8>) -> Seq<u8>;

/// Relies on sha2's `Sha256` through the `Digest` trait: a one-shot SHA-256
/// digest of `data`, 32 bytes long, depending on the input bytes alone.
#[verifier::external_body]
fn sha256(data: &Vec<u8>) -> (r: Vec<u8>)
    ensures
        r@ == sha256_of(data@),
        r@.len() == 32,
{
    let mut hasher = sha2::Sha256::new();
    hasher.update(data.as_slice());
    hasher.finalize().to_vec()
}

/// The parent value of two child node values: the default value passes the
/// other child through unchanged; otherwise the SHA-256 digest of the two
/// concatenated 32-byte big-endian child values.
pub open spec fn combine(left: Seq<u8>, right: Seq<u8>) -> Seq<u8> {
    if left == zero_node() {
        right
    } else if right == zero_node() {
        left
    } else {
        sha256_of(left + right)
    }
}

/// The default value is an identity of `combine` on either side, for every
/// value `x`, the default value itself included.
pub proof fn lemma_combine_zero_identity(x: Seq<u8>)
    ensures
        combine(x, zero_node()) == x,
        combine(zero_node(), x) == x,
{
}

/// Combination is stable: it has no hidden state, so any two results
/// obtained for the same pair of operands are the same value.  The
/// executable primitive ensures its result equals `combine` of its
/// operands, which pins repeated calls to one value.
pub proof fn lemma_combine_stable(a: Seq<u8>, b: Seq<u8>, r1: Seq<u8>, r2: Seq<u8>)
    requires
        r1 == combine(a, b),
        r2 == combine(a, b),
    ensures
        r1 == r2,
{
}

/// Appends the bytes of `src` to `dst`.
fn append_bytes(dst: &mut Vec<u8>, src: &Vec<u8>)
    ensures
        final(dst)@ == old(dst)@ + src@,
{
    let n = src.len();
    let mut i: usize = 0;
    while i < n
        invariant
            i <= n,
            n == src@.len(),
            dst@ == old(dst)@ + src@.subrange(0, i as int),
        decreases n - i,
    {
        dst.push(src[i]);
        proof {
            assert(dst@ =~= old(dst)@ + src@.subrange(0, i + 1));
        }
        i += 1;
    }
    proof {
        assert(old(dst)@ + src@.subrange(0, n as int) =~= old(dst)@ + src@);
    }
}

/// The executable combination primitive.
pub fn hash2(left: &U256, right: &U256) -> (r: U256)
    ensures
        r@ == combine(left@, right@),
{
    if left.is_zero() {
        return right.dup();
    }
    if right.is_zero() {
        return left.dup();
    }
    let mut data: Vec<u8> = Vec::new();
    append_bytes(&mut data, left.as_bytes());
    append_bytes(&mut data, right.as_bytes());
    proof {
        assert(data@ =~= left@ + right@);
    }
    let digest = sha256(&data);
    U256::from_be_bytes(digest)
}

} // verus!
