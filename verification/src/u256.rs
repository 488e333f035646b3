//! 256-bit node values, held as their 32 big-endian bytes.
//!
//! The all-zero value is the reserved default, standing for an empty leaf or
//! an empty subtree.  Keeping the big-endian byte form as the representation
//! makes the hashing step's serialization the identity, so every operation of
//! the scheme is stated directly over the byte sequence.

use vstd::prelude::*;

verus! {

/// The byte form of the default (empty) node value: 32 zero bytes.
pub open spec fn zero_node() -> Seq<u8> {
    Seq::new(32, |i: int| 0u8)
}

/// The byte form of the 256-bit value of a `u64`: 24 zero bytes, then the
/// 8 bytes of `x`, most significant first.
pub open spec fn u64_node(x: u64) -> Seq<u8> {
    Seq::new(32, |i: int| if i < 24 { 0u8 } else { ((x >> (((31 - i) * 8) as u64)) & 0xff) as u8 })
}

/// A 256-bit unsigned node value.
#[derive(Debug, PartialEq, Eq)]
pub struct U256 {
    bytes: Vec<u8>,
}

impl View for U256 {
    type V = Seq<u8>;

    closed spec fn view(&self) -> Seq<u8> {
        self.bytes@
    }
}

impl U256 {
    #[verifier::type_invariant]
    spec fn inv(self) -> bool {
        self.bytes@.len() == 32
    }

    /// The default (empty) node value.
    pub fn zero() -> (r: U256)
        ensures
            r@ == zero_node(),
    {
        let mut bytes: Vec<u8> = Vec::new();
        let mut i: usize = 0;
        while i < 32
            invariant
                i <= 32,
                bytes@.len() == i,
                forall|j: int| 0 <= j < i ==> bytes@[j] == 0u8,
            decreases 32 - i,
        {
            bytes.push(0u8);
            i += 1;
        }
        proof {
            assert(bytes@ =~= zero_node());
        }
        U256 { bytes }
    }

    /// A node value from its 32 big-endian bytes.
    pub fn from_be_bytes(bytes: Vec<u8>) -> (r: U256)
        requires
            bytes@.len() == 32,
        ensures
            r@ == bytes@,
    {
        U256 { bytes }
    }

    /// A node value from a `u64`, zero-extended to 256 bits.
    pub fn from_u64(x: u64) -> (r: U256)
        ensures
            r@ == u64_node(x),
    {
        let mut bytes: Vec<u8> = Vec::new();
        let mut i: usize = 0;
        while i < 24
            invariant
                i <= 24,
                bytes@.len() == i,
                forall|j: int| 0 <= j < i ==> bytes@[j] == 0u8,
            decreases 24 - i,
        {
            bytes.push(0u8);
            i += 1;
        }
        bytes.push(((x >> 56u64) & 0xff) as u8);
        bytes.push(((x >> 48u64) & 0xff) as u8);
        bytes.push(((x >> 40u64) & 0xff) as u8);
        bytes.push(((x >> 32u64) & 0xff) as u8);
        bytes.push(((x >> 24u64) & 0xff) as u8);
        bytes.push(((x >> 16u64) & 0xff) as u8);
        bytes.push(((x >> 8u64) & 0xff) as u8);
        bytes.push((x & 0xff) as u8);
        proof {
            assert(bytes@ =~= u64_node(x)) by {
                assert(x & 0xff == (x >> 0u64) & 0xff) by (bit_vector);
            }
        }
        U256 { bytes }
    }

    /// The 32 big-endian bytes of the value.
    pub fn as_bytes(&self) -> (r: &Vec<u8>)
        ensures
            r@ == self@,
            r@.len() == 32,
    {
        proof {
            use_type_invariant(self);
        }
        &self.bytes
    }

    /// An owned copy of the value.
    pub fn dup(&self) -> (r: U256)
        ensures
            r@ == self@,
    {
        proof {
            use_type_invariant(self);
        }
        let bytes = self.bytes.clone();
        proof {
            assert(bytes@ =~= self.bytes@);
        }
        U256 { bytes }
    }

    /// Whether this is the default (empty) node value.
    pub fn is_zero(&self) -> (b: bool)
        ensures
            b == (self@ == zero_node()),
    {
        proof {
            use_type_invariant(self);
        }
        let mut i: usize = 0;
        while i < 32
            invariant
                i <= 32,
                self@.len() == 32,
                forall|j: int| 0 <= j < i ==> self@[j] == 0u8,
            decreases 32 - i,
        {
            if self.bytes[i] != 0 {
                proof {
                    assert(self@[i as int] != zero_node()[i as int]);
                }
                return false;
            }
            i += 1;
        }
        proof {
            assert(self@ =~= zero_node());
        }
        true
    }

    /// Whether two node values are equal.
    pub fn eq_val(&self, other: &U256) -> (b: bool)
        ensures
            b == (self@ == other@),
    {
        proof {
            use_type_invariant(self);
            use_type_invariant(other);
        }
        let mut i: usize = 0;
        while i < 32
            invariant
                i <= 32,
                self@.len() == 32,
                other@.len() == 32,
                forall|j: int| 0 <= j < i ==> self@[j] == other@[j],
            decreases 32 - i,
        {
            if self.bytes[i] != other.bytes[i] {
                proof {
                    assert(self@[i as int] != other@[i as int]);
                }
                return false;
            }
            i += 1;
        }
        proof {
            assert(self@ =~= other@);
        }
        true
    }
}

} // verus!
