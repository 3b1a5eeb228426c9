//! The hash functions that a Merkle tree is built from.
use vstd::prelude::*;

verus! {

/// Number of field elements in an algebraic digest.
pub const NUM_HASH_OUT_ELTS: usize = 4;

/// The families of hash functions that the device knows.
#[derive(Copy, Clone, Debug, PartialEq, Eq, Structural)]
pub enum HasherType {
    Poseidon,
    Keccak,
    PoseidonBN128,
}

impl HasherType {
    /// The number by which the device knows the family.
    pub open spec fn spec_code(self) -> u64 {
        match self {
            HasherType::Poseidon => 0,
            HasherType::Keccak => 1,
            HasherType::PoseidonBN128 => 2,
        }
    }

    /// The number by which the device knows the family.
    pub fn code(self) -> (r: u64)
        ensures
            r == self.spec_code(),
    {
        match self {
            HasherType::Poseidon => 0,
            HasherType::Keccak => 1,
            HasherType::PoseidonBN128 => 2,
        }
    }
}

/// A hash function on sequences of `F` together with its two-to-one compression.
///
/// Implementors are pure functions: each method returns what its specification
/// function says of the arguments. An implementor outside of verified code may leave the
/// specification functions out. It must then be deterministic, so that they can stand for
/// what its methods return on equal arguments.
pub trait Hasher<F>: Sized {
    /// A digest.
    type Hash: Copy;

    /// The family that this hash function belongs to.
    closed spec fn spec_hasher_type() -> HasherType {
        arbitrary()
    }

    /// Number of bytes of a digest.
    closed spec fn spec_hash_size() -> nat {
        arbitrary()
    }

    /// The digest of a leaf.
    closed spec fn spec_hash_or_noop(input: Seq<F>) -> Self::Hash {
        arbitrary()
    }

    /// The digest of two digests.
    closed spec fn spec_two_to_one(left: Self::Hash, right: Self::Hash) -> Self::Hash {
        arbitrary()
    }

    /// The digest that is written as `bytes`.
    closed spec fn spec_hash_from_bytes(bytes: Seq<u8>) -> Self::Hash {
        arbitrary()
    }

    /// The family that this hash function belongs to.
    fn hasher_type() -> (r: HasherType)
        ensures
            r == Self::spec_hasher_type(),
    ;

    /// Number of bytes of a digest.
    fn hash_size() -> (r: usize)
        ensures
            r == Self::spec_hash_size(),
    ;

    /// Hashes a leaf.
    fn hash_or_noop(input: &[F]) -> (r: Self::Hash)
        ensures
            r == Self::spec_hash_or_noop(input@),
    ;

    /// Compresses two digests into one.
    fn two_to_one(left: Self::Hash, right: Self::Hash) -> (r: Self::Hash)
        ensures
            r == Self::spec_two_to_one(left, right),
    ;

    /// Reads a digest from its bytes.
    fn hash_from_bytes(bytes: &[u8]) -> (r: Self::Hash)
        requires
            bytes@.len() == Self::spec_hash_size(),
        ensures
            r == Self::spec_hash_from_bytes(bytes@),
    ;
}

} // verus!
