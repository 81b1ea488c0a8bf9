//! The hashing capability a key type must supply: a deterministic 64-bit
//! hash and an equality test that agrees with logical equality. Hash quality
//! affects only probe length, never correctness, so no distribution
//! properties are demanded here.

use vstd::prelude::*;

verus! {

pub trait Hashable: Sized {
    /// The hash as a mathematical function of the key value; determinism
    /// comes for free from being a spec function.
    spec fn hash_spec(&self) -> u64;

    /// Produce the 64-bit hash of the key.
    fn hash(&self) -> (r: u64)
        ensures
            r == self.hash_spec(),
    ;

    /// Total equality test, required to agree with logical equality.
    fn key_eq(&self, other: &Self) -> (r: bool)
        ensures
            r == (self == other),
    ;
}

impl Hashable for u32 {
    open spec fn hash_spec(&self) -> u64 {
        *self as u64
    }

    fn hash(&self) -> (r: u64) {
        *self as u64
    }

    fn key_eq(&self, other: &Self) -> (r: bool) {
        *self == *other
    }
}

impl Hashable for i32 {
    open spec fn hash_spec(&self) -> u64 {
        (*self as u64) << 7u64
    }

    fn hash(&self) -> (r: u64) {
        let wide: u64 = #[verifier::truncate] (*self as u64);
        wide << 7u64
    }

    fn key_eq(&self, other: &Self) -> (r: bool) {
        *self == *other
    }
}

impl Hashable for u64 {
    open spec fn hash_spec(&self) -> u64 {
        *self
    }

    fn hash(&self) -> (r: u64) {
        *self
    }

    fn key_eq(&self, other: &Self) -> (r: bool) {
        *self == *other
    }
}

impl Hashable for i64 {
    open spec fn hash_spec(&self) -> u64 {
        *self as u64
    }

    fn hash(&self) -> (r: u64) {
        #[verifier::truncate] (*self as u64)
    }

    fn key_eq(&self, other: &Self) -> (r: bool) {
        *self == *other
    }
}

} // verus!
