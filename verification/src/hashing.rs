//! The hashing capability: a key type turns itself into a 64-bit hash.
use vstd::prelude::*;

verus! {

/// A key type usable with the table: it can hash itself and decide equality.
///
/// `hash_spec` is the mathematical hash, a pure function of the key's value;
/// `hash` must compute exactly that, and `key_eq` must decide spec equality.
pub trait Hashable: Sized {
    /// The hash of this key as a mathematical function of its value.
    spec fn hash_spec(self) -> u64;

    /// Compute the hash of this key.
    fn hash(&self) -> (h: u64)
        ensures
            h == self.hash_spec(),
    ;

    /// Decide whether two keys are equal.
    fn key_eq(&self, other: &Self) -> (eq: bool)
        ensures
            eq == (*self == *other),
    ;
}

impl Hashable for i32 {
    /// The key's bit pattern, sign-extended to 64 bits and read as unsigned.
    open spec fn hash_spec(self) -> u64 {
        if self >= 0 {
            self as u64
        } else {
            (self + 0x1_0000_0000_0000_0000) as u64
        }
    }

    fn hash(&self) -> (h: u64) {
        if *self >= 0 {
            *self as u64
        } else {
            let magnitude: u64 = (-(*self as i64)) as u64;
            u64::MAX - magnitude + 1
        }
    }

    fn key_eq(&self, other: &Self) -> (eq: bool) {
        *self == *other
    }
}

impl Hashable for i64 {
    /// The key's bit pattern read as unsigned.
    open spec fn hash_spec(self) -> u64 {
        if self >= 0 {
            self as u64
        } else {
            (self + 0x1_0000_0000_0000_0000) as u64
        }
    }

    fn hash(&self) -> (h: u64) {
        if *self >= 0 {
            *self as u64
        } else {
            let magnitude: u64 = (-(*self as i128)) as u64;
            u64::MAX - magnitude + 1
        }
    }

    fn key_eq(&self, other: &Self) -> (eq: bool) {
        *self == *other
    }
}

} // verus!
