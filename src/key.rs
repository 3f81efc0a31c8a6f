//! Keys that the map can hold: each gives a deterministic 64-bit digest and
//! an equality that agrees with equality of values.
use vstd::prelude::*;

verus! {

/// A key type of the map.
pub trait BiKey: Sized {
    /// The digest of this key.
    spec fn digest(&self) -> u64;

    /// Computes the digest.
    fn hash_key(&self) -> (r: u64)
        ensures
            r == self.digest(),
    ;

    /// Compares two keys.
    fn same_key(&self, other: &Self) -> (r: bool)
        ensures
            r == (*self == *other),
    ;
}

/// Multiplier of the Fibonacci digest of small integers.
pub const GOLDEN: u64 = 0x9E37_79B9;

impl BiKey for () {
    open spec fn digest(&self) -> u64 {
        0
    }

    fn hash_key(&self) -> (r: u64) {
        0
    }

    fn same_key(&self, other: &Self) -> (r: bool) {
        true
    }
}

impl BiKey for bool {
    open spec fn digest(&self) -> u64 {
        if *self { 1 } else { 0 }
    }

    fn hash_key(&self) -> (r: u64) {
        if *self { 1 } else { 0 }
    }

    fn same_key(&self, other: &Self) -> (r: bool) {
        *self == *other
    }
}

impl BiKey for u8 {
    open spec fn digest(&self) -> u64 {
        (*self as u64 * GOLDEN) as u64
    }

    fn hash_key(&self) -> (r: u64) {
        *self as u64 * GOLDEN
    }

    fn same_key(&self, other: &Self) -> (r: bool) {
        *self == *other
    }
}

impl BiKey for u16 {
    open spec fn digest(&self) -> u64 {
        (*self as u64 * GOLDEN) as u64
    }

    fn hash_key(&self) -> (r: u64) {
        *self as u64 * GOLDEN
    }

    fn same_key(&self, other: &Self) -> (r: bool) {
        *self == *other
    }
}

impl BiKey for u32 {
    open spec fn digest(&self) -> u64 {
        (*self as u64 * GOLDEN) as u64
    }

    fn hash_key(&self) -> (r: u64) {
        *self as u64 * GOLDEN
    }

    fn same_key(&self, other: &Self) -> (r: bool) {
        *self == *other
    }
}

impl BiKey for u64 {
    open spec fn digest(&self) -> u64 {
        *self ^ (*self >> 29u64)
    }

    fn hash_key(&self) -> (r: u64) {
        *self ^ (*self >> 29u64)
    }

    fn same_key(&self, other: &Self) -> (r: bool) {
        *self == *other
    }
}

impl BiKey for usize {
    open spec fn digest(&self) -> u64 {
        (*self as u64) ^ ((*self as u64) >> 29u64)
    }

    fn hash_key(&self) -> (r: u64) {
        let x: u64 = *self as u64;
        x ^ (x >> 29u64)
    }

    fn same_key(&self, other: &Self) -> (r: bool) {
        *self == *other
    }
}

} // verus!
