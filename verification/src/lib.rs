//! A fixed-capacity cache that evicts the entry touched longest ago.
//!
//! Two caches share one recency discipline. [`shared_hash::DhCache`] hashes a
//! key once, keeps that fingerprint beside the entry and answers every later
//! question about the entry from the fingerprint. [`double_key::LRUCache`]
//! keeps a second copy of each key beside its recency record instead.
use vstd::prelude::*;
use std::hash::Hash;

pub mod double_key;
pub mod model;
pub mod recency;
pub mod shared_hash;

verus! {

/// A counter that stamps entries in the order in which they were touched.
///
/// A smaller stamp is an older touch. The widths differ only in how many
/// stamps they hold before the cache has to renumber its entries.
pub trait InsertionIndex: Ord + Copy + Hash {
    /// The first stamp that a cache hands out.
    const ZERO: Self;

    /// Maximum index.
    const MAX: Self;

    /// The stamp as a number.
    spec fn value(&self) -> nat;

    /// Stamps are numbers: `ZERO` is 0, no stamp lies above `MAX`, and two
    /// stamps with one number are one stamp.
    proof fn stamps_are_numbers(a: Self, b: Self)
        ensures
            Self::ZERO.value() == 0,
            a.value() <= Self::MAX.value(),
            a.value() == b.value() ==> a == b,
    ;

    /// Advances the stamp by one.
    fn increment(&mut self)
        requires
            old(self).value() < Self::MAX.value(),
        ensures
            final(self).value() == old(self).value() + 1,
    ;

    /// Whether a cache of `size` entries can give each entry a stamp of its
    /// own: true exactly when `size` does not exceed `MAX`.
    fn accommodates(size: usize) -> (fits: bool)
        ensures
            fits == (size <= Self::MAX.value()),
    ;

    /// Whether this stamp is older than `other`.
    fn precedes(&self, other: &Self) -> (older: bool)
        ensures
            older == (self.value() < other.value()),
    ;
}

impl InsertionIndex for u8 {
    const ZERO: Self = 0;

    const MAX: Self = u8::MAX;

    open spec fn value(&self) -> nat {
        *self as nat
    }

    proof fn stamps_are_numbers(a: Self, b: Self) {
    }

    fn increment(&mut self) {
        *self += 1;
    }

    fn accommodates(size: usize) -> (fits: bool) {
        size <= u8::MAX as usize
    }

    fn precedes(&self, other: &Self) -> (older: bool) {
        *self < *other
    }
}

impl InsertionIndex for u16 {
    const ZERO: Self = 0;

    const MAX: Self = u16::MAX;

    open spec fn value(&self) -> nat {
        *self as nat
    }

    proof fn stamps_are_numbers(a: Self, b: Self) {
    }

    fn increment(&mut self) {
        *self += 1;
    }

    fn accommodates(size: usize) -> (fits: bool) {
        size <= u16::MAX as usize
    }

    fn precedes(&self, other: &Self) -> (older: bool) {
        *self < *other
    }
}

impl InsertionIndex for u32 {
    const ZERO: Self = 0;

    const MAX: Self = u32::MAX;

    open spec fn value(&self) -> nat {
        *self as nat
    }

    proof fn stamps_are_numbers(a: Self, b: Self) {
    }

    fn increment(&mut self) {
        *self += 1;
    }

    fn accommodates(size: usize) -> (fits: bool) {
        size as u64 <= u32::MAX as u64
    }

    fn precedes(&self, other: &Self) -> (older: bool) {
        *self < *other
    }
}

impl InsertionIndex for u64 {
    const ZERO: Self = 0;

    const MAX: Self = u64::MAX;

    open spec fn value(&self) -> nat {
        *self as nat
    }

    proof fn stamps_are_numbers(a: Self, b: Self) {
    }

    fn increment(&mut self) {
        *self += 1;
    }

    fn accommodates(size: usize) -> (fits: bool) {
        size as u64 <= u64::MAX
    }

    fn precedes(&self, other: &Self) -> (older: bool) {
        *self < *other
    }
}

impl InsertionIndex for u128 {
    const ZERO: Self = 0;

    const MAX: Self = u128::MAX;

    open spec fn value(&self) -> nat {
        *self as nat
    }

    proof fn stamps_are_numbers(a: Self, b: Self) {
    }

    fn increment(&mut self) {
        *self += 1;
    }

    fn accommodates(size: usize) -> (fits: bool) {
        size as u128 <= u128::MAX
    }

    fn precedes(&self, other: &Self) -> (older: bool) {
        *self < *other
    }
}

} // verus!
