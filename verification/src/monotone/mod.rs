//! Monotone radix heaps for unsigned integer keys.
//!
//! A radix heap is efficient when items are removed in nondecreasing key
//! order, such as in Dijkstra's algorithm.  A key inserted after an item has
//! been removed must be no smaller than that last removed key.  Insertion
//! and key decreases report violations of these constraints through
//! [`RadixHeapError`] rather than panicking.
use vstd::prelude::*;

use crate::error::{DecreaseKeyError, InvalidHandle};

pub mod buckets;
pub mod radix;
mod radix_heap;
mod addressable_radix_heap;

pub use radix_heap::{U32RadixHeap, U64RadixHeap};
pub use addressable_radix_heap::{RadixHandle, U32RadixAddressableHeap, U64RadixAddressableHeap};

verus! {

/// A key or bounds error reported by a monotone radix heap.
#[derive(Clone, Copy, Debug, PartialEq, Eq)]
pub enum RadixHeapError {
    /// The supplied lower and upper bounds do not define a supported range.
    InvalidRange,
    /// A key was outside the bounds supplied when constructing the heap.
    KeyOutOfRange,
    /// A key was less than the most recently removed key.
    MonotonicityViolation,
    /// The key range would require more buckets than this platform can index.
    TooManyBuckets,
}

impl RadixHeapError {
    /// The description that [`Self::message`] gives of this error.
    pub open spec fn description(&self) -> Seq<char> {
        match self {
            RadixHeapError::InvalidRange => "invalid radix heap key range"@,
            RadixHeapError::KeyOutOfRange => "key is outside the heap's configured range"@,
            RadixHeapError::MonotonicityViolation => "key is less than the last key removed from this monotone heap"@,
            RadixHeapError::TooManyBuckets => "radix heap key range requires too many buckets"@,
        }
    }

    /// A human-readable description of the error.
    pub fn message(&self) -> (text: &'static str)
        ensures
            text@ == self.description(),
    {
        match self {
            RadixHeapError::InvalidRange => "invalid radix heap key range",
            RadixHeapError::KeyOutOfRange => "key is outside the heap's configured range",
            RadixHeapError::MonotonicityViolation => "key is less than the last key removed from this monotone heap",
            RadixHeapError::TooManyBuckets => "radix heap key range requires too many buckets",
        }
    }
}

/// An error returned by an addressable radix heap key decrease.
#[derive(Clone, Copy, Debug, PartialEq, Eq)]
pub enum RadixDecreaseKeyError {
    /// The handle was stale or belongs to another heap.
    InvalidHandle(InvalidHandle),
    /// The proposed key was greater than the entry's existing key.
    NotDecreased,
    /// The proposed key violated the radix heap's range or monotonicity
    /// restriction.
    Radix(RadixHeapError),
}

impl RadixDecreaseKeyError {
    /// The description that [`Self::message`] gives of this error.
    pub open spec fn description(&self) -> Seq<char> {
        match self {
            RadixDecreaseKeyError::InvalidHandle(error) => error.description(),
            RadixDecreaseKeyError::NotDecreased => "new key must not be greater than the old key"@,
            RadixDecreaseKeyError::Radix(error) => error.description(),
        }
    }

    /// A human-readable description of the error.
    pub fn message(&self) -> (text: &'static str)
        ensures
            text@ == self.description(),
    {
        match self {
            RadixDecreaseKeyError::InvalidHandle(error) => error.message(),
            RadixDecreaseKeyError::NotDecreased => "new key must not be greater than the old key",
            RadixDecreaseKeyError::Radix(error) => error.message(),
        }
    }

    /// The shared key-decrease error that this error corresponds to.
    pub fn to_decrease_key_error(&self) -> (result: DecreaseKeyError)
        ensures
            match *self {
                RadixDecreaseKeyError::InvalidHandle(e) => result == DecreaseKeyError::InvalidHandle(e),
                RadixDecreaseKeyError::NotDecreased => result == DecreaseKeyError::NotDecreased,
                RadixDecreaseKeyError::Radix(_) => result == DecreaseKeyError::InvalidKey,
            },
    {
        match self {
            RadixDecreaseKeyError::InvalidHandle(error) => DecreaseKeyError::InvalidHandle(*error),
            RadixDecreaseKeyError::NotDecreased => DecreaseKeyError::NotDecreased,
            RadixDecreaseKeyError::Radix(_) => DecreaseKeyError::InvalidKey,
        }
    }
}

} // verus!
