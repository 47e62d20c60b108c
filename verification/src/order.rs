//! How keys and values are ordered.
//!
//! Every ordering in this crate is a total preorder that can be read off an
//! integer: [`HeapKey::key_rank`] for keys ordered by themselves, and
//! [`Comparator::rank`] for orders supplied as a separate comparator.  Smaller
//! ranks have higher priority, so every heap here is a min-heap of ranks.
use core::cmp::Ordering;
use vstd::prelude::*;

verus! {

/// A key with a total order, as used by every heap in this crate.
///
/// Equal ranks mean equal priority; duplicates are permitted.
pub trait HeapKey: Sized {
    /// The integer that this key's order is read from.
    spec fn key_rank(&self) -> int;

    /// Whether `self` sorts no later than `other`.
    fn key_le(&self, other: &Self) -> (result: bool)
        ensures
            result == (self.key_rank() <= other.key_rank()),
    ;

    /// Whether `self` sorts strictly before `other`.
    fn key_lt(&self, other: &Self) -> (result: bool)
        ensures
            result == (self.key_rank() < other.key_rank()),
    ;
}

impl HeapKey for i32 {
    open spec fn key_rank(&self) -> int {
        *self as int
    }

    fn key_le(&self, other: &Self) -> (result: bool) {
        *self <= *other
    }

    fn key_lt(&self, other: &Self) -> (result: bool) {
        *self < *other
    }
}

impl HeapKey for i8 {
    open spec fn key_rank(&self) -> int {
        *self as int
    }

    fn key_le(&self, other: &Self) -> (result: bool) {
        *self <= *other
    }

    fn key_lt(&self, other: &Self) -> (result: bool) {
        *self < *other
    }
}

impl HeapKey for i16 {
    open spec fn key_rank(&self) -> int {
        *self as int
    }

    fn key_le(&self, other: &Self) -> (result: bool) {
        *self <= *other
    }

    fn key_lt(&self, other: &Self) -> (result: bool) {
        *self < *other
    }
}

impl HeapKey for i128 {
    open spec fn key_rank(&self) -> int {
        *self as int
    }

    fn key_le(&self, other: &Self) -> (result: bool) {
        *self <= *other
    }

    fn key_lt(&self, other: &Self) -> (result: bool) {
        *self < *other
    }
}

impl HeapKey for isize {
    open spec fn key_rank(&self) -> int {
        *self as int
    }

    fn key_le(&self, other: &Self) -> (result: bool) {
        *self <= *other
    }

    fn key_lt(&self, other: &Self) -> (result: bool) {
        *self < *other
    }
}

impl HeapKey for u8 {
    open spec fn key_rank(&self) -> int {
        *self as int
    }

    fn key_le(&self, other: &Self) -> (result: bool) {
        *self <= *other
    }

    fn key_lt(&self, other: &Self) -> (result: bool) {
        *self < *other
    }
}

impl HeapKey for u16 {
    open spec fn key_rank(&self) -> int {
        *self as int
    }

    fn key_le(&self, other: &Self) -> (result: bool) {
        *self <= *other
    }

    fn key_lt(&self, other: &Self) -> (result: bool) {
        *self < *other
    }
}

impl HeapKey for u128 {
    open spec fn key_rank(&self) -> int {
        *self as int
    }

    fn key_le(&self, other: &Self) -> (result: bool) {
        *self <= *other
    }

    fn key_lt(&self, other: &Self) -> (result: bool) {
        *self < *other
    }
}

impl HeapKey for char {
    open spec fn key_rank(&self) -> int {
        *self as int
    }

    fn key_le(&self, other: &Self) -> (result: bool) {
        *self <= *other
    }

    fn key_lt(&self, other: &Self) -> (result: bool) {
        *self < *other
    }
}

impl HeapKey for i64 {
    open spec fn key_rank(&self) -> int {
        *self as int
    }

    fn key_le(&self, other: &Self) -> (result: bool) {
        *self <= *other
    }

    fn key_lt(&self, other: &Self) -> (result: bool) {
        *self < *other
    }
}

impl HeapKey for u32 {
    open spec fn key_rank(&self) -> int {
        *self as int
    }

    fn key_le(&self, other: &Self) -> (result: bool) {
        *self <= *other
    }

    fn key_lt(&self, other: &Self) -> (result: bool) {
        *self < *other
    }
}

impl HeapKey for u64 {
    open spec fn key_rank(&self) -> int {
        *self as int
    }

    fn key_le(&self, other: &Self) -> (result: bool) {
        *self <= *other
    }

    fn key_lt(&self, other: &Self) -> (result: bool) {
        *self < *other
    }
}

impl HeapKey for usize {
    open spec fn key_rank(&self) -> int {
        *self as int
    }

    fn key_le(&self, other: &Self) -> (result: bool) {
        *self <= *other
    }

    fn key_lt(&self, other: &Self) -> (result: bool) {
        *self < *other
    }
}

/// A key whose priority order is the reverse of the wrapped key's.
///
/// Wrapping keys in `Reverse` turns any min-oriented heap of this crate into
/// a max-oriented one.
#[derive(Clone, Copy, Debug, PartialEq, Eq, Hash)]
pub struct Reverse<K>(pub K);

impl<K: HeapKey> HeapKey for Reverse<K> {
    open spec fn key_rank(&self) -> int {
        -self.0.key_rank()
    }

    fn key_le(&self, other: &Self) -> (result: bool) {
        other.0.key_le(&self.0)
    }

    fn key_lt(&self, other: &Self) -> (result: bool) {
        other.0.key_lt(&self.0)
    }
}

/// Defines the ordering used by a heap.
pub trait Comparator<T> {
    /// The integer that the comparator reads `value`'s priority from.
    spec fn rank(&self, value: T) -> int;

    /// Returns the order of `left` relative to `right`.
    fn compare(&self, left: &T, right: &T) -> (result: Ordering)
        ensures
            match result {
                Ordering::Less => self.rank(*left) < self.rank(*right),
                Ordering::Equal => self.rank(*left) == self.rank(*right),
                Ordering::Greater => self.rank(*left) > self.rank(*right),
            },
    ;
}

/// Comparator that orders values by their own [`HeapKey`] order.
#[derive(Clone, Copy, Debug, Default, PartialEq, Eq)]
pub struct NaturalOrder;

impl<T: HeapKey> Comparator<T> for NaturalOrder {
    open spec fn rank(&self, value: T) -> int {
        value.key_rank()
    }

    fn compare(&self, left: &T, right: &T) -> (result: Ordering) {
        if left.key_lt(right) {
            Ordering::Less
        } else if right.key_lt(left) {
            Ordering::Greater
        } else {
            Ordering::Equal
        }
    }
}

/// Whether `compare` puts `left` strictly before `right`.
pub fn precedes<T, C: Comparator<T>>(compare: &C, left: &T, right: &T) -> (result: bool)
    ensures
        result == (compare.rank(*left) < compare.rank(*right)),
{
    match compare.compare(left, right) {
        Ordering::Less => true,
        Ordering::Equal => false,
        Ordering::Greater => false,
    }
}

/// Whether `compare` puts `left` strictly after `right`.
pub fn follows<T, C: Comparator<T>>(compare: &C, left: &T, right: &T) -> (result: bool)
    ensures
        result == (compare.rank(*left) > compare.rank(*right)),
{
    match compare.compare(left, right) {
        Ordering::Less => false,
        Ordering::Equal => false,
        Ordering::Greater => true,
    }
}

} // verus!
