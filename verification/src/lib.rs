//! Heap and priority-queue data structures.
//!
//! Array, tree, double-ended, addressable, meldable and monotone heaps
//! behind a small set of common traits.  Every trait states its
//! behaviour over a mathematical view: a multiset of values for plain heaps,
//! and a map from live handles to entries for addressable heaps.
use vstd::multiset::Multiset;
use vstd::prelude::*;

pub mod array;
pub mod error;
pub mod key_multiset;
pub mod laws;
pub mod monotone;
pub mod order;
pub mod std_support;
pub mod tree;

pub use error::{DecreaseKeyError, IncreaseKeyError, InvalidHandle};
pub use order::{Comparator, HeapKey, NaturalOrder, Reverse};

verus! {

/// `value` is in `items` and no item has a smaller priority.
pub open spec fn least_in<T>(items: Multiset<T>, value: T, priority: spec_fn(T) -> int) -> bool {
    &&& items.contains(value)
    &&& forall|other: T| items.contains(other) ==> priority(value) <= priority(other)
}

/// `value` is in `items` and no item has a greater priority.
pub open spec fn greatest_in<T>(items: Multiset<T>, value: T, priority: spec_fn(T) -> int) -> bool {
    &&& items.contains(value)
    &&& forall|other: T| items.contains(other) ==> priority(other) <= priority(value)
}

/// `handle` is live in `live` and no live entry has a smaller key priority.
pub open spec fn least_entry<H, K, V>(
    live: Map<H, (K, V)>,
    handle: H,
    priority: spec_fn(K) -> int,
) -> bool {
    &&& live.contains_key(handle)
    &&& forall|other: H| live.contains_key(other) ==> priority(live[handle].0) <= priority(live[other].0)
}

/// `handle` is live in `live` and no live entry has a greater key priority.
pub open spec fn greatest_entry<H, K, V>(
    live: Map<H, (K, V)>,
    handle: H,
    priority: spec_fn(K) -> int,
) -> bool {
    &&& live.contains_key(handle)
    &&& forall|other: H| live.contains_key(other) ==> priority(live[other].0) <= priority(live[handle].0)
}

/// The outcome of checking a handle: foreign handles are reported as such,
/// handles of this heap whose entry is gone are stale, and the rest succeed.
pub open spec fn checked<X>(owned: bool, live: bool, result: Result<X, InvalidHandle>) -> bool {
    match result {
        Ok(_) => owned && live,
        Err(InvalidHandle::ForeignHeap) => !owned,
        Err(InvalidHandle::Stale) => owned && !live,
    }
}

/// The common interface implemented by min-oriented heaps.
pub trait Heap<T>: Sized {
    /// The heap's internal invariant.
    spec fn well_formed(&self) -> bool;

    /// The values currently in the heap.
    spec fn items(&self) -> Multiset<T>;

    /// The priority of `value` under the heap's ordering; smaller is first.
    spec fn priority(&self, value: T) -> int;

    /// Whether the heap still takes new values; a heap consumed as a meld
    /// donor does not.
    spec fn accepts_push(&self) -> bool;

    /// Inserts `value` into the heap.
    fn push(&mut self, value: T)
        requires
            old(self).well_formed(),
            old(self).accepts_push(),
            old(self).items().len() < usize::MAX,
        ensures
            final(self).well_formed(),
            final(self).accepts_push(),
            final(self).items() == old(self).items().insert(value),
            forall|t: T| final(self).priority(t) == old(self).priority(t),
    ;

    /// Returns a reference to a minimum value, if present.
    fn peek(&self) -> (result: Option<&T>)
        requires
            self.well_formed(),
        ensures
            result is None <==> self.items().len() == 0,
            result matches Some(v) ==> least_in(self.items(), *v, |t: T| self.priority(t)),
    ;

    /// Removes and returns a minimum value, if present.
    fn pop(&mut self) -> (result: Option<T>)
        requires
            old(self).well_formed(),
        ensures
            final(self).well_formed(),
            final(self).accepts_push() == old(self).accepts_push(),
            forall|t: T| final(self).priority(t) == old(self).priority(t),
            result is None <==> old(self).items().len() == 0,
            result is None ==> final(self).items() == old(self).items(),
            result matches Some(v) ==> {
                &&& least_in(old(self).items(), v, |t: T| old(self).priority(t))
                &&& final(self).items() == old(self).items().remove(v)
            },
    ;

    /// Returns the number of values in the heap.
    fn len(&self) -> (result: usize)
        requires
            self.well_formed(),
        ensures
            result == self.items().len(),
    ;

    /// Removes all values from the heap.
    fn clear(&mut self)
        requires
            old(self).well_formed(),
        ensures
            final(self).well_formed(),
            final(self).accepts_push() == old(self).accepts_push(),
            final(self).items() =~= Multiset::empty(),
            forall|t: T| final(self).priority(t) == old(self).priority(t),
    ;

    /// Returns whether the heap contains no values.
    fn is_empty(&self) -> (result: bool)
        requires
            self.well_formed(),
        ensures
            result == (self.items().len() == 0),
    {
        self.len() == 0
    }
}

/// A min-oriented heap that associates each key with a value.
pub trait ValueHeap<K, V>: Sized {
    /// The heap's internal invariant.
    spec fn well_formed(&self) -> bool;

    /// The entries currently in the heap.
    spec fn entries(&self) -> Multiset<(K, V)>;

    /// The priority of `key`; smaller is first.
    spec fn priority(&self, key: K) -> int;

    /// Inserts `key` and its associated `value`.
    fn insert(&mut self, key: K, value: V)
        requires
            old(self).well_formed(),
        ensures
            final(self).well_formed(),
            final(self).entries() == old(self).entries().insert((key, value)),
    ;

    /// Returns the minimum key and its associated value, if present.
    fn peek(&self) -> (result: Option<(&K, &V)>)
        requires
            self.well_formed(),
        ensures
            result is None <==> self.entries().len() == 0,
            result matches Some((k, v)) ==> least_in(
                self.entries(),
                (*k, *v),
                |e: (K, V)| self.priority(e.0),
            ),
    ;

    /// Removes and returns the minimum key and its associated value, if present.
    fn pop(&mut self) -> (result: Option<(K, V)>)
        requires
            old(self).well_formed(),
        ensures
            final(self).well_formed(),
            result is None <==> old(self).entries().len() == 0,
            result is None ==> final(self).entries() == old(self).entries(),
            result matches Some(e) ==> {
                &&& least_in(old(self).entries(), e, |x: (K, V)| old(self).priority(x.0))
                &&& final(self).entries() == old(self).entries().remove(e)
            },
    ;

    /// Returns the number of entries in the heap.
    fn len(&self) -> (result: usize)
        requires
            self.well_formed(),
        ensures
            result == self.entries().len(),
    ;

    /// Removes every entry from the heap.
    fn clear(&mut self)
        requires
            old(self).well_formed(),
        ensures
            final(self).well_formed(),
            final(self).entries() =~= Multiset::empty(),
    ;

    /// Returns whether the heap contains no entries.
    fn is_empty(&self) -> (result: bool)
        requires
            self.well_formed(),
        ensures
            result == (self.entries().len() == 0),
    {
        self.len() == 0
    }
}

/// A heap that supports efficient access to both extrema.
pub trait DoubleEndedHeap<T>: Heap<T> {
    /// Returns a reference to a maximum value, if present.
    fn peek_max(&self) -> (result: Option<&T>)
        requires
            self.well_formed(),
        ensures
            result is None <==> self.items().len() == 0,
            result matches Some(v) ==> greatest_in(self.items(), *v, |t: T| self.priority(t)),
    ;

    /// Removes and returns a maximum value, if present.
    fn pop_max(&mut self) -> (result: Option<T>)
        requires
            old(self).well_formed(),
        ensures
            final(self).well_formed(),
            forall|t: T| final(self).priority(t) == old(self).priority(t),
            result is None <==> old(self).items().len() == 0,
            result is None ==> final(self).items() == old(self).items(),
            result matches Some(v) ==> {
                &&& greatest_in(old(self).items(), v, |t: T| old(self).priority(t))
                &&& final(self).items() == old(self).items().remove(v)
            },
    ;
}

/// A min-oriented heap whose entries are addressed by stable handles.
///
/// A handle is an opaque capability returned from [`Self::insert`].  Its
/// validity is checked by every handle operation; it becomes invalid when
/// the entry is removed or the heap is cleared.
pub trait AddressableHeap<K, V>: Sized {
    /// Opaque type that identifies a live entry in this heap.
    type Handle: Copy + Eq;

    /// The heap's internal invariant.
    spec fn well_formed(&self) -> bool;

    /// The live handles and the entries they identify.
    spec fn live(&self) -> Map<Self::Handle, (K, V)>;

    /// Whether `handle` was issued by this heap (or a heap melded into it).
    spec fn owns(&self, handle: Self::Handle) -> bool;

    /// Whether this heap was consumed as a meld donor and refuses new entries.
    spec fn is_consumed(&self) -> bool;

    /// The priority of `key`; smaller is first.
    spec fn priority(&self, key: K) -> int;

    /// Inserts an entry and returns its handle.
    fn insert(&mut self, key: K, value: V) -> (handle: Self::Handle)
        requires
            old(self).well_formed(),
            !old(self).is_consumed(),
            old(self).live().len() < usize::MAX,
        ensures
            final(self).well_formed(),
            !final(self).is_consumed(),
            final(self).owns(handle),
            !old(self).live().contains_key(handle),
            final(self).live() == old(self).live().insert(handle, (key, value)),
            final(self).live().len() == old(self).live().len() + 1,
            forall|h: Self::Handle| final(self).owns(h) == old(self).owns(h),
    ;

    /// Returns the handle, key, and value of a minimum entry, if present.
    fn peek(&self) -> (result: Option<(Self::Handle, &K, &V)>)
        requires
            self.well_formed(),
        ensures
            result is None <==> self.live().len() == 0,
            result matches Some((h, k, v)) ==> {
                &&& least_entry(self.live(), h, |key: K| self.priority(key))
                &&& self.live()[h] == (*k, *v)
            },
    ;

    /// Removes and returns a minimum entry, if present.
    fn pop(&mut self) -> (result: Option<(K, V)>)
        requires
            old(self).well_formed(),
        ensures
            final(self).well_formed(),
            final(self).is_consumed() == old(self).is_consumed(),
            forall|h: Self::Handle| final(self).owns(h) == old(self).owns(h),
            result is None <==> old(self).live().len() == 0,
            result is None ==> final(self).live() == old(self).live(),
            result matches Some(e) ==> exists|h: Self::Handle| {
                &&& least_entry(old(self).live(), h, |key: K| old(self).priority(key))
                &&& old(self).live()[h] == e
                &&& final(self).live() == old(self).live().remove(h)
            },
    ;

    /// Returns the key identified by `handle`.
    fn key(&self, handle: Self::Handle) -> (result: Result<&K, InvalidHandle>)
        requires
            self.well_formed(),
        ensures
            checked(self.owns(handle), self.live().contains_key(handle), result),
            result matches Ok(k) ==> *k == self.live()[handle].0,
    ;

    /// Returns the value identified by `handle`.
    fn value(&self, handle: Self::Handle) -> (result: Result<&V, InvalidHandle>)
        requires
            self.well_formed(),
        ensures
            checked(self.owns(handle), self.live().contains_key(handle), result),
            result matches Ok(v) ==> *v == self.live()[handle].1,
    ;

    /// Returns mutable access to the value identified by `handle`.
    fn value_mut(&mut self, handle: Self::Handle) -> (result: Result<&mut V, InvalidHandle>)
        requires
            old(self).well_formed(),
        ensures
            checked(old(self).owns(handle), old(self).live().contains_key(handle), result),
            result matches Ok(v) ==> {
                &&& *v == old(self).live()[handle].1
                &&& final(self).live() == old(self).live().insert(
                    handle,
                    (old(self).live()[handle].0, *final(v)),
                )
                &&& final(self).well_formed()
                &&& final(self).is_consumed() == old(self).is_consumed()
                &&& forall|h: Self::Handle| final(self).owns(h) == old(self).owns(h)
            },
            result is Err ==> *final(self) == *old(self),
    ;

    /// Removes and returns the entry identified by `handle`.
    fn delete(&mut self, handle: Self::Handle) -> (result: Result<(K, V), InvalidHandle>)
        requires
            old(self).well_formed(),
        ensures
            final(self).well_formed(),
            final(self).is_consumed() == old(self).is_consumed(),
            forall|h: Self::Handle| final(self).owns(h) == old(self).owns(h),
            checked(old(self).owns(handle), old(self).live().contains_key(handle), result),
            result matches Ok(e) ==> {
                &&& e == old(self).live()[handle]
                &&& final(self).live() == old(self).live().remove(handle)
                &&& final(self).live().len() + 1 == old(self).live().len()
            },
            result is Err ==> final(self).live() == old(self).live(),
    ;

    /// Returns the number of live entries.
    fn len(&self) -> (result: usize)
        requires
            self.well_formed(),
        ensures
            result == self.live().len(),
    ;

    /// Removes all entries and invalidates every outstanding handle.
    fn clear(&mut self)
        requires
            old(self).well_formed(),
        ensures
            final(self).well_formed(),
            final(self).is_consumed() == old(self).is_consumed(),
            forall|h: Self::Handle| final(self).owns(h) == old(self).owns(h),
            old(self).is_consumed() ==> final(self).live() == old(self).live(),
            !old(self).is_consumed() ==> final(self).live() == Map::<Self::Handle, (K, V)>::empty(),
    ;

    /// Returns whether the heap contains no entries.
    fn is_empty(&self) -> (result: bool)
        requires
            self.well_formed(),
        ensures
            result == (self.live().len() == 0),
    {
        self.len() == 0
    }
}

/// An addressable heap that supports decreasing a live entry's key.
pub trait DecreaseKeyHeap<K, V>: AddressableHeap<K, V> {
    /// Decreases the key identified by `handle`.
    fn decrease_key(&mut self, handle: Self::Handle, key: K) -> (result: Result<
        (),
        DecreaseKeyError,
    >)
        requires
            old(self).well_formed(),
        ensures
            final(self).well_formed(),
            final(self).is_consumed() == old(self).is_consumed(),
            forall|h: Self::Handle| final(self).owns(h) == old(self).owns(h),
            match result {
                Ok(()) => {
                    &&& old(self).owns(handle)
                    &&& old(self).live().contains_key(handle)
                    &&& old(self).priority(key) <= old(self).priority(old(self).live()[handle].0)
                    &&& final(self).live() == old(self).live().insert(
                        handle,
                        (key, old(self).live()[handle].1),
                    )
                },
                Err(DecreaseKeyError::InvalidHandle(e)) => {
                    &&& checked(
                        old(self).owns(handle),
                        old(self).live().contains_key(handle),
                        Err::<(), InvalidHandle>(e),
                    )
                    &&& final(self).live() == old(self).live()
                },
                Err(DecreaseKeyError::NotDecreased) => {
                    &&& old(self).owns(handle)
                    &&& old(self).live().contains_key(handle)
                    &&& old(self).priority(key) > old(self).priority(old(self).live()[handle].0)
                    &&& final(self).live() == old(self).live()
                },
                Err(DecreaseKeyError::InvalidKey) => final(self).live() == old(self).live(),
            },
    ;
}

/// An addressable heap that supports efficient access to both extrema.
pub trait DoubleEndedAddressableHeap<K, V>: AddressableHeap<K, V> {
    /// Returns the handle, key, and value of a maximum entry, if present.
    fn peek_max(&self) -> (result: Option<(Self::Handle, &K, &V)>)
        requires
            self.well_formed(),
        ensures
            result is None <==> self.live().len() == 0,
            result matches Some((h, k, v)) ==> {
                &&& greatest_entry(self.live(), h, |key: K| self.priority(key))
                &&& self.live()[h] == (*k, *v)
            },
    ;

    /// Removes and returns a maximum entry, if present.
    fn pop_max(&mut self) -> (result: Option<(K, V)>)
        requires
            old(self).well_formed(),
        ensures
            final(self).well_formed(),
            final(self).is_consumed() == old(self).is_consumed(),
            forall|h: Self::Handle| final(self).owns(h) == old(self).owns(h),
            result is None <==> old(self).live().len() == 0,
            result is None ==> final(self).live() == old(self).live(),
            result matches Some(e) ==> exists|h: Self::Handle| {
                &&& greatest_entry(old(self).live(), h, |key: K| old(self).priority(key))
                &&& old(self).live()[h] == e
                &&& final(self).live() == old(self).live().remove(h)
            },
    ;

    /// Increases the key identified by `handle`.
    fn increase_key(&mut self, handle: Self::Handle, key: K) -> (result: Result<
        (),
        IncreaseKeyError,
    >)
        requires
            old(self).well_formed(),
        ensures
            final(self).well_formed(),
            final(self).is_consumed() == old(self).is_consumed(),
            forall|h: Self::Handle| final(self).owns(h) == old(self).owns(h),
            match result {
                Ok(()) => {
                    &&& old(self).owns(handle)
                    &&& old(self).live().contains_key(handle)
                    &&& old(self).priority(key) >= old(self).priority(old(self).live()[handle].0)
                    &&& final(self).live() == old(self).live().insert(
                        handle,
                        (key, old(self).live()[handle].1),
                    )
                },
                Err(IncreaseKeyError::InvalidHandle(e)) => {
                    &&& checked(
                        old(self).owns(handle),
                        old(self).live().contains_key(handle),
                        Err::<(), InvalidHandle>(e),
                    )
                    &&& final(self).live() == old(self).live()
                },
                Err(IncreaseKeyError::NotIncreased) => {
                    &&& old(self).owns(handle)
                    &&& old(self).live().contains_key(handle)
                    &&& old(self).priority(key) < old(self).priority(old(self).live()[handle].0)
                    &&& final(self).live() == old(self).live()
                },
            },
    ;
}

/// A heap that can absorb the contents of another heap of the same type.
///
/// A successful meld consumes `other`: it becomes empty and rejects further
/// insertions.
pub trait MeldableHeap<T>: Heap<T> {
    /// Error returned when a meld cannot be performed.
    type MeldError;

    /// Whether this heap was consumed as a meld donor.
    spec fn is_consumed(&self) -> bool;

    /// Whether the two heaps keep their entries in distinct stores, so that
    /// they can be joined.
    spec fn meld_compatible(&self, other: &Self) -> bool;

    /// Melds `other` into this heap.
    fn meld(&mut self, other: &mut Self) -> (result: Result<(), Self::MeldError>)
        requires
            old(self).well_formed(),
            old(other).well_formed(),
            old(self).items().len() + old(other).items().len() <= usize::MAX,
        ensures
            final(self).well_formed(),
            final(other).well_formed(),
            result is Ok <==> (!old(self).is_consumed() && !old(other).is_consumed() && old(self).meld_compatible(
                &*old(other),
            )),
            result is Ok ==> {
                &&& final(self).items() == old(self).items().add(old(other).items())
                &&& final(other).items() =~= Multiset::empty()
                &&& final(other).is_consumed()
                &&& !final(self).is_consumed()
            },
            result is Err ==> {
                &&& final(self).items() == old(self).items()
                &&& final(other).items() == old(other).items()
            },
    ;
}

/// An addressable heap that can absorb another heap of the same type.
///
/// The donor's handles stay valid through the receiver.
pub trait MeldableAddressableHeap<K, V>: AddressableHeap<K, V> {
    /// Error returned when a meld cannot be performed.
    type MeldError;

    /// Melds `other` into this heap.
    ///
    /// The meld succeeds when neither heap was consumed and no handle is
    /// owned by both.
    fn meld(&mut self, other: &mut Self) -> (result: Result<(), Self::MeldError>)
        requires
            old(self).well_formed(),
            old(other).well_formed(),
            old(self).live().len() + old(other).live().len() <= usize::MAX,
        ensures
            final(self).well_formed(),
            final(other).well_formed(),
            result is Ok <==> {
                &&& !old(self).is_consumed()
                &&& !old(other).is_consumed()
                &&& forall|h: Self::Handle| !(old(self).owns(h) && old(other).owns(h))
            },
            result is Ok ==> {
                &&& old(self).live().dom().disjoint(old(other).live().dom())
                &&& final(self).live() == old(self).live().union_prefer_right(old(other).live())
                &&& forall|h: Self::Handle| final(self).owns(h) == (old(self).owns(h) || old(other).owns(h))
                &&& final(other).live() == Map::<Self::Handle, (K, V)>::empty()
                &&& final(other).is_consumed()
                &&& !final(self).is_consumed()
            },
            result is Err ==> {
                &&& final(self).live() == old(self).live()
                &&& final(other).live() == old(other).live()
            },
    ;
}


/// A min-oriented heap whose insertions can be refused.
pub trait TryHeap<T>: Sized {
    /// Error returned when an insertion is refused.
    type InsertError;

    /// The heap's internal invariant.
    spec fn well_formed(&self) -> bool;

    /// The values currently in the heap.
    spec fn items(&self) -> Multiset<T>;

    /// The priority of `value`; smaller is first.
    spec fn priority(&self, value: T) -> int;

    /// Whether the heap accepts `value` in its current state.
    spec fn accepts(&self, value: T) -> bool;

    /// Inserts `value`, or reports why it was refused.
    fn try_push(&mut self, value: T) -> (result: Result<(), Self::InsertError>)
        requires
            old(self).well_formed(),
            old(self).items().len() < usize::MAX,
        ensures
            final(self).well_formed(),
            result is Ok <==> old(self).accepts(value),
            result is Ok ==> final(self).items() == old(self).items().insert(value),
            result is Err ==> final(self).items() == old(self).items(),
    ;

    /// Returns a reference to a minimum value, if present.
    fn peek(&self) -> (result: Option<&T>)
        requires
            self.well_formed(),
        ensures
            result is None <==> self.items().len() == 0,
            result matches Some(v) ==> least_in(self.items(), *v, |t: T| self.priority(t)),
    ;

    /// Removes and returns a minimum value, if present.
    fn pop(&mut self) -> (result: Option<T>)
        requires
            old(self).well_formed(),
        ensures
            final(self).well_formed(),
            result is None <==> old(self).items().len() == 0,
            result is None ==> final(self).items() == old(self).items(),
            result matches Some(v) ==> {
                &&& least_in(old(self).items(), v, |t: T| old(self).priority(t))
                &&& final(self).items() == old(self).items().remove(v)
            },
    ;

    /// Returns the number of values in the heap.
    fn len(&self) -> (result: usize)
        requires
            self.well_formed(),
        ensures
            result == self.items().len(),
    ;

    /// Removes all values from the heap.
    fn clear(&mut self)
        requires
            old(self).well_formed(),
        ensures
            final(self).well_formed(),
            final(self).items() =~= Multiset::empty(),
    ;

    /// Returns whether the heap contains no values.
    fn is_empty(&self) -> (result: bool)
        requires
            self.well_formed(),
        ensures
            result == (self.items().len() == 0),
    {
        self.len() == 0
    }
}

/// An addressable heap whose insertions can be refused.
pub trait TryAddressableHeap<K, V>: Sized {
    /// Opaque type that identifies a live entry in this heap.
    type Handle: Copy + Eq;

    /// Error returned when an insertion is refused.
    type InsertError;

    /// The heap's internal invariant.
    spec fn well_formed(&self) -> bool;

    /// The live handles and the entries they identify.
    spec fn live(&self) -> Map<Self::Handle, (K, V)>;

    /// Whether `handle` was issued by this heap.
    spec fn owns(&self, handle: Self::Handle) -> bool;

    /// The priority of `key`; smaller is first.
    spec fn priority(&self, key: K) -> int;

    /// Whether the heap accepts `key` in its current state.
    spec fn accepts(&self, key: K) -> bool;

    /// Inserts an entry and returns its handle, or reports why it was refused.
    fn try_insert(&mut self, key: K, value: V) -> (result: Result<Self::Handle, Self::InsertError>)
        requires
            old(self).well_formed(),
            old(self).live().len() < usize::MAX,
        ensures
            final(self).well_formed(),
            forall|h: Self::Handle| final(self).owns(h) == old(self).owns(h),
            result is Ok <==> old(self).accepts(key),
            result matches Ok(handle) ==> {
                &&& final(self).owns(handle)
                &&& !old(self).live().contains_key(handle)
                &&& final(self).live() == old(self).live().insert(handle, (key, value))
            },
            result is Err ==> final(self).live() == old(self).live(),
    ;

    /// Returns the handle, key, and value of a minimum entry, if present.
    fn peek(&self) -> (result: Option<(Self::Handle, &K, &V)>)
        requires
            self.well_formed(),
        ensures
            result is None <==> self.live().len() == 0,
            result matches Some((h, k, v)) ==> {
                &&& least_entry(self.live(), h, |key: K| self.priority(key))
                &&& self.live()[h] == (*k, *v)
            },
    ;

    /// Removes and returns a minimum entry, if present.
    fn pop(&mut self) -> (result: Option<(K, V)>)
        requires
            old(self).well_formed(),
        ensures
            final(self).well_formed(),
            forall|h: Self::Handle| final(self).owns(h) == old(self).owns(h),
            result is None <==> old(self).live().len() == 0,
            result is None ==> final(self).live() == old(self).live(),
            result matches Some(e) ==> exists|h: Self::Handle| {
                &&& least_entry(old(self).live(), h, |key: K| old(self).priority(key))
                &&& old(self).live()[h] == e
                &&& final(self).live() == old(self).live().remove(h)
            },
    ;

    /// Returns the key identified by `handle`.
    fn key(&self, handle: Self::Handle) -> (result: Result<&K, InvalidHandle>)
        requires
            self.well_formed(),
        ensures
            checked(self.owns(handle), self.live().contains_key(handle), result),
            result matches Ok(k) ==> *k == self.live()[handle].0,
    ;

    /// Returns the value identified by `handle`.
    fn value(&self, handle: Self::Handle) -> (result: Result<&V, InvalidHandle>)
        requires
            self.well_formed(),
        ensures
            checked(self.owns(handle), self.live().contains_key(handle), result),
            result matches Ok(v) ==> *v == self.live()[handle].1,
    ;

    /// Returns mutable access to the value identified by `handle`.
    fn value_mut(&mut self, handle: Self::Handle) -> (result: Result<&mut V, InvalidHandle>)
        requires
            old(self).well_formed(),
        ensures
            checked(old(self).owns(handle), old(self).live().contains_key(handle), result),
            result matches Ok(v) ==> {
                &&& *v == old(self).live()[handle].1
                &&& final(self).live() == old(self).live().insert(
                    handle,
                    (old(self).live()[handle].0, *final(v)),
                )
                &&& final(self).well_formed()
                &&& forall|h: Self::Handle| final(self).owns(h) == old(self).owns(h)
            },
            result is Err ==> *final(self) == *old(self),
    ;

    /// Removes and returns the entry identified by `handle`.
    fn delete(&mut self, handle: Self::Handle) -> (result: Result<(K, V), InvalidHandle>)
        requires
            old(self).well_formed(),
        ensures
            final(self).well_formed(),
            forall|h: Self::Handle| final(self).owns(h) == old(self).owns(h),
            checked(old(self).owns(handle), old(self).live().contains_key(handle), result),
            result matches Ok(e) ==> {
                &&& e == old(self).live()[handle]
                &&& final(self).live() == old(self).live().remove(handle)
            },
            result is Err ==> final(self).live() == old(self).live(),
    ;

    /// Returns the number of live entries.
    fn len(&self) -> (result: usize)
        requires
            self.well_formed(),
        ensures
            result == self.live().len(),
    ;

    /// Removes all entries and invalidates every outstanding handle.
    fn clear(&mut self)
        requires
            old(self).well_formed(),
        ensures
            final(self).well_formed(),
            forall|h: Self::Handle| final(self).owns(h) == old(self).owns(h),
            final(self).live() == Map::<Self::Handle, (K, V)>::empty(),
    ;

    /// Returns whether the heap contains no entries.
    fn is_empty(&self) -> (result: bool)
        requires
            self.well_formed(),
        ensures
            result == (self.live().len() == 0),
    {
        self.len() == 0
    }
}

/// A fallible addressable heap that supports decreasing a live entry's key.
pub trait TryDecreaseKeyHeap<K, V>: TryAddressableHeap<K, V> {
    /// Error returned when a key decrease is refused.
    type DecreaseKeyError;

    /// Decreases the key identified by `handle`, or reports why it was refused.
    fn decrease_key(&mut self, handle: Self::Handle, key: K) -> (result: Result<
        (),
        Self::DecreaseKeyError,
    >)
        requires
            old(self).well_formed(),
        ensures
            final(self).well_formed(),
            forall|h: Self::Handle| final(self).owns(h) == old(self).owns(h),
            result is Ok ==> {
                &&& old(self).owns(handle)
                &&& old(self).live().contains_key(handle)
                &&& old(self).accepts(key)
                &&& old(self).priority(key) <= old(self).priority(old(self).live()[handle].0)
                &&& final(self).live() == old(self).live().insert(
                    handle,
                    (key, old(self).live()[handle].1),
                )
            },
            (old(self).owns(handle) && old(self).live().contains_key(handle) && old(self).accepts(key)
                && old(self).priority(key) <= old(self).priority(old(self).live()[handle].0)) ==> result is Ok,
            result is Err ==> final(self).live() == old(self).live(),
    ;
}
} // verus!
