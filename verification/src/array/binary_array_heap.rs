//! An array-backed binary min-heap.
use vstd::multiset::Multiset;
use vstd::prelude::*;

use crate::array::layout::{
    heap_ordered, lemma_down_done, lemma_down_step, lemma_drop_last_ordered, lemma_parent_bounds,
    lemma_replace_state, lemma_root_least, lemma_swap_multiset, lemma_up_done, lemma_up_start,
    lemma_up_step, ordered_from, parent_of, sifting_down, sifting_up,
};
use crate::order::{follows, precedes, Comparator, HeapKey, NaturalOrder};
use crate::Heap;

verus! {

broadcast use vstd::seq_lib::group_to_multiset_ensures;

/// The capacity reserved by the default constructors.
pub const DEFAULT_HEAP_CAPACITY: usize = 16;

/// An array-backed binary min-heap.
///
/// `C` orders the values; values of smaller rank have higher priority.
#[derive(Clone, Debug)]
pub struct BinaryArrayHeap<T, C = NaturalOrder> {
    values: Vec<T>,
    order_by: C,
}

impl<T, C: Comparator<T>> BinaryArrayHeap<T, C> {
    /// The rank function of the heap's comparator.
    pub open spec fn rank_fn(&self) -> spec_fn(T) -> int {
        |t: T| self.order().rank(t)
    }

    /// The backing array, in heap order.
    pub closed spec fn slots(&self) -> Seq<T> {
        self.values@
    }

    /// The comparator the heap orders by.
    pub closed spec fn order(&self) -> C {
        self.order_by
    }

    /// Creates an empty heap ordered by `compare`.
    pub fn with_comparator(compare: C) -> (heap: Self)
        ensures
            heap.well_formed(),
            heap.items() =~= Multiset::empty(),
            heap.order() == compare,
    {
        Self::with_capacity_and_comparator(DEFAULT_HEAP_CAPACITY, compare)
    }

    /// Creates an empty heap with at least `capacity` value slots, ordered by
    /// `compare`.
    pub fn with_capacity_and_comparator(capacity: usize, compare: C) -> (heap: Self)
        ensures
            heap.well_formed(),
            heap.items() =~= Multiset::empty(),
            heap.order() == compare,
    {
        BinaryArrayHeap { values: Vec::with_capacity(capacity), order_by: compare }
    }

    /// Builds a heap from `values` in linear time using `compare`.
    pub fn from_vec_by(values: Vec<T>, compare: C) -> (heap: Self)
        ensures
            heap.well_formed(),
            heap.items() == values@.to_multiset(),
            heap.order() == compare,
    {
        let mut heap = BinaryArrayHeap { values, order_by: compare };
        heap.heapify();
        heap
    }

    /// Returns the comparator used to order values.
    pub fn comparator(&self) -> (result: &C)
        ensures
            *result == self.order(),
    {
        &self.order_by
    }

    /// Consumes the heap and returns its backing storage in heap order.
    pub fn into_vec(self) -> (result: Vec<T>)
        ensures
            result@ == self.slots(),
            result@.to_multiset() == self.items(),
            self.well_formed() ==> heap_ordered(result@, self.rank_fn(), 2),
    {
        self.values
    }

    fn heapify(&mut self)
        ensures
            final(self).well_formed(),
            final(self).values@.to_multiset() == old(self).values@.to_multiset(),
            final(self).order_by == old(self).order_by,
    {
        let mut index = self.values.len() / 2;
        while index > 0
            invariant
                index <= self.values.len() / 2,
                ordered_from(self.values@, self.rank_fn(), 2, index as int),
                self.values@.to_multiset() == old(self).values@.to_multiset(),
                self.order_by == old(self).order_by,
            decreases index,
        {
            index = index - 1;
            self.sift_down(index);
        }
    }

    fn sift_up(&mut self, start: usize)
        requires
            sifting_up(old(self).values@, old(self).rank_fn(), 2, start as int),
        ensures
            heap_ordered(final(self).values@, final(self).rank_fn(), 2),
            final(self).values@.to_multiset() == old(self).values@.to_multiset(),
            final(self).values@.len() == old(self).values@.len(),
            final(self).order_by == old(self).order_by,
    {
        let mut index = start;
        while index > 0 && follows(&self.order_by, &self.values[(index - 1) / 2], &self.values[index])
            invariant
                sifting_up(self.values@, self.rank_fn(), 2, index as int),
                self.values@.to_multiset() == old(self).values@.to_multiset(),
                self.values@.len() == old(self).values@.len(),
                self.order_by == old(self).order_by,
            decreases index,
        {
            let parent = (index - 1) / 2;
            proof {
                lemma_up_step(self.values@, self.rank_fn(), 2, index as int);
                lemma_swap_multiset(self.values@, index as int, parent as int);
            }
            self.values.as_mut_slice().swap(index, parent);
            index = parent;
        }
        proof {
            lemma_up_done(self.values@, self.rank_fn(), 2, index as int);
        }
    }

    fn sift_down(&mut self, start: usize)
        requires
            sifting_down(old(self).values@, old(self).rank_fn(), 2, start as int, start as int)
                || (old(self).values@.len() <= start && ordered_from(
                old(self).values@,
                old(self).rank_fn(),
                2,
                start as int + 1,
            )),
            ordered_from(old(self).values@, old(self).rank_fn(), 2, start as int + 1),
        ensures
            ordered_from(final(self).values@, final(self).rank_fn(), 2, start as int),
            final(self).values@.to_multiset() == old(self).values@.to_multiset(),
            final(self).values@.len() == old(self).values@.len(),
            final(self).order_by == old(self).order_by,
    {
        let len = self.values.len();
        if start >= len {
            return;
        }
        let mut index = start;
        loop
            invariant
                len == self.values.len(),
                sifting_down(self.values@, self.rank_fn(), 2, start as int, index as int),
                self.values@.to_multiset() == old(self).values@.to_multiset(),
                self.values@.len() == old(self).values@.len(),
                self.order_by == old(self).order_by,
            decreases len - index,
        {
            proof {
                lemma_parent_bounds(2 * index + 1, index as int, 2);
            }
            if index >= len / 2 {
                proof {
                    assert forall|c: int| #![trigger self.values@[c]]
                        0 < c < self.values@.len() && parent_of(c, 2) == index implies
                        self.rank_fn()(self.values@[index as int]) <= self.rank_fn()(self.values@[c]) by {
                        lemma_parent_bounds(c, index as int, 2);
                    }
                    lemma_down_done(self.values@, self.rank_fn(), 2, start as int, index as int);
                }
                return;
            }
            let left = 2 * index + 1;
            let right = left + 1;
            let child = if right < len && precedes(&self.order_by, &self.values[right], &self.values[left]) {
                right
            } else {
                left
            };
            proof {
                assert forall|c: int| #![trigger self.values@[c]]
                    0 < c < self.values@.len() && parent_of(c, 2) == index implies
                    self.rank_fn()(self.values@[child as int]) <= self.rank_fn()(self.values@[c]) by {
                    lemma_parent_bounds(c, index as int, 2);
                }
                lemma_parent_bounds(child as int, index as int, 2);
            }
            if !follows(&self.order_by, &self.values[index], &self.values[child]) {
                proof {
                    lemma_down_done(self.values@, self.rank_fn(), 2, start as int, index as int);
                }
                return;
            }
            proof {
                lemma_down_step(self.values@, self.rank_fn(), 2, start as int, index as int, child as int);
                lemma_swap_multiset(self.values@, index as int, child as int);
            }
            self.values.as_mut_slice().swap(index, child);
            index = child;
        }
    }
}

impl<T: HeapKey> BinaryArrayHeap<T, NaturalOrder> {
    /// Creates an empty heap that uses the natural ordering of `T`.
    pub fn new() -> (heap: Self)
        ensures
            heap.well_formed(),
            heap.items() =~= Multiset::empty(),
    {
        Self::with_capacity(DEFAULT_HEAP_CAPACITY)
    }

    /// Creates an empty heap with at least `capacity` value slots.
    pub fn with_capacity(capacity: usize) -> (heap: Self)
        ensures
            heap.well_formed(),
            heap.items() =~= Multiset::empty(),
    {
        Self::with_capacity_and_comparator(capacity, NaturalOrder)
    }

    /// Builds a heap from `values` in linear time.
    pub fn from_vec(values: Vec<T>) -> (heap: Self)
        ensures
            heap.well_formed(),
            heap.items() == values@.to_multiset(),
    {
        Self::from_vec_by(values, NaturalOrder)
    }
}

impl<T: HeapKey> Default for BinaryArrayHeap<T, NaturalOrder> {
    fn default() -> (heap: Self)
        ensures
            heap.well_formed(),
            heap.items() =~= Multiset::empty(),
    {
        Self::new()
    }
}

impl<T, C: Comparator<T>> Heap<T> for BinaryArrayHeap<T, C> {
    open spec fn well_formed(&self) -> bool {
        heap_ordered(self.slots(), self.rank_fn(), 2)
    }

    open spec fn items(&self) -> Multiset<T> {
        self.slots().to_multiset()
    }

    open spec fn priority(&self, value: T) -> int {
        self.order().rank(value)
    }

    open spec fn accepts_push(&self) -> bool {
        true
    }

    fn push(&mut self, value: T) {
        proof {
            lemma_up_start(self.values@, self.rank_fn(), 2, value);
        }
        self.values.push(value);
        let last = self.values.len() - 1;
        self.sift_up(last);
    }

    fn peek(&self) -> (result: Option<&T>) {
        if self.values.len() == 0 {
            None
        } else {
            proof {
                assert forall|w: T| self.items().contains(w) implies self.priority(self.values@[0])
                    <= self.priority(w) by {
                    let k = choose|k: int| 0 <= k < self.values@.len() && self.values@[k] == w;
                    lemma_root_least(self.values@, self.rank_fn(), 2, k);
                }
            }
            Some(&self.values[0])
        }
    }

    fn pop(&mut self) -> (result: Option<T>) {
        let ghost s = self.values@;
        if self.values.len() == 0 {
            return None;
        }
        proof {
            assert forall|w: T| s.to_multiset().contains(w) implies self.priority(s[0])
                <= self.priority(w) by {
                let k = choose|k: int| 0 <= k < s.len() && s[k] == w;
                lemma_root_least(s, self.rank_fn(), 2, k);
            }
            lemma_drop_last_ordered(s, self.rank_fn(), 2);
        }
        let mut result = self.values.pop().unwrap();
        assert(self.values@ == s.drop_last());
        if self.values.len() == 0 {
            assert(s =~= seq![result]);
            assert(s.to_multiset().remove(result) =~= self.values@.to_multiset());
            return Some(result);
        }
        proof {
            lemma_replace_state(s.drop_last(), self.rank_fn(), 2, 0, result);
            assert(s =~= s.drop_last().push(s.last()));
            assert(s.drop_last().update(0, s.last()).to_multiset() == s.drop_last().to_multiset().insert(s.last()).remove(s[0]));
        }
        self.values.set_and_swap(0, &mut result);
        self.sift_down(0);
        Some(result)
    }

    fn len(&self) -> (result: usize) {
        self.values.len()
    }

    fn clear(&mut self) {
        self.values.clear();
    }
}

} // verus!
