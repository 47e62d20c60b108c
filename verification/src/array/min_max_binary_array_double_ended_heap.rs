//! An array-backed min-max heap: a double-ended priority queue.
//!
//! Elements on even levels are no greater than their descendants, and
//! elements on odd levels are no smaller, so both extrema sit at the top.
use vstd::multiset::Multiset;
use vstd::prelude::*;

use crate::array::binary_array_weak_heap::{exp2, floor_log2};
use crate::array::layout::{lemma_swap_multiset, swapped};
use crate::array::min_max_order::{
    below_two, best_below, depth, gpar, governs, lemma_best_governed, lemma_depth_exp, lemma_down_child,
    lemma_down_done, lemma_down_grandchild, lemma_drop_last, lemma_family, lemma_heapify_start, lemma_leaves,
    lemma_log_unique, lemma_mm_greatest, lemma_mm_least, lemma_parity, lemma_pop_max_start, lemma_pop_start,
    lemma_push_stay, lemma_push_swap, lemma_up_done, lemma_up_swap, mm_down, mm_from, mm_ordered, mm_up, on_min,
    par, prefers,
};
use crate::order::{follows, precedes, Comparator, HeapKey, NaturalOrder};
use crate::{greatest_in, least_in, DoubleEndedHeap, Heap};

verus! {

broadcast use vstd::seq_lib::group_to_multiset_ensures;

/// The capacity reserved by the default constructors.
pub const DEFAULT_MIN_MAX_CAPACITY: usize = 16;

/// An array-backed min-max heap.
///
/// `C` orders the values; the least and the greatest values are both
/// available in constant time.
#[derive(Clone, Debug)]
pub struct MinMaxBinaryArrayDoubleEndedHeap<T, C = NaturalOrder> {
    values: Vec<T>,
    order_by: C,
}

impl<T: HeapKey> MinMaxBinaryArrayDoubleEndedHeap<T, NaturalOrder> {
    /// Creates an empty heap that uses the natural ordering of `T`.
    pub fn new() -> (heap: Self)
        ensures
            heap.is_well_formed(),
            heap.values() =~= Multiset::empty(),
    {
        Self::with_capacity(DEFAULT_MIN_MAX_CAPACITY)
    }

    /// Creates an empty heap with at least `capacity` value slots.
    pub fn with_capacity(capacity: usize) -> (heap: Self)
        ensures
            heap.is_well_formed(),
            heap.values() =~= Multiset::empty(),
    {
        Self::with_capacity_and_comparator(capacity, NaturalOrder)
    }

    /// Builds a heap from `values` in linear time.
    pub fn from_vec(values: Vec<T>) -> (heap: Self)
        ensures
            heap.is_well_formed(),
            heap.values() == values@.to_multiset(),
    {
        Self::from_vec_by(values, NaturalOrder)
    }
}

impl<T: HeapKey> Default for MinMaxBinaryArrayDoubleEndedHeap<T, NaturalOrder> {
    fn default() -> (heap: Self)
        ensures
            heap.is_well_formed(),
            heap.values() =~= Multiset::empty(),
    {
        Self::new()
    }
}

impl<T, C: Comparator<T>> MinMaxBinaryArrayDoubleEndedHeap<T, C> {
    /// The values in the heap.
    pub closed spec fn values(&self) -> Multiset<T> {
        self.values@.to_multiset()
    }

    /// The comparator the heap orders by.
    pub closed spec fn order(&self) -> C {
        self.order_by
    }

    /// The rank function of the heap's comparator.
    pub open spec fn rank_fn(&self) -> spec_fn(T) -> int {
        |t: T| self.order().rank(t)
    }

    /// The heap's invariant: the min-max order.
    pub closed spec fn is_well_formed(&self) -> bool {
        mm_ordered(self.values@, self.rank_fn())
    }

    /// Creates an empty heap ordered by `compare`.
    pub fn with_comparator(compare: C) -> (heap: Self)
        ensures
            heap.is_well_formed(),
            heap.values() =~= Multiset::empty(),
            heap.order() == compare,
    {
        Self::with_capacity_and_comparator(DEFAULT_MIN_MAX_CAPACITY, compare)
    }

    /// Creates an empty heap with at least `capacity` value slots, ordered by
    /// `compare`.
    pub fn with_capacity_and_comparator(capacity: usize, compare: C) -> (heap: Self)
        ensures
            heap.is_well_formed(),
            heap.values() =~= Multiset::empty(),
            heap.order() == compare,
    {
        MinMaxBinaryArrayDoubleEndedHeap { values: Vec::with_capacity(capacity), order_by: compare }
    }

    /// Builds a heap from `values` in linear time using `compare`.
    pub fn from_vec_by(values: Vec<T>, compare: C) -> (heap: Self)
        ensures
            heap.is_well_formed(),
            heap.values() == values@.to_multiset(),
            heap.order() == compare,
    {
        let mut heap = MinMaxBinaryArrayDoubleEndedHeap { values, order_by: compare };
        heap.heapify();
        heap
    }

    /// Returns the comparator used to order values.
    pub fn comparator(&self) -> (result: &C)
        ensures
            *result == self.order(),
    {
        &self.order_by
    }

    /// Returns a greatest value, if any.
    pub fn peek_max(&self) -> (result: Option<&T>)
        requires
            self.is_well_formed(),
        ensures
            result is None <==> self.values().len() == 0,
            result matches Some(v) ==> greatest_in(self.values(), *v, |t: T| self.order().rank(t)),
    {
        match self.max_index() {
            Some(index) => {
                proof {
                    self.lemma_greatest_at(index as int);
                }
                Some(&self.values[index])
            },
            None => None,
        }
    }

    /// Removes and returns a greatest value, if any.
    pub fn pop_max(&mut self) -> (result: Option<T>)
        requires
            old(self).is_well_formed(),
        ensures
            final(self).is_well_formed(),
            final(self).order() == old(self).order(),
            result is None <==> old(self).values().len() == 0,
            result is None ==> final(self).values() == old(self).values(),
            result matches Some(v) ==> {
                &&& greatest_in(old(self).values(), v, |t: T| old(self).order().rank(t))
                &&& final(self).values() == old(self).values().remove(v)
            },
    {
        let index = match self.max_index() {
            Some(index) => index,
            None => return None,
        };
        proof {
            self.lemma_greatest_at(index as int);
        }
        let ghost s = self.values@;
        let value = self.remove_at(index);
        if index < self.values.len() {
            proof {
                lemma_pop_max_start(s, self.rank_fn(), index as int);
                lemma_parity(index as int);
                assert(depth(0) == 0);
            }
            self.fix_down_max(index, Ghost(0));
        } else {
            proof {
                lemma_drop_last(s, self.rank_fn());
            }
        }
        Some(value)
    }

    /// Consumes the heap and returns its values in internal order.
    pub fn into_vec(self) -> (result: Vec<T>)
        ensures
            result@.to_multiset() == self.values(),
            self.is_well_formed() ==> mm_ordered(result@, self.rank_fn()),
    {
        self.values
    }

    /// Inserts `value`.
    pub fn push(&mut self, value: T)
        requires
            old(self).is_well_formed(),
        ensures
            final(self).is_well_formed(),
            final(self).order() == old(self).order(),
            final(self).values() == old(self).values().insert(value),
    {
        self.values.push(value);
        let last = self.values.len() - 1;
        proof {
            assert(self.values@.drop_last() =~= old(self).values@);
        }
        self.fix_up(last);
    }

    /// Returns a least value, kept at the root, if any.
    pub fn peek(&self) -> (result: Option<&T>)
        requires
            self.is_well_formed(),
        ensures
            result is None <==> self.values().len() == 0,
            result matches Some(v) ==> least_in(self.values(), *v, |t: T| self.order().rank(t)),
    {
        if self.values.len() == 0 {
            None
        } else {
            proof {
                self.lemma_least_at_root();
            }
            Some(&self.values[0])
        }
    }

    /// Removes and returns a least value, if any.
    pub fn pop(&mut self) -> (result: Option<T>)
        requires
            old(self).is_well_formed(),
        ensures
            final(self).is_well_formed(),
            final(self).order() == old(self).order(),
            result is None <==> old(self).values().len() == 0,
            result is None ==> final(self).values() == old(self).values(),
            result matches Some(v) ==> {
                &&& least_in(old(self).values(), v, |t: T| old(self).order().rank(t))
                &&& final(self).values() == old(self).values().remove(v)
            },
    {
        if self.values.len() == 0 {
            return None;
        }
        proof {
            self.lemma_least_at_root();
        }
        let ghost s = self.values@;
        let value = self.remove_at(0);
        if self.values.len() > 0 {
            proof {
                lemma_pop_start(s, self.rank_fn());
            }
            self.fix_down(0, Ghost(0));
        } else {
            proof {
                lemma_drop_last(s, self.rank_fn());
            }
        }
        Some(value)
    }

    /// Returns the number of values.
    pub fn len(&self) -> (result: usize)
        ensures
            result == self.values().len(),
    {
        self.values.len()
    }

    /// Returns whether the heap is empty.
    pub fn is_empty(&self) -> (result: bool)
        ensures
            result == (self.values().len() == 0),
    {
        self.values.len() == 0
    }

    /// Removes every value.
    pub fn clear(&mut self)
        ensures
            final(self).is_well_formed(),
            final(self).order() == old(self).order(),
            final(self).values() =~= Multiset::empty(),
    {
        self.values.clear();
        proof {
            assert forall|d: int| #![trigger self.values@[d]] 0 < d < self.values@.len() implies false by {}
        }
    }

    /// The root holds a least value.
    proof fn lemma_least_at_root(&self)
        requires
            self.is_well_formed(),
            self.values@.len() > 0,
        ensures
            least_in(self.values(), self.values@[0], |t: T| self.order().rank(t)),
    {
        assert(self.values@.to_multiset().contains(self.values@[0]));
        assert forall|w: T| self.values().contains(w) implies self.order().rank(self.values@[0]) <= self.order().rank(w) by {
            let k = choose|k: int| 0 <= k < self.values@.len() && self.values@[k] == w;
            lemma_mm_least(self.values@, self.rank_fn(), k);
        }
    }

    /// The position that `max_index` picks holds a greatest value.
    proof fn lemma_greatest_at(&self, index: int)
        requires
            self.is_well_formed(),
            0 <= index < self.values@.len(),
            self.values@.len() == 1 ==> index == 0,
            self.values@.len() >= 2 ==> index == 1 || index == 2,
            self.values@.len() >= 2 ==> self.order().rank(self.values@[1]) <= self.order().rank(self.values@[index]),
            self.values@.len() >= 3 ==> self.order().rank(self.values@[2]) <= self.order().rank(self.values@[index]),
        ensures
            greatest_in(self.values(), self.values@[index], |t: T| self.order().rank(t)),
    {
        assert(self.values@.to_multiset().contains(self.values@[index]));
        assert forall|w: T| self.values().contains(w) implies self.order().rank(w) <= self.order().rank(self.values@[index]) by {
            let k = choose|k: int| 0 <= k < self.values@.len() && self.values@[k] == w;
            lemma_mm_greatest(self.values@, self.rank_fn(), index, k);
        }
    }

    /// Takes out the value at `index`; the last value moves into its place.
    fn remove_at(&mut self, index: usize) -> (value: T)
        requires
            index < old(self).values@.len(),
        ensures
            final(self).order_by == old(self).order_by,
            final(self).values@ == old(self).values@.update(index as int, old(self).values@.last()).drop_last(),
            value == old(self).values@[index as int],
            old(self).values().contains(value),
            final(self).values() == old(self).values().remove(value),
    {
        let ghost s = self.values@;
        let value = self.values.swap_remove(index);
        proof {
            let i = index as int;
            assert(s.to_multiset().contains(s[i]));
            let t = s.update(i, s.last());
            assert(self.values@ == t.drop_last());
            assert(t.to_multiset() == s.to_multiset().insert(s.last()).remove(s[i]));
            assert(t =~= t.drop_last().push(s.last()));
            assert(t.to_multiset() == t.drop_last().to_multiset().insert(s.last()));
            assert forall|x: T| #[trigger] self.values@.to_multiset().count(x) == s.to_multiset().remove(value).count(x) by {
                assert(t.to_multiset().count(x) == self.values@.to_multiset().insert(s.last()).count(x));
            }
            assert(self.values@.to_multiset() =~= s.to_multiset().remove(value));
        }
        value
    }

    fn swap(&mut self, i: usize, j: usize)
        requires
            i < old(self).values@.len(),
            j < old(self).values@.len(),
        ensures
            final(self).order_by == old(self).order_by,
            final(self).values@ == swapped(old(self).values@, i as int, j as int),
            final(self).values() == old(self).values(),
    {
        proof {
            lemma_swap_multiset(self.values@, i as int, j as int);
        }
        self.values.as_mut_slice().swap(i, j);
        proof {
            assert(self.values@ =~= swapped(old(self).values@, i as int, j as int));
        }
    }

    fn heapify(&mut self)
        ensures
            final(self).order_by == old(self).order_by,
            final(self).values() == old(self).values(),
            final(self).is_well_formed(),
    {
        let mut index = self.values.len() / 2;
        proof {
            lemma_leaves(self.values@, self.rank_fn());
        }
        while index > 0
            invariant
                self.order_by == old(self).order_by,
                self.values() == old(self).values(),
                self.values@.len() == old(self).values@.len(),
                index <= self.values@.len(),
                mm_from(self.values@, self.rank_fn(), index as int, -1),
            decreases index,
        {
            index = index - 1;
            proof {
                lemma_heapify_start(self.values@, self.rank_fn(), index as int);
            }
            self.fix_down(index, Ghost(index as int));
        }
    }

    /// The position of a greatest value: the greater of the root's
    /// children, or the root when it is alone.
    fn max_index(&self) -> (result: Option<usize>)
        ensures
            result is None <==> self.values@.len() == 0,
            result matches Some(i) ==> {
                &&& i < self.values@.len()
                &&& self.values@.len() == 1 ==> i == 0
                &&& self.values@.len() >= 2 ==> i == 1 || i == 2
                &&& self.values@.len() >= 2 ==> self.order().rank(self.values@[1]) <= self.order().rank(self.values@[i as int])
                &&& self.values@.len() >= 3 ==> self.order().rank(self.values@[2]) <= self.order().rank(self.values@[i as int])
            },
    {
        let len = self.values.len();
        if len == 0 {
            None
        } else if len == 1 {
            Some(0)
        } else if len == 2 {
            Some(1)
        } else if follows(&self.order_by, &self.values[2], &self.values[1]) {
            Some(2)
        } else {
            Some(1)
        }
    }

    /// Whether position `index` lies on a min level: levels alternate,
    /// starting with the root's min level.
    fn on_min_level(index: usize) -> (result: bool)
        requires
            index < usize::MAX,
        ensures
            result == on_min(index as int),
    {
        let level = floor_log2(index + 1);
        proof {
            lemma_depth_exp(index as int);
            lemma_log_unique(level as nat, depth(index as int), index + 1);
        }
        level % 2 == 0
    }

    /// Restores the order after the value at the last position, `index`,
    /// was appended.
    fn fix_up(&mut self, index: usize)
        requires
            index + 1 == old(self).values@.len(),
            mm_ordered(old(self).values@.drop_last(), old(self).rank_fn()),
        ensures
            final(self).order_by == old(self).order_by,
            final(self).values@.len() == old(self).values@.len(),
            final(self).values() == old(self).values(),
            final(self).is_well_formed(),
    {
        let ghost s = self.values@.drop_last();
        let ghost x = self.values@.last();
        proof {
            assert(self.values@ =~= s.push(x));
        }
        if index == 0 {
            proof {
                assert forall|d: int| #![trigger self.values@[d]] 0 < d < self.values@.len() implies false by {}
            }
            return;
        }
        let parent = (index - 1) / 2;
        proof {
            lemma_parity(index as int);
            assert(parent as int == par(index as int));
        }
        let len = self.values.len();
        if Self::on_min_level(index) {
            if follows(&self.order_by, &self.values[index], &self.values[parent]) {
                proof {
                    lemma_push_swap(s, self.rank_fn(), x);
                }
                self.swap(index, parent);
                self.bubble_up(parent, true);
            } else {
                proof {
                    lemma_push_stay(s, self.rank_fn(), x);
                }
                self.bubble_up(index, false);
            }
        } else if precedes(&self.order_by, &self.values[index], &self.values[parent]) {
            proof {
                lemma_push_swap(s, self.rank_fn(), x);
            }
            self.swap(index, parent);
            self.bubble_up(parent, false);
        } else {
            proof {
                lemma_push_stay(s, self.rank_fn(), x);
            }
            self.bubble_up(index, true);
        }
    }

    /// Moves the value at `start` up through its grandparents, towards the
    /// top of the max levels when `toward_max` holds and of the min levels
    /// otherwise.
    fn bubble_up(&mut self, start: usize, toward_max: bool)
        requires
            mm_up(old(self).values@, old(self).rank_fn(), start as int),
            toward_max == !on_min(start as int),
        ensures
            final(self).order_by == old(self).order_by,
            final(self).values@.len() == old(self).values@.len(),
            final(self).values() == old(self).values(),
            final(self).is_well_formed(),
    {
        let mut index = start;
        while index >= 3
            invariant
                self.order_by == old(self).order_by,
                self.values@.len() == old(self).values@.len(),
                self.values() == old(self).values(),
                mm_up(self.values@, self.rank_fn(), index as int),
                toward_max == !on_min(index as int),
            decreases index,
        {
            let grandparent = (index - 3) / 4;
            proof {
                lemma_parity(index as int);
                assert(grandparent as int == gpar(index as int));
            }
            let moves = if toward_max {
                follows(&self.order_by, &self.values[index], &self.values[grandparent])
            } else {
                precedes(&self.order_by, &self.values[index], &self.values[grandparent])
            };
            if !moves {
                proof {
                    lemma_up_done(self.values@, self.rank_fn(), index as int);
                }
                return;
            }
            proof {
                lemma_up_swap(self.values@, self.rank_fn(), index as int);
            }
            self.swap(index, grandparent);
            index = grandparent;
        }
        proof {
            lemma_up_done(self.values@, self.rank_fn(), index as int);
        }
    }

    /// Restores the order below `index`, whose value changed, within the
    /// positions from `lo` on.
    fn fix_down(&mut self, index: usize, Ghost(lo): Ghost<int>)
        requires
            mm_down(old(self).values@, old(self).rank_fn(), lo, index as int),
        ensures
            final(self).order_by == old(self).order_by,
            final(self).values@.len() == old(self).values@.len(),
            final(self).values() == old(self).values(),
            mm_from(final(self).values@, final(self).rank_fn(), lo, -1),
    {
        let len = self.values.len();
        if Self::on_min_level(index) {
            self.fix_down_min(index, Ghost(lo));
        } else {
            self.fix_down_max(index, Ghost(lo));
        }
    }

    /// Moves the value at a min-level position down to its place among its
    /// children and grandchildren.
    fn fix_down_min(&mut self, start: usize, Ghost(lo): Ghost<int>)
        requires
            mm_down(old(self).values@, old(self).rank_fn(), lo, start as int),
            on_min(start as int),
        ensures
            final(self).order_by == old(self).order_by,
            final(self).values@.len() == old(self).values@.len(),
            final(self).values() == old(self).values(),
            mm_from(final(self).values@, final(self).rank_fn(), lo, -1),
    {
        self.fix_down_toward(start, false, Ghost(lo))
    }

    /// Moves the value at a max-level position down to its place among its
    /// children and grandchildren.
    fn fix_down_max(&mut self, start: usize, Ghost(lo): Ghost<int>)
        requires
            mm_down(old(self).values@, old(self).rank_fn(), lo, start as int),
            !on_min(start as int),
        ensures
            final(self).order_by == old(self).order_by,
            final(self).values@.len() == old(self).values@.len(),
            final(self).values() == old(self).values(),
            mm_from(final(self).values@, final(self).rank_fn(), lo, -1),
    {
        self.fix_down_toward(start, true, Ghost(lo))
    }

    /// Whether the value at `left` should sit above the one at `right` on
    /// the levels being restored: greater on max levels, smaller on min
    /// levels.
    fn beats(&self, left: usize, right: usize, toward_max: bool) -> (result: bool)
        requires
            left < self.values@.len(),
            right < self.values@.len(),
        ensures
            result == if toward_max {
                self.order_by.rank(self.values@[left as int]) > self.order_by.rank(self.values@[right as int])
            } else {
                self.order_by.rank(self.values@[left as int]) < self.order_by.rank(self.values@[right as int])
            },
    {
        if toward_max {
            follows(&self.order_by, &self.values[left], &self.values[right])
        } else {
            precedes(&self.order_by, &self.values[left], &self.values[right])
        }
    }

    fn fix_down_toward(&mut self, start: usize, toward_max: bool, Ghost(lo): Ghost<int>)
        requires
            mm_down(old(self).values@, old(self).rank_fn(), lo, start as int),
            toward_max == !on_min(start as int),
        ensures
            final(self).order_by == old(self).order_by,
            final(self).values@.len() == old(self).values@.len(),
            final(self).values() == old(self).values(),
            mm_from(final(self).values@, final(self).rank_fn(), lo, -1),
    {
        let len = self.values.len();
        let mut index = start;
        loop
            invariant
                self.order_by == old(self).order_by,
                self.values@.len() == len,
                len == old(self).values@.len(),
                self.values() == old(self).values(),
                index < len,
                mm_down(self.values@, self.rank_fn(), lo, index as int),
                toward_max == !on_min(index as int),
            decreases len - index,
        {
            let candidate = match self.best_descendant(index, toward_max) {
                Some(candidate) => candidate,
                None => {
                    proof {
                        assert forall|d: int| 0 < d < self.values@.len() && below_two(index as int, d) implies #[trigger] governs(
                            self.values@,
                            self.rank_fn(),
                            index as int,
                            d,
                        ) by {
                            lemma_family(index as int, d);
                        }
                        lemma_down_done(self.values@, self.rank_fn(), lo, index as int);
                    }
                    return;
                },
            };
            let first_grandchild = match index.checked_mul(4) {
                Some(product) => match product.checked_add(3) {
                    Some(first) => first,
                    None => len,
                },
                None => len,
            };
            proof {
                lemma_family(index as int, candidate as int);
                if candidate >= 3 {
                    lemma_parity(candidate as int);
                }
            }
            if candidate >= first_grandchild {
                if !self.beats(candidate, index, toward_max) {
                    proof {
                        lemma_best_governed(self.values@, self.rank_fn(), index as int, candidate as int);
                        lemma_down_done(self.values@, self.rank_fn(), lo, index as int);
                    }
                    return;
                }
                proof {
                    lemma_down_grandchild(self.values@, self.rank_fn(), lo, index as int, candidate as int);
                }
                self.swap(index, candidate);
                let parent = (candidate - 1) / 2;
                if self.beats(parent, candidate, toward_max) {
                    self.swap(candidate, parent);
                }
                index = candidate;
            } else {
                if self.beats(candidate, index, toward_max) {
                    proof {
                        lemma_down_child(self.values@, self.rank_fn(), lo, index as int, candidate as int);
                    }
                    self.swap(index, candidate);
                } else {
                    proof {
                        lemma_best_governed(self.values@, self.rank_fn(), index as int, candidate as int);
                        lemma_down_done(self.values@, self.rank_fn(), lo, index as int);
                    }
                }
                return;
            }
        }
    }

    /// The best of the children and grandchildren of `index`: the greatest
    /// when `toward_max` holds, the least otherwise; the first one scanned
    /// when several tie.
    fn best_descendant(&self, index: usize, toward_max: bool) -> (result: Option<usize>)
        requires
            index < self.values@.len(),
            toward_max == !on_min(index as int),
        ensures
            result is None <==> !(2 * index + 1 < self.values@.len()),
            result matches Some(c) ==> index < c && best_below(self.values@, self.rank_fn(), index as int, c as int),
    {
        let len = self.values.len();
        let first_child = match index.checked_mul(2) {
            Some(product) => match product.checked_add(1) {
                Some(first) => first,
                None => return None,
            },
            None => return None,
        };
        if first_child >= len {
            return None;
        }
        let mut best = first_child;
        let second_child = first_child + 1;
        if second_child < len && self.beats(second_child, best, toward_max) {
            best = second_child;
        }
        proof {
            assert forall|d: int| 0 < d < self.values@.len() && below_two(index as int, d) && d < 4 * index + 3 implies #[trigger] prefers(
                self.values@,
                self.rank_fn(),
                index as int,
                best as int,
                d,
            ) by {
                lemma_family(index as int, d);
            }
        }
        match index.checked_mul(4) {
            Some(product) => match product.checked_add(3) {
                Some(first_grandchild) => {
                    let mut offset: usize = 0;
                    while offset < 4
                        invariant
                            len == self.values@.len(),
                            index < best < len,
                            below_two(index as int, best as int),
                            first_grandchild == 4 * index + 3,
                            offset <= 4,
                            toward_max == !on_min(index as int),
                            forall|d: int|
                                0 < d < self.values@.len() && below_two(index as int, d) && d < 4 * index + 3 + offset
                                    ==> #[trigger] prefers(self.values@, self.rank_fn(), index as int, best as int, d),
                        decreases 4 - offset,
                    {
                        let ghost old_best = best;
                        if first_grandchild <= usize::MAX - offset {
                            let candidate = first_grandchild + offset;
                            if candidate < len {
                                let better = self.beats(candidate, best, toward_max);
                                if better {
                                    best = candidate;
                                }
                                proof {
                                    lemma_family(index as int, candidate as int);
                                    assert forall|d: int|
                                        0 < d < self.values@.len() && below_two(index as int, d) && d < 4 * index + 3 + offset
                                            + 1 implies #[trigger] prefers(
                                        self.values@,
                                        self.rank_fn(),
                                        index as int,
                                        best as int,
                                        d,
                                    ) by {
                                        lemma_family(index as int, d);
                                        if d < 4 * index + 3 + offset {
                                            assert(prefers(self.values@, self.rank_fn(), index as int, old_best as int, d));
                                        }
                                    }
                                }
                            }
                        }
                        offset = offset + 1;
                    }
                },
                None => {},
            },
            None => {},
        }
        proof {
            assert forall|d: int| 0 < d < self.values@.len() && below_two(index as int, d) implies #[trigger] prefers(
                self.values@,
                self.rank_fn(),
                index as int,
                best as int,
                d,
            ) by {
                lemma_family(index as int, d);
            }
        }
        Some(best)
    }
}

impl<T, C: Comparator<T>> Heap<T> for MinMaxBinaryArrayDoubleEndedHeap<T, C> {
    open spec fn well_formed(&self) -> bool {
        self.is_well_formed()
    }

    open spec fn items(&self) -> Multiset<T> {
        self.values()
    }

    open spec fn priority(&self, value: T) -> int {
        self.order().rank(value)
    }

    open spec fn accepts_push(&self) -> bool {
        true
    }

    fn push(&mut self, value: T) {
        MinMaxBinaryArrayDoubleEndedHeap::push(self, value)
    }

    fn peek(&self) -> (result: Option<&T>) {
        MinMaxBinaryArrayDoubleEndedHeap::peek(self)
    }

    fn pop(&mut self) -> (result: Option<T>) {
        MinMaxBinaryArrayDoubleEndedHeap::pop(self)
    }

    fn len(&self) -> (result: usize) {
        MinMaxBinaryArrayDoubleEndedHeap::len(self)
    }

    fn clear(&mut self) {
        MinMaxBinaryArrayDoubleEndedHeap::clear(self)
    }
}

impl<T, C: Comparator<T>> DoubleEndedHeap<T> for MinMaxBinaryArrayDoubleEndedHeap<T, C> {
    fn peek_max(&self) -> (result: Option<&T>) {
        MinMaxBinaryArrayDoubleEndedHeap::peek_max(self)
    }

    fn pop_max(&mut self) -> (result: Option<T>) {
        MinMaxBinaryArrayDoubleEndedHeap::pop_max(self)
    }
}

} // verus!
