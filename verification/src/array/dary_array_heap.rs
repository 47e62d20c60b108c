//! An array-backed d-ary min-heap.
use vstd::multiset::Multiset;
use vstd::prelude::*;

use crate::array::layout::{
    heap_ordered, lemma_down_done, lemma_down_step, lemma_drop_last_ordered, lemma_parent_bounds,
    lemma_replace_state, lemma_root_least, lemma_swap_multiset, lemma_up_done, lemma_up_start,
    lemma_up_step, ordered_from, parent_of, sifting_down, sifting_up,
};
use crate::order::{follows, precedes, Comparator, HeapKey, NaturalOrder};
use crate::Heap;

verus! {

broadcast use vstd::seq_lib::group_to_multiset_ensures;

/// The capacity reserved by the default constructors.
pub const DEFAULT_DARY_CAPACITY: usize = 16;

/// Error returned when a d-ary heap has fewer than two children per node.
#[derive(Clone, Copy, Debug, PartialEq, Eq)]
pub struct InvalidDegree(pub usize);

impl InvalidDegree {
    /// The rejected degree.
    pub fn degree(&self) -> (result: usize)
        ensures
            result == self.0,
    {
        self.0
    }
}

/// Checks that a heap has at least two children per node.
pub fn validate_degree(degree: usize) -> (result: Result<(), InvalidDegree>)
    ensures
        result is Ok <==> degree >= 2,
        result matches Err(e) ==> e.0 == degree,
{
    if degree < 2 {
        Err(InvalidDegree(degree))
    } else {
        Ok(())
    }
}

/// Sorts out the children of `index`: returns the position of its first
/// child, or `len` when it has none, and the end of its children.
pub fn child_range(index: usize, degree: usize, len: usize) -> (result: (usize, usize))
    requires
        degree >= 2,
        index < len,
    ensures
        result.0 >= len ==> forall|c: int| 0 < c < len ==> parent_of(c, degree as int) != index,
        result.0 < len ==> {
            &&& result.0 == degree * index + 1
            &&& result.0 < result.1 <= len
            &&& forall|c: int| 0 < c < len ==> (parent_of(c, degree as int) == index <==> result.0 <= c
                < result.1)
        },
{
    let first = match index.checked_mul(degree) {
        Some(product) => match product.checked_add(1) {
            Some(first) => first,
            None => len,
        },
        None => len,
    };
    proof {
        assert forall|c: int| 0 < c < len implies (parent_of(c, degree as int) == index <==> degree
            * index + 1 <= c <= degree * index + degree) by {
            lemma_parent_bounds(c, index as int, degree as int);
        }
        assert(degree * index >= 0) by (nonlinear_arith)
            requires
                degree >= 2,
                index >= 0,
        ;
    }
    if first >= len {
        return (len, len);
    }
    let end = if first.saturating_add(degree) < len {
        first.saturating_add(degree)
    } else {
        len
    };
    (first, end)
}

/// An array-backed d-ary min-heap.
///
/// Larger degrees reduce the height of the heap, making insertion cheaper,
/// but require more comparisons while removing a minimum value.
#[derive(Clone, Debug)]
pub struct DaryArrayHeap<T, C = NaturalOrder> {
    values: Vec<T>,
    degree: usize,
    order_by: C,
}

impl<T, C: Comparator<T>> DaryArrayHeap<T, C> {
    /// The rank function of the heap's comparator.
    pub open spec fn rank_fn(&self) -> spec_fn(T) -> int {
        |t: T| self.order().rank(t)
    }

    /// The backing array, in heap order.
    pub closed spec fn slots(&self) -> Seq<T> {
        self.values@
    }

    /// The comparator the heap orders by.
    pub closed spec fn order(&self) -> C {
        self.order_by
    }

    /// The number of children per node.
    pub closed spec fn arity(&self) -> usize {
        self.degree
    }

    /// Creates an empty heap ordered by `compare`.
    pub fn with_comparator(degree: usize, compare: C) -> (result: Result<Self, InvalidDegree>)
        ensures
            result is Ok <==> degree >= 2,
            result matches Err(e) ==> e.0 == degree,
            result matches Ok(heap) ==> {
                &&& heap.well_formed()
                &&& heap.items() =~= Multiset::empty()
                &&& heap.order() == compare
                &&& heap.arity() == degree
            },
    {
        Self::with_capacity_and_comparator(degree, DEFAULT_DARY_CAPACITY, compare)
    }

    /// Creates an empty heap with at least `capacity` value slots, ordered
    /// by `compare`.
    pub fn with_capacity_and_comparator(degree: usize, capacity: usize, compare: C) -> (result:
        Result<Self, InvalidDegree>)
        ensures
            result is Ok <==> degree >= 2,
            result matches Err(e) ==> e.0 == degree,
            result matches Ok(heap) ==> {
                &&& heap.well_formed()
                &&& heap.items() =~= Multiset::empty()
                &&& heap.order() == compare
                &&& heap.arity() == degree
            },
    {
        validate_degree(degree)?;
        Ok(DaryArrayHeap { values: Vec::with_capacity(capacity), degree, order_by: compare })
    }

    /// Builds a heap from `values` in linear time using `compare`.
    pub fn from_vec_by(degree: usize, values: Vec<T>, compare: C) -> (result: Result<
        Self,
        InvalidDegree,
    >)
        ensures
            result is Ok <==> degree >= 2,
            result matches Err(e) ==> e.0 == degree,
            result matches Ok(heap) ==> {
                &&& heap.well_formed()
                &&& heap.items() == values@.to_multiset()
                &&& heap.order() == compare
                &&& heap.arity() == degree
            },
    {
        validate_degree(degree)?;
        let mut heap = DaryArrayHeap { values, degree, order_by: compare };
        heap.heapify();
        Ok(heap)
    }

    /// Returns the number of children per node.
    pub fn degree(&self) -> (result: usize)
        ensures
            result == self.arity(),
    {
        self.degree
    }

    /// Returns the comparator used to order values.
    pub fn comparator(&self) -> (result: &C)
        ensures
            *result == self.order(),
    {
        &self.order_by
    }

    /// Consumes the heap and returns its backing storage in heap order.
    pub fn into_vec(self) -> (result: Vec<T>)
        ensures
            result@ == self.slots(),
            result@.to_multiset() == self.items(),
            self.well_formed() ==> heap_ordered(result@, self.rank_fn(), self.arity() as int),
    {
        self.values
    }

    fn heapify(&mut self)
        requires
            old(self).degree >= 2,
        ensures
            final(self).well_formed(),
            final(self).values@.to_multiset() == old(self).values@.to_multiset(),
            final(self).order_by == old(self).order_by,
            final(self).degree == old(self).degree,
    {
        let len = self.values.len();
        let last_parent = len.saturating_sub(2) / self.degree;
        let mut index = last_parent + 1;
        proof {
            let d = self.degree as int;
            assert forall|j: int| 0 < j < len implies parent_of(j, d) < last_parent + 1 by {
                assert((j - 1) / d < (len - 2) / d + 1 || len < 2) by (nonlinear_arith)
                    requires
                        d >= 2,
                        0 < j < len,
                ;
                if len < 2 {
                    lemma_parent_bounds(j, 0, d);
                }
            }
        }
        while index > 0
            invariant
                len == self.values@.len(),
                self.degree >= 2,
                index <= last_parent + 1,
                ordered_from(self.values@, self.rank_fn(), self.degree as int, index as int),
                self.values@.to_multiset() == old(self).values@.to_multiset(),
                self.order_by == old(self).order_by,
                self.degree == old(self).degree,
            decreases index,
        {
            index = index - 1;
            self.sift_down(index);
        }
    }

    fn sift_up(&mut self, start: usize)
        requires
            old(self).degree >= 2,
            sifting_up(old(self).values@, old(self).rank_fn(), old(self).degree as int, start as int),
        ensures
            heap_ordered(final(self).values@, final(self).rank_fn(), final(self).degree as int),
            final(self).values@.to_multiset() == old(self).values@.to_multiset(),
            final(self).values@.len() == old(self).values@.len(),
            final(self).order_by == old(self).order_by,
            final(self).degree == old(self).degree,
    {
        let mut index = start;
        proof {
            if index > 0 {
                lemma_parent_bounds(index as int, 0, self.degree as int);
            }
        }
        while index > 0 && follows(
            &self.order_by,
            &self.values[(index - 1) / self.degree],
            &self.values[index],
        )
            invariant
                self.degree >= 2,
                sifting_up(self.values@, self.rank_fn(), self.degree as int, index as int),
                self.values@.to_multiset() == old(self).values@.to_multiset(),
                self.values@.len() == old(self).values@.len(),
                self.order_by == old(self).order_by,
                self.degree == old(self).degree,
            decreases index,
        {
            let parent = (index - 1) / self.degree;
            proof {
                lemma_parent_bounds(index as int, 0, self.degree as int);
                lemma_up_step(self.values@, self.rank_fn(), self.degree as int, index as int);
                lemma_swap_multiset(self.values@, index as int, parent as int);
                if parent > 0 {
                    lemma_parent_bounds(parent as int, 0, self.degree as int);
                }
            }
            self.values.as_mut_slice().swap(index, parent);
            index = parent;
        }
        proof {
            lemma_up_done(self.values@, self.rank_fn(), self.degree as int, index as int);
        }
    }

    fn sift_down(&mut self, start: usize)
        requires
            old(self).degree >= 2,
            ordered_from(old(self).values@, old(self).rank_fn(), old(self).degree as int, start as int + 1),
        ensures
            ordered_from(final(self).values@, final(self).rank_fn(), final(self).degree as int, start as int),
            final(self).values@.to_multiset() == old(self).values@.to_multiset(),
            final(self).values@.len() == old(self).values@.len(),
            final(self).order_by == old(self).order_by,
            final(self).degree == old(self).degree,
    {
        let len = self.values.len();
        let d = self.degree;
        if start >= len {
            return;
        }
        let mut index = start;
        loop
            invariant
                len == self.values.len(),
                d == self.degree,
                d >= 2,
                sifting_down(self.values@, self.rank_fn(), d as int, start as int, index as int),
                self.values@.to_multiset() == old(self).values@.to_multiset(),
                self.values@.len() == old(self).values@.len(),
                self.order_by == old(self).order_by,
                self.degree == old(self).degree,
            decreases len - index,
        {
            let (first_child, end) = child_range(index, d, len);
            if first_child >= len {
                proof {
                    lemma_down_done(self.values@, self.rank_fn(), d as int, start as int, index as int);
                }
                return;
            }
            let mut smallest = first_child;
            let mut child = first_child + 1;
            while child < end
                invariant
                    len == self.values.len(),
                    first_child < end <= len,
                    first_child <= smallest < end,
                    first_child < child <= end,
                    smallest < child,
                    forall|c: int|
                        first_child <= c < child ==> self.rank_fn()(self.values@[smallest as int])
                            <= self.rank_fn()(#[trigger] self.values@[c]),
                decreases end - child,
            {
                if precedes(&self.order_by, &self.values[child], &self.values[smallest]) {
                    smallest = child;
                }
                child = child + 1;
            }
            proof {
                lemma_parent_bounds(smallest as int, index as int, d as int);
            }
            if !follows(&self.order_by, &self.values[index], &self.values[smallest]) {
                proof {
                    lemma_down_done(self.values@, self.rank_fn(), d as int, start as int, index as int);
                }
                return;
            }
            proof {
                lemma_down_step(self.values@, self.rank_fn(), d as int, start as int, index as int, smallest as int);
                lemma_swap_multiset(self.values@, index as int, smallest as int);
            }
            self.values.as_mut_slice().swap(index, smallest);
            index = smallest;
        }
    }
}

impl<T: HeapKey> DaryArrayHeap<T, NaturalOrder> {
    /// Creates an empty heap with `degree` children per node.
    pub fn new(degree: usize) -> (result: Result<Self, InvalidDegree>)
        ensures
            result is Ok <==> degree >= 2,
            result matches Err(e) ==> e.0 == degree,
            result matches Ok(heap) ==> {
                &&& heap.well_formed()
                &&& heap.items() =~= Multiset::empty()
                &&& heap.arity() == degree
            },
    {
        Self::with_capacity(degree, DEFAULT_DARY_CAPACITY)
    }

    /// Creates an empty heap with at least `capacity` value slots.
    pub fn with_capacity(degree: usize, capacity: usize) -> (result: Result<Self, InvalidDegree>)
        ensures
            result is Ok <==> degree >= 2,
            result matches Err(e) ==> e.0 == degree,
            result matches Ok(heap) ==> {
                &&& heap.well_formed()
                &&& heap.items() =~= Multiset::empty()
                &&& heap.arity() == degree
            },
    {
        Self::with_capacity_and_comparator(degree, capacity, NaturalOrder)
    }

    /// Builds a heap from `values` in linear time.
    pub fn from_vec(degree: usize, values: Vec<T>) -> (result: Result<Self, InvalidDegree>)
        ensures
            result is Ok <==> degree >= 2,
            result matches Err(e) ==> e.0 == degree,
            result matches Ok(heap) ==> {
                &&& heap.well_formed()
                &&& heap.items() == values@.to_multiset()
                &&& heap.arity() == degree
            },
    {
        Self::from_vec_by(degree, values, NaturalOrder)
    }
}

impl<T: HeapKey> Default for DaryArrayHeap<T, NaturalOrder> {
    fn default() -> (heap: Self)
        ensures
            heap.well_formed(),
            heap.items() =~= Multiset::empty(),
            heap.arity() == 2,
    {
        DaryArrayHeap { values: Vec::with_capacity(DEFAULT_DARY_CAPACITY), degree: 2, order_by: NaturalOrder }
    }
}

impl<T, C: Comparator<T>> Heap<T> for DaryArrayHeap<T, C> {
    open spec fn well_formed(&self) -> bool {
        &&& self.arity() >= 2
        &&& heap_ordered(self.slots(), self.rank_fn(), self.arity() as int)
    }

    open spec fn items(&self) -> Multiset<T> {
        self.slots().to_multiset()
    }

    open spec fn priority(&self, value: T) -> int {
        self.order().rank(value)
    }

    open spec fn accepts_push(&self) -> bool {
        true
    }

    fn push(&mut self, value: T) {
        proof {
            lemma_up_start(self.values@, self.rank_fn(), self.degree as int, value);
        }
        self.values.push(value);
        let last = self.values.len() - 1;
        self.sift_up(last);
    }

    fn peek(&self) -> (result: Option<&T>) {
        if self.values.len() == 0 {
            None
        } else {
            proof {
                assert forall|w: T| self.items().contains(w) implies self.priority(self.values@[0])
                    <= self.priority(w) by {
                    let k = choose|k: int| 0 <= k < self.values@.len() && self.values@[k] == w;
                    lemma_root_least(self.values@, self.rank_fn(), self.degree as int, k);
                }
            }
            Some(&self.values[0])
        }
    }

    fn pop(&mut self) -> (result: Option<T>) {
        let ghost s = self.values@;
        let ghost d = self.degree as int;
        if self.values.len() == 0 {
            return None;
        }
        proof {
            assert forall|w: T| s.to_multiset().contains(w) implies self.priority(s[0])
                <= self.priority(w) by {
                let k = choose|k: int| 0 <= k < s.len() && s[k] == w;
                lemma_root_least(s, self.rank_fn(), d, k);
            }
            lemma_drop_last_ordered(s, self.rank_fn(), d);
        }
        let mut result = self.values.pop().unwrap();
        assert(self.values@ == s.drop_last());
        if self.values.len() == 0 {
            assert(s =~= seq![result]);
            assert(s.to_multiset().remove(result) =~= self.values@.to_multiset());
            return Some(result);
        }
        proof {
            lemma_replace_state(s.drop_last(), self.rank_fn(), d, 0, result);
            assert(s =~= s.drop_last().push(s.last()));
            assert(s.drop_last().update(0, s.last()).to_multiset() == s.drop_last().to_multiset().insert(
                s.last(),
            ).remove(s[0]));
        }
        self.values.set_and_swap(0, &mut result);
        self.sift_down(0);
        Some(result)
    }

    fn len(&self) -> (result: usize) {
        self.values.len()
    }

    fn clear(&mut self) {
        self.values.clear();
    }
}

} // verus!
