//! An array-backed min-heap with `i32` keys and associated values.
use vstd::multiset::Multiset;
use vstd::prelude::*;

use crate::array::layout::{
    heap_ordered, lemma_down_done, lemma_down_step, lemma_drop_last_ordered, lemma_parent_bounds,
    lemma_replace_state, lemma_root_least, lemma_swap_multiset, lemma_up_done, lemma_up_start,
    lemma_up_step, ordered_from, parent_of, sifting_down, sifting_up,
};
use crate::ValueHeap;

verus! {

broadcast use vstd::seq_lib::group_to_multiset_ensures;

/// The capacity reserved by the default constructors.
pub const DEFAULT_VALUE_HEAP_CAPACITY: usize = 16;

/// The rank of an entry: its key.
pub open spec fn entry_rank<V>() -> spec_fn((i32, V)) -> int {
    |e: (i32, V)| e.0 as int
}

/// An array-backed min-heap with `i32` keys and associated values.
///
/// Keys are stored directly.  Insertion and removal are `O(log n)` and
/// construction from a vector is `O(n)`.
#[derive(Clone, Debug)]
pub struct BinaryArrayIntegerValueHeap<V> {
    entries: Vec<(i32, V)>,
}

impl<V> BinaryArrayIntegerValueHeap<V> {
    /// The backing array, in heap order.
    pub closed spec fn slots(&self) -> Seq<(i32, V)> {
        self.entries@
    }

    /// Creates an empty heap.
    pub fn new() -> (heap: Self)
        ensures
            heap.well_formed(),
            heap.entries() =~= Multiset::empty(),
    {
        Self::with_capacity(DEFAULT_VALUE_HEAP_CAPACITY)
    }

    /// Creates an empty heap with storage for at least `capacity` entries.
    pub fn with_capacity(capacity: usize) -> (heap: Self)
        ensures
            heap.well_formed(),
            heap.entries() =~= Multiset::empty(),
    {
        BinaryArrayIntegerValueHeap { entries: Vec::with_capacity(capacity) }
    }

    /// Builds a heap from key-value pairs in linear time.
    pub fn from_vec(entries: Vec<(i32, V)>) -> (heap: Self)
        ensures
            heap.well_formed(),
            heap.entries() == entries@.to_multiset(),
    {
        let mut heap = BinaryArrayIntegerValueHeap { entries };
        heap.heapify();
        heap
    }

    /// Inserts `key` and its associated `value`.
    pub fn push(&mut self, key: i32, value: V)
        requires
            old(self).well_formed(),
        ensures
            final(self).well_formed(),
            final(self).entries() == old(self).entries().insert((key, value)),
    {
        proof {
            lemma_up_start(self.entries@, entry_rank(), 2, (key, value));
        }
        self.entries.push((key, value));
        let last = self.entries.len() - 1;
        self.sift_up(last);
    }

    /// Alias for [`Self::push`].
    pub fn insert(&mut self, key: i32, value: V)
        requires
            old(self).well_formed(),
        ensures
            final(self).well_formed(),
            final(self).entries() == old(self).entries().insert((key, value)),
    {
        self.push(key, value)
    }

    /// Returns the minimum key and its associated value.
    pub fn peek(&self) -> (result: Option<(&i32, &V)>)
        requires
            self.well_formed(),
        ensures
            result is None <==> self.entries().len() == 0,
            result matches Some((k, v)) ==> crate::least_in(self.entries(), (*k, *v), entry_rank::<V>()),
    {
        if self.entries.len() == 0 {
            None
        } else {
            proof {
                self.lemma_first_least();
            }
            let first = &self.entries[0];
            Some((&first.0, &first.1))
        }
    }

    /// Returns the minimum key.
    pub fn peek_key(&self) -> (result: Option<&i32>)
        requires
            self.well_formed(),
        ensures
            result is None <==> self.entries().len() == 0,
            result matches Some(k) ==> {
                &&& crate::least_in(self.entries(), self.slots()[0], entry_rank::<V>())
                &&& *k == self.slots()[0].0
            },
    {
        if self.entries.len() == 0 {
            None
        } else {
            proof {
                self.lemma_first_least();
            }
            Some(&self.entries[0].0)
        }
    }

    /// Returns the value associated with the minimum key.
    pub fn peek_value(&self) -> (result: Option<&V>)
        requires
            self.well_formed(),
        ensures
            result is None <==> self.entries().len() == 0,
            result matches Some(v) ==> {
                &&& crate::least_in(self.entries(), self.slots()[0], entry_rank::<V>())
                &&& *v == self.slots()[0].1
            },
    {
        if self.entries.len() == 0 {
            None
        } else {
            proof {
                self.lemma_first_least();
            }
            Some(&self.entries[0].1)
        }
    }

    /// Removes and returns the minimum key-value pair.
    pub fn pop(&mut self) -> (result: Option<(i32, V)>)
        requires
            old(self).well_formed(),
        ensures
            final(self).well_formed(),
            result is None <==> old(self).entries().len() == 0,
            result is None ==> final(self).entries() == old(self).entries(),
            result matches Some(e) ==> {
                &&& crate::least_in(old(self).entries(), e, entry_rank::<V>())
                &&& final(self).entries() == old(self).entries().remove(e)
            },
    {
        let ghost s = self.entries@;
        if self.entries.len() == 0 {
            return None;
        }
        proof {
            self.lemma_first_least();
            lemma_drop_last_ordered(s, entry_rank(), 2);
        }
        let mut result = self.entries.pop().unwrap();
        assert(self.entries@ == s.drop_last());
        if self.entries.len() == 0 {
            assert(s =~= seq![result]);
            assert(s.to_multiset().remove(result) =~= self.entries@.to_multiset());
            return Some(result);
        }
        proof {
            lemma_replace_state(s.drop_last(), entry_rank(), 2, 0, result);
            assert(s =~= s.drop_last().push(s.last()));
            assert(s.drop_last().update(0, s.last()).to_multiset() == s.drop_last().to_multiset().insert(
                s.last(),
            ).remove(s[0]));
        }
        self.entries.set_and_swap(0, &mut result);
        self.sift_down(0);
        Some(result)
    }

    /// Returns the number of entries.
    pub fn len(&self) -> (result: usize)
        ensures
            result == self.entries().len(),
    {
        self.entries.len()
    }

    /// Returns whether the heap contains no entries.
    pub fn is_empty(&self) -> (result: bool)
        ensures
            result == (self.entries().len() == 0),
    {
        self.entries.len() == 0
    }

    /// Removes every entry from the heap.
    pub fn clear(&mut self)
        ensures
            final(self).well_formed(),
            final(self).entries() =~= Multiset::empty(),
    {
        self.entries.clear();
    }

    /// Consumes the heap and returns its backing entries in heap order.
    pub fn into_vec(self) -> (result: Vec<(i32, V)>)
        ensures
            result@ == self.slots(),
            result@.to_multiset() == self.entries(),
    {
        self.entries
    }

    /// The heap's entries in internal heap order, not priority order.
    pub fn iter(&self) -> (result: &[(i32, V)])
        ensures
            result@ == self.slots(),
    {
        self.entries.as_slice()
    }

    proof fn lemma_first_least(&self)
        requires
            self.well_formed(),
            self.entries@.len() > 0,
        ensures
            crate::least_in(self.entries(), self.entries@[0], entry_rank::<V>()),
    {
        assert forall|w: (i32, V)| self.entries().contains(w) implies self.entries@[0].0 <= w.0 by {
            let k = choose|k: int| 0 <= k < self.entries@.len() && self.entries@[k] == w;
            lemma_root_least(self.entries@, entry_rank(), 2, k);
        }
    }

    fn heapify(&mut self)
        ensures
            final(self).well_formed(),
            final(self).entries@.to_multiset() == old(self).entries@.to_multiset(),
    {
        let mut index = self.entries.len() / 2;
        while index > 0
            invariant
                index <= self.entries.len() / 2,
                ordered_from(self.entries@, entry_rank(), 2, index as int),
                self.entries@.to_multiset() == old(self).entries@.to_multiset(),
            decreases index,
        {
            index = index - 1;
            self.sift_down(index);
        }
    }

    fn sift_up(&mut self, start: usize)
        requires
            sifting_up(old(self).entries@, entry_rank(), 2, start as int),
        ensures
            heap_ordered(final(self).entries@, entry_rank(), 2),
            final(self).entries@.to_multiset() == old(self).entries@.to_multiset(),
            final(self).entries@.len() == old(self).entries@.len(),
    {
        let mut index = start;
        while index > 0 && self.entries[(index - 1) / 2].0 > self.entries[index].0
            invariant
                sifting_up(self.entries@, entry_rank(), 2, index as int),
                self.entries@.to_multiset() == old(self).entries@.to_multiset(),
                self.entries@.len() == old(self).entries@.len(),
            decreases index,
        {
            let parent = (index - 1) / 2;
            proof {
                lemma_up_step(self.entries@, entry_rank(), 2, index as int);
                lemma_swap_multiset(self.entries@, index as int, parent as int);
            }
            self.entries.as_mut_slice().swap(index, parent);
            index = parent;
        }
        proof {
            lemma_up_done(self.entries@, entry_rank(), 2, index as int);
        }
    }

    fn sift_down(&mut self, start: usize)
        requires
            ordered_from(old(self).entries@, entry_rank(), 2, start as int + 1),
        ensures
            ordered_from(final(self).entries@, entry_rank(), 2, start as int),
            final(self).entries@.to_multiset() == old(self).entries@.to_multiset(),
            final(self).entries@.len() == old(self).entries@.len(),
    {
        let len = self.entries.len();
        if start >= len {
            return;
        }
        let mut index = start;
        loop
            invariant
                len == self.entries.len(),
                sifting_down(self.entries@, entry_rank(), 2, start as int, index as int),
                self.entries@.to_multiset() == old(self).entries@.to_multiset(),
                self.entries@.len() == old(self).entries@.len(),
            decreases len - index,
        {
            if index >= len / 2 {
                proof {
                    assert forall|c: int| #![trigger self.entries@[c]]
                        0 < c < self.entries@.len() && parent_of(c, 2) == index implies
                        entry_rank()(self.entries@[index as int]) <= entry_rank()(self.entries@[c]) by {
                        lemma_parent_bounds(c, index as int, 2);
                    }
                    lemma_down_done(self.entries@, entry_rank(), 2, start as int, index as int);
                }
                return;
            }
            let left = index * 2 + 1;
            let right = left + 1;
            let child = if right < len && self.entries[right].0 < self.entries[left].0 {
                right
            } else {
                left
            };
            proof {
                assert forall|c: int| #![trigger self.entries@[c]]
                    0 < c < self.entries@.len() && parent_of(c, 2) == index implies
                    entry_rank()(self.entries@[child as int]) <= entry_rank()(self.entries@[c]) by {
                    lemma_parent_bounds(c, index as int, 2);
                }
                lemma_parent_bounds(child as int, index as int, 2);
            }
            if self.entries[index].0 <= self.entries[child].0 {
                proof {
                    lemma_down_done(self.entries@, entry_rank(), 2, start as int, index as int);
                }
                return;
            }
            proof {
                lemma_down_step(self.entries@, entry_rank(), 2, start as int, index as int, child as int);
                lemma_swap_multiset(self.entries@, index as int, child as int);
            }
            self.entries.as_mut_slice().swap(index, child);
            index = child;
        }
    }
}

impl<V> Default for BinaryArrayIntegerValueHeap<V> {
    fn default() -> (heap: Self)
        ensures
            heap.well_formed(),
            heap.entries() =~= Multiset::empty(),
    {
        Self::new()
    }
}

impl<V> ValueHeap<i32, V> for BinaryArrayIntegerValueHeap<V> {
    open spec fn well_formed(&self) -> bool {
        heap_ordered(self.slots(), entry_rank(), 2)
    }

    open spec fn entries(&self) -> Multiset<(i32, V)> {
        self.slots().to_multiset()
    }

    open spec fn priority(&self, key: i32) -> int {
        key as int
    }

    fn insert(&mut self, key: i32, value: V) {
        self.push(key, value)
    }

    fn peek(&self) -> (result: Option<(&i32, &V)>) {
        BinaryArrayIntegerValueHeap::peek(self)
    }

    fn pop(&mut self) -> (result: Option<(i32, V)>) {
        BinaryArrayIntegerValueHeap::pop(self)
    }

    fn len(&self) -> (result: usize) {
        BinaryArrayIntegerValueHeap::len(self)
    }

    fn clear(&mut self) {
        BinaryArrayIntegerValueHeap::clear(self)
    }
}

} // verus!
