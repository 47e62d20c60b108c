//! Array-backed binary weak heaps.
//!
//! A weak heap keeps one reverse bit per element: the children of element
//! `i` are `2 * i + r[i]` and `2 * i + 1 - r[i]`, and joining two elements
//! swaps them and flips the bit of the lower one instead of moving whole
//! subtrees.  Both heaps keep the weak-heap order, so the root is a least
//! value.  The bulk-insert variant also holds recent insertions in a small
//! buffer together with the position of a least buffered value; its minimum
//! is the smaller of the root and that value, and a full buffer is moved
//! into the weak heap one value at a time.
use vstd::multiset::Multiset;
use vstd::prelude::*;

use crate::array::layout::{lemma_swap_multiset, swapped};
use crate::array::min_max_order::lemma_exp2_mono;
use crate::array::weak_order::{
    climb, danc, hits, is_left, lemma_chain_below, lemma_chain_order, lemma_climb_agree, lemma_climb_bounds,
    lemma_climb_frame, lemma_climb_stop, lemma_flip, lemma_join_keep, lemma_join_swap, lemma_wh_least, lemma_wh_mono, wh_except,
    wh_ordered,
};
use crate::{least_in, Heap};
use crate::order::HeapKey;

verus! {

broadcast use vstd::seq_lib::group_to_multiset_ensures;

/// The capacity reserved by the default constructors.
pub const DEFAULT_WEAK_HEAP_CAPACITY: usize = 16;

/// The largest number of values that a bulk-insert weak heap buffers.
pub const INSERTION_BUFFER_CAPACITY: usize = 34;

/// `i` lies in the subtree of `r` in the implicit binary numbering, where
/// the parent of `i` is `i / 2`.
pub open spec fn descends(i: nat, r: nat) -> bool
    decreases i,
{
    if i == r {
        true
    } else if i <= r || i == 0 {
        false
    } else {
        descends(i / 2, r)
    }
}

/// Two to the power `e`.
pub open spec fn exp2(e: nat) -> nat
    decreases e,
{
    if e == 0 {
        1
    } else {
        2 * exp2((e - 1) as nat)
    }
}

/// The position of the highest set bit of `n`, for `n >= 1`: the exponent
/// of the largest power of two not above `n`.
#[verifier::spinoff_prover]
pub fn floor_log2(n: usize) -> (result: u32)
    requires
        n >= 1,
    ensures
        exp2(result as nat) <= n < exp2(result as nat + 1),
        result < 64,
{
    let mut m = n;
    let mut result: u32 = 0;
    assert(exp2(0) == 1);
    assert(m * exp2(0) <= n < (m + 1) * exp2(0));
    while m > 1
        invariant
            1 <= m <= n,
            result <= 64,
            m * exp2(result as nat) <= n < (m + 1) * exp2(result as nat),
        decreases m,
    {
        let ghost e = exp2(result as nat);
        let ghost old_m = m;
        assert(exp2(result as nat + 1) == 2 * e);
        assert(e >= 1) by {
            assert(old_m * e <= n);
            assert(e != 0) by {
                if e == 0 {
                    assert(old_m * e == 0) by (nonlinear_arith)
                        requires
                            e == 0,
                    ;
                    assert((old_m + 1) * e == 0) by (nonlinear_arith)
                        requires
                            e == 0,
                    ;
                }
            }
        }
        m = m / 2;
        proof {
            assert(m * (2 * e) <= old_m * e) by (nonlinear_arith)
                requires
                    m == old_m / 2,
                    e >= 1,
            ;
            assert((old_m + 1) * e <= (m + 1) * (2 * e)) by (nonlinear_arith)
                requires
                    m == old_m / 2,
                    e >= 1,
            ;
            assert(result < 64) by {
                if result == 64 {
                    assert(exp2(64) == 0x1_0000_0000_0000_0000) by {
                        reveal_with_fuel(exp2, 65);
                    }
                    assert(old_m * e >= e) by (nonlinear_arith)
                        requires
                            old_m >= 1,
                            e >= 1,
                    ;
                }
            }
        }
        result = result + 1;
    }
    proof {
        let e = exp2(result as nat);
        assert(m == 1);
        assert(exp2(result as nat + 1) == 2 * e);
        if result == 64 {
            assert(exp2(64) == 0x1_0000_0000_0000_0000) by {
                reveal_with_fuel(exp2, 65);
            }
        }
    }
    result
}

#[derive(Clone, Debug)]
struct WeakHeapCore<T> {
    values: Vec<T>,
    reverse: Vec<bool>,
}

/// The rank of a key.
pub open spec fn key_rank_of<T: HeapKey>() -> spec_fn(T) -> int {
    |t: T| t.key_rank()
}

/// The positions whose distinguished ancestor is `root`, and `root`.
pub open spec fn down_set(r: Seq<bool>, root: int) -> Set<int> {
    Set::new(|x: int| danc(r, x) == root).insert(root)
}

/// The positions up to `j` whose distinguished ancestor is `root`, and
/// `root`.
pub open spec fn down_set_upto(r: Seq<bool>, root: int, j: int) -> Set<int> {
    Set::new(|x: int| 0 < x <= j && danc(r, x) == root).insert(root)
}

impl<T: HeapKey> WeakHeapCore<T> {
    spec fn wf(&self) -> bool {
        &&& self.reverse@.len() >= self.values@.len()
        &&& self.reverse@.len() > 0 ==> !self.reverse@[0]
    }

    spec fn items(&self) -> Multiset<T> {
        self.values@.to_multiset()
    }

    /// The weak-heap order.
    spec fn ordered(&self) -> bool {
        wh_ordered(self.values@, self.reverse@, key_rank_of::<T>())
    }

    /// The root holds a least value.
    proof fn lemma_root_least(&self)
        requires
            self.wf(),
            self.ordered(),
            self.values@.len() > 0,
        ensures
            least_in(self.items(), self.values@[0], |t: T| t.key_rank()),
    {
        assert(self.values@.to_multiset().contains(self.values@[0]));
        assert forall|w: T| self.items().contains(w) implies self.values@[0].key_rank() <= w.key_rank() by {
            let k = choose|k: int| 0 <= k < self.values@.len() && self.values@[k] == w;
            lemma_wh_least(self.values@, self.reverse@, key_rank_of::<T>(), k);
        }
    }

    fn new(capacity: usize) -> (core: Self)
        ensures
            core.wf(),
            core.ordered(),
            core.items() =~= Multiset::empty(),
            core.values@.len() == 0,
    {
        WeakHeapCore { values: Vec::with_capacity(capacity), reverse: Vec::with_capacity(capacity) }
    }

    fn from_vec(values: Vec<T>) -> (core: Self)
        ensures
            core.wf(),
            core.ordered(),
            core.items() == values@.to_multiset(),
            core.values@.len() == values@.len(),
            core.values@.len() <= usize::MAX,
    {
        let n = values.len();
        let mut reverse: Vec<bool> = Vec::with_capacity(n);
        while reverse.len() < n
            invariant
                reverse@.len() <= n,
                forall|k: int| 0 <= k < reverse@.len() ==> !(#[trigger] reverse@[k]),
            decreases n - reverse@.len(),
        {
            reverse.push(false);
        }
        let mut heap = WeakHeapCore { values, reverse };
        let mut index = n;
        proof {
            assert forall|x: int| #![trigger heap.values@[x]] 0 < x < heap.values@.len() && !Set::new(|y: int| y < n).contains(x)
                implies key_rank_of::<T>()(heap.values@[danc(heap.reverse@, x)]) <= key_rank_of::<T>()(heap.values@[x]) by {}
        }
        while index > 1
            invariant
                heap.wf(),
                heap.values@.len() == n,
                heap.items() == values@.to_multiset(),
                index <= n,
                wh_except(heap.values@, heap.reverse@, key_rank_of::<T>(), Set::new(|y: int| y < index)),
            decreases index,
        {
            index = index - 1;
            let ancestor = heap.distinguished_ancestor(index);
            let ghost s0 = heap.values@;
            let ghost r0 = heap.reverse@;
            let ghost ex = Set::new(|y: int| y < index + 1);
            proof {
                lemma_climb_bounds(r0, index as int);
                assert forall|x: int| 0 < x < s0.len() && hits(r0, x, index as int) implies !ex.contains(x) by {
                    lemma_flip(r0, index as int, x);
                }
            }
            let in_order = heap.join(ancestor, index);
            proof {
                if in_order {
                    lemma_join_keep(s0, r0, key_rank_of::<T>(), ancestor as int, index as int, ex);
                    lemma_wh_mono(heap.values@, heap.reverse@, key_rank_of::<T>(), ex.remove(index as int), Set::new(|y: int| y < index));
                } else {
                    lemma_join_swap(s0, r0, key_rank_of::<T>(), ancestor as int, index as int, ex);
                    lemma_wh_mono(
                        heap.values@,
                        heap.reverse@,
                        key_rank_of::<T>(),
                        ex.remove(index as int).insert(ancestor as int),
                        Set::new(|y: int| y < index),
                    );
                }
            }
        }
        proof {
            assert forall|x: int| #![trigger heap.values@[x]] 0 < x < heap.values@.len() && !Set::<int>::empty().contains(x) implies key_rank_of::<T>()(
                heap.values@[danc(heap.reverse@, x)],
            ) <= key_rank_of::<T>()(heap.values@[x]) by {
                assert(!Set::new(|y: int| y < index).contains(x));
            }
        }
        heap
    }

    fn push(&mut self, value: T)
        requires
            old(self).wf(),
        ensures
            final(self).wf(),
            final(self).items() == old(self).items().insert(value),
            final(self).values@.len() == old(self).values@.len() + 1,
            old(self).ordered() ==> final(self).ordered(),
    {
        let index = self.append_unfixed(value);
        self.fix_up(index);
    }

    /// Appends `value` as a new leaf and clears the reverse bits that would
    /// otherwise give it a stale subtree.
    fn append_unfixed(&mut self, value: T) -> (index: usize)
        requires
            old(self).wf(),
        ensures
            final(self).wf(),
            final(self).items() == old(self).items().insert(value),
            final(self).values@ == old(self).values@.push(value),
            index == old(self).values@.len(),
            index < final(self).values@.len(),
            old(self).ordered() ==> wh_except(final(self).values@, final(self).reverse@, key_rank_of::<T>(), set![index as int]),
    {
        let index = self.values.len();
        let ghost r0 = self.reverse@;
        self.values.push(value);
        while self.reverse.len() <= index
            invariant
                self.reverse@.len() >= index,
                self.values@.len() == index + 1,
                self.values@ == old(self).values@.push(value),
                self.reverse@.len() > 0 ==> !self.reverse@[0],
                forall|y: int| 0 <= y < index ==> self.reverse@[y] == r0[y],
                r0 == old(self).reverse@,
                r0.len() >= index,
            decreases index + 1 - self.reverse@.len(),
        {
            self.reverse.push(false);
        }
        self.reverse.set(index, false);
        if index % 2 == 0 {
            self.reverse.set(index / 2, false);
        }
        proof {
            if old(self).ordered() {
                let s1 = self.values@;
                let r1 = self.reverse@;
                assert forall|x: int| #![trigger s1[x]] 0 < x < s1.len() && !set![index as int].contains(x) implies key_rank_of::<T>()(
                    s1[danc(r1, x)],
                ) <= key_rank_of::<T>()(s1[x]) by {
                    assert forall|y: int| 0 <= y && 2 * y <= x implies r1[y] == r0[y] by {}
                    lemma_climb_agree(r0, r1, x);
                    lemma_climb_bounds(r0, x);
                    let _ = old(self).values@[x];
                }
            }
        }
        index
    }

    fn pop(&mut self) -> (result: Option<T>)
        requires
            old(self).wf(),
        ensures
            final(self).wf(),
            result is None <==> old(self).items().len() == 0,
            result is None ==> final(self).items() == old(self).items(),
            result matches Some(v) ==> old(self).items().contains(v) && final(self).items() == old(self).items().remove(v),
            result matches Some(v) ==> v == old(self).values@[0],
            final(self).values@.len() <= old(self).values@.len(),
            old(self).ordered() ==> final(self).ordered(),
    {
        if self.values.len() == 0 {
            return None;
        }
        let ghost s = self.values@;
        let result = self.values.swap_remove(0);
        proof {
            assert(s.to_multiset().contains(s[0]));
            if s.len() > 1 {
                let t = s.update(0, s.last());
                assert(self.values@ == t.drop_last());
                assert(t.to_multiset() == s.to_multiset().insert(s.last()).remove(s[0]));
                assert(t =~= t.drop_last().push(s.last()));
                assert(t.to_multiset() == t.drop_last().to_multiset().insert(s.last()));
                assert forall|x: T| #[trigger] self.values@.to_multiset().count(x) == s.to_multiset().remove(s[0]).count(x) by {
                    assert(t.to_multiset().count(x) == self.values@.to_multiset().insert(s.last()).count(x));
                }
                assert(self.values@.to_multiset() =~= s.to_multiset().remove(s[0]));
            } else {
                assert(self.values@ =~= Seq::<T>::empty());
                assert(s =~= seq![s[0]]);
            }
            if old(self).ordered() {
                let s1 = self.values@;
                let r = self.reverse@;
                assert forall|x: int| #![trigger s1[x]] 0 < x < s1.len() && !down_set(r, 0).contains(x) implies key_rank_of::<T>()(
                    s1[danc(r, x)],
                ) <= key_rank_of::<T>()(s1[x]) by {
                    lemma_climb_bounds(r, x);
                    let _ = s[x];
                }
            }
        }
        if self.values.len() > 1 {
            self.fix_down(0);
        }
        proof {
            if old(self).ordered() {
                assert forall|x: int| #![trigger self.values@[x]] 0 < x < self.values@.len() && !Set::<int>::empty().contains(x) implies key_rank_of::<T>()(
                    self.values@[danc(self.reverse@, x)],
                ) <= key_rank_of::<T>()(self.values@[x]) by {
                    assert(!set![0int].contains(x));
                }
            }
        }
        Some(result)
    }

    fn clear(&mut self)
        ensures
            final(self).wf(),
            final(self).ordered(),
            final(self).items() =~= Multiset::empty(),
            final(self).values@.len() == 0,
    {
        self.values.clear();
        self.reverse.clear();
    }

    /// The nearest ancestor of `index` of which it lies in the right
    /// subtree.
    fn distinguished_ancestor(&self, index: usize) -> (ancestor: usize)
        requires
            self.wf(),
            0 < index < self.values@.len(),
        ensures
            ancestor < index,
            ancestor == danc(self.reverse@, index as int),
    {
        let mut current = index;
        while current > 0 && (current % 2 == 1) == self.reverse[current / 2]
            invariant
                self.wf(),
                current <= index < self.values@.len(),
                climb(self.reverse@, current as int) == climb(self.reverse@, index as int),
            decreases current,
        {
            current = current / 2;
        }
        proof {
            lemma_climb_bounds(self.reverse@, index as int);
        }
        current / 2
    }

    /// Makes the smaller of the elements at `first` and `second` the one at
    /// `first`; returns whether they were already in order.
    fn join(&mut self, first: usize, second: usize) -> (in_order: bool)
        requires
            old(self).wf(),
            first < old(self).values@.len(),
            0 < second < old(self).values@.len(),
        ensures
            final(self).wf(),
            final(self).items() == old(self).items(),
            final(self).values@.len() == old(self).values@.len(),
            in_order == (old(self).values@[first as int].key_rank() <= old(self).values@[second as int].key_rank()),
            in_order ==> final(self).values@ == old(self).values@ && final(self).reverse@ == old(self).reverse@,
            !in_order ==> final(self).values@ == swapped(old(self).values@, first as int, second as int)
                && final(self).reverse@ == old(self).reverse@.update(second as int, !old(self).reverse@[second as int]),
    {
        if self.values[second].key_lt(&self.values[first]) {
            proof {
                lemma_swap_multiset(self.values@, first as int, second as int);
            }
            self.values.as_mut_slice().swap(first, second);
            let flipped = !self.reverse[second];
            self.reverse.set(second, flipped);
            proof {
                assert(self.values@ =~= swapped(old(self).values@, first as int, second as int));
            }
            false
        } else {
            true
        }
    }

    fn fix_up(&mut self, start: usize)
        requires
            old(self).wf(),
            start < old(self).values@.len(),
        ensures
            final(self).wf(),
            final(self).items() == old(self).items(),
            final(self).values@.len() == old(self).values@.len(),
            wh_except(old(self).values@, old(self).reverse@, key_rank_of::<T>(), set![start as int]) ==> final(self).ordered(),
    {
        let ghost good = wh_except(self.values@, self.reverse@, key_rank_of::<T>(), set![start as int]);
        let mut index = start;
        while index > 0
            invariant
                self.wf(),
                self.items() == old(self).items(),
                self.values@.len() == old(self).values@.len(),
                index < self.values@.len(),
                good == wh_except(old(self).values@, old(self).reverse@, key_rank_of::<T>(), set![start as int]),
                good ==> wh_except(self.values@, self.reverse@, key_rank_of::<T>(), set![index as int]),
            decreases index,
        {
            let ancestor = self.distinguished_ancestor(index);
            let ghost s0 = self.values@;
            let ghost r0 = self.reverse@;
            let in_order = self.join(ancestor, index);
            proof {
                if good {
                    if in_order {
                        lemma_join_keep(s0, r0, key_rank_of::<T>(), ancestor as int, index as int, set![index as int]);
                        assert(set![index as int].remove(index as int) =~= Set::<int>::empty());
                    } else {
                        assert forall|x: int| 0 < x < s0.len() && hits(r0, x, index as int) implies !set![index as int].contains(x) by {
                            lemma_flip(r0, index as int, x);
                        }
                        lemma_join_swap(s0, r0, key_rank_of::<T>(), ancestor as int, index as int, set![index as int]);
                        assert(set![index as int].remove(index as int).insert(ancestor as int) =~= set![ancestor as int]);
                    }
                }
            }
            if in_order {
                return;
            }
            index = ancestor;
        }
        proof {
            if good {
                lemma_wh_mono(self.values@, self.reverse@, key_rank_of::<T>(), set![index as int], set![0int]);
                assert forall|x: int| #![trigger self.values@[x]] 0 < x < self.values@.len() && !Set::<int>::empty().contains(x) implies key_rank_of::<T>()(
                    self.values@[danc(self.reverse@, x)],
                ) <= key_rank_of::<T>()(self.values@[x]) by {
                    assert(!set![0int].contains(x));
                }
            }
        }
    }

    /// Restores the subtree of `root` after its element changed: walks down
    /// the left spine of its right subtree and joins back up.
    fn fix_down(&mut self, root: usize)
        requires
            old(self).wf(),
            root < old(self).values@.len(),
        ensures
            final(self).wf(),
            final(self).items() == old(self).items(),
            final(self).values@.len() == old(self).values@.len(),
            wh_except(old(self).values@, old(self).reverse@, key_rank_of::<T>(), down_set(old(self).reverse@, root as int))
                ==> wh_except(final(self).values@, final(self).reverse@, key_rank_of::<T>(), set![root as int]),
    {
        let ghost good = wh_except(self.values@, self.reverse@, key_rank_of::<T>(), down_set(self.reverse@, root as int));
        let ghost r0 = self.reverse@;
        let len = self.values.len();
        let first = match root.checked_mul(2) {
            Some(double) => if self.reverse[root] {
                double
            } else {
                match double.checked_add(1) {
                    Some(first) => first,
                    None => len,
                }
            },
            None => len,
        };
        if first >= len {
            proof {
                if good {
                    assert forall|x: int| #![trigger self.values@[x]] 0 < x < self.values@.len() && !set![root as int].contains(x)
                        implies key_rank_of::<T>()(self.values@[danc(self.reverse@, x)]) <= key_rank_of::<T>()(self.values@[x]) by {
                        if danc(r0, x) == root as int {
                            lemma_climb_bounds(r0, x);
                            assert(climb(r0, x) == 2 * root || climb(r0, x) == 2 * root + 1);
                            lemma_climb_stop(r0, x);
                        }
                    }
                }
            }
            return;
        }
        let mut index = first;
        proof {
            if root == 0 {
                assert(!self.reverse@[0]);
            }
            assert(descends(index as nat, root as nat)) by {
                assert(index as nat / 2 == root as nat);
                assert(descends(root as nat, root as nat));
            }
            assert(!is_left(r0, first as int));
            assert(climb(r0, first as int) == first);
        }
        loop
            invariant
                self.wf(),
                self.values@ == old(self).values@,
                self.reverse@ == r0,
                len == self.values@.len(),
                root < index < len,
                first as int == 2 * root + if r0[root as int] {
                    0int
                } else {
                    1int
                },
                first <= index,
                descends(index as nat, root as nat),
                climb(r0, index as int) == first,
            ensures
                root < index < len,
                descends(index as nat, root as nat),
                climb(r0, index as int) == first,
                self.values@ == old(self).values@,
                self.reverse@ == r0,
                first <= index,
                2 * index + (if r0[index as int] {
                    1int
                } else {
                    0int
                }) >= len,
            decreases len - index,
        {
            let child = match index.checked_mul(2) {
                Some(double) => if self.reverse[index] {
                    match double.checked_add(1) {
                        Some(child) => child,
                        None => len,
                    }
                } else {
                    double
                },
                None => len,
            };
            if child >= len {
                break;
            }
            proof {
                assert(child as nat / 2 == index as nat);
                assert(is_left(r0, child as int));
            }
            index = child;
        }
        let ghost bottom = index;
        proof {
            if good {
                assert forall|x: int| 0 < x < len && danc(r0, x) == root as int implies x <= bottom by {
                    lemma_climb_bounds(r0, x);
                    assert(climb(r0, x) == first) by {
                        lemma_climb_stop(r0, x);
                    }
                    if x > bottom {
                        lemma_climb_bounds(r0, bottom as int);
                        lemma_chain_below(r0, bottom as int, x);
                    }
                }
                lemma_wh_mono(self.values@, r0, key_rank_of::<T>(), down_set(r0, root as int), down_set_upto(r0, root as int, bottom as int));
            }
        }
        while index != root
            invariant
                self.wf(),
                len == self.values@.len(),
                self.items() == old(self).items(),
                root <= index < len,
                descends(index as nat, root as nat),
                index != root ==> climb(self.reverse@, index as int) == first,
                index != root ==> first <= index,
                !is_left(self.reverse@, first as int),
                first as int / 2 == root as int,
                good ==> wh_except(self.values@, self.reverse@, key_rank_of::<T>(), down_set_upto(self.reverse@, root as int, index as int)),
            decreases index,
        {
            let ghost s0 = self.values@;
            let ghost r1 = self.reverse@;
            let ghost ex = down_set_upto(r1, root as int, index as int);
            proof {
                lemma_climb_bounds(r1, index as int);
                assert(danc(r1, index as int) == root);
            }
            let in_order = self.join(root, index);
            proof {
                let r2 = self.reverse@;
                let nxt = down_set_upto(r2, root as int, (index / 2) as int);
                if index / 2 != root {
                    assert(is_left(r1, index as int)) by {
                        if !is_left(r1, index as int) {
                            assert(climb(r1, index as int) == index);
                            assert(index / 2 == root);
                        }
                    }
                    lemma_climb_frame(r1, index as int, !r1[index as int], (index / 2) as int);
                    assert(climb(r2, (index / 2) as int) == first);
                    lemma_climb_bounds(r2, (index / 2) as int);
                }
                assert(!is_left(r2, first as int)) by {
                    assert(r2[first as int / 2] == r1[first as int / 2]);
                }
                if good {
                    if in_order {
                        lemma_join_keep(s0, r1, key_rank_of::<T>(), root as int, index as int, ex);
                    } else {
                        assert forall|x: int| 0 < x < s0.len() && hits(r1, x, index as int) implies !ex.contains(x) by {
                            lemma_flip(r1, index as int, x);
                        }
                        lemma_join_swap(s0, r1, key_rank_of::<T>(), root as int, index as int, ex);
                    }
                    let got = if in_order {
                        ex.remove(index as int)
                    } else {
                        ex.remove(index as int).insert(root as int)
                    };
                    assert forall|x: int| got.contains(x) implies nxt.contains(x) by {
                        if x != root as int {
                            assert(0 < x < index && danc(r1, x) == root as int);
                            lemma_climb_bounds(r1, x);
                            assert(climb(r1, x) == first) by {
                                lemma_climb_stop(r1, x);
                            }
                            lemma_chain_order(r1, x, index as int);
                            if !in_order {
                                lemma_flip(r1, index as int, x);
                            }
                        }
                    }
                    lemma_wh_mono(self.values@, self.reverse@, key_rank_of::<T>(), got, nxt);
                }
                assert(descends(index as nat / 2, root as nat));
                assert(index as nat / 2 == (index / 2) as nat);
            }
            index = index / 2;
        }
        proof {
            if good {
                assert forall|x: int| down_set_upto(self.reverse@, root as int, root as int).contains(x) implies set![root as int].contains(x) by {
                    if x != root as int {
                        lemma_climb_bounds(self.reverse@, x);
                    }
                }
                lemma_wh_mono(
                    self.values@,
                    self.reverse@,
                    key_rank_of::<T>(),
                    down_set_upto(self.reverse@, root as int, root as int),
                    set![root as int],
                );
            }
        }
    }
}

/// An array-backed binary weak heap.
#[derive(Clone, Debug)]
pub struct BinaryArrayWeakHeap<T> {
    inner: WeakHeapCore<T>,
}

impl<T: HeapKey> BinaryArrayWeakHeap<T> {
    /// The heap's internal invariant: the weak-heap order.
    pub closed spec fn is_well_formed(&self) -> bool {
        self.inner.wf() && self.inner.ordered()
    }

    /// The values in the heap.
    pub closed spec fn values(&self) -> Multiset<T> {
        self.inner.items()
    }

    /// The values in storage order.
    pub closed spec fn storage(&self) -> Seq<T> {
        self.inner.values@
    }

    /// Creates an empty heap.
    pub fn new() -> (heap: Self)
        ensures
            heap.is_well_formed(),
            heap.values() =~= Multiset::empty(),
    {
        Self::with_capacity(DEFAULT_WEAK_HEAP_CAPACITY)
    }

    /// Creates an empty heap with at least `capacity` value slots.
    pub fn with_capacity(capacity: usize) -> (heap: Self)
        ensures
            heap.is_well_formed(),
            heap.values() =~= Multiset::empty(),
    {
        BinaryArrayWeakHeap { inner: WeakHeapCore::new(capacity) }
    }

    /// Builds a weak heap from `values` in linear time.
    pub fn from_vec(values: Vec<T>) -> (heap: Self)
        ensures
            heap.is_well_formed(),
            heap.values() == values@.to_multiset(),
    {
        BinaryArrayWeakHeap { inner: WeakHeapCore::from_vec(values) }
    }

    /// Consumes the heap and returns its values in internal heap order: a
    /// least value comes first.
    pub fn into_vec(self) -> (result: Vec<T>)
        requires
            self.is_well_formed(),
        ensures
            result@ == self.storage(),
            result@.to_multiset() == self.values(),
            result@.len() > 0 ==> least_in(self.values(), result@[0], |t: T| t.key_rank()),
    {
        proof {
            if self.inner.values@.len() > 0 {
                self.inner.lemma_root_least();
            }
        }
        self.inner.values
    }

    /// The heap's values in internal heap order, not priority order.
    pub fn iter(&self) -> (result: &[T])
        ensures
            result@ == self.storage(),
            result@.to_multiset() == self.values(),
    {
        self.inner.values.as_slice()
    }

    /// Inserts `value`.
    pub fn push(&mut self, value: T)
        requires
            old(self).is_well_formed(),
        ensures
            final(self).is_well_formed(),
            final(self).values() == old(self).values().insert(value),
    {
        self.inner.push(value)
    }

    /// Returns a least value, kept at the root, if any.
    pub fn peek(&self) -> (result: Option<&T>)
        requires
            self.is_well_formed(),
        ensures
            result is None <==> self.values().len() == 0,
            result matches Some(v) ==> least_in(self.values(), *v, |t: T| t.key_rank()),
    {
        if self.inner.values.len() == 0 {
            None
        } else {
            proof {
                self.inner.lemma_root_least();
            }
            Some(&self.inner.values[0])
        }
    }

    /// Removes and returns a least value, if any.
    pub fn pop(&mut self) -> (result: Option<T>)
        requires
            old(self).is_well_formed(),
        ensures
            final(self).is_well_formed(),
            result is None <==> old(self).values().len() == 0,
            result is None ==> final(self).values() == old(self).values(),
            result matches Some(v) ==> {
                &&& least_in(old(self).values(), v, |t: T| t.key_rank())
                &&& final(self).values() == old(self).values().remove(v)
            },
    {
        proof {
            if self.inner.values@.len() > 0 {
                self.inner.lemma_root_least();
            }
        }
        self.inner.pop()
    }

    /// Returns the number of values.
    pub fn len(&self) -> (result: usize)
        ensures
            result == self.values().len(),
    {
        self.inner.values.len()
    }

    /// Returns whether the heap is empty.
    pub fn is_empty(&self) -> (result: bool)
        ensures
            result == (self.values().len() == 0),
    {
        self.inner.values.len() == 0
    }

    /// Removes every value.
    pub fn clear(&mut self)
        ensures
            final(self).is_well_formed(),
            final(self).values() =~= Multiset::empty(),
    {
        self.inner.clear()
    }
}

impl<T: HeapKey> Default for BinaryArrayWeakHeap<T> {
    fn default() -> (heap: Self)
        ensures
            heap.is_well_formed(),
            heap.values() =~= Multiset::empty(),
    {
        Self::new()
    }
}

impl<T: HeapKey> Heap<T> for BinaryArrayWeakHeap<T> {
    open spec fn well_formed(&self) -> bool {
        self.is_well_formed()
    }

    open spec fn items(&self) -> Multiset<T> {
        self.values()
    }

    open spec fn priority(&self, value: T) -> int {
        value.key_rank()
    }

    open spec fn accepts_push(&self) -> bool {
        true
    }

    fn push(&mut self, value: T) {
        BinaryArrayWeakHeap::push(self, value)
    }

    fn peek(&self) -> (result: Option<&T>) {
        BinaryArrayWeakHeap::peek(self)
    }

    fn pop(&mut self) -> (result: Option<T>) {
        BinaryArrayWeakHeap::pop(self)
    }

    fn len(&self) -> (result: usize) {
        BinaryArrayWeakHeap::len(self)
    }

    fn clear(&mut self) {
        BinaryArrayWeakHeap::clear(self)
    }
}


/// A binary weak heap that buffers insertions and integrates them in bulk.
#[derive(Clone, Debug)]
pub struct BinaryArrayBulkInsertWeakHeap<T> {
    inner: WeakHeapCore<T>,
    insertion_buffer: Vec<T>,
    insertion_buffer_min: usize,
}

impl<T: HeapKey> BinaryArrayBulkInsertWeakHeap<T> {
    /// `insertion_buffer_min` indexes a least buffered value.
    spec fn buffer_min_least(&self) -> bool {
        forall|i: int|
            0 <= i < self.insertion_buffer@.len() ==> self.insertion_buffer@[self.insertion_buffer_min as int].key_rank()
                <= #[trigger] self.insertion_buffer@[i].key_rank()
    }

    /// The heap's internal invariant: the weak-heap order on the integrated
    /// values, and a least buffered value at `insertion_buffer_min`.
    pub closed spec fn is_well_formed(&self) -> bool {
        &&& self.inner.wf()
        &&& self.inner.ordered()
        &&& self.insertion_buffer@.len() > 0 ==> self.insertion_buffer_min < self.insertion_buffer@.len()
        &&& self.insertion_buffer@.len() == 0 ==> self.insertion_buffer_min == 0
        &&& self.buffer_min_least()
        &&& self.inner.values@.len() + self.insertion_buffer@.len() <= usize::MAX
    }

    /// The values in the heap, buffered ones included.
    pub closed spec fn values(&self) -> Multiset<T> {
        self.inner.items().add(self.insertion_buffer@.to_multiset())
    }

    /// The integrated values in storage order.
    pub closed spec fn storage(&self) -> Seq<T> {
        self.inner.values@
    }

    /// The buffered values in insertion order.
    pub closed spec fn buffered(&self) -> Seq<T> {
        self.insertion_buffer@
    }

    /// A value that is no greater than the heap's root and than the least
    /// buffered value, and is one of them, is a least value of the heap.
    proof fn lemma_least_of_parts(&self, v: T)
        requires
            self.is_well_formed(),
            (self.inner.values@.len() > 0 && v == self.inner.values@[0]) || (self.insertion_buffer@.len() > 0 && v
                == self.insertion_buffer@[self.insertion_buffer_min as int]),
            self.inner.values@.len() > 0 ==> v.key_rank() <= self.inner.values@[0].key_rank(),
            self.insertion_buffer@.len() > 0 ==> v.key_rank() <= self.insertion_buffer@[self.insertion_buffer_min as int].key_rank(),
        ensures
            least_in(self.values(), v, |t: T| t.key_rank()),
    {
        if self.inner.values@.len() > 0 {
            self.inner.lemma_root_least();
        }
        if self.insertion_buffer@.len() > 0 {
            assert(self.insertion_buffer@.contains(self.insertion_buffer@[self.insertion_buffer_min as int]));
        }
        assert forall|w: T| self.values().contains(w) implies v.key_rank() <= w.key_rank() by {
            if !self.inner.items().contains(w) {
                assert(self.insertion_buffer@.to_multiset().contains(w));
                assert(self.insertion_buffer@.contains(w));
                let k = choose|k: int| 0 <= k < self.insertion_buffer@.len() && self.insertion_buffer@[k] == w;
                assert(self.insertion_buffer@[self.insertion_buffer_min as int].key_rank() <= self.insertion_buffer@[k].key_rank());
            }
        }
    }

    /// Creates an empty heap.
    pub fn new() -> (heap: Self)
        ensures
            heap.is_well_formed(),
            heap.values() =~= Multiset::empty(),
    {
        Self::with_capacity(DEFAULT_WEAK_HEAP_CAPACITY)
    }

    /// Creates an empty heap with at least `capacity` value slots.
    pub fn with_capacity(capacity: usize) -> (heap: Self)
        ensures
            heap.is_well_formed(),
            heap.values() =~= Multiset::empty(),
    {
        BinaryArrayBulkInsertWeakHeap {
            inner: WeakHeapCore::new(capacity),
            insertion_buffer: Vec::with_capacity(INSERTION_BUFFER_CAPACITY),
            insertion_buffer_min: 0,
        }
    }

    /// Builds a weak heap from `values` in linear time.
    pub fn from_vec(values: Vec<T>) -> (heap: Self)
        ensures
            heap.is_well_formed(),
            heap.values() == values@.to_multiset(),
    {
        let heap = BinaryArrayBulkInsertWeakHeap {
            inner: WeakHeapCore::from_vec(values),
            insertion_buffer: Vec::with_capacity(INSERTION_BUFFER_CAPACITY),
            insertion_buffer_min: 0,
        };
        proof {
            assert(heap.values() =~= values@.to_multiset());
        }
        heap
    }

    /// Consumes the heap, integrating buffered values first, and returns its
    /// values in internal heap order: a least value comes first.
    pub fn into_vec(self) -> (result: Vec<T>)
        requires
            self.is_well_formed(),
        ensures
            result@.to_multiset() == self.values(),
            result@.len() > 0 ==> least_in(self.values(), result@[0], |t: T| t.key_rank()),
    {
        let mut heap = self;
        heap.bulk_insert();
        proof {
            if heap.inner.values@.len() > 0 {
                heap.inner.lemma_root_least();
                assert(heap.values() =~= heap.inner.items());
            }
        }
        heap.inner.values
    }

    /// The heap's values in internal heap order, then the buffered values.
    pub fn iter(&self) -> (result: (&[T], &[T]))
        ensures
            result.0@ == self.storage(),
            result.1@ == self.buffered(),
            result.0@.to_multiset().add(result.1@.to_multiset()) == self.values(),
    {
        (self.inner.values.as_slice(), self.insertion_buffer.as_slice())
    }

    /// Whether the buffer must be merged into the heap: it is at capacity,
    /// or the heap holds so many values that the floor of the base-two
    /// logarithm of their number, plus three, reaches that capacity.
    fn buffer_is_full(&self) -> (full: bool)
        ensures
            full == (self.insertion_buffer@.len() >= INSERTION_BUFFER_CAPACITY || self.inner.values@.len()
                + self.insertion_buffer@.len() >= exp2((INSERTION_BUFFER_CAPACITY - 3) as nat)),
    {
        if self.insertion_buffer.len() >= INSERTION_BUFFER_CAPACITY {
            return true;
        }
        proof {
            assert(exp2(31) == 0x8000_0000) by {
                reveal_with_fuel(exp2, 32);
            }
        }
        match self.inner.values.len().checked_add(self.insertion_buffer.len()) {
            Some(total) => {
                if total == 0 {
                    return false;
                }
                let log = floor_log2(total);
                proof {
                    if log >= 31 {
                        lemma_exp2_mono(31, log as nat);
                    } else {
                        lemma_exp2_mono(log as nat + 1, 31);
                    }
                }
                log as usize + 3 >= INSERTION_BUFFER_CAPACITY
            },
            None => true,
        }
    }

    fn recompute_buffer_minimum(&mut self)
        requires
            old(self).insertion_buffer@.len() > 0,
        ensures
            final(self).inner == old(self).inner,
            final(self).insertion_buffer == old(self).insertion_buffer,
            final(self).insertion_buffer_min < final(self).insertion_buffer@.len(),
            final(self).buffer_min_least(),
    {
        self.insertion_buffer_min = 0;
        let mut index: usize = 1;
        while index < self.insertion_buffer.len()
            invariant
                self.inner == old(self).inner,
                self.insertion_buffer == old(self).insertion_buffer,
                self.insertion_buffer_min < self.insertion_buffer@.len(),
                1 <= index <= self.insertion_buffer@.len(),
                forall|j: int|
                    0 <= j < index ==> self.insertion_buffer@[self.insertion_buffer_min as int].key_rank()
                        <= #[trigger] self.insertion_buffer@[j].key_rank(),
            decreases self.insertion_buffer@.len() - index,
        {
            if self.insertion_buffer[index].key_lt(&self.insertion_buffer[self.insertion_buffer_min]) {
                self.insertion_buffer_min = index;
            }
            index = index + 1;
        }
    }

    /// Moves every buffered value into the weak heap, sifting each one up
    /// from its new leaf.
    fn bulk_insert(&mut self)
        requires
            old(self).is_well_formed(),
        ensures
            final(self).is_well_formed(),
            final(self).values() == old(self).values(),
            final(self).insertion_buffer@.len() == 0,
    {
        let ghost all = self.values();
        let ghost total = self.inner.values@.len() + self.insertion_buffer@.len();
        while self.insertion_buffer.len() > 0
            invariant
                self.inner.wf(),
                self.inner.ordered(),
                self.values() == all,
                self.inner.values@.len() + self.insertion_buffer@.len() == total,
                total <= usize::MAX,
            decreases self.insertion_buffer@.len(),
        {
            let ghost before = self.insertion_buffer@;
            let value = self.insertion_buffer.pop().unwrap();
            proof {
                assert(before =~= self.insertion_buffer@.push(value));
            }
            self.inner.push(value);
            proof {
                assert(self.values() =~= all);
            }
        }
        self.insertion_buffer_min = 0;
    }

    /// Inserts `value`, buffering it until the buffer fills.
    pub fn push(&mut self, value: T)
        requires
            old(self).is_well_formed(),
            old(self).values().len() < usize::MAX,
        ensures
            final(self).is_well_formed(),
            final(self).values() == old(self).values().insert(value),
    {
        let index = self.insertion_buffer.len();
        self.insertion_buffer.push(value);
        if index > 0 && self.insertion_buffer[index].key_lt(&self.insertion_buffer[self.insertion_buffer_min]) {
            self.insertion_buffer_min = index;
        }
        proof {
            assert(self.values() =~= old(self).values().insert(value));
            assert forall|i: int| 0 <= i < self.insertion_buffer@.len() implies self.insertion_buffer@[self.insertion_buffer_min as int].key_rank()
                <= #[trigger] self.insertion_buffer@[i].key_rank() by {
                if i < index {
                    assert(old(self).insertion_buffer@[i] == self.insertion_buffer@[i]);
                }
            }
        }
        if self.buffer_is_full() {
            self.bulk_insert();
        }
    }

    /// Returns the smaller of the heap's root and the least buffered value.
    pub fn peek(&self) -> (result: Option<&T>)
        requires
            self.is_well_formed(),
        ensures
            result is None <==> self.values().len() == 0,
            result matches Some(v) ==> least_in(self.values(), *v, |t: T| t.key_rank()),
    {
        let heap_len = self.inner.values.len();
        let buffer_len = self.insertion_buffer.len();
        if heap_len == 0 && buffer_len == 0 {
            None
        } else if buffer_len == 0 {
            proof {
                self.lemma_least_of_parts(self.inner.values@[0]);
            }
            Some(&self.inner.values[0])
        } else if heap_len == 0 || self.insertion_buffer[self.insertion_buffer_min].key_lt(&self.inner.values[0]) {
            proof {
                self.lemma_least_of_parts(self.insertion_buffer@[self.insertion_buffer_min as int]);
            }
            Some(&self.insertion_buffer[self.insertion_buffer_min])
        } else {
            proof {
                self.lemma_least_of_parts(self.inner.values@[0]);
            }
            Some(&self.inner.values[0])
        }
    }

    /// Removes and returns the smaller of the heap's root and the least
    /// buffered value.
    pub fn pop(&mut self) -> (result: Option<T>)
        requires
            old(self).is_well_formed(),
        ensures
            final(self).is_well_formed(),
            result is None <==> old(self).values().len() == 0,
            result is None ==> final(self).values() == old(self).values(),
            result matches Some(v) ==> {
                &&& least_in(old(self).values(), v, |t: T| t.key_rank())
                &&& final(self).values() == old(self).values().remove(v)
            },
    {
        let heap_len = self.inner.values.len();
        let buffer_len = self.insertion_buffer.len();
        if heap_len == 0 && buffer_len == 0 {
            return None;
        }
        let remove_from_buffer = if heap_len == 0 {
            true
        } else if buffer_len == 0 {
            false
        } else {
            self.insertion_buffer[self.insertion_buffer_min].key_lt(&self.inner.values[0])
        };
        if remove_from_buffer {
            proof {
                self.lemma_least_of_parts(self.insertion_buffer@[self.insertion_buffer_min as int]);
            }
            let ghost b = self.insertion_buffer@;
            let position = self.insertion_buffer_min;
            let value = self.insertion_buffer.swap_remove(position);
            proof {
                assert(b.to_multiset().contains(b[position as int]));
                let t = b.update(position as int, b.last());
                assert(self.insertion_buffer@ == t.drop_last());
                assert(t.to_multiset() == b.to_multiset().insert(b.last()).remove(b[position as int]));
                assert(t =~= t.drop_last().push(b.last()));
                assert(t.to_multiset() == t.drop_last().to_multiset().insert(b.last()));
                assert forall|x: T| #[trigger] self.insertion_buffer@.to_multiset().count(x) == b.to_multiset().remove(value).count(x) by {
                    assert(t.to_multiset().count(x) == self.insertion_buffer@.to_multiset().insert(b.last()).count(x));
                }
                assert(self.insertion_buffer@.to_multiset() =~= b.to_multiset().remove(value));
                assert(self.values() =~= old(self).values().remove(value));
            }
            if self.insertion_buffer.len() > 0 {
                self.recompute_buffer_minimum();
            } else {
                self.insertion_buffer_min = 0;
            }
            Some(value)
        } else {
            proof {
                self.lemma_least_of_parts(self.inner.values@[0]);
            }
            let result = self.inner.pop();
            proof {
                if result is Some {
                    assert(self.values() =~= old(self).values().remove(result->0));
                }
            }
            result
        }
    }

    /// Returns the number of values, buffered ones included.
    pub fn len(&self) -> (result: usize)
        requires
            self.is_well_formed(),
        ensures
            result == self.values().len(),
    {
        self.inner.values.len() + self.insertion_buffer.len()
    }

    /// Returns whether the heap is empty.
    pub fn is_empty(&self) -> (result: bool)
        ensures
            result == (self.values().len() == 0),
    {
        self.inner.values.len() == 0 && self.insertion_buffer.len() == 0
    }

    /// Removes every value.
    pub fn clear(&mut self)
        ensures
            final(self).is_well_formed(),
            final(self).values() =~= Multiset::empty(),
    {
        self.inner.clear();
        self.insertion_buffer.clear();
        self.insertion_buffer_min = 0;
    }
}

impl<T: HeapKey> Heap<T> for BinaryArrayBulkInsertWeakHeap<T> {
    open spec fn well_formed(&self) -> bool {
        self.is_well_formed()
    }

    open spec fn items(&self) -> Multiset<T> {
        self.values()
    }

    open spec fn priority(&self, value: T) -> int {
        value.key_rank()
    }

    open spec fn accepts_push(&self) -> bool {
        true
    }

    fn push(&mut self, value: T) {
        BinaryArrayBulkInsertWeakHeap::push(self, value)
    }

    fn peek(&self) -> (result: Option<&T>) {
        BinaryArrayBulkInsertWeakHeap::peek(self)
    }

    fn pop(&mut self) -> (result: Option<T>) {
        BinaryArrayBulkInsertWeakHeap::pop(self)
    }

    fn len(&self) -> (result: usize) {
        BinaryArrayBulkInsertWeakHeap::len(self)
    }

    fn clear(&mut self) {
        BinaryArrayBulkInsertWeakHeap::clear(self)
    }
}

impl<T: HeapKey> Default for BinaryArrayBulkInsertWeakHeap<T> {
    fn default() -> (heap: Self)
        ensures
            heap.is_well_formed(),
            heap.values() =~= Multiset::empty(),
    {
        Self::new()
    }
}

} // verus!
