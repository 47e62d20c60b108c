//! Laws that relate the operations of the heap interfaces, stated over the
//! views that their contracts use.
use vstd::multiset::Multiset;
use vstd::prelude::*;

use crate::error::InvalidHandle;
use crate::order::{Comparator, HeapKey, NaturalOrder, Reverse};
use crate::{checked, greatest_in, least_entry, least_in, AddressableHeap, Heap, MeldableAddressableHeap};

verus! {

broadcast use {vstd::multiset::group_multiset_axioms, vstd::seq_lib::group_to_multiset_ensures};

/// Values leave a heap in order: the value that one `pop` removes ranks no
/// later than the value that the next `pop` removes.
pub proof fn law_pops_come_in_order<T, H: Heap<T>>(first: H, second: H, a: T, b: T)
    requires
        least_in(first.items(), a, |t: T| first.priority(t)),
        second.items() == first.items().remove(a),
        forall|t: T| second.priority(t) == first.priority(t),
        least_in(second.items(), b, |t: T| second.priority(t)),
    ensures
        first.priority(a) <= first.priority(b),
{
    assert(first.items().contains(b));
}

/// After a `push`, the value that `peek` shows ranks no later than the value
/// pushed, and it is that value when the heap was empty.
pub proof fn law_peek_after_push<T, H: Heap<T>>(before: H, after: H, x: T, v: T)
    requires
        after.items() == before.items().insert(x),
        least_in(after.items(), v, |t: T| after.priority(t)),
    ensures
        after.priority(v) <= after.priority(x),
        before.items().len() == 0 ==> v == x,
{
    assert(after.items().contains(x));
    if before.items().len() == 0 {
        assert(before.items() =~= Multiset::empty());
        assert(after.items() =~= Multiset::singleton(x));
        assert(after.items().count(v) > 0);
    }
}

/// A least value ranks no later than a greatest one.
pub proof fn law_extrema_bracket<T>(items: Multiset<T>, priority: spec_fn(T) -> int, low: T, high: T)
    requires
        least_in(items, low, priority),
        greatest_in(items, high, priority),
    ensures
        priority(low) <= priority(high),
{
}

/// Once the entry of a handle is removed, every handle operation on it
/// reports the handle stale.
pub proof fn law_removed_handle_is_stale<K, V, H: AddressableHeap<K, V>>(before: H, after: H, handle: H::Handle)
    requires
        before.owns(handle),
        after.live() == before.live().remove(handle),
        forall|h: H::Handle| after.owns(h) == before.owns(h),
    ensures
        forall|r: Result<(), InvalidHandle>|
            #[trigger] checked(after.owns(handle), after.live().contains_key(handle), r) ==> r == Err::<(), InvalidHandle>(
                InvalidHandle::Stale,
            ),
{
}

/// After `clear`, every handle that the heap issued is stale, and every other
/// handle is foreign.
pub proof fn law_cleared_handles_are_stale<K, V, H: AddressableHeap<K, V>>(before: H, after: H, handle: H::Handle)
    requires
        after.live() == Map::<H::Handle, (K, V)>::empty(),
        forall|h: H::Handle| after.owns(h) == before.owns(h),
    ensures
        forall|r: Result<(), InvalidHandle>|
            #[trigger] checked(after.owns(handle), after.live().contains_key(handle), r) ==> r == if before.owns(handle) {
                Err::<(), InvalidHandle>(InvalidHandle::Stale)
            } else {
                Err::<(), InvalidHandle>(InvalidHandle::ForeignHeap)
            },
{
}

/// A successful meld keeps every entry of the donor under its handle, now
/// owned by the receiver.
pub proof fn law_meld_keeps_donor_handles<K, V, H: MeldableAddressableHeap<K, V>>(
    receiver: H,
    donor: H,
    merged: H,
    handle: H::Handle,
)
    requires
        merged.live() == receiver.live().union_prefer_right(donor.live()),
        forall|h: H::Handle| merged.owns(h) == (receiver.owns(h) || donor.owns(h)),
        donor.owns(handle),
        donor.live().contains_key(handle),
    ensures
        merged.owns(handle),
        merged.live().contains_key(handle),
        merged.live()[handle] == donor.live()[handle],
{
}

/// After a key decrease, the least entry ranks no later than the new key.
pub proof fn law_decrease_key_bounds_minimum<K, V, H: AddressableHeap<K, V>>(
    after: H,
    handle: H::Handle,
    key: K,
    value: V,
    least: H::Handle,
)
    requires
        after.live().contains_key(handle),
        after.live()[handle] == (key, value),
        least_entry(after.live(), least, |k: K| after.priority(k)),
    ensures
        after.priority(after.live()[least].0) <= after.priority(key),
{
}

/// Later stages of a drain hold no more of any value than earlier ones.
proof fn lemma_stages_shrink<T>(stages: Seq<Multiset<T>>, popped: Seq<T>, i: int, j: int, x: T)
    requires
        stages.len() == popped.len() + 1,
        forall|k: int| 0 <= k < popped.len() ==> #[trigger] stages[k + 1] == stages[k].remove(popped[k]),
        0 <= i <= j < stages.len(),
    ensures
        stages[j].count(x) <= stages[i].count(x),
    decreases j - i,
{
    if i < j {
        lemma_stages_shrink(stages, popped, i, j - 1, x);
        assert(stages[(j - 1) + 1] == stages[j - 1].remove(popped[j - 1]));
    }
}

/// What remains at stage `k` of a drain is exactly what is popped from then
/// on.
proof fn lemma_stages_rest<T>(stages: Seq<Multiset<T>>, popped: Seq<T>, k: int)
    requires
        stages.len() == popped.len() + 1,
        forall|i: int| 0 <= i < popped.len() ==> stages[i].contains(popped[i]),
        forall|i: int| 0 <= i < popped.len() ==> #[trigger] stages[i + 1] == stages[i].remove(popped[i]),
        stages.last().len() == 0,
        0 <= k <= popped.len(),
    ensures
        stages[k] == popped.subrange(k, popped.len() as int).to_multiset(),
    decreases popped.len() - k,
{
    let n = popped.len() as int;
    if k == n {
        assert(stages[k] =~= Multiset::empty());
        assert(popped.subrange(k, n) =~= Seq::<T>::empty());
    } else {
        lemma_stages_rest(stages, popped, k + 1);
        assert(stages[k + 1] == stages[k].remove(popped[k]));
        let rest = popped.subrange(k + 1, n);
        assert(popped.subrange(k, n) =~= seq![popped[k]] + rest);
        vstd::seq_lib::lemma_multiset_commutative(seq![popped[k]], rest);
        assert(seq![popped[k]].to_multiset() =~= Multiset::empty().insert(popped[k])) by {
            assert(seq![popped[k]] =~= Seq::<T>::empty().push(popped[k]));
            assert(Seq::<T>::empty().to_multiset() =~= Multiset::empty());
        }
        assert(stages[k] =~= stages[k].remove(popped[k]).insert(popped[k]));
    }
}

/// Draining a heap by repeated `pop` yields what it held, sorted: the
/// popped values are a permutation of the heap's values, in non-decreasing
/// priority.
pub proof fn law_drain_is_sorted<T>(stages: Seq<Multiset<T>>, popped: Seq<T>, priority: spec_fn(T) -> int)
    requires
        stages.len() == popped.len() + 1,
        forall|i: int| 0 <= i < popped.len() ==> least_in(stages[i], popped[i], priority),
        forall|i: int| 0 <= i < popped.len() ==> #[trigger] stages[i + 1] == stages[i].remove(popped[i]),
        stages.last().len() == 0,
    ensures
        popped.to_multiset() == stages[0],
        forall|i: int, j: int| 0 <= i <= j < popped.len() ==> priority(popped[i]) <= priority(popped[j]),
{
    assert forall|i: int| 0 <= i < popped.len() implies stages[i].contains(popped[i]) by {
        assert(least_in(stages[i], popped[i], priority));
    }
    lemma_stages_rest(stages, popped, 0);
    assert(popped.subrange(0, popped.len() as int) =~= popped);
    assert forall|i: int, j: int| 0 <= i <= j < popped.len() implies priority(popped[i]) <= priority(popped[j]) by {
        assert(least_in(stages[i], popped[i], priority));
        assert(least_in(stages[j], popped[j], priority));
        lemma_stages_shrink(stages, popped, i, j, popped[j]);
        assert(stages[i].contains(popped[j]));
    }
}


/// `i8` keys are ordered by their numeric value: one key ranks no later
/// than another exactly when it is no greater, so negative keys come first
/// and no key is read with another signedness or width.
pub proof fn law_i8_keys_order_by_value(a: i8, b: i8)
    ensures
        (a.key_rank() <= b.key_rank()) == (a <= b),
        (a.key_rank() < b.key_rank()) == (a < b),
        a.key_rank() == a as int,
{
}

/// A least `i8` value by rank is numerically no greater than any other
/// value present, and a greatest one no smaller: what `pop`, `peek`,
/// `pop_max` and `peek_max` return over `i8` keys.
pub proof fn law_i8_extremes_are_numeric(items: Multiset<i8>, low: i8, high: i8)
    requires
        least_in(items, low, |k: i8| k.key_rank()),
        greatest_in(items, high, |k: i8| k.key_rank()),
    ensures
        forall|w: i8| items.contains(w) ==> low <= w && w <= high,
{
}

/// `i16` keys are ordered by their numeric value: one key ranks no later
/// than another exactly when it is no greater, so negative keys come first
/// and no key is read with another signedness or width.
pub proof fn law_i16_keys_order_by_value(a: i16, b: i16)
    ensures
        (a.key_rank() <= b.key_rank()) == (a <= b),
        (a.key_rank() < b.key_rank()) == (a < b),
        a.key_rank() == a as int,
{
}

/// A least `i16` value by rank is numerically no greater than any other
/// value present, and a greatest one no smaller: what `pop`, `peek`,
/// `pop_max` and `peek_max` return over `i16` keys.
pub proof fn law_i16_extremes_are_numeric(items: Multiset<i16>, low: i16, high: i16)
    requires
        least_in(items, low, |k: i16| k.key_rank()),
        greatest_in(items, high, |k: i16| k.key_rank()),
    ensures
        forall|w: i16| items.contains(w) ==> low <= w && w <= high,
{
}

/// `i32` keys are ordered by their numeric value: one key ranks no later
/// than another exactly when it is no greater, so negative keys come first
/// and no key is read with another signedness or width.
pub proof fn law_i32_keys_order_by_value(a: i32, b: i32)
    ensures
        (a.key_rank() <= b.key_rank()) == (a <= b),
        (a.key_rank() < b.key_rank()) == (a < b),
        a.key_rank() == a as int,
{
}

/// A least `i32` value by rank is numerically no greater than any other
/// value present, and a greatest one no smaller: what `pop`, `peek`,
/// `pop_max` and `peek_max` return over `i32` keys.
pub proof fn law_i32_extremes_are_numeric(items: Multiset<i32>, low: i32, high: i32)
    requires
        least_in(items, low, |k: i32| k.key_rank()),
        greatest_in(items, high, |k: i32| k.key_rank()),
    ensures
        forall|w: i32| items.contains(w) ==> low <= w && w <= high,
{
}

/// `i64` keys are ordered by their numeric value: one key ranks no later
/// than another exactly when it is no greater, so negative keys come first
/// and no key is read with another signedness or width.
pub proof fn law_i64_keys_order_by_value(a: i64, b: i64)
    ensures
        (a.key_rank() <= b.key_rank()) == (a <= b),
        (a.key_rank() < b.key_rank()) == (a < b),
        a.key_rank() == a as int,
{
}

/// A least `i64` value by rank is numerically no greater than any other
/// value present, and a greatest one no smaller: what `pop`, `peek`,
/// `pop_max` and `peek_max` return over `i64` keys.
pub proof fn law_i64_extremes_are_numeric(items: Multiset<i64>, low: i64, high: i64)
    requires
        least_in(items, low, |k: i64| k.key_rank()),
        greatest_in(items, high, |k: i64| k.key_rank()),
    ensures
        forall|w: i64| items.contains(w) ==> low <= w && w <= high,
{
}

/// `i128` keys are ordered by their numeric value: one key ranks no later
/// than another exactly when it is no greater, so negative keys come first
/// and no key is read with another signedness or width.
pub proof fn law_i128_keys_order_by_value(a: i128, b: i128)
    ensures
        (a.key_rank() <= b.key_rank()) == (a <= b),
        (a.key_rank() < b.key_rank()) == (a < b),
        a.key_rank() == a as int,
{
}

/// A least `i128` value by rank is numerically no greater than any other
/// value present, and a greatest one no smaller: what `pop`, `peek`,
/// `pop_max` and `peek_max` return over `i128` keys.
pub proof fn law_i128_extremes_are_numeric(items: Multiset<i128>, low: i128, high: i128)
    requires
        least_in(items, low, |k: i128| k.key_rank()),
        greatest_in(items, high, |k: i128| k.key_rank()),
    ensures
        forall|w: i128| items.contains(w) ==> low <= w && w <= high,
{
}

/// `isize` keys are ordered by their numeric value: one key ranks no later
/// than another exactly when it is no greater, so negative keys come first
/// and no key is read with another signedness or width.
pub proof fn law_isize_keys_order_by_value(a: isize, b: isize)
    ensures
        (a.key_rank() <= b.key_rank()) == (a <= b),
        (a.key_rank() < b.key_rank()) == (a < b),
        a.key_rank() == a as int,
{
}

/// A least `isize` value by rank is numerically no greater than any other
/// value present, and a greatest one no smaller: what `pop`, `peek`,
/// `pop_max` and `peek_max` return over `isize` keys.
pub proof fn law_isize_extremes_are_numeric(items: Multiset<isize>, low: isize, high: isize)
    requires
        least_in(items, low, |k: isize| k.key_rank()),
        greatest_in(items, high, |k: isize| k.key_rank()),
    ensures
        forall|w: isize| items.contains(w) ==> low <= w && w <= high,
{
}

/// `u8` keys are ordered by their numeric value: one key ranks no later
/// than another exactly when it is no greater, so negative keys come first
/// and no key is read with another signedness or width.
pub proof fn law_u8_keys_order_by_value(a: u8, b: u8)
    ensures
        (a.key_rank() <= b.key_rank()) == (a <= b),
        (a.key_rank() < b.key_rank()) == (a < b),
        a.key_rank() == a as int,
{
}

/// A least `u8` value by rank is numerically no greater than any other
/// value present, and a greatest one no smaller: what `pop`, `peek`,
/// `pop_max` and `peek_max` return over `u8` keys.
pub proof fn law_u8_extremes_are_numeric(items: Multiset<u8>, low: u8, high: u8)
    requires
        least_in(items, low, |k: u8| k.key_rank()),
        greatest_in(items, high, |k: u8| k.key_rank()),
    ensures
        forall|w: u8| items.contains(w) ==> low <= w && w <= high,
{
}

/// `u16` keys are ordered by their numeric value: one key ranks no later
/// than another exactly when it is no greater, so negative keys come first
/// and no key is read with another signedness or width.
pub proof fn law_u16_keys_order_by_value(a: u16, b: u16)
    ensures
        (a.key_rank() <= b.key_rank()) == (a <= b),
        (a.key_rank() < b.key_rank()) == (a < b),
        a.key_rank() == a as int,
{
}

/// A least `u16` value by rank is numerically no greater than any other
/// value present, and a greatest one no smaller: what `pop`, `peek`,
/// `pop_max` and `peek_max` return over `u16` keys.
pub proof fn law_u16_extremes_are_numeric(items: Multiset<u16>, low: u16, high: u16)
    requires
        least_in(items, low, |k: u16| k.key_rank()),
        greatest_in(items, high, |k: u16| k.key_rank()),
    ensures
        forall|w: u16| items.contains(w) ==> low <= w && w <= high,
{
}

/// `u32` keys are ordered by their numeric value: one key ranks no later
/// than another exactly when it is no greater, so negative keys come first
/// and no key is read with another signedness or width.
pub proof fn law_u32_keys_order_by_value(a: u32, b: u32)
    ensures
        (a.key_rank() <= b.key_rank()) == (a <= b),
        (a.key_rank() < b.key_rank()) == (a < b),
        a.key_rank() == a as int,
{
}

/// A least `u32` value by rank is numerically no greater than any other
/// value present, and a greatest one no smaller: what `pop`, `peek`,
/// `pop_max` and `peek_max` return over `u32` keys.
pub proof fn law_u32_extremes_are_numeric(items: Multiset<u32>, low: u32, high: u32)
    requires
        least_in(items, low, |k: u32| k.key_rank()),
        greatest_in(items, high, |k: u32| k.key_rank()),
    ensures
        forall|w: u32| items.contains(w) ==> low <= w && w <= high,
{
}

/// `u64` keys are ordered by their numeric value: one key ranks no later
/// than another exactly when it is no greater, so negative keys come first
/// and no key is read with another signedness or width.
pub proof fn law_u64_keys_order_by_value(a: u64, b: u64)
    ensures
        (a.key_rank() <= b.key_rank()) == (a <= b),
        (a.key_rank() < b.key_rank()) == (a < b),
        a.key_rank() == a as int,
{
}

/// A least `u64` value by rank is numerically no greater than any other
/// value present, and a greatest one no smaller: what `pop`, `peek`,
/// `pop_max` and `peek_max` return over `u64` keys.
pub proof fn law_u64_extremes_are_numeric(items: Multiset<u64>, low: u64, high: u64)
    requires
        least_in(items, low, |k: u64| k.key_rank()),
        greatest_in(items, high, |k: u64| k.key_rank()),
    ensures
        forall|w: u64| items.contains(w) ==> low <= w && w <= high,
{
}

/// `u128` keys are ordered by their numeric value: one key ranks no later
/// than another exactly when it is no greater, so negative keys come first
/// and no key is read with another signedness or width.
pub proof fn law_u128_keys_order_by_value(a: u128, b: u128)
    ensures
        (a.key_rank() <= b.key_rank()) == (a <= b),
        (a.key_rank() < b.key_rank()) == (a < b),
        a.key_rank() == a as int,
{
}

/// A least `u128` value by rank is numerically no greater than any other
/// value present, and a greatest one no smaller: what `pop`, `peek`,
/// `pop_max` and `peek_max` return over `u128` keys.
pub proof fn law_u128_extremes_are_numeric(items: Multiset<u128>, low: u128, high: u128)
    requires
        least_in(items, low, |k: u128| k.key_rank()),
        greatest_in(items, high, |k: u128| k.key_rank()),
    ensures
        forall|w: u128| items.contains(w) ==> low <= w && w <= high,
{
}

/// `usize` keys are ordered by their numeric value: one key ranks no later
/// than another exactly when it is no greater, so negative keys come first
/// and no key is read with another signedness or width.
pub proof fn law_usize_keys_order_by_value(a: usize, b: usize)
    ensures
        (a.key_rank() <= b.key_rank()) == (a <= b),
        (a.key_rank() < b.key_rank()) == (a < b),
        a.key_rank() == a as int,
{
}

/// A least `usize` value by rank is numerically no greater than any other
/// value present, and a greatest one no smaller: what `pop`, `peek`,
/// `pop_max` and `peek_max` return over `usize` keys.
pub proof fn law_usize_extremes_are_numeric(items: Multiset<usize>, low: usize, high: usize)
    requires
        least_in(items, low, |k: usize| k.key_rank()),
        greatest_in(items, high, |k: usize| k.key_rank()),
    ensures
        forall|w: usize| items.contains(w) ==> low <= w && w <= high,
{
}

/// `char` keys are ordered by their code point.
pub proof fn law_char_keys_order_by_value(a: char, b: char)
    ensures
        (a.key_rank() <= b.key_rank()) == ((a as u32) <= (b as u32)),
        (a.key_rank() < b.key_rank()) == ((a as u32) < (b as u32)),
        a.key_rank() == a as u32 as int,
{
}

/// `Reverse` keys order as their wrapped keys in reverse: of two wrapped
/// `i32` keys, the numerically larger one comes first.
pub proof fn law_reverse_keys_order_backwards(a: Reverse<i32>, b: Reverse<i32>)
    ensures
        (a.key_rank() <= b.key_rank()) == (b.0 <= a.0),
        (a.key_rank() < b.key_rank()) == (b.0 < a.0),
{
}
/// The natural order ranks values exactly as their own key order does, so
/// a heap built on it puts numerically smaller integer keys first.
pub proof fn law_natural_order_follows_keys<T: HeapKey>(a: T, b: T)
    ensures
        (NaturalOrder.rank(a) <= NaturalOrder.rank(b)) == (a.key_rank() <= b.key_rank()),
{
}

/// Wrapping keys in `Reverse` reverses their order.
pub proof fn law_reverse_reverses_order<K: HeapKey>(a: Reverse<K>, b: Reverse<K>)
    ensures
        (a.key_rank() <= b.key_rank()) == (b.0.key_rank() <= a.0.key_rank()),
        (a.key_rank() < b.key_rank()) == (b.0.key_rank() < a.0.key_rank()),
{
}

} // verus!
