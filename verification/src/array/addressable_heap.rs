//! Array-backed addressable heaps: binary and d-ary heaps whose entries are
//! reached through stable, checked handles.
use vstd::prelude::*;

use crate::array::dary_array_heap::{child_range, validate_degree, InvalidDegree};
use crate::array::layout::{
    heap_ordered, lemma_down_done, lemma_down_step, lemma_drop_last_ordered, lemma_parent_bounds,
    lemma_replace_state, lemma_root_least, lemma_up_done, lemma_up_start, lemma_up_step,
    ordered_from, parent_of, sifting_down, sifting_up, swapped,
};
use crate::error::{DecreaseKeyError, InvalidHandle};
use crate::order::{follows, precedes, Comparator, HeapKey, NaturalOrder};
use crate::std_support::fresh_heap_id;
use crate::{checked, least_entry, AddressableHeap, DecreaseKeyHeap};

verus! {

/// The capacity reserved by the default constructors.
pub const DEFAULT_ADDRESSABLE_CAPACITY: usize = 16;

/// An opaque capability that identifies an entry in an addressable array
/// heap.
///
/// Handles are `Copy`, but they are only valid in the heap that created
/// them.  They become invalid after their entry is removed or after the heap
/// is cleared.
#[derive(Clone, Copy, Debug, PartialEq, Eq, Hash)]
pub struct AddressableHandle {
    heap_id: u64,
    slot: usize,
    generation: u64,
}

impl AddressableHandle {
    /// The identity of the heap that issued the handle.
    pub closed spec fn issuer(self) -> u64 {
        self.heap_id
    }

    /// The slot that the handle names.
    pub closed spec fn slot_of(self) -> usize {
        self.slot
    }

    /// The generation of the slot at the time the handle was issued.
    pub closed spec fn generation_of(self) -> u64 {
        self.generation
    }
}

struct Entry<K, V> {
    key: K,
    value: V,
    slot: usize,
}

struct Slot {
    index: Option<usize>,
    generation: u64,
}

/// How one slot may change: it keeps its generation and occupancy, a free
/// slot is taken at its generation, or an occupied slot is freed with its
/// generation advanced by one (wrapping).
spec fn slot_step(after: Slot, before: Slot) -> bool {
    ||| after.generation == before.generation && (before.index is Some ==> after.index is Some)
    ||| before.index is Some && after.index is None && after.generation == before.generation.wrapping_add(1)
}

/// The storage shared by the binary and d-ary addressable heaps: the heap
/// array of entries, and a table of slots that maps each handle to the
/// entry's current position.
struct AddressableCore<K, V, C> {
    entries: Vec<Entry<K, V>>,
    slots: Vec<Slot>,
    free_slots: Vec<usize>,
    order_by: C,
    heap_id: u64,
}

impl<K, V, C: Comparator<K>> AddressableCore<K, V, C> {
    spec fn rank_fn(&self) -> spec_fn(Entry<K, V>) -> int {
        |e: Entry<K, V>| self.order_by.rank(e.key)
    }

    /// Every entry names a slot that points back at it, and every occupied
    /// slot points at an entry that names it.
    spec fn linked(&self) -> bool {
        &&& forall|i: int|
            #![trigger self.entries@[i]]
            0 <= i < self.entries@.len() ==> {
                &&& self.entries@[i].slot < self.slots@.len()
                &&& self.slots@[self.entries@[i].slot as int].index is Some
                &&& self.slots@[self.entries@[i].slot as int].index->0 == i
            }
        &&& forall|s: int|
            #![trigger self.slots@[s]]
            0 <= s < self.slots@.len() ==> match self.slots@[s].index {
                Some(i) => i < self.entries@.len() && self.entries@[i as int].slot == s,
                None => true,
            }
    }

    /// Every free slot is unoccupied and listed once.
    spec fn free_ok(&self) -> bool {
        &&& forall|k: int|
            #![trigger self.free_slots@[k]]
            0 <= k < self.free_slots@.len() ==> {
                &&& self.free_slots@[k] < self.slots@.len()
                &&& self.slots@[self.free_slots@[k] as int].index is None
            }
        &&& self.free_slots@.no_duplicates()
    }

    spec fn wf(&self, degree: int) -> bool {
        &&& degree >= 2
        &&& heap_ordered(self.entries@, self.rank_fn(), degree)
        &&& self.linked()
        &&& self.free_ok()
    }

    /// What each occupied slot holds.
    spec fn slot_view(&self) -> Map<usize, (K, V)> {
        Map::new(
            |s: usize| s < self.slots@.len() && self.slots@[s as int].index is Some,
            |s: usize|
                {
                    let i = self.slots@[s as int].index->0;
                    (self.entries@[i as int].key, self.entries@[i as int].value)
                },
        )
    }

    spec fn generation_at(&self, s: usize) -> u64 {
        self.slots@[s as int].generation
    }

    spec fn live(&self) -> Map<AddressableHandle, (K, V)> {
        Map::new(
            |h: AddressableHandle|
                h.heap_id == self.heap_id && self.slot_view().contains_key(h.slot) && h.generation
                    == self.generation_at(h.slot),
            |h: AddressableHandle| self.slot_view()[h.slot],
        )
    }

    /// Two states of the core that agree on what every handle identifies.
    spec fn same_slots(&self, other: &Self) -> bool {
        &&& self.slot_view() == other.slot_view()
        &&& self.slots@.len() == other.slots@.len()
        &&& forall|s: int|
            #![trigger self.slots@[s]]
            0 <= s < self.slots@.len() ==> self.slots@[s].generation == other.slots@[s].generation
        &&& self.free_slots@ == other.free_slots@
        &&& self.heap_id == other.heap_id
        &&& self.order_by == other.order_by
    }

    /// Whether this core has handed out `handle`: its slot has moved past
    /// the handle's generation, or still holds the entry it names.
    spec fn handed_out(&self, h: AddressableHandle) -> bool {
        &&& h.heap_id == self.heap_id
        &&& h.slot < self.slots@.len()
        &&& (h.generation < self.generation_at(h.slot) || (h.generation == self.generation_at(h.slot)
            && self.slots@[h.slot as int].index is Some))
    }

    /// Whether the generation counter of `handle`'s slot is at its last
    /// value, so that freeing the slot again wraps it around.
    spec fn spent(&self, h: AddressableHandle) -> bool {
        h.slot < self.slots@.len() && self.generation_at(h.slot) == u64::MAX
    }

    /// Every handle that `before` handed out still counts as handed out, unless
    /// its slot's generation counter was at its last value.
    spec fn keeps_handed_out(&self, before: &Self) -> bool {
        forall|h: AddressableHandle| #[trigger] before.handed_out(h) && !before.spent(h) ==> self.handed_out(h)
    }

    /// Every slot keeps its generation and occupancy, was free and is now
    /// occupied at the same generation, or was occupied and has been freed
    /// with its generation advanced by one.
    spec fn slots_advanced(&self, before: &Self) -> bool {
        &&& self.heap_id == before.heap_id
        &&& self.slots@.len() >= before.slots@.len()
        &&& forall|s: usize|
            #![trigger self.slots@[s as int]]
            s < before.slots@.len() ==> slot_step(self.slots@[s as int], before.slots@[s as int])
    }

    /// No slot's generation exceeds `bound`.
    spec fn gens_within(&self, bound: nat) -> bool {
        forall|s: usize| #![trigger self.slots@[s as int]] s < self.slots@.len() ==> self.generation_at(s) <= bound
    }

    /// Every slot of `before` keeps its generation, and new slots start at
    /// generation zero.
    spec fn gens_kept(&self, before: &Self) -> bool {
        &&& self.slots@.len() >= before.slots@.len()
        &&& forall|s: usize|
            #![trigger self.slots@[s as int]]
            s < self.slots@.len() ==> self.generation_at(s) == if s < before.slots@.len() {
                before.generation_at(s)
            } else {
                0
            }
    }

    proof fn lemma_gens_kept(&self, before: &Self, bound: nat)
        requires
            self.gens_kept(before),
            before.gens_within(bound),
        ensures
            self.gens_within(bound),
    {
        assert forall|s: usize| #![trigger self.slots@[s as int]] s < self.slots@.len() implies self.generation_at(s) <= bound by {
            if s < before.slots@.len() {
                assert(before.slots@[s as int] == before.slots@[s as int]);
            }
        }
    }

    /// A release frees each slot at most once, so generations stay within
    /// one more than before.
    proof fn lemma_release_bound(&self, before: &Self, bound: nat)
        requires
            self.slots_advanced(before),
            self.slots@.len() == before.slots@.len(),
            before.gens_within(bound),
        ensures
            self.gens_within(bound + 1),
    {
        assert forall|s: usize| #![trigger self.slots@[s as int]] s < self.slots@.len() implies self.generation_at(s) <= bound + 1 by {
            assert(before.slots@[s as int] == before.slots@[s as int]);
            assert(self.slots@[s as int] == self.slots@[s as int]);
        }
    }

    /// While every generation is below the last one, no slot is spent.
    proof fn lemma_unspent(&self, bound: nat)
        requires
            self.gens_within(bound),
            bound < u64::MAX,
        ensures
            forall|h: AddressableHandle| !#[trigger] self.spent(h),
    {
        assert forall|h: AddressableHandle| !#[trigger] self.spent(h) by {
            if h.slot < self.slots@.len() {
                assert(self.slots@[h.slot as int] == self.slots@[h.slot as int]);
            }
        }
    }

    proof fn lemma_advanced_keeps(&self, before: &Self)
        requires
            self.slots_advanced(before),
        ensures
            self.keeps_handed_out(before),
    {
        assert forall|h: AddressableHandle| #[trigger] before.handed_out(h) && !before.spent(h) implies self.handed_out(h) by {
            assert(self.slots@[h.slot as int] == self.slots@[h.slot as int]);
        }
    }

    proof fn lemma_same_handed_out(&self, other: &Self)
        requires
            self.same_slots(other),
        ensures
            forall|h: AddressableHandle| #[trigger] self.handed_out(h) == other.handed_out(h),
            forall|h: AddressableHandle| #[trigger] self.spent(h) == other.spent(h),
            self.slots_advanced(other),
    {
        assert forall|s: usize| #![trigger self.slots@[s as int]] s < self.slots@.len() implies (self.slots@[s as int].index is Some
            <==> other.slots@[s as int].index is Some) && self.generation_at(s) == other.generation_at(s) by {
            assert(self.slot_view().contains_key(s) == other.slot_view().contains_key(s));
            assert(self.slots@[s as int] == self.slots@[s as int]);
        }
        assert forall|h: AddressableHandle| #[trigger] self.handed_out(h) == other.handed_out(h) by {
            if h.slot < self.slots@.len() {
                assert(self.slots@[h.slot as int] == self.slots@[h.slot as int]);
            }
        }
    }

    proof fn lemma_same_advanced(&self, mid: &Self, before: &Self)
        requires
            self.same_slots(mid),
            mid.slots_advanced(before),
        ensures
            self.slots_advanced(before),
            forall|h: AddressableHandle| #[trigger] self.handed_out(h) == mid.handed_out(h),
    {
        self.lemma_same_handed_out(mid);
        assert forall|s: usize| #![trigger self.slots@[s as int]] s < before.slots@.len() implies slot_step(self.slots@[s as int], before.slots@[s as int]) by {
            assert(self.slot_view().contains_key(s) == mid.slot_view().contains_key(s));
            assert(self.slots@[s as int] == self.slots@[s as int]);
            assert(mid.slots@[s as int] == mid.slots@[s as int]);
        }
    }

    proof fn lemma_same_free_ok(&self, other: &Self)
        requires
            self.same_slots(other),
            other.free_ok(),
        ensures
            self.free_ok(),
    {
        assert forall|k: int| #![trigger self.free_slots@[k]] 0 <= k < self.free_slots@.len() implies {
            &&& self.free_slots@[k] < self.slots@.len()
            &&& self.slots@[self.free_slots@[k] as int].index is None
        } by {
            let s = self.free_slots@[k];
            assert(!other.slot_view().contains_key(s));
            assert(!self.slot_view().contains_key(s));
        }
    }

    proof fn lemma_same_live(&self, other: &Self)
        requires
            self.same_slots(other),
        ensures
            self.live() == other.live(),
    {
        assert(self.live() =~= other.live());
    }

    fn new(capacity: usize, order: C) -> (core: Self)
        ensures
            forall|d: int| d >= 2 ==> core.wf(d),
            core.live() =~= Map::<AddressableHandle, (K, V)>::empty(),
            core.order_by == order,
            core.gens_within(0),
    {
        let core = AddressableCore {
            entries: Vec::with_capacity(capacity),
            slots: Vec::with_capacity(capacity),
            free_slots: Vec::new(),
            order_by: order,
            heap_id: fresh_heap_id(),
        };
        assert(core.slot_view() =~= Map::<usize, (K, V)>::empty());
        core
    }

    fn from_vec(entries: Vec<(K, V)>, degree: usize, order: C) -> (core: Self)
        requires
            degree >= 2,
        ensures
            core.wf(degree as int),
            core.order_by == order,
            core.live().dom() =~= Set::new(
                |h: AddressableHandle|
                    h.heap_id == core.heap_id && h.slot < entries@.len() && h.generation == 0,
            ),
            forall|h: AddressableHandle| #[trigger]
                core.live().contains_key(h) ==> core.live()[h] == entries@[h.slot as int],
            core.gens_within(0),
    {
        let heap_id = fresh_heap_id();
        let n = entries.len();
        let mut source = entries;
        let mut reversed: Vec<(K, V)> = Vec::with_capacity(n);
        while source.len() > 0
            invariant
                source@.len() + reversed@.len() == n,
                n == entries@.len(),
                forall|k: int| 0 <= k < source@.len() ==> #[trigger] source@[k] == entries@[k],
                forall|k: int|
                    0 <= k < reversed@.len() ==> #[trigger] reversed@[k] == entries@[n - 1 - k],
            decreases source@.len(),
        {
            let pair = source.pop().unwrap();
            reversed.push(pair);
        }
        let mut slots: Vec<Slot> = Vec::with_capacity(n);
        let mut heap_entries: Vec<Entry<K, V>> = Vec::with_capacity(n);
        while reversed.len() > 0
            invariant
                reversed@.len() + heap_entries@.len() == n,
                n == entries@.len(),
                slots@.len() == heap_entries@.len(),
                forall|k: int|
                    0 <= k < reversed@.len() ==> #[trigger] reversed@[k] == entries@[n - 1 - k],
                forall|k: int|
                    #![trigger heap_entries@[k]]
                    0 <= k < heap_entries@.len() ==> {
                        &&& heap_entries@[k].key == entries@[k].0
                        &&& heap_entries@[k].value == entries@[k].1
                        &&& heap_entries@[k].slot == k
                    },
                forall|k: int|
                    #![trigger slots@[k]]
                    0 <= k < slots@.len() ==> slots@[k].index == Some(k as usize) && slots@[k].generation
                        == 0,
            decreases reversed@.len(),
        {
            let (key, value) = reversed.pop().unwrap();
            let index = heap_entries.len();
            slots.push(Slot { index: Some(index), generation: 0 });
            heap_entries.push(Entry { key, value, slot: index });
        }
        let mut core = AddressableCore {
            entries: heap_entries,
            slots,
            free_slots: Vec::new(),
            order_by: order,
            heap_id,
        };
        let ghost before = core;
        core.heapify(degree);
        proof {
            core.lemma_same_live(&before);
            assert forall|s: usize| #![trigger core.slots@[s as int]] s < core.slots@.len() implies core.generation_at(s) <= 0 by {
                assert(before.slots@[s as int] == before.slots@[s as int]);
            }
            assert forall|h: AddressableHandle| #[trigger]
                before.live().contains_key(h) implies before.live()[h] == entries@[h.slot as int] by {
                assert(before.slots@[h.slot as int].index == Some(h.slot));
            }
        }
        core
    }

    spec fn handle_at(&self, i: int) -> AddressableHandle {
        AddressableHandle {
            heap_id: self.heap_id,
            slot: self.entries@[i].slot,
            generation: self.generation_at(self.entries@[i].slot),
        }
    }

    /// The entry at position `i` is live under the handle for its slot.
    proof fn lemma_handle_at(&self, i: int)
        requires
            self.linked(),
            0 <= i < self.entries@.len(),
        ensures
            self.live().contains_key(self.handle_at(i)),
            self.live()[self.handle_at(i)] == (self.entries@[i].key, self.entries@[i].value),
    {
    }

    /// Every live handle names the slot of some entry.
    proof fn lemma_live_index(&self, h: AddressableHandle) -> (i: int)
        requires
            self.linked(),
            self.live().contains_key(h),
        ensures
            0 <= i < self.entries@.len(),
            h == self.handle_at(i),
    {
        let i = self.slots@[h.slot as int].index->0 as int;
        assert(self.slots@[h.slot as int].index is Some);
        i
    }

    /// There are exactly as many live handles as entries.
    proof fn lemma_live_len(&self)
        requires
            self.linked(),
        ensures
            self.live().dom().finite(),
            self.live().len() == self.entries@.len(),
    {
        let n = self.entries@.len() as int;
        let range = vstd::set_lib::set_int_range(0, n);
        let f = |i: int| self.handle_at(i);
        vstd::set_lib::lemma_int_range(0, n);
        assert(vstd::relations::injective_on(f, range)) by {
            assert forall|a: int, b: int|
                range.contains(a) && range.contains(b) && #[trigger] f(a) == #[trigger] f(b) implies a == b by {
                assert(self.slots@[self.entries@[a].slot as int].index->0 == a);
                assert(self.slots@[self.entries@[b].slot as int].index->0 == b);
            }
        }
        assert(range.map(f) =~= self.live().dom()) by {
            assert forall|h: AddressableHandle| self.live().dom().contains(h) implies range.map(f).contains(h) by {
                let i = self.lemma_live_index(h);
                assert(range.contains(i));
                assert(f(i) == h);
            }
            assert forall|h: AddressableHandle| range.map(f).contains(h) implies self.live().dom().contains(h) by {
                let i = choose|i: int| range.contains(i) && f(i) == h;
                self.lemma_handle_at(i);
            }
        }
        vstd::set_lib::lemma_map_size(range, self.live().dom(), f);
    }

    /// The root entry has a least key among the live entries.
    proof fn lemma_root_least_entry(&self, degree: int)
        requires
            self.wf(degree),
            self.entries@.len() > 0,
        ensures
            least_entry(self.live(), self.handle_at(0), |key: K| self.order_by.rank(key)),
    {
        self.lemma_handle_at(0);
        assert forall|g: AddressableHandle| self.live().contains_key(g) implies self.order_by.rank(
            self.live()[self.handle_at(0)].0,
        ) <= self.order_by.rank(self.live()[g].0) by {
            let i = self.lemma_live_index(g);
            self.lemma_handle_at(i);
            lemma_root_least(self.entries@, self.rank_fn(), degree, i);
        }
    }

    fn handle_for_slot(&self, slot: usize) -> (handle: AddressableHandle)
        requires
            slot < self.slots@.len(),
        ensures
            handle.heap_id == self.heap_id,
            handle.slot == slot,
            handle.generation == self.generation_at(slot),
    {
        AddressableHandle { heap_id: self.heap_id, slot, generation: self.slots[slot].generation }
    }

    fn validate(&self, handle: AddressableHandle) -> (result: Result<usize, InvalidHandle>)
        requires
            self.linked(),
        ensures
            checked(handle.heap_id == self.heap_id, self.live().contains_key(handle), result),
            result matches Ok(i) ==> {
                &&& i < self.entries@.len()
                &&& self.entries@[i as int].slot == handle.slot
                &&& self.live()[handle] == (self.entries@[i as int].key, self.entries@[i as int].value)
            },
    {
        if handle.heap_id != self.heap_id {
            return Err(InvalidHandle::ForeignHeap);
        }
        if handle.slot >= self.slots.len() {
            return Err(InvalidHandle::Stale);
        }
        let slot = &self.slots[handle.slot];
        if slot.generation != handle.generation {
            return Err(InvalidHandle::Stale);
        }
        match slot.index {
            Some(index) => Ok(index),
            None => Err(InvalidHandle::Stale),
        }
    }

    fn swap_entries(&mut self, left: usize, right: usize)
        requires
            old(self).linked(),
            left < old(self).entries@.len(),
            right < old(self).entries@.len(),
        ensures
            final(self).linked(),
            final(self).same_slots(old(self)),
            final(self).entries@ == swapped(old(self).entries@, left as int, right as int),
    {
        let ghost old_entries = self.entries@;
        let ghost old_slots = self.slots@;
        self.entries.as_mut_slice().swap(left, right);
        let left_slot = self.entries[left].slot;
        self.slots[left_slot].index = Some(left);
        let right_slot = self.entries[right].slot;
        self.slots[right_slot].index = Some(right);
        proof {
            let sl = old_entries[left as int].slot;
            let sr = old_entries[right as int].slot;
            assert(left != right ==> sl != sr);
            assert forall|s: int| #![trigger self.slots@[s]] 0 <= s < self.slots@.len() implies
                self.slots@[s].generation == old_slots[s].generation
                && (self.slots@[s].index is Some <==> old_slots[s].index is Some) by {}
            assert forall|i: int| #![trigger self.entries@[i]] 0 <= i < self.entries@.len() implies {
                &&& self.entries@[i].slot < self.slots@.len()
                &&& self.slots@[self.entries@[i].slot as int].index is Some
                &&& self.slots@[self.entries@[i].slot as int].index->0 == i
            } by {
                if i != left && i != right {
                    assert(self.entries@[i] == old_entries[i]);
                    assert(old_slots[old_entries[i].slot as int].index->0 == i);
                    assert(old_slots[sl as int].index->0 == left);
                    assert(old_slots[sr as int].index->0 == right);
                    assert(old_entries[i].slot != sl);
                    assert(old_entries[i].slot != sr);
                }
            }
            assert forall|s: int| #![trigger self.slots@[s]] 0 <= s < self.slots@.len() implies match self.slots@[s].index {
                Some(i) => i < self.entries@.len() && self.entries@[i as int].slot == s,
                None => true,
            } by {
                if s != sl && s != sr {
                    assert(self.slots@[s] == old_slots[s]);
                    if let Some(i) = old_slots[s].index {
                        assert(old_entries[i as int].slot == s);
                        assert(i != left && i != right);
                    }
                }
            }
            assert(self.slot_view() =~= old(self).slot_view()) by {
                assert forall|s: usize| #[trigger] self.slot_view().contains_key(s) implies self.slot_view()[s]
                    == old(self).slot_view()[s] by {
                    if s != sl && s != sr {
                        let i = old_slots[s as int].index->0;
                        assert(old_entries[i as int].slot == s);
                        assert(i != left && i != right);
                    }
                }
            }
        }
    }

    fn sift_up(&mut self, start: usize, degree: usize)
        requires
            degree >= 2,
            old(self).linked(),
            sifting_up(old(self).entries@, old(self).rank_fn(), degree as int, start as int),
        ensures
            heap_ordered(final(self).entries@, final(self).rank_fn(), degree as int),
            final(self).linked(),
            final(self).same_slots(old(self)),
            final(self).entries@.len() == old(self).entries@.len(),
    {
        let mut index = start;
        proof {
            if index > 0 {
                lemma_parent_bounds(index as int, 0, degree as int);
            }
        }
        while index > 0 && follows(
            &self.order_by,
            &self.entries[(index - 1) / degree].key,
            &self.entries[index].key,
        )
            invariant
                degree >= 2,
                self.linked(),
                self.same_slots(old(self)),
                self.entries@.len() == old(self).entries@.len(),
                sifting_up(self.entries@, self.rank_fn(), degree as int, index as int),
            decreases index,
        {
            let parent = (index - 1) / degree;
            proof {
                lemma_parent_bounds(index as int, 0, degree as int);
                lemma_up_step(self.entries@, self.rank_fn(), degree as int, index as int);
            }
            self.swap_entries(index, parent);
            proof {
                if parent > 0 {
                    lemma_parent_bounds(parent as int, 0, degree as int);
                }
            }
            index = parent;
        }
        proof {
            lemma_up_done(self.entries@, self.rank_fn(), degree as int, index as int);
        }
    }

    fn sift_down(&mut self, start: usize, degree: usize)
        requires
            degree >= 2,
            old(self).linked(),
            ordered_from(old(self).entries@, old(self).rank_fn(), degree as int, start as int + 1),
            start < old(self).entries@.len() ==> sifting_down(
                old(self).entries@,
                old(self).rank_fn(),
                degree as int,
                0,
                start as int,
            ) || start == 0 || true,
        ensures
            ordered_from(final(self).entries@, final(self).rank_fn(), degree as int, start as int),
            final(self).linked(),
            final(self).same_slots(old(self)),
            final(self).entries@.len() == old(self).entries@.len(),
    {
        let len = self.entries.len();
        if start >= len {
            return;
        }
        let mut index = start;
        loop
            invariant
                degree >= 2,
                len == self.entries.len(),
                self.linked(),
                self.same_slots(old(self)),
                self.entries@.len() == old(self).entries@.len(),
                sifting_down(self.entries@, self.rank_fn(), degree as int, start as int, index as int),
            decreases len - index,
        {
            let (first_child, end) = child_range(index, degree, len);
            if first_child >= len {
                proof {
                    lemma_down_done(self.entries@, self.rank_fn(), degree as int, start as int, index as int);
                }
                return;
            }
            let mut smallest = first_child;
            let mut child = first_child + 1;
            while child < end
                invariant
                    len == self.entries.len(),
                    first_child < end <= len,
                    first_child <= smallest < end,
                    first_child < child <= end,
                    smallest < child,
                    forall|c: int|
                        first_child <= c < child ==> self.rank_fn()(self.entries@[smallest as int])
                            <= self.rank_fn()(#[trigger] self.entries@[c]),
                decreases end - child,
            {
                if precedes(&self.order_by, &self.entries[child].key, &self.entries[smallest].key) {
                    smallest = child;
                }
                child = child + 1;
            }
            proof {
                lemma_parent_bounds(smallest as int, index as int, degree as int);
            }
            if !follows(&self.order_by, &self.entries[index].key, &self.entries[smallest].key) {
                proof {
                    lemma_down_done(self.entries@, self.rank_fn(), degree as int, start as int, index as int);
                }
                return;
            }
            proof {
                lemma_down_step(
                    self.entries@,
                    self.rank_fn(),
                    degree as int,
                    start as int,
                    index as int,
                    smallest as int,
                );
            }
            self.swap_entries(index, smallest);
            index = smallest;
        }
    }

    fn heapify(&mut self, degree: usize)
        requires
            degree >= 2,
            old(self).linked(),
            old(self).free_ok(),
        ensures
            final(self).wf(degree as int),
            final(self).same_slots(old(self)),
    {
        let len = self.entries.len();
        if len < 2 {
            proof {
                self.lemma_same_free_ok(old(self));
            }
            assert(heap_ordered(self.entries@, self.rank_fn(), degree as int)) by {
                assert forall|j: int| 0 < j < self.entries@.len() implies parent_of(j, degree as int) < 0 by {}
            }
            return;
        }
        let last_parent = (len - 2) / degree;
        let mut index = last_parent + 1;
        proof {
            let d = degree as int;
            assert forall|j: int| 0 < j < len implies parent_of(j, d) < last_parent + 1 by {
                assert((j - 1) / d < (len - 2) / d + 1) by (nonlinear_arith)
                    requires
                        d >= 2,
                        0 < j < len,
                ;
            }
        }
        while index > 0
            invariant
                degree >= 2,
                len == self.entries@.len(),
                index <= last_parent + 1,
                self.linked(),
                self.same_slots(old(self)),
                ordered_from(self.entries@, self.rank_fn(), degree as int, index as int),
            decreases index,
        {
            index = index - 1;
            self.sift_down(index, degree);
        }
        proof {
            self.lemma_same_free_ok(old(self));
        }
    }

    fn restore_at(&mut self, index: usize, degree: usize)
        requires
            degree >= 2,
            old(self).linked(),
            index < old(self).entries@.len(),
            sifting_up(old(self).entries@, old(self).rank_fn(), degree as int, index as int)
                || sifting_down(old(self).entries@, old(self).rank_fn(), degree as int, 0, index as int),
            index > 0 && old(self).rank_fn()(old(self).entries@[index as int]) < old(self).rank_fn()(
                old(self).entries@[parent_of(index as int, degree as int)],
            ) ==> sifting_up(old(self).entries@, old(self).rank_fn(), degree as int, index as int),
            !(index > 0 && old(self).rank_fn()(old(self).entries@[index as int]) < old(self).rank_fn()(
                old(self).entries@[parent_of(index as int, degree as int)],
            )) ==> sifting_down(old(self).entries@, old(self).rank_fn(), degree as int, 0, index as int),
        ensures
            heap_ordered(final(self).entries@, final(self).rank_fn(), degree as int),
            final(self).linked(),
            final(self).same_slots(old(self)),
            final(self).entries@.len() == old(self).entries@.len(),
    {
        if index > 0 {
            proof {
                lemma_parent_bounds(index as int, 0, degree as int);
            }
            let parent = (index - 1) / degree;
            if precedes(&self.order_by, &self.entries[index].key, &self.entries[parent].key) {
                self.sift_up(index, degree);
                return;
            }
        }
        proof {
            let s = self.entries@;
            let r = self.rank_fn();
            let d = degree as int;
            assert forall|j: int| #![trigger s[j]]
                0 < j < s.len() && parent_of(j, d) >= index + 1 implies r(s[parent_of(j, d)]) <= r(s[j]) by {
            }
        }
        self.sift_down_from_root_state(index, degree);
    }

    /// Sifts down from `start` when the whole array is in order but the
    /// edges below `start`.
    fn sift_down_from_root_state(&mut self, start: usize, degree: usize)
        requires
            degree >= 2,
            old(self).linked(),
            start < old(self).entries@.len(),
            sifting_down(old(self).entries@, old(self).rank_fn(), degree as int, 0, start as int),
        ensures
            heap_ordered(final(self).entries@, final(self).rank_fn(), degree as int),
            final(self).linked(),
            final(self).same_slots(old(self)),
            final(self).entries@.len() == old(self).entries@.len(),
    {
        let len = self.entries.len();
        let mut index = start;
        loop
            invariant
                degree >= 2,
                len == self.entries.len(),
                self.linked(),
                self.same_slots(old(self)),
                self.entries@.len() == old(self).entries@.len(),
                sifting_down(self.entries@, self.rank_fn(), degree as int, 0, index as int),
            decreases len - index,
        {
            let (first_child, end) = child_range(index, degree, len);
            if first_child >= len {
                proof {
                    lemma_down_done(self.entries@, self.rank_fn(), degree as int, 0, index as int);
                }
                return;
            }
            let mut smallest = first_child;
            let mut child = first_child + 1;
            while child < end
                invariant
                    len == self.entries.len(),
                    first_child < end <= len,
                    first_child <= smallest < end,
                    first_child < child <= end,
                    smallest < child,
                    forall|c: int|
                        first_child <= c < child ==> self.rank_fn()(self.entries@[smallest as int])
                            <= self.rank_fn()(#[trigger] self.entries@[c]),
                decreases end - child,
            {
                if precedes(&self.order_by, &self.entries[child].key, &self.entries[smallest].key) {
                    smallest = child;
                }
                child = child + 1;
            }
            proof {
                lemma_parent_bounds(smallest as int, index as int, degree as int);
            }
            if !follows(&self.order_by, &self.entries[index].key, &self.entries[smallest].key) {
                proof {
                    lemma_down_done(self.entries@, self.rank_fn(), degree as int, 0, index as int);
                }
                return;
            }
            proof {
                lemma_down_step(self.entries@, self.rank_fn(), degree as int, 0, index as int, smallest as int);
            }
            self.swap_entries(index, smallest);
            index = smallest;
        }
    }

    fn len(&self) -> (result: usize)
        ensures
            result == self.entries@.len(),
    {
        self.entries.len()
    }

    fn comparator(&self) -> (result: &C)
        ensures
            *result == self.order_by,
    {
        &self.order_by
    }

    fn invalidate_slot(&mut self, slot: usize)
        requires
            slot < old(self).slots@.len(),
            !old(self).free_slots@.contains(slot),
        ensures
            final(self).entries@ == old(self).entries@,
            final(self).slots@ == old(self).slots@.update(
                slot as int,
                Slot { index: None, generation: old(self).slots@[slot as int].generation.wrapping_add(1) },
            ),
            final(self).free_slots@ == old(self).free_slots@.push(slot),
            final(self).heap_id == old(self).heap_id,
            final(self).order_by == old(self).order_by,
            old(self).slots@[slot as int].index is Some ==> final(self).slots_advanced(old(self)),
    {
        let generation = self.slots[slot].generation.wrapping_add(1);
        self.slots[slot].index = None;
        self.slots[slot].generation = generation;
        self.free_slots.push(slot);
        assert(self.slots@ =~= old(self).slots@.update(
            slot as int,
            Slot { index: None, generation: old(self).slots@[slot as int].generation.wrapping_add(1) },
        ));
    }

    fn remove_at(&mut self, index: usize) -> (entry: Entry<K, V>)
        requires
            old(self).linked(),
            old(self).free_ok(),
            index < old(self).entries@.len(),
        ensures
            entry == old(self).entries@[index as int],
            final(self).entries@ == old(self).entries@.update(index as int, old(self).entries@.last()).drop_last(),
            final(self).linked(),
            final(self).free_ok(),
            final(self).heap_id == old(self).heap_id,
            final(self).order_by == old(self).order_by,
            final(self).live() == old(self).live().remove(old(self).handle_at(index as int)),
            final(self).slots_advanced(old(self)),
            final(self).slots@.len() == old(self).slots@.len(),
    {
        let ghost old_entries = self.entries@;
        let ghost old_slots = self.slots@;
        let ghost n = old_entries.len();
        let ghost h = self.handle_at(index as int);
        proof {
            let sx = old_entries[index as int].slot;
            if self.free_slots@.contains(sx) {
                let k = choose|k: int| 0 <= k < self.free_slots@.len() && self.free_slots@[k] == sx;
                assert(self.slots@[self.free_slots@[k] as int].index is None);
            }
        }
        let entry = self.entries.swap_remove(index);
        proof {
            assert(old_slots[entry.slot as int].index is Some);
        }
        self.invalidate_slot(entry.slot);
        let ghost invalidated = *self;
        if index < self.entries.len() {
            let moved = self.entries[index].slot;
            self.slots[moved].index = Some(index);
        }
        proof {
            let sx = entry.slot;
            assert forall|s: usize| #![trigger self.slots@[s as int]] s < old_slots.len() implies slot_step(self.slots@[s as int], old(self).slots@[s as int]) by {
                assert(invalidated.slots@[s as int] == invalidated.slots@[s as int]);
                if s != sx {
                    assert(self.generation_at(s) == old(self).generation_at(s));
                    if index < self.entries@.len() && s == old_entries[n - 1].slot {
                        assert(old_slots[s as int].index->0 == n - 1);
                    }
                }
            }
            let sm = old_entries[n - 1].slot;
            assert(old_slots[sx as int].index->0 == index);
            assert(old_slots[sm as int].index->0 == n - 1);
            assert forall|i: int| #![trigger self.entries@[i]] 0 <= i < self.entries@.len() implies {
                &&& self.entries@[i].slot < self.slots@.len()
                &&& self.slots@[self.entries@[i].slot as int].index is Some
                &&& self.slots@[self.entries@[i].slot as int].index->0 == i
            } by {
                if i != index {
                    assert(self.entries@[i] == old_entries[i]);
                    assert(old_slots[old_entries[i].slot as int].index->0 == i);
                    assert(old_entries[i].slot != sx);
                    assert(old_entries[i].slot != sm);
                }
            }
            assert forall|s: int| #![trigger self.slots@[s]] 0 <= s < self.slots@.len() implies match self.slots@[s].index {
                Some(i) => i < self.entries@.len() && self.entries@[i as int].slot == s,
                None => true,
            } by {
                if s != sx && (index >= self.entries@.len() || s != sm) {
                    assert(self.slots@[s] == old_slots[s]);
                    if let Some(i) = old_slots[s].index {
                        assert(old_entries[i as int].slot == s);
                        assert(i != index);
                        assert(i != n - 1);
                    }
                }
            }
            assert forall|k: int| #![trigger self.free_slots@[k]] 0 <= k < self.free_slots@.len() implies {
                &&& self.free_slots@[k] < self.slots@.len()
                &&& self.slots@[self.free_slots@[k] as int].index is None
            } by {
                if k < self.free_slots@.len() - 1 {
                    let f = self.free_slots@[k];
                    assert(old(self).free_slots@[k] == f);
                    assert(old_slots[f as int].index is None);
                    assert(f != sm);
                }
            }
            assert(self.live() =~= old(self).live().remove(h)) by {
                assert forall|g: AddressableHandle| #[trigger] self.live().contains_key(g) <==> old(self).live().remove(h).contains_key(g) by {
                    if g.slot != sx && g.slot < self.slots@.len() {
                        assert(self.slots@[g.slot as int].generation == old_slots[g.slot as int].generation);
                        assert(self.slots@[g.slot as int].index is Some <==> old_slots[g.slot as int].index is Some);
                    }
                }
                assert forall|g: AddressableHandle| #[trigger] self.live().contains_key(g) implies self.live()[g] == old(self).live()[g] by {
                    let j = old_slots[g.slot as int].index->0;
                    assert(old_entries[j as int].slot == g.slot);
                    if g.slot == sm && index < self.entries@.len() {
                        assert(j == n - 1);
                    } else {
                        assert(j != index);
                        assert(j != n - 1 || index == n - 1);
                    }
                }
            }
        }
        entry
    }

    fn push(&mut self, key: K, value: V, degree: usize) -> (handle: AddressableHandle)
        requires
            old(self).wf(degree as int),
        ensures
            final(self).wf(degree as int),
            final(self).heap_id == old(self).heap_id,
            final(self).order_by == old(self).order_by,
            handle.heap_id == old(self).heap_id,
            !old(self).live().contains_key(handle),
            final(self).live() == old(self).live().insert(handle, (key, value)),
            !old(self).handed_out(handle),
            final(self).handed_out(handle),
            forall|h: AddressableHandle| #[trigger] old(self).handed_out(h) ==> final(self).handed_out(h),
            final(self).slots_advanced(old(self)),
            final(self).gens_kept(old(self)),
    {
        let ghost old_slots = self.slots@;
        let ghost old_entries = self.entries@;
        let n = self.entries.len();
        let slot = match self.free_slots.pop() {
            Some(slot) => {
                proof {
                    let k = old(self).free_slots@.len() - 1;
                    assert(old(self).free_slots@[k] == slot);
                }
                self.slots[slot].index = Some(n);
                slot
            },
            None => {
                let slot = self.slots.len();
                self.slots.push(Slot { index: Some(n), generation: 0 });
                slot
            },
        };
        proof {
            assert(old_slots.len() <= slot ==> slot == old_slots.len());
            assert(slot < old_slots.len() ==> old_slots[slot as int].index is None);
            assert forall|k: int| #![trigger self.free_slots@[k]] 0 <= k < self.free_slots@.len() implies {
                &&& self.free_slots@[k] < self.slots@.len()
                &&& self.slots@[self.free_slots@[k] as int].index is None
            } by {
                let f = self.free_slots@[k];
                assert(old(self).free_slots@[k] == f);
                assert(old_slots[f as int].index is None);
                if slot < old_slots.len() {
                    assert(old(self).free_slots@[old(self).free_slots@.len() - 1] == slot);
                    assert(f != slot);
                }
            }
            assert(self.free_slots@.no_duplicates());
        }
        let ghost before_push = self.entries@;
        self.entries.push(Entry { key, value, slot });
        let ghost mid = *self;
        proof {
            lemma_up_start(before_push, self.rank_fn(), degree as int, Entry { key, value, slot });
            assert forall|i: int| #![trigger self.entries@[i]] 0 <= i < self.entries@.len() implies {
                &&& self.entries@[i].slot < self.slots@.len()
                &&& self.slots@[self.entries@[i].slot as int].index is Some
                &&& self.slots@[self.entries@[i].slot as int].index->0 == i
            } by {
                if i < n {
                    assert(self.entries@[i] == old_entries[i]);
                    assert(old_slots[old_entries[i].slot as int].index->0 == i);
                    assert(old_entries[i].slot != slot);
                }
            }
            assert forall|s: int| #![trigger self.slots@[s]] 0 <= s < self.slots@.len() implies match self.slots@[s].index {
                Some(i) => i < self.entries@.len() && self.entries@[i as int].slot == s,
                None => true,
            } by {
                if s != slot {
                    assert(self.slots@[s] == old_slots[s]);
                }
            }
            let h = AddressableHandle { heap_id: self.heap_id, slot, generation: self.generation_at(slot) };
            assert(mid.live() =~= old(self).live().insert(h, (key, value))) by {
                assert forall|g: AddressableHandle| #[trigger] mid.live().contains_key(g) <==> old(self).live().insert(h, (key, value)).contains_key(g) by {
                    if g.slot != slot && g.slot < old_slots.len() {
                        assert(mid.slots@[g.slot as int] == old_slots[g.slot as int]);
                    }
                }
                assert forall|g: AddressableHandle| #[trigger] mid.live().contains_key(g) && g != h implies mid.live()[g] == old(self).live()[g] by {
                    assert(g.slot != slot);
                    let j = old_slots[g.slot as int].index->0;
                    assert(old_entries[j as int].slot == g.slot);
                }
            }
        }
        proof {
            assert forall|h: AddressableHandle| #[trigger] old(self).handed_out(h) implies mid.handed_out(h) by {
                if h.slot == slot {
                    assert(old_slots[slot as int].index is None);
                }
            }
            assert forall|s: usize| #![trigger mid.slots@[s as int]] s < old_slots.len() implies slot_step(mid.slots@[s as int], old(self).slots@[s as int]) by {
                if s != slot {
                    assert(mid.slots@[s as int] == old_slots[s as int]);
                }
            }
        }
        self.sift_up(n, degree);
        proof {
            self.lemma_same_live(&mid);
            self.lemma_same_free_ok(&mid);
            self.lemma_same_advanced(&mid, old(self));
            assert forall|s: usize| #![trigger self.slots@[s as int]] s < self.slots@.len() implies self.generation_at(s) == if s
                < old_slots.len() {
                old(self).generation_at(s)
            } else {
                0
            } by {
                assert(mid.slots@[s as int] == mid.slots@[s as int]);
                if s != slot {
                    assert(s < old_slots.len() ==> mid.slots@[s as int] == old_slots[s as int]);
                }
            }
        }
        let handle = self.handle_for_slot(slot);
        proof {
            assert(!old(self).handed_out(handle)) by {
                if slot < old_slots.len() {
                    assert(old_slots[slot as int].index is None);
                }
            }
        }
        handle
    }

    fn peek(&self, degree: usize) -> (result: Option<(AddressableHandle, &K, &V)>)
        requires
            self.wf(degree as int),
        ensures
            result is None <==> self.live().len() == 0,
            result matches Some((h, k, v)) ==> {
                &&& least_entry(self.live(), h, |key: K| self.order_by.rank(key))
                &&& self.live()[h] == (*k, *v)
            },
    {
        proof {
            self.lemma_live_len();
        }
        if self.entries.len() == 0 {
            return None;
        }
        proof {
            self.lemma_root_least_entry(degree as int);
        }
        let entry = &self.entries[0];
        Some((self.handle_for_slot(entry.slot), &entry.key, &entry.value))
    }

    fn pop(&mut self, degree: usize) -> (result: Option<(K, V)>)
        requires
            old(self).wf(degree as int),
        ensures
            final(self).wf(degree as int),
            final(self).heap_id == old(self).heap_id,
            final(self).order_by == old(self).order_by,
            result is None <==> old(self).live().len() == 0,
            result is None ==> final(self).live() == old(self).live(),
            result matches Some(e) ==> exists|h: AddressableHandle| {
                &&& least_entry(old(self).live(), h, |key: K| old(self).order_by.rank(key))
                &&& old(self).live()[h] == e
                &&& final(self).live() == old(self).live().remove(h)
            },
            final(self).slots_advanced(old(self)),
            final(self).slots@.len() == old(self).slots@.len(),
            result is None ==> final(self).gens_kept(old(self)),
    {
        proof {
            self.lemma_live_len();
        }
        if self.entries.len() == 0 {
            return None;
        }
        let ghost s = self.entries@;
        let ghost h = self.handle_at(0);
        proof {
            self.lemma_root_least_entry(degree as int);
            self.lemma_handle_at(0);
            lemma_drop_last_ordered(s, self.rank_fn(), degree as int);
        }
        let entry = self.remove_at(0);
        if self.entries.len() > 0 {
            proof {
                lemma_replace_state(s.drop_last(), self.rank_fn(), degree as int, 0, s.last());
                assert(self.entries@ =~= s.drop_last().update(0, s.last()));
            }
            let ghost mid = *self;
            self.sift_down_from_root_state(0, degree);
            proof {
                self.lemma_same_live(&mid);
                self.lemma_same_free_ok(&mid);
                self.lemma_same_advanced(&mid, old(self));
            }
        } else {
            assert(self.entries@ =~= s.drop_last());
        }
        Some((entry.key, entry.value))
    }

    fn key(&self, handle: AddressableHandle) -> (result: Result<&K, InvalidHandle>)
        requires
            self.linked(),
        ensures
            checked(handle.heap_id == self.heap_id, self.live().contains_key(handle), result),
            result matches Ok(k) ==> *k == self.live()[handle].0,
    {
        let index = self.validate(handle)?;
        Ok(&self.entries[index].key)
    }

    fn value(&self, handle: AddressableHandle) -> (result: Result<&V, InvalidHandle>)
        requires
            self.linked(),
        ensures
            checked(handle.heap_id == self.heap_id, self.live().contains_key(handle), result),
            result matches Ok(v) ==> *v == self.live()[handle].1,
    {
        let index = self.validate(handle)?;
        Ok(&self.entries[index].value)
    }

    fn value_mut(&mut self, handle: AddressableHandle, degree: Ghost<int>) -> (result: Result<&mut V, InvalidHandle>)
        requires
            old(self).wf(degree@),
        ensures
            result is Ok ==> final(self).wf(degree@),
            checked(handle.heap_id == old(self).heap_id, old(self).live().contains_key(handle), result),
            result matches Ok(v) ==> {
                &&& *v == old(self).live()[handle].1
                &&& final(self).live() == old(self).live().insert(
                    handle,
                    (old(self).live()[handle].0, *final(v)),
                )
                &&& final(self).entries@.len() == old(self).entries@.len()
                &&& final(self).slots@ == old(self).slots@
                &&& final(self).free_slots@ == old(self).free_slots@
                &&& final(self).heap_id == old(self).heap_id
                &&& final(self).order_by == old(self).order_by
                &&& forall|i: int| 0 <= i < final(self).entries@.len() ==> #[trigger] final(self).entries@[i].key
                    == old(self).entries@[i].key && final(self).entries@[i].slot == old(self).entries@[i].slot
            },
            result is Err ==> *final(self) == *old(self),
            final(self).gens_kept(old(self)),
            forall|b: nat| #[trigger] old(self).gens_within(b) ==> final(self).gens_within(b),
    {
        let index = self.validate(handle)?;
        Ok(&mut self.entries[index].value)
    }

    fn set_value(&mut self, handle: AddressableHandle, value: V, degree: Ghost<int>) -> (result: Result<(), InvalidHandle>)
        requires
            old(self).wf(degree@),
        ensures
            final(self).wf(degree@),
            checked(handle.heap_id == old(self).heap_id, old(self).live().contains_key(handle), result),
            result is Ok ==> final(self).live() == old(self).live().insert(
                handle,
                (old(self).live()[handle].0, value),
            ),
            result is Err ==> *final(self) == *old(self),
            final(self).heap_id == old(self).heap_id,
            final(self).order_by == old(self).order_by,
            final(self).slots@ == old(self).slots@,
            final(self).free_slots@ == old(self).free_slots@,
            final(self).entries@.len() == old(self).entries@.len(),
            forall|i: int| 0 <= i < final(self).entries@.len() ==> #[trigger] final(self).entries@[i].key
                == old(self).entries@[i].key && final(self).entries@[i].slot == old(self).entries@[i].slot,
            final(self).gens_kept(old(self)),
    {
        let index = self.validate(handle)?;
        self.entries[index].value = value;
        proof {
            assert(self.live() =~= old(self).live().insert(handle, (old(self).live()[handle].0, value))) by {
                assert forall|g: AddressableHandle| #[trigger] self.live().contains_key(g) && g != handle implies
                    self.live()[g] == old(self).live()[g] by {
                    let j = old(self).slots@[g.slot as int].index->0;
                    assert(old(self).entries@[j as int].slot == g.slot);
                    assert(j != index);
                }
            }
        }
        Ok(())
    }

    fn decrease_key(&mut self, handle: AddressableHandle, key: K, degree: usize) -> (result: Result<(), DecreaseKeyError>)
        requires
            old(self).wf(degree as int),
        ensures
            final(self).wf(degree as int),
            final(self).heap_id == old(self).heap_id,
            final(self).order_by == old(self).order_by,
            match result {
                Ok(()) => {
                    &&& handle.heap_id == old(self).heap_id
                    &&& old(self).live().contains_key(handle)
                    &&& old(self).order_by.rank(key) <= old(self).order_by.rank(old(self).live()[handle].0)
                    &&& final(self).live() == old(self).live().insert(handle, (key, old(self).live()[handle].1))
                },
                Err(DecreaseKeyError::InvalidHandle(e)) => {
                    &&& checked(handle.heap_id == old(self).heap_id, old(self).live().contains_key(handle), Err::<(), InvalidHandle>(e))
                    &&& final(self).live() == old(self).live()
                },
                Err(DecreaseKeyError::NotDecreased) => {
                    &&& handle.heap_id == old(self).heap_id
                    &&& old(self).live().contains_key(handle)
                    &&& old(self).order_by.rank(key) > old(self).order_by.rank(old(self).live()[handle].0)
                    &&& final(self).live() == old(self).live()
                },
                Err(DecreaseKeyError::InvalidKey) => false,
            },
            forall|h: AddressableHandle| #[trigger] final(self).handed_out(h) == old(self).handed_out(h),
            final(self).gens_kept(old(self)),
    {
        let index = match self.validate(handle) {
            Ok(index) => index,
            Err(error) => return Err(DecreaseKeyError::InvalidHandle(error)),
        };
        if follows(&self.order_by, &key, &self.entries[index].key) {
            return Err(DecreaseKeyError::NotDecreased);
        }
        let ghost s = self.entries@;
        let ghost new_entry = Entry { key, value: s[index as int].value, slot: s[index as int].slot };
        self.entries[index].key = key;
        proof {
            assert(self.entries@ =~= s.update(index as int, new_entry));
            lemma_replace_state(s, self.rank_fn(), degree as int, index as int, new_entry);
            assert(self.live() =~= old(self).live().insert(handle, (key, old(self).live()[handle].1))) by {
                assert forall|g: AddressableHandle| #[trigger] self.live().contains_key(g) && g != handle implies
                    self.live()[g] == old(self).live()[g] by {
                    let j = old(self).slots@[g.slot as int].index->0;
                    assert(old(self).entries@[j as int].slot == g.slot);
                    assert(j != index);
                }
            }
        }
        let ghost mid = *self;
        self.sift_up(index, degree);
        proof {
            self.lemma_same_live(&mid);
            self.lemma_same_free_ok(&mid);
            self.lemma_same_handed_out(&mid);
            assert(mid.slots@ == old(self).slots@);
        }
        Ok(())
    }

    fn delete(&mut self, handle: AddressableHandle, degree: usize) -> (result: Result<(K, V), InvalidHandle>)
        requires
            old(self).wf(degree as int),
        ensures
            final(self).wf(degree as int),
            final(self).heap_id == old(self).heap_id,
            final(self).order_by == old(self).order_by,
            checked(handle.heap_id == old(self).heap_id, old(self).live().contains_key(handle), result),
            result matches Ok(e) ==> {
                &&& e == old(self).live()[handle]
                &&& final(self).live() == old(self).live().remove(handle)
            },
            result is Err ==> final(self).live() == old(self).live(),
            final(self).slots_advanced(old(self)),
            final(self).slots@.len() == old(self).slots@.len(),
            result is Err ==> final(self).gens_kept(old(self)),
    {
        let index = self.validate(handle)?;
        let ghost s = self.entries@;
        proof {
            lemma_drop_last_ordered(s, self.rank_fn(), degree as int);
            assert(self.handle_at(index as int) == handle);
        }
        let entry = self.remove_at(index);
        if index < self.entries.len() {
            proof {
                let t = s.drop_last();
                let x = s.last();
                lemma_replace_state(t, self.rank_fn(), degree as int, index as int, x);
                assert(self.entries@ =~= t.update(index as int, x));
                if index > 0 {
                    lemma_parent_bounds(index as int, 0, degree as int);
                    let p = parent_of(index as int, degree as int);
                    assert(self.rank_fn()(s[p]) <= self.rank_fn()(s[index as int]));
                    assert(t[p] == s[p]);
                }
            }
            let ghost mid = *self;
            self.restore_at(index, degree);
            proof {
                self.lemma_same_live(&mid);
                self.lemma_same_free_ok(&mid);
                self.lemma_same_advanced(&mid, old(self));
            }
        } else {
            assert(self.entries@ =~= s.drop_last());
        }
        Ok((entry.key, entry.value))
    }

    fn clear(&mut self)
        requires
            old(self).linked(),
            old(self).free_ok(),
        ensures
            forall|d: int| d >= 2 ==> final(self).wf(d),
            final(self).heap_id == old(self).heap_id,
            final(self).order_by == old(self).order_by,
            final(self).live() =~= Map::<AddressableHandle, (K, V)>::empty(),
            final(self).slots_advanced(old(self)),
            final(self).slots@.len() == old(self).slots@.len(),
    {
        while self.entries.len() > 0
            invariant
                self.linked(),
                self.free_ok(),
                self.heap_id == old(self).heap_id,
                self.order_by == old(self).order_by,
                self.slots@.len() == old(self).slots@.len(),
                forall|s: usize|
                    #![trigger self.slots@[s as int]]
                    s < old(self).slots@.len() ==> self.slots@[s as int] == old(self).slots@[s as int] || (old(
                        self,
                    ).slots@[s as int].index is Some && self.slots@[s as int].index is None && self.generation_at(s)
                        == old(self).generation_at(s).wrapping_add(1)),
            decreases self.entries@.len(),
        {
            let n = self.entries.len();
            let ghost old_slots = self.slots@;
            let ghost old_entries = self.entries@;
            let ghost old_free = self.free_slots@;
            let entry = self.entries.pop().unwrap();
            proof {
                assert(old_entries[n - 1] == entry);
                assert(old_slots[entry.slot as int].index->0 == n - 1);
                if old_free.contains(entry.slot) {
                    let k = choose|k: int| 0 <= k < old_free.len() && old_free[k] == entry.slot;
                    assert(old_slots[old_free[k] as int].index is None);
                }
            }
            self.invalidate_slot(entry.slot);
            proof {
                assert forall|s: usize| #![trigger self.slots@[s as int]] s < old(self).slots@.len() implies self.slots@[s as int]
                    == old(self).slots@[s as int] || (old(self).slots@[s as int].index is Some && self.slots@[s as int].index is None
                    && self.generation_at(s) == old(self).generation_at(s).wrapping_add(1)) by {
                    assert(old_slots[s as int] == old_slots[s as int]);
                }
                assert forall|i: int| #![trigger self.entries@[i]] 0 <= i < self.entries@.len() implies {
                    &&& self.entries@[i].slot < self.slots@.len()
                    &&& self.slots@[self.entries@[i].slot as int].index is Some
                    &&& self.slots@[self.entries@[i].slot as int].index->0 == i
                } by {
                    assert(self.entries@[i] == old_entries[i]);
                    assert(old_slots[old_entries[i].slot as int].index->0 == i);
                    assert(old_entries[i].slot != entry.slot);
                }
                assert forall|s: int| #![trigger self.slots@[s]] 0 <= s < self.slots@.len() implies match self.slots@[s].index {
                    Some(i) => i < self.entries@.len() && self.entries@[i as int].slot == s,
                    None => true,
                } by {
                    if s != entry.slot {
                        assert(self.slots@[s] == old_slots[s]);
                        if let Some(i) = old_slots[s].index {
                            assert(old_entries[i as int].slot == s);
                            assert(i != n - 1);
                        }
                    }
                }
                assert forall|k: int| #![trigger self.free_slots@[k]] 0 <= k < self.free_slots@.len() implies {
                    &&& self.free_slots@[k] < self.slots@.len()
                    &&& self.slots@[self.free_slots@[k] as int].index is None
                } by {
                    if k < self.free_slots@.len() - 1 {
                        assert(old_free[k] == self.free_slots@[k]);
                    }
                }
            }
        }
        proof {
            assert(self.slot_view() =~= Map::<usize, (K, V)>::empty()) by {
                assert forall|s: usize| !self.slot_view().contains_key(s) by {
                    if s < self.slots@.len() && self.slots@[s as int].index is Some {
                        assert(self.slots@[s as int].index->0 < self.entries@.len());
                    }
                }
            }
            assert(heap_ordered(self.entries@, self.rank_fn(), 2));
            assert forall|s: usize| #![trigger self.slots@[s as int]] s < old(self).slots@.len() implies slot_step(
                self.slots@[s as int],
                old(self).slots@[s as int],
            ) by {
                assert(old(self).slots@[s as int] == old(self).slots@[s as int]);
            }
        }
    }

    fn handles(&self) -> (result: Vec<AddressableHandle>)
        requires
            self.linked(),
        ensures
            result@.len() == self.live().len(),
            forall|k: int| 0 <= k < result@.len() ==> self.live().contains_key(#[trigger] result@[k]),
            forall|h: AddressableHandle| self.live().contains_key(h) ==> result@.contains(h),
    {
        let mut result: Vec<AddressableHandle> = Vec::with_capacity(self.entries.len());
        let mut index: usize = 0;
        while index < self.entries.len()
            invariant
                self.linked(),
                index <= self.entries@.len(),
                result@.len() == index,
                forall|k: int| 0 <= k < index ==> #[trigger] result@[k] == self.handle_at(k),
            decreases self.entries@.len() - index,
        {
            let slot = self.entries[index].slot;
            result.push(self.handle_for_slot(slot));
            index = index + 1;
        }
        proof {
            self.lemma_live_len();
            assert forall|k: int| 0 <= k < result@.len() implies self.live().contains_key(#[trigger] result@[k]) by {
                self.lemma_handle_at(k);
            }
            assert forall|h: AddressableHandle| self.live().contains_key(h) implies result@.contains(h) by {
                let i = self.lemma_live_index(h);
                assert(result@[i] == h);
            }
        }
        result
    }
}


/// An array-backed binary min-heap with stable, checked entry handles.
///
/// Insertion, removal, deletion by handle, and key decreases are
/// `O(log n)`; inspecting the minimum is `O(1)`.
pub struct BinaryArrayAddressableHeap<K, V, C = NaturalOrder> {
    inner: AddressableCore<K, V, C>,
    releases: Ghost<nat>,
}

impl<K, V, C: Comparator<K>> BinaryArrayAddressableHeap<K, V, C> {
    /// The identity that this heap's handles carry.
    pub closed spec fn id(&self) -> u64 {
        self.inner.heap_id
    }

    /// Whether this heap has handed out `handle` at some time.  A handle
    /// that it issued and that no longer names an entry is never handed out
    /// again, unless its slot's generation counter wraps around.
    pub closed spec fn handed_out(&self, handle: AddressableHandle) -> bool {
        self.inner.handed_out(handle)
    }

    /// Whether the generation counter of `handle`'s slot is at its last
    /// value, so that freeing the slot once more wraps it around to zero.
    pub closed spec fn spent(&self, handle: AddressableHandle) -> bool {
        self.inner.spent(handle)
    }

    /// How many times entries have been released: each `pop` or `delete`
    /// that removes an entry, and each `clear`, counts once.
    pub closed spec fn releases(&self) -> nat {
        self.releases@
    }

    /// No slot is spent while fewer than `u64::MAX` releases have happened,
    /// so until then a handle that no longer names an entry is never handed
    /// out again.
    pub proof fn lemma_unspent(&self)
        requires
            self.is_well_formed(),
            self.releases() < u64::MAX,
        ensures
            forall|h: AddressableHandle| !#[trigger] self.spent(h),
    {
        self.inner.lemma_unspent(self.releases@);
    }

    /// Every live handle is one that the heap has handed out.
    pub proof fn lemma_live_handed_out(&self)
        requires
            self.well_formed(),
        ensures
            forall|h: AddressableHandle| #[trigger] self.live().contains_key(h) ==> self.handed_out(h) && h.issuer()
                == self.id(),
    {
    }

    /// The comparator the heap orders by.
    pub closed spec fn order(&self) -> C {
        self.inner.order_by
    }

    /// Creates an empty heap ordered by `order`.
    pub fn with_comparator(order: C) -> (heap: Self)
        ensures
            heap.well_formed(),
            heap.order() == order,
            heap.live() =~= Map::<AddressableHandle, (K, V)>::empty(),
            heap.releases() == 0,
    {
        Self::with_capacity_and_comparator(DEFAULT_ADDRESSABLE_CAPACITY, order)
    }

    /// Creates an empty heap with storage for at least `capacity` entries.
    pub fn with_capacity_and_comparator(capacity: usize, order: C) -> (heap: Self)
        ensures
            heap.well_formed(),
            heap.order() == order,
            heap.live() =~= Map::<AddressableHandle, (K, V)>::empty(),
            heap.releases() == 0,
    {
        BinaryArrayAddressableHeap { inner: AddressableCore::new(capacity, order), releases: Ghost(0) }
    }

    /// Builds a heap from key-value pairs in linear time using `order`.
    pub fn from_vec_by(entries: Vec<(K, V)>, order: C) -> (heap: Self)
        ensures
            heap.well_formed(),
            heap.order() == order,
            heap.live().dom() =~= Set::new(|h: AddressableHandle| h.issuer() == heap.id() && h.slot_of() < entries@.len() && h.generation_of() == 0),
            forall|h: AddressableHandle| #[trigger] heap.live().contains_key(h) ==> heap.live()[h] == entries@[h.slot_of() as int],
            heap.releases() == 0,
    {
        BinaryArrayAddressableHeap { inner: AddressableCore::from_vec(entries, 2, order), releases: Ghost(0) }
    }

    /// Returns the comparator used to order keys.
    pub fn comparator(&self) -> (result: &C)
        ensures
            *result == self.order(),
    {
        self.inner.comparator()
    }

    /// Inserts an entry and returns a handle that addresses it while live.
    pub fn push(&mut self, key: K, value: V) -> (handle: AddressableHandle)
        requires
            old(self).well_formed(),
        ensures
            final(self).well_formed(),
            final(self).id() == old(self).id(),
            final(self).order() == old(self).order(),
            handle.issuer() == old(self).id(),
            !old(self).live().contains_key(handle),
            final(self).live() == old(self).live().insert(handle, (key, value)),
            !old(self).handed_out(handle),
            final(self).handed_out(handle),
            forall|h: AddressableHandle| #[trigger] old(self).handed_out(h) ==> final(self).handed_out(h),
            final(self).releases() == old(self).releases(),
    {
        let handle = self.inner.push(key, value, 2);
        proof {
            self.inner.lemma_gens_kept(&old(self).inner, self.releases@);
        }
        handle
    }

    /// Alias for [`Self::push`].
    pub fn insert(&mut self, key: K, value: V) -> (handle: AddressableHandle)
        requires
            old(self).well_formed(),
        ensures
            final(self).well_formed(),
            final(self).id() == old(self).id(),
            final(self).order() == old(self).order(),
            handle.issuer() == old(self).id(),
            !old(self).live().contains_key(handle),
            final(self).live() == old(self).live().insert(handle, (key, value)),
            !old(self).handed_out(handle),
            final(self).handed_out(handle),
            forall|h: AddressableHandle| #[trigger] old(self).handed_out(h) ==> final(self).handed_out(h),
            final(self).releases() == old(self).releases(),
    {
        self.push(key, value)
    }

    /// Returns the handle, key, and value of a minimum entry.
    pub fn peek(&self) -> (result: Option<(AddressableHandle, &K, &V)>)
        requires
            self.well_formed(),
        ensures
            result is None <==> self.live().len() == 0,
            result matches Some((h, k, v)) ==> {
                &&& least_entry(self.live(), h, |key: K| self.order().rank(key))
                &&& self.live()[h] == (*k, *v)
            },
    {
        self.inner.peek(2)
    }

    /// Removes and returns a minimum key-value pair.
    pub fn pop(&mut self) -> (result: Option<(K, V)>)
        requires
            old(self).well_formed(),
        ensures
            final(self).well_formed(),
            final(self).id() == old(self).id(),
            final(self).order() == old(self).order(),
            result is None <==> old(self).live().len() == 0,
            result is None ==> final(self).live() == old(self).live(),
            result matches Some(e) ==> exists|h: AddressableHandle| {
                &&& least_entry(old(self).live(), h, |key: K| old(self).order().rank(key))
                &&& old(self).live()[h] == e
                &&& final(self).live() == old(self).live().remove(h)
            },
            forall|h: AddressableHandle| #[trigger] old(self).handed_out(h) && !old(self).spent(h) ==> final(self).handed_out(h),
            final(self).releases() == old(self).releases() + if result is Some { 1nat } else { 0nat },
    {
        let result = self.inner.pop(2);
        if result.is_some() {
            proof {
                self.inner.lemma_release_bound(&old(self).inner, self.releases@);
            }
            self.releases = Ghost(self.releases@ + 1);
        } else {
            proof {
                self.inner.lemma_gens_kept(&old(self).inner, self.releases@);
            }
        }
        proof {
            self.inner.lemma_advanced_keeps(&old(self).inner);
            if result is Some {
                let e = result->0;
                let h = choose|h: AddressableHandle| {
                    &&& least_entry(old(self).inner.live(), h, |key: K| old(self).inner.order_by.rank(key))
                    &&& old(self).inner.live()[h] == e
                    &&& self.inner.live() == old(self).inner.live().remove(h)
                };
                assert(least_entry(old(self).live(), h, |key: K| old(self).order().rank(key)));
            }
        }
        result
    }

    /// Returns the key associated with `handle`.
    pub fn key(&self, handle: AddressableHandle) -> (result: Result<&K, InvalidHandle>)
        requires
            self.well_formed(),
        ensures
            checked(handle.issuer() == self.id(), self.live().contains_key(handle), result),
            result matches Ok(k) ==> *k == self.live()[handle].0,
    {
        self.inner.key(handle)
    }

    /// Returns the value associated with `handle`.
    pub fn value(&self, handle: AddressableHandle) -> (result: Result<&V, InvalidHandle>)
        requires
            self.well_formed(),
        ensures
            checked(handle.issuer() == self.id(), self.live().contains_key(handle), result),
            result matches Ok(v) ==> *v == self.live()[handle].1,
    {
        self.inner.value(handle)
    }

    /// Replaces the value associated with `handle`.
    pub fn set_value(&mut self, handle: AddressableHandle, value: V) -> (result: Result<(), InvalidHandle>)
        requires
            old(self).well_formed(),
        ensures
            final(self).well_formed(),
            final(self).id() == old(self).id(),
            final(self).order() == old(self).order(),
            checked(handle.issuer() == old(self).id(), old(self).live().contains_key(handle), result),
            result is Ok ==> final(self).live() == old(self).live().insert(
                handle,
                (old(self).live()[handle].0, value),
            ),
            result is Err ==> final(self).live() == old(self).live(),
            forall|h: AddressableHandle| #[trigger] final(self).handed_out(h) == old(self).handed_out(h),
            final(self).releases() == old(self).releases(),
    {
        let result = self.inner.set_value(handle, value, Ghost(2));
        proof {
            self.inner.lemma_gens_kept(&old(self).inner, self.releases@);
        }
        result
    }

    /// Decreases an entry's key and restores heap order.
    pub fn decrease_key(&mut self, handle: AddressableHandle, key: K) -> (result: Result<(), DecreaseKeyError>)
        requires
            old(self).well_formed(),
        ensures
            final(self).well_formed(),
            final(self).id() == old(self).id(),
            final(self).order() == old(self).order(),
            match result {
                Ok(()) => {
                    &&& handle.issuer() == old(self).id()
                    &&& old(self).live().contains_key(handle)
                    &&& old(self).order().rank(key) <= old(self).order().rank(old(self).live()[handle].0)
                    &&& final(self).live() == old(self).live().insert(handle, (key, old(self).live()[handle].1))
                },
                Err(DecreaseKeyError::InvalidHandle(e)) => {
                    &&& checked(handle.issuer() == old(self).id(), old(self).live().contains_key(handle), Err::<(), InvalidHandle>(e))
                    &&& final(self).live() == old(self).live()
                },
                Err(DecreaseKeyError::NotDecreased) => {
                    &&& handle.issuer() == old(self).id()
                    &&& old(self).live().contains_key(handle)
                    &&& old(self).order().rank(key) > old(self).order().rank(old(self).live()[handle].0)
                    &&& final(self).live() == old(self).live()
                },
                Err(DecreaseKeyError::InvalidKey) => false,
            },
            forall|h: AddressableHandle| #[trigger] final(self).handed_out(h) == old(self).handed_out(h),
            final(self).releases() == old(self).releases(),
    {
        let result = self.inner.decrease_key(handle, key, 2);
        proof {
            self.inner.lemma_gens_kept(&old(self).inner, self.releases@);
        }
        result
    }

    /// Removes the entry associated with `handle`.
    pub fn delete(&mut self, handle: AddressableHandle) -> (result: Result<(K, V), InvalidHandle>)
        requires
            old(self).well_formed(),
        ensures
            final(self).well_formed(),
            final(self).id() == old(self).id(),
            final(self).order() == old(self).order(),
            checked(handle.issuer() == old(self).id(), old(self).live().contains_key(handle), result),
            result matches Ok(e) ==> {
                &&& e == old(self).live()[handle]
                &&& final(self).live() == old(self).live().remove(handle)
            },
            result is Err ==> final(self).live() == old(self).live(),
            forall|h: AddressableHandle| #[trigger] old(self).handed_out(h) && !old(self).spent(h) ==> final(self).handed_out(h),
            final(self).releases() == old(self).releases() + if result is Ok { 1nat } else { 0nat },
    {
        let result = self.inner.delete(handle, 2);
        if result.is_ok() {
            proof {
                self.inner.lemma_release_bound(&old(self).inner, self.releases@);
            }
            self.releases = Ghost(self.releases@ + 1);
        } else {
            proof {
                self.inner.lemma_gens_kept(&old(self).inner, self.releases@);
            }
        }
        proof {
            self.inner.lemma_advanced_keeps(&old(self).inner);
        }
        result
    }

    /// Returns handles for all live entries in unspecified heap order.
    pub fn handles(&self) -> (result: Vec<AddressableHandle>)
        requires
            self.well_formed(),
        ensures
            result@.len() == self.live().len(),
            forall|k: int| 0 <= k < result@.len() ==> self.live().contains_key(#[trigger] result@[k]),
            forall|h: AddressableHandle| self.live().contains_key(h) ==> result@.contains(h),
    {
        self.inner.handles()
    }

    /// Returns the number of live entries.
    pub fn len(&self) -> (result: usize)
        requires
            self.well_formed(),
        ensures
            result == self.live().len(),
    {
        proof {
            self.inner.lemma_live_len();
        }
        self.inner.len()
    }

    /// Returns whether the heap contains no entries.
    pub fn is_empty(&self) -> (result: bool)
        requires
            self.well_formed(),
        ensures
            result == (self.live().len() == 0),
    {
        proof {
            self.inner.lemma_live_len();
        }
        self.inner.len() == 0
    }

    /// Removes all entries and invalidates every outstanding handle.
    pub fn clear(&mut self)
        requires
            old(self).well_formed(),
        ensures
            final(self).well_formed(),
            final(self).id() == old(self).id(),
            final(self).order() == old(self).order(),
            final(self).live() == Map::<AddressableHandle, (K, V)>::empty(),
            forall|h: AddressableHandle| #[trigger] old(self).handed_out(h) && !old(self).spent(h) ==> final(self).handed_out(h),
            final(self).releases() == old(self).releases() + 1,
    {
        self.inner.clear();
        proof {
            self.inner.lemma_advanced_keeps(&old(self).inner);
            self.inner.lemma_release_bound(&old(self).inner, self.releases@);
        }
        self.releases = Ghost(self.releases@ + 1);
    }
}

impl<K, V, C: Comparator<K>> BinaryArrayAddressableHeap<K, V, C> {
    /// The heap's invariant: heap order, and slots and entries that point
    /// at each other.
    pub closed spec fn is_well_formed(&self) -> bool {
        self.inner.wf(2) && self.inner.gens_within(self.releases@)
    }

    /// The live handles and the entries they identify.
    pub closed spec fn live_entries(&self) -> Map<AddressableHandle, (K, V)> {
        self.inner.live()
    }

    /// Returns mutable access to the value associated with `handle`.
    pub fn value_mut(&mut self, handle: AddressableHandle) -> (result: Result<&mut V, InvalidHandle>)
        requires
            old(self).well_formed(),
        ensures
            checked(handle.issuer() == old(self).id(), old(self).live().contains_key(handle), result),
            result matches Ok(v) ==> {
                &&& *v == old(self).live()[handle].1
                &&& final(self).live() == old(self).live().insert(
                    handle,
                    (old(self).live()[handle].0, *final(v)),
                )
                &&& final(self).well_formed()
                &&& final(self).id() == old(self).id()
                &&& final(self).order() == old(self).order()
            },
            result is Err ==> *final(self) == *old(self),
            final(self).releases() == old(self).releases(),
    {
        self.inner.value_mut(handle, Ghost(2))
    }
}

impl<K, V, C: Comparator<K>> AddressableHeap<K, V> for BinaryArrayAddressableHeap<K, V, C> {
    type Handle = AddressableHandle;

    open spec fn well_formed(&self) -> bool {
        self.is_well_formed()
    }

    open spec fn live(&self) -> Map<AddressableHandle, (K, V)> {
        self.live_entries()
    }

    open spec fn owns(&self, handle: AddressableHandle) -> bool {
        handle.issuer() == self.id()
    }

    open spec fn is_consumed(&self) -> bool {
        false
    }

    open spec fn priority(&self, key: K) -> int {
        self.order().rank(key)
    }

    fn insert(&mut self, key: K, value: V) -> (handle: AddressableHandle) {
        proof {
            self.inner.lemma_live_len();
        }
        BinaryArrayAddressableHeap::push(self, key, value)
    }

    fn peek(&self) -> (result: Option<(AddressableHandle, &K, &V)>) {
        BinaryArrayAddressableHeap::peek(self)
    }

    fn pop(&mut self) -> (result: Option<(K, V)>) {
        BinaryArrayAddressableHeap::pop(self)
    }

    fn key(&self, handle: AddressableHandle) -> (result: Result<&K, InvalidHandle>) {
        BinaryArrayAddressableHeap::key(self, handle)
    }

    fn value(&self, handle: AddressableHandle) -> (result: Result<&V, InvalidHandle>) {
        BinaryArrayAddressableHeap::value(self, handle)
    }

    fn value_mut(&mut self, handle: AddressableHandle) -> (result: Result<&mut V, InvalidHandle>) {
        BinaryArrayAddressableHeap::value_mut(self, handle)
    }

    fn delete(&mut self, handle: AddressableHandle) -> (result: Result<(K, V), InvalidHandle>) {
        proof {
            self.inner.lemma_live_len();
        }
        BinaryArrayAddressableHeap::delete(self, handle)
    }

    fn len(&self) -> (result: usize) {
        BinaryArrayAddressableHeap::len(self)
    }

    fn clear(&mut self) {
        BinaryArrayAddressableHeap::clear(self)
    }
}

impl<K, V, C: Comparator<K>> DecreaseKeyHeap<K, V> for BinaryArrayAddressableHeap<K, V, C> {
    fn decrease_key(&mut self, handle: AddressableHandle, key: K) -> (result: Result<(), DecreaseKeyError>) {
        BinaryArrayAddressableHeap::decrease_key(self, handle, key)
    }
}

/// An array-backed d-ary min-heap with stable, checked entry handles.
///
/// The degree must be at least two.  Larger degrees reduce insertion height
/// but increase comparisons during removal.
pub struct DaryArrayAddressableHeap<K, V, C = NaturalOrder> {
    inner: AddressableCore<K, V, C>,
    degree: usize,
    releases: Ghost<nat>,
}

impl<K, V, C: Comparator<K>> DaryArrayAddressableHeap<K, V, C> {
    /// The identity that this heap's handles carry.
    pub closed spec fn id(&self) -> u64 {
        self.inner.heap_id
    }

    /// Whether this heap has handed out `handle` at some time.  A handle
    /// that it issued and that no longer names an entry is never handed out
    /// again, unless its slot's generation counter wraps around.
    pub closed spec fn handed_out(&self, handle: AddressableHandle) -> bool {
        self.inner.handed_out(handle)
    }

    /// Whether the generation counter of `handle`'s slot is at its last
    /// value, so that freeing the slot once more wraps it around to zero.
    pub closed spec fn spent(&self, handle: AddressableHandle) -> bool {
        self.inner.spent(handle)
    }

    /// How many times entries have been released: each `pop` or `delete`
    /// that removes an entry, and each `clear`, counts once.
    pub closed spec fn releases(&self) -> nat {
        self.releases@
    }

    /// No slot is spent while fewer than `u64::MAX` releases have happened,
    /// so until then a handle that no longer names an entry is never handed
    /// out again.
    pub proof fn lemma_unspent(&self)
        requires
            self.is_well_formed(),
            self.releases() < u64::MAX,
        ensures
            forall|h: AddressableHandle| !#[trigger] self.spent(h),
    {
        self.inner.lemma_unspent(self.releases@);
    }

    /// Every live handle is one that the heap has handed out.
    pub proof fn lemma_live_handed_out(&self)
        requires
            self.well_formed(),
        ensures
            forall|h: AddressableHandle| #[trigger] self.live().contains_key(h) ==> self.handed_out(h) && h.issuer()
                == self.id(),
    {
    }

    /// The comparator the heap orders by.
    pub closed spec fn order(&self) -> C {
        self.inner.order_by
    }

    /// The number of children per node.
    pub closed spec fn arity(&self) -> usize {
        self.degree
    }

    /// Creates an empty heap ordered by `order`.
    pub fn with_comparator(degree: usize, order: C) -> (result: Result<Self, InvalidDegree>)
        ensures
            result is Ok <==> degree >= 2,
            result matches Err(e) ==> e.0 == degree,
            result matches Ok(heap) ==> {
                &&& heap.well_formed()
                &&& heap.arity() == degree
                &&& heap.order() == order
                &&& heap.live() =~= Map::<AddressableHandle, (K, V)>::empty()
            },
            result matches Ok(heap) ==> heap.releases() == 0,
    {
        Self::with_capacity_and_comparator(degree, DEFAULT_ADDRESSABLE_CAPACITY, order)
    }

    /// Creates an empty heap with storage for at least `capacity` entries.
    pub fn with_capacity_and_comparator(degree: usize, capacity: usize, order: C) -> (result: Result<Self, InvalidDegree>)
        ensures
            result is Ok <==> degree >= 2,
            result matches Err(e) ==> e.0 == degree,
            result matches Ok(heap) ==> {
                &&& heap.well_formed()
                &&& heap.arity() == degree
                &&& heap.order() == order
                &&& heap.live() =~= Map::<AddressableHandle, (K, V)>::empty()
            },
            result matches Ok(heap) ==> heap.releases() == 0,
    {
        validate_degree(degree)?;
        Ok(DaryArrayAddressableHeap { inner: AddressableCore::new(capacity, order), degree, releases: Ghost(0) })
    }

    /// Builds a heap from key-value pairs in linear time using `order`.
    pub fn from_vec_by(degree: usize, entries: Vec<(K, V)>, order: C) -> (result: Result<Self, InvalidDegree>)
        ensures
            result is Ok <==> degree >= 2,
            result matches Err(e) ==> e.0 == degree,
            result matches Ok(heap) ==> {
                &&& heap.well_formed()
                &&& heap.arity() == degree
                &&& heap.order() == order
                &&& heap.live().dom() =~= Set::new(|h: AddressableHandle| h.issuer() == heap.id() && h.slot_of() < entries@.len() && h.generation_of() == 0)
                &&& forall|h: AddressableHandle| #[trigger] heap.live().contains_key(h) ==> heap.live()[h] == entries@[h.slot_of() as int]
            },
            result matches Ok(heap) ==> heap.releases() == 0,
    {
        validate_degree(degree)?;
        Ok(DaryArrayAddressableHeap { inner: AddressableCore::from_vec(entries, degree, order), degree, releases: Ghost(0) })
    }

    /// Returns the number of children per node.
    pub fn degree(&self) -> (result: usize)
        ensures
            result == self.arity(),
    {
        self.degree
    }

    /// Returns the comparator used to order keys.
    pub fn comparator(&self) -> (result: &C)
        ensures
            *result == self.order(),
    {
        self.inner.comparator()
    }

    /// Inserts an entry and returns a handle that addresses it while live.
    pub fn push(&mut self, key: K, value: V) -> (handle: AddressableHandle)
        requires
            old(self).well_formed(),
        ensures
            final(self).well_formed(),
            final(self).id() == old(self).id(),
            final(self).order() == old(self).order(),
            handle.issuer() == old(self).id(),
            !old(self).live().contains_key(handle),
            final(self).live() == old(self).live().insert(handle, (key, value)),
            !old(self).handed_out(handle),
            final(self).handed_out(handle),
            forall|h: AddressableHandle| #[trigger] old(self).handed_out(h) ==> final(self).handed_out(h),
            final(self).releases() == old(self).releases(),
    {
        let handle = self.inner.push(key, value, self.degree);
        proof {
            self.inner.lemma_gens_kept(&old(self).inner, self.releases@);
        }
        handle
    }

    /// Alias for [`Self::push`].
    pub fn insert(&mut self, key: K, value: V) -> (handle: AddressableHandle)
        requires
            old(self).well_formed(),
        ensures
            final(self).well_formed(),
            final(self).id() == old(self).id(),
            final(self).order() == old(self).order(),
            handle.issuer() == old(self).id(),
            !old(self).live().contains_key(handle),
            final(self).live() == old(self).live().insert(handle, (key, value)),
            !old(self).handed_out(handle),
            final(self).handed_out(handle),
            forall|h: AddressableHandle| #[trigger] old(self).handed_out(h) ==> final(self).handed_out(h),
            final(self).releases() == old(self).releases(),
    {
        self.push(key, value)
    }

    /// Returns the handle, key, and value of a minimum entry.
    pub fn peek(&self) -> (result: Option<(AddressableHandle, &K, &V)>)
        requires
            self.well_formed(),
        ensures
            result is None <==> self.live().len() == 0,
            result matches Some((h, k, v)) ==> {
                &&& least_entry(self.live(), h, |key: K| self.order().rank(key))
                &&& self.live()[h] == (*k, *v)
            },
    {
        self.inner.peek(self.degree)
    }

    /// Removes and returns a minimum key-value pair.
    pub fn pop(&mut self) -> (result: Option<(K, V)>)
        requires
            old(self).well_formed(),
        ensures
            final(self).well_formed(),
            final(self).id() == old(self).id(),
            final(self).order() == old(self).order(),
            result is None <==> old(self).live().len() == 0,
            result is None ==> final(self).live() == old(self).live(),
            result matches Some(e) ==> exists|h: AddressableHandle| {
                &&& least_entry(old(self).live(), h, |key: K| old(self).order().rank(key))
                &&& old(self).live()[h] == e
                &&& final(self).live() == old(self).live().remove(h)
            },
            forall|h: AddressableHandle| #[trigger] old(self).handed_out(h) && !old(self).spent(h) ==> final(self).handed_out(h),
            final(self).releases() == old(self).releases() + if result is Some { 1nat } else { 0nat },
    {
        let result = self.inner.pop(self.degree);
        if result.is_some() {
            proof {
                self.inner.lemma_release_bound(&old(self).inner, self.releases@);
            }
            self.releases = Ghost(self.releases@ + 1);
        } else {
            proof {
                self.inner.lemma_gens_kept(&old(self).inner, self.releases@);
            }
        }
        proof {
            self.inner.lemma_advanced_keeps(&old(self).inner);
            if result is Some {
                let e = result->0;
                let h = choose|h: AddressableHandle| {
                    &&& least_entry(old(self).inner.live(), h, |key: K| old(self).inner.order_by.rank(key))
                    &&& old(self).inner.live()[h] == e
                    &&& self.inner.live() == old(self).inner.live().remove(h)
                };
                assert(least_entry(old(self).live(), h, |key: K| old(self).order().rank(key)));
            }
        }
        result
    }

    /// Returns the key associated with `handle`.
    pub fn key(&self, handle: AddressableHandle) -> (result: Result<&K, InvalidHandle>)
        requires
            self.well_formed(),
        ensures
            checked(handle.issuer() == self.id(), self.live().contains_key(handle), result),
            result matches Ok(k) ==> *k == self.live()[handle].0,
    {
        self.inner.key(handle)
    }

    /// Returns the value associated with `handle`.
    pub fn value(&self, handle: AddressableHandle) -> (result: Result<&V, InvalidHandle>)
        requires
            self.well_formed(),
        ensures
            checked(handle.issuer() == self.id(), self.live().contains_key(handle), result),
            result matches Ok(v) ==> *v == self.live()[handle].1,
    {
        self.inner.value(handle)
    }

    /// Replaces the value associated with `handle`.
    pub fn set_value(&mut self, handle: AddressableHandle, value: V) -> (result: Result<(), InvalidHandle>)
        requires
            old(self).well_formed(),
        ensures
            final(self).well_formed(),
            final(self).id() == old(self).id(),
            final(self).order() == old(self).order(),
            checked(handle.issuer() == old(self).id(), old(self).live().contains_key(handle), result),
            result is Ok ==> final(self).live() == old(self).live().insert(
                handle,
                (old(self).live()[handle].0, value),
            ),
            result is Err ==> final(self).live() == old(self).live(),
            forall|h: AddressableHandle| #[trigger] final(self).handed_out(h) == old(self).handed_out(h),
            final(self).releases() == old(self).releases(),
    {
        let result = self.inner.set_value(handle, value, Ghost(self.degree as int));
        proof {
            self.inner.lemma_gens_kept(&old(self).inner, self.releases@);
        }
        result
    }

    /// Decreases an entry's key and restores heap order.
    pub fn decrease_key(&mut self, handle: AddressableHandle, key: K) -> (result: Result<(), DecreaseKeyError>)
        requires
            old(self).well_formed(),
        ensures
            final(self).well_formed(),
            final(self).id() == old(self).id(),
            final(self).order() == old(self).order(),
            match result {
                Ok(()) => {
                    &&& handle.issuer() == old(self).id()
                    &&& old(self).live().contains_key(handle)
                    &&& old(self).order().rank(key) <= old(self).order().rank(old(self).live()[handle].0)
                    &&& final(self).live() == old(self).live().insert(handle, (key, old(self).live()[handle].1))
                },
                Err(DecreaseKeyError::InvalidHandle(e)) => {
                    &&& checked(handle.issuer() == old(self).id(), old(self).live().contains_key(handle), Err::<(), InvalidHandle>(e))
                    &&& final(self).live() == old(self).live()
                },
                Err(DecreaseKeyError::NotDecreased) => {
                    &&& handle.issuer() == old(self).id()
                    &&& old(self).live().contains_key(handle)
                    &&& old(self).order().rank(key) > old(self).order().rank(old(self).live()[handle].0)
                    &&& final(self).live() == old(self).live()
                },
                Err(DecreaseKeyError::InvalidKey) => false,
            },
            forall|h: AddressableHandle| #[trigger] final(self).handed_out(h) == old(self).handed_out(h),
            final(self).releases() == old(self).releases(),
    {
        let result = self.inner.decrease_key(handle, key, self.degree);
        proof {
            self.inner.lemma_gens_kept(&old(self).inner, self.releases@);
        }
        result
    }

    /// Removes the entry associated with `handle`.
    pub fn delete(&mut self, handle: AddressableHandle) -> (result: Result<(K, V), InvalidHandle>)
        requires
            old(self).well_formed(),
        ensures
            final(self).well_formed(),
            final(self).id() == old(self).id(),
            final(self).order() == old(self).order(),
            checked(handle.issuer() == old(self).id(), old(self).live().contains_key(handle), result),
            result matches Ok(e) ==> {
                &&& e == old(self).live()[handle]
                &&& final(self).live() == old(self).live().remove(handle)
            },
            result is Err ==> final(self).live() == old(self).live(),
            forall|h: AddressableHandle| #[trigger] old(self).handed_out(h) && !old(self).spent(h) ==> final(self).handed_out(h),
            final(self).releases() == old(self).releases() + if result is Ok { 1nat } else { 0nat },
    {
        let result = self.inner.delete(handle, self.degree);
        if result.is_ok() {
            proof {
                self.inner.lemma_release_bound(&old(self).inner, self.releases@);
            }
            self.releases = Ghost(self.releases@ + 1);
        } else {
            proof {
                self.inner.lemma_gens_kept(&old(self).inner, self.releases@);
            }
        }
        proof {
            self.inner.lemma_advanced_keeps(&old(self).inner);
        }
        result
    }

    /// Returns handles for all live entries in unspecified heap order.
    pub fn handles(&self) -> (result: Vec<AddressableHandle>)
        requires
            self.well_formed(),
        ensures
            result@.len() == self.live().len(),
            forall|k: int| 0 <= k < result@.len() ==> self.live().contains_key(#[trigger] result@[k]),
            forall|h: AddressableHandle| self.live().contains_key(h) ==> result@.contains(h),
    {
        self.inner.handles()
    }

    /// Returns the number of live entries.
    pub fn len(&self) -> (result: usize)
        requires
            self.well_formed(),
        ensures
            result == self.live().len(),
    {
        proof {
            self.inner.lemma_live_len();
        }
        self.inner.len()
    }

    /// Returns whether the heap contains no entries.
    pub fn is_empty(&self) -> (result: bool)
        requires
            self.well_formed(),
        ensures
            result == (self.live().len() == 0),
    {
        proof {
            self.inner.lemma_live_len();
        }
        self.inner.len() == 0
    }

    /// Removes all entries and invalidates every outstanding handle.
    pub fn clear(&mut self)
        requires
            old(self).well_formed(),
        ensures
            final(self).well_formed(),
            final(self).id() == old(self).id(),
            final(self).order() == old(self).order(),
            final(self).live() == Map::<AddressableHandle, (K, V)>::empty(),
            forall|h: AddressableHandle| #[trigger] old(self).handed_out(h) && !old(self).spent(h) ==> final(self).handed_out(h),
            final(self).releases() == old(self).releases() + 1,
    {
        self.inner.clear();
        proof {
            self.inner.lemma_advanced_keeps(&old(self).inner);
            self.inner.lemma_release_bound(&old(self).inner, self.releases@);
        }
        self.releases = Ghost(self.releases@ + 1);
    }
}

impl<K, V, C: Comparator<K>> DaryArrayAddressableHeap<K, V, C> {
    /// The heap's invariant: heap order, and slots and entries that point
    /// at each other.
    pub closed spec fn is_well_formed(&self) -> bool {
        self.inner.wf(self.degree as int) && self.degree >= 2 && self.inner.gens_within(self.releases@)
    }

    /// The live handles and the entries they identify.
    pub closed spec fn live_entries(&self) -> Map<AddressableHandle, (K, V)> {
        self.inner.live()
    }

    /// Returns mutable access to the value associated with `handle`.
    pub fn value_mut(&mut self, handle: AddressableHandle) -> (result: Result<&mut V, InvalidHandle>)
        requires
            old(self).well_formed(),
        ensures
            checked(handle.issuer() == old(self).id(), old(self).live().contains_key(handle), result),
            result matches Ok(v) ==> {
                &&& *v == old(self).live()[handle].1
                &&& final(self).live() == old(self).live().insert(
                    handle,
                    (old(self).live()[handle].0, *final(v)),
                )
                &&& final(self).well_formed()
                &&& final(self).id() == old(self).id()
                &&& final(self).order() == old(self).order()
            },
            result is Err ==> *final(self) == *old(self),
            final(self).releases() == old(self).releases(),
    {
        self.inner.value_mut(handle, Ghost(self.degree as int))
    }
}

impl<K, V, C: Comparator<K>> AddressableHeap<K, V> for DaryArrayAddressableHeap<K, V, C> {
    type Handle = AddressableHandle;

    open spec fn well_formed(&self) -> bool {
        self.is_well_formed()
    }

    open spec fn live(&self) -> Map<AddressableHandle, (K, V)> {
        self.live_entries()
    }

    open spec fn owns(&self, handle: AddressableHandle) -> bool {
        handle.issuer() == self.id()
    }

    open spec fn is_consumed(&self) -> bool {
        false
    }

    open spec fn priority(&self, key: K) -> int {
        self.order().rank(key)
    }

    fn insert(&mut self, key: K, value: V) -> (handle: AddressableHandle) {
        proof {
            self.inner.lemma_live_len();
        }
        DaryArrayAddressableHeap::push(self, key, value)
    }

    fn peek(&self) -> (result: Option<(AddressableHandle, &K, &V)>) {
        DaryArrayAddressableHeap::peek(self)
    }

    fn pop(&mut self) -> (result: Option<(K, V)>) {
        DaryArrayAddressableHeap::pop(self)
    }

    fn key(&self, handle: AddressableHandle) -> (result: Result<&K, InvalidHandle>) {
        DaryArrayAddressableHeap::key(self, handle)
    }

    fn value(&self, handle: AddressableHandle) -> (result: Result<&V, InvalidHandle>) {
        DaryArrayAddressableHeap::value(self, handle)
    }

    fn value_mut(&mut self, handle: AddressableHandle) -> (result: Result<&mut V, InvalidHandle>) {
        DaryArrayAddressableHeap::value_mut(self, handle)
    }

    fn delete(&mut self, handle: AddressableHandle) -> (result: Result<(K, V), InvalidHandle>) {
        proof {
            self.inner.lemma_live_len();
        }
        DaryArrayAddressableHeap::delete(self, handle)
    }

    fn len(&self) -> (result: usize) {
        DaryArrayAddressableHeap::len(self)
    }

    fn clear(&mut self) {
        DaryArrayAddressableHeap::clear(self)
    }
}

impl<K, V, C: Comparator<K>> DecreaseKeyHeap<K, V> for DaryArrayAddressableHeap<K, V, C> {
    fn decrease_key(&mut self, handle: AddressableHandle, key: K) -> (result: Result<(), DecreaseKeyError>) {
        DaryArrayAddressableHeap::decrease_key(self, handle, key)
    }
}


impl<K: HeapKey, V> BinaryArrayAddressableHeap<K, V, NaturalOrder> {
    /// Creates an empty heap using the natural ordering of keys.
    pub fn new() -> (heap: Self)
        ensures
            heap.well_formed(),
            heap.live() =~= Map::<AddressableHandle, (K, V)>::empty(),
            heap.releases() == 0,
    {
        Self::with_capacity(DEFAULT_ADDRESSABLE_CAPACITY)
    }

    /// Creates an empty heap with storage for at least `capacity` entries.
    pub fn with_capacity(capacity: usize) -> (heap: Self)
        ensures
            heap.well_formed(),
            heap.live() =~= Map::<AddressableHandle, (K, V)>::empty(),
            heap.releases() == 0,
    {
        Self::with_capacity_and_comparator(capacity, NaturalOrder)
    }

    /// Builds a heap from key-value pairs in linear time.
    pub fn from_vec(entries: Vec<(K, V)>) -> (heap: Self)
        ensures
            heap.well_formed(),
            heap.live().dom() =~= Set::new(|h: AddressableHandle| h.issuer() == heap.id() && h.slot_of() < entries@.len() && h.generation_of() == 0),
            forall|h: AddressableHandle| #[trigger] heap.live().contains_key(h) ==> heap.live()[h] == entries@[h.slot_of() as int],
            heap.releases() == 0,
    {
        Self::from_vec_by(entries, NaturalOrder)
    }
}

impl<K: HeapKey, V> Default for BinaryArrayAddressableHeap<K, V, NaturalOrder> {
    fn default() -> (heap: Self)
        ensures
            heap.well_formed(),
            heap.live() =~= Map::<AddressableHandle, (K, V)>::empty(),
    {
        Self::new()
    }
}

impl<K: HeapKey, V> DaryArrayAddressableHeap<K, V, NaturalOrder> {
    /// Creates an empty heap with `degree` children per node.
    pub fn new(degree: usize) -> (result: Result<Self, InvalidDegree>)
        ensures
            result is Ok <==> degree >= 2,
            result matches Err(e) ==> e.0 == degree,
            result matches Ok(heap) ==> {
                &&& heap.well_formed()
                &&& heap.arity() == degree
                &&& heap.live() =~= Map::<AddressableHandle, (K, V)>::empty()
            },
            result matches Ok(heap) ==> heap.releases() == 0,
    {
        Self::with_capacity(degree, DEFAULT_ADDRESSABLE_CAPACITY)
    }

    /// Creates an empty heap with storage for at least `capacity` entries.
    pub fn with_capacity(degree: usize, capacity: usize) -> (result: Result<Self, InvalidDegree>)
        ensures
            result is Ok <==> degree >= 2,
            result matches Err(e) ==> e.0 == degree,
            result matches Ok(heap) ==> {
                &&& heap.well_formed()
                &&& heap.arity() == degree
                &&& heap.live() =~= Map::<AddressableHandle, (K, V)>::empty()
            },
            result matches Ok(heap) ==> heap.releases() == 0,
    {
        Self::with_capacity_and_comparator(degree, capacity, NaturalOrder)
    }

    /// Builds a heap from key-value pairs in linear time.
    pub fn from_vec(degree: usize, entries: Vec<(K, V)>) -> (result: Result<Self, InvalidDegree>)
        ensures
            result is Ok <==> degree >= 2,
            result matches Err(e) ==> e.0 == degree,
            result matches Ok(heap) ==> {
                &&& heap.well_formed()
                &&& heap.arity() == degree
                &&& heap.live().dom() =~= Set::new(|h: AddressableHandle| h.issuer() == heap.id() && h.slot_of() < entries@.len() && h.generation_of() == 0)
                &&& forall|h: AddressableHandle| #[trigger] heap.live().contains_key(h) ==> heap.live()[h] == entries@[h.slot_of() as int]
            },
            result matches Ok(heap) ==> heap.releases() == 0,
    {
        Self::from_vec_by(degree, entries, NaturalOrder)
    }
}

impl<K: HeapKey, V> Default for DaryArrayAddressableHeap<K, V, NaturalOrder> {
    fn default() -> (heap: Self)
        ensures
            heap.well_formed(),
            heap.arity() == 2,
            heap.live() =~= Map::<AddressableHandle, (K, V)>::empty(),
    {
        DaryArrayAddressableHeap {
            inner: AddressableCore::new(DEFAULT_ADDRESSABLE_CAPACITY, NaturalOrder),
            degree: 2,
            releases: Ghost(0),
        }
    }
}

} // verus!
