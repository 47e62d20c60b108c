//! Addressable radix heaps: radix heaps whose entries are reached through
//! stable, checked handles.
use vstd::prelude::*;

use crate::error::InvalidHandle;
use crate::monotone::radix::{
    bucket_count, range_bucket_count, bucket_of, in_bucket, lemma_bucket_floor, lemma_bucket_order,
    lemma_buckets_above_keep, RadixKey,
};
use crate::monotone::{RadixDecreaseKeyError, RadixHeapError};
use crate::order::HeapKey;
use crate::std_support::fresh_heap_id;
use crate::{checked, least_entry, TryAddressableHeap, TryDecreaseKeyHeap};

verus! {

broadcast use {vstd::set::group_set_axioms, vstd::map::group_map_axioms};

/// An opaque capability identifying a live entry in an addressable radix
/// heap.
///
/// A handle is valid only for the heap that returned it, and becomes stale
/// after its entry is removed or the heap is cleared.
#[derive(Clone, Copy, Debug, PartialEq, Eq, Hash)]
pub struct RadixHandle {
    heap_id: u64,
    slot: usize,
    generation: u64,
}

impl RadixHandle {
    /// The identity of the heap that issued the handle.
    pub closed spec fn issuer(self) -> u64 {
        self.heap_id
    }
}

struct AddressableEntry<K, V> {
    key: K,
    value: V,
    bucket: usize,
    position: usize,
}

struct AddressableSlot<K, V> {
    entry: Option<AddressableEntry<K, V>>,
    generation: u64,
}

/// How one slot may change: it keeps its generation and stays occupied if
/// it was, or an occupied slot is emptied with its generation advanced by
/// one (wrapping).
spec fn slot_step<K, V>(after: AddressableSlot<K, V>, before: AddressableSlot<K, V>) -> bool {
    ||| after.generation == before.generation && (before.entry is Some ==> after.entry is Some)
    ||| before.entry is Some && after.entry is None && after.generation == before.generation.wrapping_add(1)
}

/// The storage of an addressable radix heap: buckets of slot numbers, and
/// slots that hold the entries with their place in the buckets.
struct AddressableRadixHeapCore<K, V> {
    buckets: Vec<Vec<usize>>,
    slots: Vec<AddressableSlot<K, V>>,
    free_slots: Vec<usize>,
    len: usize,
    last_deleted_key: K,
    minimum_key: K,
    maximum_key: K,
    current_minimum: Option<usize>,
    heap_id: u64,
    occupied_slots: Ghost<Set<int>>,
}

impl<K: RadixKey, V> AddressableRadixHeapCore<K, V> {
    spec fn last(&self) -> u64 {
        self.last_deleted_key.key_rank() as u64
    }

    spec fn count(&self) -> int {
        self.buckets@.len() as int
    }

    spec fn occupied(&self, s: int) -> bool {
        0 <= s < self.slots@.len() && self.slots@[s].entry is Some
    }

    spec fn entry_at(&self, s: int) -> AddressableEntry<K, V> {
        self.slots@[s].entry->0
    }

    /// Every bucket cell names an occupied slot that records that cell.
    spec fn cells_ok(&self) -> bool {
        forall|b: int, p: int|
            0 <= b < self.buckets@.len() && 0 <= p < self.buckets@[b]@.len() ==> {
                &&& self.occupied(#[trigger] self.buckets@[b]@[p] as int)
                &&& self.entry_at(self.buckets@[b]@[p] as int).bucket == b
                &&& self.entry_at(self.buckets@[b]@[p] as int).position == p
            }
    }

    /// Every occupied slot records the bucket cell that names it, and its
    /// key belongs in that bucket.
    spec fn placed(&self, s: int) -> bool {
        let e = self.entry_at(s);
        &&& e.bucket < self.count()
        &&& e.position < self.buckets@[e.bucket as int]@.len()
        &&& self.buckets@[e.bucket as int]@[e.position as int] == s
        &&& in_bucket(e.key.key_rank(), e.bucket as int, self.last(), self.count())
        &&& e.key.key_rank() <= self.maximum_key.key_rank()
    }

    spec fn slots_ok(&self) -> bool {
        forall|s: int| #![trigger self.slots@[s]] self.occupied(s) ==> self.placed(s)
    }

    spec fn free_ok(&self) -> bool {
        &&& forall|k: int|
            #![trigger self.free_slots@[k]]
            0 <= k < self.free_slots@.len() ==> {
                &&& self.free_slots@[k] < self.slots@.len()
                &&& self.slots@[self.free_slots@[k] as int].entry is None
            }
        &&& self.free_slots@.no_duplicates()
    }

    spec fn is_least_slot(&self, s: int) -> bool {
        &&& self.occupied(s)
        &&& forall|t: int| #![trigger self.slots@[t]] self.occupied(t) ==> self.entry_at(s).key.key_rank()
            <= self.entry_at(t).key.key_rank()
    }

    spec fn live(&self) -> Map<RadixHandle, (K, V)> {
        Map::new(
            |h: RadixHandle|
                h.heap_id == self.heap_id && self.occupied(h.slot as int) && h.generation
                    == self.slots@[h.slot as int].generation,
            |h: RadixHandle| (self.entry_at(h.slot as int).key, self.entry_at(h.slot as int).value),
        )
    }

    /// Everything that the heap keeps but the cached minimum.
    spec fn wf_core(&self) -> bool {
        &&& 2 <= self.count() <= 66
        &&& self.count() == range_bucket_count(self.minimum_key.key_rank(), self.maximum_key.key_rank())
        &&& self.minimum_key.key_rank() <= self.last_deleted_key.key_rank()
        &&& self.last_deleted_key.key_rank() <= self.maximum_key.key_rank()
        &&& self.cells_ok()
        &&& self.slots_ok()
        &&& self.free_ok()
        &&& self.occupied_slots@.finite()
        &&& self.occupied_slots@.len() == self.len
        &&& forall|t: int| #[trigger] self.occupied_slots@.contains(t) <==> self.occupied(t)
    }

    spec fn wf(&self) -> bool {
        &&& self.wf_core()
        &&& match self.current_minimum {
            None => self.len == 0,
            Some(s) => self.is_least_slot(s as int),
        }
    }

    spec fn accepts(&self, key: K) -> bool {
        &&& self.minimum_key.key_rank() <= key.key_rank() <= self.maximum_key.key_rank()
        &&& self.last_deleted_key.key_rank() <= key.key_rank()
    }

    spec fn handle_of(&self, s: usize) -> RadixHandle {
        RadixHandle { heap_id: self.heap_id, slot: s, generation: self.slots@[s as int].generation }
    }

    /// Whether this core has handed out `h`: its slot has moved past the
    /// handle's generation, or still holds the entry it names.
    spec fn handed_out(&self, h: RadixHandle) -> bool {
        &&& h.heap_id == self.heap_id
        &&& h.slot < self.slots@.len()
        &&& (h.generation < self.slots@[h.slot as int].generation || (h.generation
            == self.slots@[h.slot as int].generation && self.slots@[h.slot as int].entry is Some))
    }

    /// Whether the generation counter of `h`'s slot is at its last value.
    spec fn spent(&self, h: RadixHandle) -> bool {
        h.slot < self.slots@.len() && self.slots@[h.slot as int].generation == u64::MAX
    }

    /// Every slot of `before` moved by one step of [`slot_step`].
    spec fn slots_advanced(&self, before: &Self) -> bool {
        &&& self.heap_id == before.heap_id
        &&& self.slots@.len() >= before.slots@.len()
        &&& forall|s: usize|
            #![trigger self.slots@[s as int]]
            s < before.slots@.len() ==> slot_step(self.slots@[s as int], before.slots@[s as int])
    }

    /// No slot's generation exceeds `bound`.
    spec fn gens_within(&self, bound: nat) -> bool {
        forall|s: usize| #![trigger self.slots@[s as int]] s < self.slots@.len() ==> self.slots@[s as int].generation <= bound
    }

    /// Every slot of `before` keeps its generation, and new slots start at
    /// generation zero.
    spec fn gens_kept(&self, before: &Self) -> bool {
        &&& self.slots@.len() >= before.slots@.len()
        &&& forall|s: usize|
            #![trigger self.slots@[s as int]]
            s < self.slots@.len() ==> self.slots@[s as int].generation == if s < before.slots@.len() {
                before.slots@[s as int].generation
            } else {
                0
            }
    }

    proof fn lemma_gens_kept(&self, before: &Self, bound: nat)
        requires
            self.gens_kept(before),
            before.gens_within(bound),
        ensures
            self.gens_within(bound),
    {
        assert forall|s: usize| #![trigger self.slots@[s as int]] s < self.slots@.len() implies self.slots@[s as int].generation
            <= bound by {
            if s < before.slots@.len() {
                assert(before.slots@[s as int] == before.slots@[s as int]);
            }
        }
    }

    /// A release frees each slot at most once, so generations stay within
    /// one more than before.
    proof fn lemma_release_bound(&self, before: &Self, bound: nat)
        requires
            self.slots_advanced(before),
            self.slots@.len() == before.slots@.len(),
            before.gens_within(bound),
        ensures
            self.gens_within(bound + 1),
    {
        assert forall|s: usize| #![trigger self.slots@[s as int]] s < self.slots@.len() implies self.slots@[s as int].generation
            <= bound + 1 by {
            assert(before.slots@[s as int] == before.slots@[s as int]);
            assert(self.slots@[s as int] == self.slots@[s as int]);
        }
    }

    /// While every generation is below the last one, no slot is spent.
    proof fn lemma_unspent(&self, bound: nat)
        requires
            self.gens_within(bound),
            bound < u64::MAX,
        ensures
            forall|h: RadixHandle| !#[trigger] self.spent(h),
    {
        assert forall|h: RadixHandle| !#[trigger] self.spent(h) by {
            if h.slot < self.slots@.len() {
                assert(self.slots@[h.slot as int] == self.slots@[h.slot as int]);
            }
        }
    }

    proof fn lemma_advanced_keeps(&self, before: &Self)
        requires
            self.slots_advanced(before),
        ensures
            forall|h: RadixHandle| #[trigger] before.handed_out(h) && !before.spent(h) ==> self.handed_out(h),
    {
        assert forall|h: RadixHandle| #[trigger] before.handed_out(h) && !before.spent(h) implies self.handed_out(h) by {
            assert(self.slots@[h.slot as int] == self.slots@[h.slot as int]);
        }
    }

    /// The handle of the entry recorded as the current minimum, if any.
    spec fn minimum_handle(&self) -> Option<RadixHandle> {
        match self.current_minimum {
            Some(s) => Some(self.handle_of(s)),
            None => None,
        }
    }

    proof fn lemma_ranks(&self)
        ensures
            0 <= self.last_deleted_key.key_rank() <= u64::MAX,
            0 <= self.minimum_key.key_rank() <= u64::MAX,
            0 <= self.maximum_key.key_rank() <= u64::MAX,
    {
        self.last_deleted_key.lemma_rank_range();
        self.minimum_key.lemma_rank_range();
        self.maximum_key.lemma_rank_range();
    }

    /// An occupied slot is live under its handle.
    proof fn lemma_handle_of(&self, s: usize)
        requires
            self.occupied(s as int),
        ensures
            self.live().contains_key(self.handle_of(s)),
            self.live()[self.handle_of(s)] == (self.entry_at(s as int).key, self.entry_at(s as int).value),
    {
    }

    /// There are exactly as many live handles as occupied slots.
    proof fn lemma_live_len(&self)
        requires
            self.wf(),
        ensures
            self.live().dom().finite(),
            self.live().len() == self.len,
    {
        let f = |t: int| self.handle_of(t as usize);
        assert(vstd::relations::injective_on(f, self.occupied_slots@)) by {
            assert forall|a: int, b: int|
                self.occupied_slots@.contains(a) && self.occupied_slots@.contains(b) && #[trigger] f(a) == #[trigger] f(b) implies a == b by {
                assert(self.occupied(a) && self.occupied(b));
            }
        }
        assert(self.occupied_slots@.map(f) =~= self.live().dom()) by {
            assert forall|h: RadixHandle| self.live().dom().contains(h) implies self.occupied_slots@.map(f).contains(h) by {
                let t = h.slot as int;
                assert(self.occupied_slots@.contains(t));
                assert(f(t) == h);
            }
            assert forall|h: RadixHandle| self.occupied_slots@.map(f).contains(h) implies self.live().dom().contains(h) by {
                let t = choose|t: int| self.occupied_slots@.contains(t) && f(t) == h;
                assert(self.occupied(t));
            }
        }
        vstd::set_lib::lemma_map_size(self.occupied_slots@, self.live().dom(), f);
    }

    /// A heap with a live entry has an occupied slot, hence a non-empty
    /// bucket.
    proof fn lemma_some_cell(&self) -> (cell: (int, int))
        requires
            self.wf_core(),
            self.len > 0,
        ensures
            0 <= cell.0 < self.buckets@.len(),
            0 <= cell.1 < self.buckets@[cell.0]@.len(),
    {
        assert(self.occupied_slots@.len() > 0);
        let s = self.occupied_slots@.choose();
        assert(self.occupied_slots@.contains(s));
        assert(self.occupied(s));
        assert(self.placed(s));
        (self.entry_at(s).bucket as int, self.entry_at(s).position as int)
    }

    fn new(minimum_key: K, maximum_key: K) -> (result: Result<Self, RadixHeapError>)
        ensures
            result is Ok <==> minimum_key.key_rank() <= maximum_key.key_rank(),
            result matches Err(e) ==> e == RadixHeapError::InvalidRange,
            result matches Ok(core) ==> {
                &&& core.wf()
                &&& core.live() =~= Map::<RadixHandle, (K, V)>::empty()
                &&& core.minimum_key == minimum_key
                &&& core.maximum_key == maximum_key
                &&& core.last_deleted_key == minimum_key
            },
            result matches Ok(core) ==> core.gens_within(0),
    {
        if maximum_key.key_lt(&minimum_key) {
            return Err(RadixHeapError::InvalidRange);
        }
        let count = bucket_count(minimum_key.wide(), maximum_key.wide());
        let mut buckets: Vec<Vec<usize>> = Vec::with_capacity(count);
        while buckets.len() < count
            invariant
                buckets@.len() <= count,
                forall|b: int| 0 <= b < buckets@.len() ==> (#[trigger] buckets@[b])@.len() == 0,
            decreases count - buckets@.len(),
        {
            buckets.push(Vec::new());
        }
        let core = AddressableRadixHeapCore {
            buckets,
            slots: Vec::new(),
            free_slots: Vec::new(),
            len: 0,
            last_deleted_key: minimum_key,
            minimum_key,
            maximum_key,
            current_minimum: None,
            heap_id: fresh_heap_id(),
            occupied_slots: Ghost(Set::empty()),
        };
        assert(core.live() =~= Map::<RadixHandle, (K, V)>::empty());
        Ok(core)
    }

    fn check_key(&self, key: &K) -> (result: Result<(), RadixHeapError>)
        ensures
            result is Ok <==> self.accepts(*key),
            result matches Err(e) ==> {
                ||| e == RadixHeapError::KeyOutOfRange && !(self.minimum_key.key_rank() <= key.key_rank()
                    <= self.maximum_key.key_rank())
                ||| e == RadixHeapError::MonotonicityViolation && self.minimum_key.key_rank()
                    <= key.key_rank() <= self.maximum_key.key_rank() && key.key_rank()
                    < self.last_deleted_key.key_rank()
            },
    {
        if key.key_lt(&self.minimum_key) || self.maximum_key.key_lt(key) {
            return Err(RadixHeapError::KeyOutOfRange);
        }
        if key.key_lt(&self.last_deleted_key) {
            return Err(RadixHeapError::MonotonicityViolation);
        }
        Ok(())
    }

    fn handle(&self, slot: usize) -> (handle: RadixHandle)
        requires
            slot < self.slots@.len(),
        ensures
            handle == self.handle_of(slot),
    {
        RadixHandle { heap_id: self.heap_id, slot, generation: self.slots[slot].generation }
    }

    fn validate(&self, handle: RadixHandle) -> (result: Result<usize, InvalidHandle>)
        ensures
            checked(handle.heap_id == self.heap_id, self.live().contains_key(handle), result),
            result matches Ok(s) ==> s == handle.slot && self.occupied(s as int),
    {
        if handle.heap_id != self.heap_id {
            return Err(InvalidHandle::ForeignHeap);
        }
        if handle.slot >= self.slots.len() {
            return Err(InvalidHandle::Stale);
        }
        let slot = &self.slots[handle.slot];
        if slot.generation != handle.generation || slot.entry.is_none() {
            return Err(InvalidHandle::Stale);
        }
        Ok(handle.slot)
    }

    fn key(&self, handle: RadixHandle) -> (result: Result<&K, InvalidHandle>)
        ensures
            checked(handle.heap_id == self.heap_id, self.live().contains_key(handle), result),
            result matches Ok(k) ==> *k == self.live()[handle].0,
    {
        let slot = self.validate(handle)?;
        match &self.slots[slot].entry {
            Some(entry) => Ok(&entry.key),
            None => Err(InvalidHandle::Stale),
        }
    }

    fn value(&self, handle: RadixHandle) -> (result: Result<&V, InvalidHandle>)
        ensures
            checked(handle.heap_id == self.heap_id, self.live().contains_key(handle), result),
            result matches Ok(v) ==> *v == self.live()[handle].1,
    {
        let slot = self.validate(handle)?;
        match &self.slots[slot].entry {
            Some(entry) => Ok(&entry.value),
            None => Err(InvalidHandle::Stale),
        }
    }

    fn peek(&self) -> (result: Option<(RadixHandle, &K, &V)>)
        requires
            self.wf(),
        ensures
            result is None <==> self.live().len() == 0,
            result matches Some((h, k, v)) ==> {
                &&& least_entry(self.live(), h, |key: K| key.key_rank())
                &&& self.live()[h] == (*k, *v)
                &&& self.minimum_handle() == Some(h)
            },
    {
        proof {
            self.lemma_live_len();
        }
        match self.current_minimum {
            None => None,
            Some(slot) => {
                let handle = self.handle(slot);
                proof {
                    self.lemma_handle_of(slot);
                    assert forall|g: RadixHandle| self.live().contains_key(g) implies self.live()[handle].0.key_rank()
                        <= self.live()[g].0.key_rank() by {
                        assert(self.occupied(g.slot as int));
                    }
                }
                match &self.slots[slot].entry {
                    Some(entry) => Some((handle, &entry.key, &entry.value)),
                    None => None,
                }
            },
        }
    }

    fn slot_key(&self, slot: usize) -> (key: &K)
        requires
            self.occupied(slot as int),
        ensures
            *key == self.entry_at(slot as int).key,
    {
        &self.slots[slot].entry.as_ref().unwrap().key
    }

    fn try_insert(&mut self, key: K, value: V) -> (result: Result<RadixHandle, RadixHeapError>)
        requires
            old(self).wf(),
            old(self).live().len() < usize::MAX,
        ensures
            final(self).wf(),
            final(self).heap_id == old(self).heap_id,
            final(self).minimum_key == old(self).minimum_key,
            final(self).maximum_key == old(self).maximum_key,
            final(self).last_deleted_key == old(self).last_deleted_key,
            result is Ok <==> old(self).accepts(key),
            result matches Err(e) ==> {
                ||| e == RadixHeapError::KeyOutOfRange && !(old(self).minimum_key.key_rank() <= key.key_rank()
                    <= old(self).maximum_key.key_rank())
                ||| e == RadixHeapError::MonotonicityViolation && old(self).minimum_key.key_rank()
                    <= key.key_rank() <= old(self).maximum_key.key_rank() && key.key_rank()
                    < old(self).last_deleted_key.key_rank()
            },
            result matches Ok(handle) ==> {
                &&& handle.heap_id == old(self).heap_id
                &&& !old(self).live().contains_key(handle)
                &&& final(self).live() == old(self).live().insert(handle, (key, value))
                &&& !old(self).handed_out(handle)
                &&& final(self).handed_out(handle)
            },
            result is Err ==> *final(self) == *old(self),
            forall|g: RadixHandle| #[trigger] old(self).handed_out(g) ==> final(self).handed_out(g),
            final(self).gens_kept(old(self)),
    {
        self.check_key(&key)?;
        proof {
            self.lemma_ranks();
            key.lemma_rank_range();
            self.lemma_live_len();
        }
        let replace_minimum = match self.current_minimum {
            Some(current) => key.key_lt(self.slot_key(current)),
            None => true,
        };
        let bucket = bucket_of(key.wide(), self.last_deleted_key.wide(), self.buckets.len());
        let ghost old_slots = self.slots@;
        let slot = match self.free_slots.pop() {
            Some(slot) => {
                proof {
                    assert(old(self).free_slots@[old(self).free_slots@.len() - 1] == slot);
                }
                slot
            },
            None => {
                let slot = self.slots.len();
                self.slots.push(AddressableSlot { entry: None, generation: 0 });
                slot
            },
        };
        proof {
            assert(!old(self).occupied(slot as int));
            assert forall|k: int| #![trigger self.free_slots@[k]] 0 <= k < self.free_slots@.len() implies {
                &&& self.free_slots@[k] < self.slots@.len()
                &&& self.slots@[self.free_slots@[k] as int].entry is None
            } by {
                assert(old(self).free_slots@[k] == self.free_slots@[k]);
                if slot < old_slots.len() {
                    assert(self.free_slots@[k] != slot);
                }
            }
        }
        let position = self.buckets[bucket].len();
        let ghost old_buckets = self.buckets@;
        self.buckets[bucket].push(slot);
        let generation = self.slots[slot].generation;
        self.slots[slot].entry = Some(AddressableEntry { key, value, bucket, position });
        let ghost h = RadixHandle { heap_id: self.heap_id, slot, generation };
        if replace_minimum {
            self.current_minimum = Some(slot);
        }
        self.len = self.len + 1;
        proof {
            old(self).lemma_live_len();
            self.occupied_slots@ = self.occupied_slots@.insert(slot as int);
            assert forall|t: int| #[trigger] old(self).occupied(t) implies self.occupied(t) && self.entry_at(t) == old(self).entry_at(t)
                && self.slots@[t].generation == old(self).slots@[t].generation by {
                assert(t != slot);
            }
            assert forall|t: int| #[trigger] self.occupied(t) && t != slot implies old(self).occupied(t) by {}
            assert forall|b: int, p: int|
                0 <= b < self.buckets@.len() && 0 <= p < self.buckets@[b]@.len() implies {
                    &&& self.occupied(#[trigger] self.buckets@[b]@[p] as int)
                    &&& self.entry_at(self.buckets@[b]@[p] as int).bucket == b
                    &&& self.entry_at(self.buckets@[b]@[p] as int).position == p
                } by {
                if b != bucket || p < old_buckets[b]@.len() {
                    assert(self.buckets@[b]@[p] == old(self).buckets@[b]@[p]);
                    assert(old(self).occupied(old(self).buckets@[b]@[p] as int));
                }
            }
            assert forall|t: int| #[trigger] self.occupied(t) implies self.placed(t) by {
                if t != slot {
                    assert(old(self).occupied(t));
                    assert(old(self).placed(t));
                    let e = old(self).entry_at(t);
                    assert(self.buckets@[e.bucket as int]@[e.position as int] == old(self).buckets@[e.bucket as int]@[e.position as int]);
                }
            }
            assert(self.live() =~= old(self).live().insert(h, (key, value))) by {
                assert forall|g: RadixHandle| #[trigger] self.live().contains_key(g) <==> old(self).live().insert(h, (key, value)).contains_key(g) by {
                    if g.slot != slot && g.slot < old_slots.len() {
                        assert(self.slots@[g.slot as int] == old(self).slots@[g.slot as int]);
                    }
                }
            }
            assert(!old(self).live().contains_key(h));
            assert(!old(self).handed_out(h)) by {
                if slot < old_slots.len() {
                    assert(old_slots[slot as int].entry is None);
                }
            }
            assert forall|g: RadixHandle| #[trigger] old(self).handed_out(g) implies self.handed_out(g) by {
                assert(old_slots[g.slot as int] == old_slots[g.slot as int]);
                if g.slot == slot {
                    assert(old_slots[slot as int].entry is None);
                }
            }
            let s0 = self.current_minimum->0 as int;
            assert forall|t: int| #[trigger] self.occupied(t) implies self.entry_at(s0).key.key_rank() <= self.entry_at(t).key.key_rank() by {
                if t != slot {
                    assert(old(self).occupied(t));
                }
                if old(self).current_minimum is None {
                    if t != slot {
                        old(self).lemma_handle_of(t as usize);
                        assert(old(self).live().dom().contains(old(self).handle_of(t as usize)));
                    }
                }
            }
        }
        Ok(self.handle(slot))
    }

    fn value_mut(&mut self, handle: RadixHandle) -> (result: Result<&mut V, InvalidHandle>)
        requires
            old(self).wf(),
        ensures
            checked(handle.heap_id == old(self).heap_id, old(self).live().contains_key(handle), result),
            result matches Ok(v) ==> *v == old(self).live()[handle].1,
            result matches Ok(v) ==> final(self).live() == old(self).live().insert(
                handle,
                (old(self).live()[handle].0, *final(v)),
            ),
            result is Ok ==> final(self).wf(),
            result is Ok ==> final(self).heap_id == old(self).heap_id,
            result is Ok ==> final(self).minimum_key == old(self).minimum_key,
            result is Ok ==> final(self).maximum_key == old(self).maximum_key,
            result is Ok ==> final(self).last_deleted_key == old(self).last_deleted_key,
            result is Err ==> *final(self) == *old(self),
            forall|g: RadixHandle| #[trigger] final(self).handed_out(g) == old(self).handed_out(g),
            forall|b: nat| #[trigger] old(self).gens_within(b) ==> final(self).gens_within(b),
    {
        let slot = self.validate(handle)?;
        match &mut self.slots[slot].entry {
            Some(entry) => Ok(&mut entry.value),
            None => Err(InvalidHandle::Stale),
        }
    }

    /// Every occupied slot but those listed is placed.
    spec fn placed_but(&self, floating: Seq<usize>) -> bool {
        forall|s: int| #![trigger self.slots@[s]] self.occupied(s) && !floating.contains(s as usize) ==> self.placed(s)
    }

    /// No bucket cell names slot `x`.
    spec fn unnamed(&self, x: int) -> bool {
        forall|b: int, p: int|
            0 <= b < self.buckets@.len() && 0 <= p < self.buckets@[b]@.len() ==> #[trigger] self.buckets@[b]@[p] != x
    }

    /// Takes slot `slot` out of its bucket cell; the last cell of the bucket
    /// moves into its place.
    fn remove_from_bucket(&mut self, slot: usize, floating: Ghost<Seq<usize>>)
        requires
            old(self).cells_ok(),
            old(self).placed_but(floating@),
            old(self).occupied(slot as int),
            old(self).placed(slot as int),
            2 <= old(self).count(),
        ensures
            final(self).cells_ok(),
            final(self).placed_but(floating@.push(slot)),
            final(self).unnamed(slot as int),
            final(self).buckets@.len() == old(self).buckets@.len(),
            final(self).slots@.len() == old(self).slots@.len(),
            forall|t: int| #![trigger final(self).slots@[t]] 0 <= t < final(self).slots@.len() ==> {
                &&& final(self).slots@[t].generation == old(self).slots@[t].generation
                &&& final(self).occupied(t) == old(self).occupied(t)
                &&& final(self).occupied(t) ==> final(self).entry_at(t).key == old(self).entry_at(t).key
                    && final(self).entry_at(t).value == old(self).entry_at(t).value
            },
            final(self).free_slots == old(self).free_slots,
            final(self).len == old(self).len,
            final(self).last_deleted_key == old(self).last_deleted_key,
            final(self).minimum_key == old(self).minimum_key,
            final(self).maximum_key == old(self).maximum_key,
            final(self).current_minimum == old(self).current_minimum,
            final(self).heap_id == old(self).heap_id,
            final(self).occupied_slots == old(self).occupied_slots,
    {
        let bucket = self.slots[slot].entry.as_ref().unwrap().bucket;
        let position = self.slots[slot].entry.as_ref().unwrap().position;
        let ghost old_bucket = self.buckets@[bucket as int]@;
        let ghost n = old_bucket.len();
        let ghost moved_slot = old_bucket[n - 1];
        proof {
            assert(self.buckets@[bucket as int]@[n - 1] == moved_slot);
        }
        self.buckets[bucket].swap_remove(position);
        if position < self.buckets[bucket].len() {
            let moved = self.buckets[bucket][position];
            match &mut self.slots[moved].entry {
                Some(entry) => {
                    entry.position = position;
                },
                None => {},
            }
        }
        proof {
            assert forall|b: int, p: int|
                0 <= b < self.buckets@.len() && 0 <= p < self.buckets@[b]@.len() implies {
                    &&& self.occupied(#[trigger] self.buckets@[b]@[p] as int)
                    &&& self.entry_at(self.buckets@[b]@[p] as int).bucket == b
                    &&& self.entry_at(self.buckets@[b]@[p] as int).position == p
                } by {
                if b != bucket {
                    assert(self.buckets@[b] == old(self).buckets@[b]);
                    let t = old(self).buckets@[b]@[p];
                    assert(old(self).occupied(t as int));
                    assert(t != moved_slot || n - 1 == position) by {
                        assert(old(self).entry_at(moved_slot as int).bucket == bucket);
                    }
                } else if p == position {
                    assert(self.buckets@[b]@[p] == moved_slot);
                } else {
                    assert(self.buckets@[b]@[p] == old_bucket[p]);
                    assert(old_bucket[p] != moved_slot) by {
                        assert(old(self).entry_at(moved_slot as int).position == n - 1);
                    }
                }
            }
            assert forall|b: int, p: int|
                0 <= b < self.buckets@.len() && 0 <= p < self.buckets@[b]@.len() implies #[trigger] self.buckets@[b]@[p] != slot by {
                if b != bucket {
                    assert(self.buckets@[b]@[p] == old(self).buckets@[b]@[p]);
                } else if p == position {
                    assert(self.buckets@[b]@[p] == moved_slot);
                    assert(moved_slot != slot);
                } else {
                    assert(self.buckets@[b]@[p] == old_bucket[p]);
                }
            }
            assert forall|t: int| #![trigger self.slots@[t]] self.occupied(t) && !floating@.push(slot).contains(t as usize) implies self.placed(t) by {
                assert(floating@.push(slot)[floating@.len() as int] == slot);
                assert(t != slot);
                if !floating@.contains(t as usize) {
                    assert(old(self).placed(t));
                    let e = old(self).entry_at(t);
                    if e.bucket == bucket {
                        assert(e.position != position);
                        if e.position == n - 1 {
                            assert(t == moved_slot);
                        } else {
                            assert(self.buckets@[bucket as int]@[e.position as int] == old_bucket[e.position as int]);
                        }
                    }
                } else {
                    let k = choose|k: int| 0 <= k < floating@.len() && floating@[k] == t as usize;
                    assert(floating@.push(slot)[k] == t as usize);
                }
            }
        }
    }

    /// Marks `slot` empty, advances its generation, and frees it.
    fn take_slot(&mut self, slot: usize) -> (entry: AddressableEntry<K, V>)
        requires
            old(self).occupied(slot as int),
            old(self).free_ok(),
        ensures
            entry == old(self).entry_at(slot as int),
            final(self).slots@ == old(self).slots@.update(
                slot as int,
                AddressableSlot { entry: None, generation: old(self).slots@[slot as int].generation.wrapping_add(1) },
            ),
            final(self).free_ok(),
            final(self).buckets == old(self).buckets,
            final(self).len == old(self).len,
            final(self).last_deleted_key == old(self).last_deleted_key,
            final(self).minimum_key == old(self).minimum_key,
            final(self).maximum_key == old(self).maximum_key,
            final(self).current_minimum == old(self).current_minimum,
            final(self).heap_id == old(self).heap_id,
            final(self).occupied_slots == old(self).occupied_slots,
    {
        proof {
            if self.free_slots@.contains(slot) {
                let k = choose|k: int| 0 <= k < self.free_slots@.len() && self.free_slots@[k] == slot;
                assert(self.slots@[self.free_slots@[k] as int].entry is None);
            }
        }
        let entry = self.slots[slot].entry.take().unwrap();
        let generation = self.slots[slot].generation.wrapping_add(1);
        self.slots[slot].generation = generation;
        self.free_slots.push(slot);
        proof {
            assert(self.slots@ =~= old(self).slots@.update(
                slot as int,
                AddressableSlot { entry: None, generation: old(self).slots@[slot as int].generation.wrapping_add(1) },
            ));
            assert forall|k: int| #![trigger self.free_slots@[k]] 0 <= k < self.free_slots@.len() implies {
                &&& self.free_slots@[k] < self.slots@.len()
                &&& self.slots@[self.free_slots@[k] as int].entry is None
            } by {
                if k < self.free_slots@.len() - 1 {
                    assert(old(self).free_slots@[k] == self.free_slots@[k]);
                }
            }
        }
        entry
    }

    /// Appends `slot` to bucket `bucket` and records that cell in the slot.
    fn add_to_bucket(&mut self, slot: usize, bucket: usize, floating: Ghost<Seq<usize>>)
        requires
            old(self).cells_ok(),
            old(self).unnamed(slot as int),
            old(self).occupied(slot as int),
            old(self).placed_but(floating@),
            bucket < old(self).count(),
            in_bucket(old(self).entry_at(slot as int).key.key_rank(), bucket as int, old(self).last(), old(self).count()),
            old(self).entry_at(slot as int).key.key_rank() <= old(self).maximum_key.key_rank(),
        ensures
            final(self).cells_ok(),
            final(self).placed(slot as int),
            final(self).placed_but(floating@),
            final(self).buckets@.len() == old(self).buckets@.len(),
            final(self).slots@.len() == old(self).slots@.len(),
            forall|t: int| #![trigger final(self).slots@[t]] 0 <= t < final(self).slots@.len() ==> {
                &&& final(self).slots@[t].generation == old(self).slots@[t].generation
                &&& final(self).occupied(t) == old(self).occupied(t)
                &&& final(self).occupied(t) ==> final(self).entry_at(t).key == old(self).entry_at(t).key
                    && final(self).entry_at(t).value == old(self).entry_at(t).value
            },
            forall|b: int| 0 <= b < old(self).buckets@.len() && b != bucket ==> #[trigger] final(self).buckets@[b] == old(self).buckets@[b],
            final(self).buckets@[bucket as int]@ == old(self).buckets@[bucket as int]@.push(slot),
            final(self).free_slots == old(self).free_slots,
            final(self).len == old(self).len,
            final(self).last_deleted_key == old(self).last_deleted_key,
            final(self).minimum_key == old(self).minimum_key,
            final(self).maximum_key == old(self).maximum_key,
            final(self).current_minimum == old(self).current_minimum,
            final(self).heap_id == old(self).heap_id,
            final(self).occupied_slots == old(self).occupied_slots,
    {
        let position = self.buckets[bucket].len();
        self.buckets[bucket].push(slot);
        match &mut self.slots[slot].entry {
            Some(entry) => {
                entry.bucket = bucket;
                entry.position = position;
            },
            None => {},
        }
        proof {
            assert forall|b: int, p: int|
                0 <= b < self.buckets@.len() && 0 <= p < self.buckets@[b]@.len() implies {
                    &&& self.occupied(#[trigger] self.buckets@[b]@[p] as int)
                    &&& self.entry_at(self.buckets@[b]@[p] as int).bucket == b
                    &&& self.entry_at(self.buckets@[b]@[p] as int).position == p
                } by {
                if b != bucket || p < position {
                    assert(self.buckets@[b]@[p] == old(self).buckets@[b]@[p]);
                    assert(old(self).buckets@[b]@[p] != slot);
                }
            }
            assert forall|t: int| #![trigger self.slots@[t]] self.occupied(t) && !floating@.contains(t as usize) implies self.placed(t) by {
                if t != slot {
                    assert(old(self).placed(t));
                    let e = old(self).entry_at(t);
                    assert(self.buckets@[e.bucket as int]@[e.position as int] == old(self).buckets@[e.bucket as int]@[e.position as int]);
                }
            }
        }
    }
}


impl<K: RadixKey, V> AddressableRadixHeapCore<K, V> {
    /// Two states that agree on every slot but `slot`, which the second
    /// state has emptied.
    spec fn emptied_from(&self, before: &Self, slot: int) -> bool {
        &&& self.heap_id == before.heap_id
        &&& self.slots@.len() == before.slots@.len()
        &&& before.occupied(slot)
        &&& !self.occupied(slot)
        &&& self.slots@[slot].generation == before.slots@[slot].generation.wrapping_add(1)
        &&& forall|t: int| #![trigger self.slots@[t]] 0 <= t < self.slots@.len() && t != slot ==> {
            &&& self.slots@[t].generation == before.slots@[t].generation
            &&& self.occupied(t) == before.occupied(t)
            &&& self.occupied(t) ==> self.entry_at(t).key == before.entry_at(t).key
                && self.entry_at(t).value == before.entry_at(t).value
        }
    }

    proof fn lemma_emptied_advanced(&self, before: &Self, slot: usize)
        requires
            self.emptied_from(before, slot as int),
        ensures
            self.slots_advanced(before),
    {
        assert forall|s: usize| #![trigger self.slots@[s as int]] s < before.slots@.len() implies slot_step(
            self.slots@[s as int],
            before.slots@[s as int],
        ) by {
            assert(self.slots@[s as int] == self.slots@[s as int]);
            assert(before.slots@[s as int] == before.slots@[s as int]);
        }
    }

    proof fn lemma_live_emptied(&self, before: &Self, slot: usize)
        requires
            self.emptied_from(before, slot as int),
        ensures
            self.live() == before.live().remove(before.handle_of(slot)),
    {
        let h = before.handle_of(slot);
        assert(self.live() =~= before.live().remove(h)) by {
            assert forall|g: RadixHandle| #[trigger] self.live().contains_key(g) <==> before.live().remove(h).contains_key(g) by {
                if 0 <= g.slot < self.slots@.len() && g.slot != slot {
                    assert(self.slots@[g.slot as int].generation == before.slots@[g.slot as int].generation);
                } else if g.slot == slot && before.live().contains_key(g) {
                    assert(g.heap_id == h.heap_id && g.slot == h.slot && g.generation == h.generation);
                    assert(g == h);
                }
            }
            assert forall|g: RadixHandle| #[trigger] self.live().contains_key(g) implies self.live()[g] == before.live().remove(h)[g] by {
                assert(self.slots@[g.slot as int].generation == before.slots@[g.slot as int].generation);
            }
        }
    }

    /// Caches the slot of a least entry: the least of the first non-empty
    /// bucket.
    fn cache_minimum(&mut self)
        requires
            old(self).wf_core(),
            old(self).len > 0,
        ensures
            final(self).wf(),
            final(self).current_minimum is Some,
            *final(self) == (AddressableRadixHeapCore { current_minimum: final(self).current_minimum, ..*old(self) }),
    {
        let ghost cell = self.lemma_some_cell();
        let mut bucket: usize = 0;
        while self.buckets[bucket].len() == 0
            invariant
                self.wf_core(),
                0 <= bucket <= cell.0,
                0 <= cell.0 < self.buckets@.len(),
                self.buckets@[cell.0]@.len() > 0,
                forall|j: int| 0 <= j < bucket ==> (#[trigger] self.buckets@[j])@.len() == 0,
            decreases cell.0 - bucket,
        {
            bucket = bucket + 1;
        }
        let mut minimum: usize = self.buckets[bucket][0];
        proof {
            assert(self.occupied(self.buckets@[bucket as int]@[0] as int));
        }
        let mut candidate: usize = 1;
        while candidate < self.buckets[bucket].len()
            invariant
                self.wf_core(),
                bucket < self.buckets@.len(),
                forall|j: int| 0 <= j < bucket ==> (#[trigger] self.buckets@[j])@.len() == 0,
                1 <= candidate,
                candidate <= self.buckets@[bucket as int]@.len(),
                self.occupied(minimum as int),
                self.entry_at(minimum as int).bucket == bucket,
                forall|q: int|
                    0 <= q < candidate ==> self.entry_at(minimum as int).key.key_rank()
                        <= self.entry_at(#[trigger] self.buckets@[bucket as int]@[q] as int).key.key_rank(),
            decreases self.buckets@[bucket as int]@.len() - candidate,
        {
            let next = self.buckets[bucket][candidate];
            proof {
                assert(self.occupied(next as int));
            }
            if self.slot_key(next).key_lt(self.slot_key(minimum)) {
                minimum = next;
            }
            candidate = candidate + 1;
        }
        self.current_minimum = Some(minimum);
        proof {
            assert forall|t: int| #![trigger self.slots@[t]] self.occupied(t) implies self.entry_at(minimum as int).key.key_rank()
                <= self.entry_at(t).key.key_rank() by {
                assert(self.placed(t));
                let e = self.entry_at(t);
                assert(self.buckets@[e.bucket as int]@[e.position as int] == t);
                if e.bucket > bucket {
                    e.key.lemma_rank_range();
                    assert(self.placed(minimum as int));
                    lemma_bucket_order(
                        self.entry_at(minimum as int).key.key_rank(),
                        bucket as int,
                        e.key.key_rank(),
                        e.bucket as int,
                        self.last(),
                        self.count(),
                    );
                }
            }
        }
    }
}


impl<K: RadixKey, V> AddressableRadixHeapCore<K, V> {
    /// The bounds and identity that every operation keeps.
    spec fn same_frame(&self, other: &Self) -> bool {
        &&& self.heap_id == other.heap_id
        &&& self.minimum_key == other.minimum_key
        &&& self.maximum_key == other.maximum_key
    }

    fn pop(&mut self) -> (result: Option<(K, V)>)
        requires
            old(self).wf(),
        ensures
            final(self).wf(),
            final(self).same_frame(old(self)),
            result is None <==> old(self).live().len() == 0,
            result is None ==> *final(self) == *old(self),
            result is Some ==> (old(self).current_minimum matches Some(s) && final(self).live() == old(self).live().remove(
                old(self).handle_of(s),
            ) && result == Some((old(self).entry_at(s as int).key, old(self).entry_at(s as int).value))),
            result matches Some(e) ==> {
                &&& final(self).last_deleted_key == e.0
                &&& old(self).current_minimum is Some
                &&& old(self).live().contains_key(old(self).handle_of(old(self).current_minimum->0))
                &&& forall|g: RadixHandle| #[trigger] old(self).live().contains_key(g) ==> old(self).live()[old(self).handle_of(
                    old(self).current_minimum->0,
                )].0.key_rank() <= old(self).live()[g].0.key_rank()
                &&& old(self).live()[old(self).handle_of(old(self).current_minimum->0)] == e
            },
            final(self).slots_advanced(old(self)),
            final(self).slots@.len() == old(self).slots@.len(),
    {
        proof {
            self.lemma_live_len();
            self.lemma_ranks();
            assert forall|s: usize| #![trigger self.slots@[s as int]] s < old(self).slots@.len() implies slot_step(
                self.slots@[s as int],
                old(self).slots@[s as int],
            ) by {
                assert(self.slots@[s as int] == self.slots@[s as int]);
            }
        }
        let slot = match self.current_minimum {
            Some(s) => s,
            None => return None,
        };
        let ghost h = self.handle_of(slot);
        let ghost least = self.entry_at(slot as int);
        proof {
            self.lemma_handle_of(slot);
            assert(self.placed(slot as int));
            assert forall|g: RadixHandle| self.live().contains_key(g) implies self.live()[h].0.key_rank()
                <= self.live()[g].0.key_rank() by {
                assert(self.occupied(g.slot as int));
            }
            least.key.lemma_rank_range();
            lemma_bucket_floor(least.key.key_rank(), least.bucket as int, self.last(), self.count());
        }
        let bucket = self.slots[slot].entry.as_ref().unwrap().bucket;
        self.current_minimum = None;
        let entry = if bucket == 0 {
            self.remove_from_bucket(slot, Ghost(Seq::empty()));
            let entry = self.take_slot(slot);
            self.last_deleted_key = entry.key;
            proof {
                assert forall|t: int| #![trigger self.slots@[t]] self.occupied(t) implies self.placed(t) by {
                    assert(t != slot);
                    assert(!Seq::<usize>::empty().push(slot).contains(t as usize)) by {
                        if Seq::<usize>::empty().push(slot).contains(t as usize) {
                            assert(Seq::<usize>::empty().push(slot)[0] == t as usize);
                        }
                    }
                }
            }
            entry
        } else {
            let mut members: Vec<usize> = Vec::new();
            std::mem::swap(&mut members, &mut self.buckets[bucket]);
            let ghost members_seq = members@;
            let entry = self.take_slot(slot);
            self.last_deleted_key = entry.key;
            let new_last = entry.key.wide();
            let count = self.buckets.len();
            let n_slots = self.slots.len();
            proof {
                entry.key.lemma_rank_range();
                assert(members_seq == old(self).buckets@[bucket as int]@);
                assert forall|j: int| 0 <= j < members@.len() implies {
                    &&& old(self).occupied(#[trigger] members@[j] as int)
                    &&& old(self).entry_at(members@[j] as int).bucket == bucket
                    &&& old(self).entry_at(members@[j] as int).position == j
                } by {
                    assert(members@[j] == old(self).buckets@[bucket as int]@[j]);
                }
                assert(members@.no_duplicates()) by {
                    assert forall|j: int, k: int| 0 <= j < members@.len() && 0 <= k < members@.len() && j != k implies members@[j]
                        != members@[k] by {
                        assert(old(self).entry_at(members@[j] as int).position == j);
                        assert(old(self).entry_at(members@[k] as int).position == k);
                    }
                }
                assert forall|b: int, p: int|
                    0 <= b < self.buckets@.len() && 0 <= p < self.buckets@[b]@.len() implies {
                        &&& self.occupied(#[trigger] self.buckets@[b]@[p] as int)
                        &&& self.entry_at(self.buckets@[b]@[p] as int).bucket == b
                        &&& self.entry_at(self.buckets@[b]@[p] as int).position == p
                    } by {
                    assert(b != bucket);
                    assert(self.buckets@[b] == old(self).buckets@[b]);
                    let t = old(self).buckets@[b]@[p];
                    assert(old(self).occupied(t as int));
                    assert(t != slot);
                    assert(self.slots@[t as int] == old(self).slots@[t as int]);
                }
                assert forall|j: int| 0 <= j < members@.len() && #[trigger] members@[j] != slot implies {
                    &&& self.occupied(members@[j] as int)
                    &&& self.unnamed(members@[j] as int)
                    &&& new_last <= self.entry_at(members@[j] as int).key.key_rank()
                    &&& self.entry_at(members@[j] as int).key.key_rank() <= self.maximum_key.key_rank()
                } by {
                    let m = members@[j];
                    assert(self.slots@[m as int] == old(self).slots@[m as int]);
                    assert(old(self).placed(m as int));
                    assert forall|b: int, p: int|
                        0 <= b < self.buckets@.len() && 0 <= p < self.buckets@[b]@.len() implies #[trigger] self.buckets@[b]@[p]
                            != m by {
                        assert(self.entry_at(self.buckets@[b]@[p] as int).bucket == b);
                        assert(b != bucket);
                    }
                }
                assert forall|t: int| #![trigger self.slots@[t]] self.occupied(t) && !members@.contains(t as usize) implies self.placed(t) by {
                    assert(t != slot);
                    assert(self.slots@[t] == old(self).slots@[t]);
                    assert(old(self).placed(t));
                    let e = old(self).entry_at(t);
                    if e.bucket == bucket {
                        assert(members@[e.position as int] == t);
                    } else if e.bucket < bucket {
                        e.key.lemma_rank_range();
                        lemma_bucket_order(e.key.key_rank(), e.bucket as int, least.key.key_rank(), bucket as int, old(self).last(), old(self).count());
                        assert(old(self).occupied(t));
                    } else {
                        lemma_buckets_above_keep(old(self).last(), new_last, bucket as int, e.key.key_rank(), e.bucket as int, count as int);
                        assert(self.buckets@[e.bucket as int] == old(self).buckets@[e.bucket as int]);
                    }
                }
                assert(members@.subrange(0, members@.len() as int) =~= members@);
            }
            let mut i: usize = 0;
            while i < members.len()
                invariant
                    self.buckets@.len() == count,
                    2 <= count <= 66,
                    i <= members@.len(),
                    members@.no_duplicates(),
                    new_last as int == least.key.key_rank(),
                    self.last_deleted_key == entry.key,
                    self.last() == new_last,
                    self.slots@.len() == n_slots,
                    self.emptied_from(old(self), slot as int),
                    self.cells_ok(),
                    self.placed_but(members@.subrange(i as int, members@.len() as int)),
                    forall|j: int| i <= j < members@.len() && #[trigger] members@[j] != slot ==> {
                        &&& self.occupied(members@[j] as int)
                        &&& self.unnamed(members@[j] as int)
                        &&& new_last <= self.entry_at(members@[j] as int).key.key_rank()
                        &&& self.entry_at(members@[j] as int).key.key_rank() <= self.maximum_key.key_rank()
                    },
                    self.free_ok(),
                    self.len == old(self).len,
                    self.same_frame(old(self)),
                    self.current_minimum is None,
                    self.occupied_slots == old(self).occupied_slots,
                decreases members@.len() - i,
            {
                let member = members[i];
                let ghost rest = members@.subrange(i as int + 1, members@.len() as int);
                proof {
                    assert(members@.subrange(i as int, members@.len() as int) =~= seq![member].add(rest));
                }
                if member != slot {
                    let target = bucket_of(self.slot_key(member).wide(), new_last, count);
                    self.add_to_bucket(member, target, Ghost(members@.subrange(i as int, members@.len() as int)));
                    proof {
                        assert forall|t: int| #![trigger self.slots@[t]] self.occupied(t) && !rest.contains(t as usize) implies self.placed(t) by {
                            if t != member {
                                if members@.subrange(i as int, members@.len() as int).contains(t as usize) {
                                    let k = choose|k: int| 0 <= k < members@.len() - i && members@.subrange(i as int, members@.len() as int)[k] == t as usize;
                                    assert(k != 0);
                                    assert(rest[k - 1] == t as usize);
                                }
                            }
                        }
                        assert forall|j: int| i + 1 <= j < members@.len() && #[trigger] members@[j] != slot implies {
                            &&& self.occupied(members@[j] as int)
                            &&& self.unnamed(members@[j] as int)
                        } by {
                            assert(members@[j] != member);
                            assert forall|b: int, p: int|
                                0 <= b < self.buckets@.len() && 0 <= p < self.buckets@[b]@.len() implies #[trigger] self.buckets@[b]@[p]
                                    != members@[j] by {
                                if b != target {
                                } else if p < self.buckets@[b]@.len() - 1 {
                                }
                            }
                        }
                    }
                } else {
                    proof {
                        assert forall|t: int| #![trigger self.slots@[t]] self.occupied(t) && !rest.contains(t as usize) implies self.placed(t) by {
                            if members@.subrange(i as int, members@.len() as int).contains(t as usize) {
                                let k = choose|k: int| 0 <= k < members@.len() - i && members@.subrange(i as int, members@.len() as int)[k] == t as usize;
                                if k == 0 {
                                    assert(t == slot);
                                } else {
                                    assert(rest[k - 1] == t as usize);
                                }
                            }
                        }
                    }
                }
                i = i + 1;
            }
            proof {
                assert forall|t: int| #![trigger self.slots@[t]] self.occupied(t) implies self.placed(t) by {
                    assert(!members@.subrange(i as int, members@.len() as int).contains(t as usize));
                }
            }
            entry
        };
        self.len = self.len - 1;
        proof {
            self.occupied_slots@ = self.occupied_slots@.remove(slot as int);
            assert(old(self).occupied_slots@.contains(slot as int));
            self.lemma_live_emptied(old(self), slot);
            self.lemma_emptied_advanced(old(self), slot);
            lemma_bucket_floor(least.key.key_rank(), least.bucket as int, old(self).last(), old(self).count());
            assert(self.last() == least.key.key_rank());
        }
        if self.len != 0 {
            self.cache_minimum();
        }
        Some((entry.key, entry.value))
    }
}


impl<K: RadixKey, V> AddressableRadixHeapCore<K, V> {
    fn delete(&mut self, handle: RadixHandle) -> (result: Result<(K, V), InvalidHandle>)
        requires
            old(self).wf(),
        ensures
            final(self).wf(),
            final(self).same_frame(old(self)),
            checked(handle.heap_id == old(self).heap_id, old(self).live().contains_key(handle), result),
            result matches Ok(e) ==> {
                &&& e == old(self).live()[handle]
                &&& final(self).live() == old(self).live().remove(handle)
            },
            result is Err ==> *final(self) == *old(self),
            result matches Ok(e) ==> final(self).last_deleted_key == if old(self).minimum_handle() == Some(handle) {
                e.0
            } else {
                old(self).last_deleted_key
            },
            final(self).slots_advanced(old(self)),
            final(self).slots@.len() == old(self).slots@.len(),
    {
        proof {
            assert forall|s: usize| #![trigger self.slots@[s as int]] s < old(self).slots@.len() implies slot_step(
                self.slots@[s as int],
                old(self).slots@[s as int],
            ) by {
                assert(self.slots@[s as int] == self.slots@[s as int]);
            }
        }
        let slot = self.validate(handle)?;
        proof {
            self.lemma_live_len();
            self.lemma_handle_of(slot);
            assert(self.handle_of(slot) == handle);
        }
        let is_minimum = match self.current_minimum {
            Some(minimum) => minimum == slot,
            None => false,
        };
        if is_minimum {
            return match self.pop() {
                Some(e) => Ok(e),
                None => Err(InvalidHandle::Stale),
            };
        }
        proof {
            assert(self.placed(slot as int));
            assert(self.current_minimum is Some);
        }
        self.remove_from_bucket(slot, Ghost(Seq::empty()));
        let entry = self.take_slot(slot);
        self.len = self.len - 1;
        proof {
            self.occupied_slots@ = self.occupied_slots@.remove(slot as int);
            assert(old(self).occupied_slots@.contains(slot as int));
            self.lemma_live_emptied(old(self), slot);
            self.lemma_emptied_advanced(old(self), slot);
            assert forall|t: int| #![trigger self.slots@[t]] self.occupied(t) implies self.placed(t) by {
                assert(t != slot);
                assert(!Seq::<usize>::empty().push(slot).contains(t as usize)) by {
                    if Seq::<usize>::empty().push(slot).contains(t as usize) {
                        assert(Seq::<usize>::empty().push(slot)[0] == t as usize);
                    }
                }
            }
            let m = self.current_minimum->0 as int;
            assert(m != slot);
            assert(old(self).is_least_slot(m));
            assert forall|t: int| #![trigger self.slots@[t]] self.occupied(t) implies self.entry_at(m).key.key_rank()
                <= self.entry_at(t).key.key_rank() by {
                assert(old(self).occupied(t));
            }
        }
        Ok((entry.key, entry.value))
    }

    fn try_decrease_key(&mut self, handle: RadixHandle, key: K) -> (result: Result<(), RadixDecreaseKeyError>)
        requires
            old(self).wf(),
        ensures
            final(self).wf(),
            final(self).same_frame(old(self)),
            final(self).last_deleted_key == old(self).last_deleted_key,
            result is Ok <==> handle.heap_id == old(self).heap_id && old(self).live().contains_key(handle)
                && old(self).accepts(key) && key.key_rank() <= old(self).live()[handle].0.key_rank(),
            result matches Err(RadixDecreaseKeyError::InvalidHandle(e)) ==> checked(
                handle.heap_id == old(self).heap_id,
                old(self).live().contains_key(handle),
                Err::<(), InvalidHandle>(e),
            ),
            result matches Err(RadixDecreaseKeyError::Radix(e)) ==> {
                &&& handle.heap_id == old(self).heap_id && old(self).live().contains_key(handle)
                &&& !old(self).accepts(key)
                &&& {
                    ||| e == RadixHeapError::KeyOutOfRange && !(old(self).minimum_key.key_rank() <= key.key_rank()
                        <= old(self).maximum_key.key_rank())
                    ||| e == RadixHeapError::MonotonicityViolation && old(self).minimum_key.key_rank()
                        <= key.key_rank() <= old(self).maximum_key.key_rank() && key.key_rank()
                        < old(self).last_deleted_key.key_rank()
                }
            },
            result matches Err(RadixDecreaseKeyError::NotDecreased) ==> {
                &&& handle.heap_id == old(self).heap_id && old(self).live().contains_key(handle)
                &&& old(self).accepts(key)
                &&& key.key_rank() > old(self).live()[handle].0.key_rank()
            },
            result is Ok ==> final(self).live() == old(self).live().insert(handle, (key, old(self).live()[handle].1)),
            result is Ok ==> final(self).minimum_handle() == match old(self).minimum_handle() {
                Some(m) => if m != handle && old(self).live()[m].0.key_rank() <= key.key_rank() {
                    Some(m)
                } else {
                    Some(handle)
                },
                None => Some(handle),
            },
            result is Err ==> *final(self) == *old(self),
            forall|g: RadixHandle| #[trigger] final(self).handed_out(g) == old(self).handed_out(g),
            forall|b: nat| #[trigger] old(self).gens_within(b) ==> final(self).gens_within(b),
    {
        let slot = match self.validate(handle) {
            Ok(slot) => slot,
            Err(error) => return Err(RadixDecreaseKeyError::InvalidHandle(error)),
        };
        match self.check_key(&key) {
            Ok(()) => {},
            Err(error) => return Err(RadixDecreaseKeyError::Radix(error)),
        }
        proof {
            self.lemma_live_len();
            self.lemma_handle_of(slot);
            self.lemma_ranks();
            key.lemma_rank_range();
            assert(self.handle_of(slot) == handle);
            assert(self.placed(slot as int));
        }
        if self.slot_key(slot).key_lt(&key) {
            return Err(RadixDecreaseKeyError::NotDecreased);
        }
        let bucket = bucket_of(key.wide(), self.last_deleted_key.wide(), self.buckets.len());
        let old_bucket = self.slots[slot].entry.as_ref().unwrap().bucket;
        let replace_minimum = match self.current_minimum {
            Some(minimum) => if minimum != slot {
                key.key_lt(self.slot_key(minimum))
            } else {
                true
            },
            None => true,
        };
        if bucket != old_bucket {
            self.remove_from_bucket(slot, Ghost(Seq::empty()));
        }
        let ghost before_key = *self;
        match &mut self.slots[slot].entry {
            Some(entry) => {
                entry.key = key;
            },
            None => {},
        }
        proof {
            assert forall|b: int, p: int|
                0 <= b < self.buckets@.len() && 0 <= p < self.buckets@[b]@.len() implies {
                    &&& self.occupied(#[trigger] self.buckets@[b]@[p] as int)
                    &&& self.entry_at(self.buckets@[b]@[p] as int).bucket == b
                    &&& self.entry_at(self.buckets@[b]@[p] as int).position == p
                } by {
                assert(before_key.occupied(self.buckets@[b]@[p] as int));
            }
            assert forall|t: int| #![trigger self.slots@[t]] self.occupied(t) && t != slot implies self.placed(t) by {
                assert(before_key.occupied(t));
                if bucket != old_bucket {
                    assert(!Seq::<usize>::empty().push(slot).contains(t as usize)) by {
                        if Seq::<usize>::empty().push(slot).contains(t as usize) {
                            assert(Seq::<usize>::empty().push(slot)[0] == t as usize);
                        }
                    }
                }
                assert(before_key.placed(t));
            }
        }
        if bucket != old_bucket {
            proof {
                assert forall|b: int, p: int|
                    0 <= b < self.buckets@.len() && 0 <= p < self.buckets@[b]@.len() implies #[trigger] self.buckets@[b]@[p]
                        != slot by {
                    assert(before_key.buckets@[b]@[p] != slot);
                }
                assert forall|t: int| #![trigger self.slots@[t]] self.occupied(t) && !Seq::<usize>::empty().push(slot).contains(t as usize) implies self.placed(t) by {
                    assert(t != slot) by {
                        if t == slot {
                            assert(Seq::<usize>::empty().push(slot)[0] == slot);
                        }
                    }
                }
            }
            self.add_to_bucket(slot, bucket, Ghost(Seq::<usize>::empty().push(slot)));
        }
        if replace_minimum {
            self.current_minimum = Some(slot);
        }
        proof {
            assert forall|t: int| #![trigger self.slots@[t]] self.occupied(t) implies self.placed(t) by {
                if t != slot {
                    if bucket != old_bucket {
                        assert(!Seq::<usize>::empty().push(slot).contains(t as usize)) by {
                            if Seq::<usize>::empty().push(slot).contains(t as usize) {
                                assert(Seq::<usize>::empty().push(slot)[0] == t as usize);
                            }
                        }
                    }
                }
            }
            assert forall|t: int| #![trigger self.slots@[t]] 0 <= t < self.slots@.len() implies {
                &&& self.slots@[t].generation == old(self).slots@[t].generation
                &&& self.occupied(t) == old(self).occupied(t)
                &&& (self.occupied(t) && t != slot) ==> self.entry_at(t).key == old(self).entry_at(t).key
                &&& self.occupied(t) ==> self.entry_at(t).value == old(self).entry_at(t).value
            } by {
                assert(before_key.slots@[t].generation == old(self).slots@[t].generation);
            }
            assert(self.occupied(slot as int) && self.entry_at(slot as int).key == key);
            let m = self.current_minimum->0 as int;
            assert forall|t: int| #![trigger self.slots@[t]] self.occupied(t) implies self.entry_at(m).key.key_rank()
                <= self.entry_at(t).key.key_rank() by {
                assert(old(self).occupied(t));
                assert(old(self).occupied(old(self).current_minimum->0 as int));
                assert(old(self).slots@[old(self).current_minimum->0 as int] == old(self).slots@[old(self).current_minimum->0 as int]);
            }
            assert(self.live() =~= old(self).live().insert(handle, (key, old(self).live()[handle].1))) by {
                assert forall|g: RadixHandle| #[trigger] self.live().contains_key(g) <==> old(self).live().contains_key(g) by {
                    if 0 <= g.slot < self.slots@.len() {
                        assert(self.slots@[g.slot as int].generation == old(self).slots@[g.slot as int].generation);
                    }
                }
                assert forall|g: RadixHandle| #[trigger] self.live().contains_key(g) && g != handle implies self.live()[g]
                    == old(self).live()[g] by {
                    assert(self.slots@[g.slot as int].generation == old(self).slots@[g.slot as int].generation);
                }
            }
        }
        Ok(())
    }

    fn clear(&mut self)
        requires
            old(self).wf(),
        ensures
            final(self).wf(),
            final(self).same_frame(old(self)),
            final(self).last_deleted_key == old(self).minimum_key,
            final(self).live() == Map::<RadixHandle, (K, V)>::empty(),
            final(self).slots_advanced(old(self)),
            final(self).slots@.len() == old(self).slots@.len(),
    {
        let n = self.slots.len();
        let mut i: usize = 0;
        while i < n
            invariant
                self.slots@.len() == n,
                i <= n,
                forall|t: int| 0 <= t < i ==> (#[trigger] self.slots@[t]).entry is None,
                self.buckets == old(self).buckets,
                self.same_frame(old(self)),
                self.last_deleted_key == old(self).last_deleted_key,
                2 <= self.count() <= 66,
                old(self).minimum_key.key_rank() <= old(self).maximum_key.key_rank(),
                n == old(self).slots@.len(),
                forall|s: usize|
                    #![trigger self.slots@[s as int]]
                    s < n ==> slot_step(self.slots@[s as int], old(self).slots@[s as int]),
                forall|s: int| i <= s < n ==> #[trigger] self.slots@[s] == old(self).slots@[s],
            decreases n - i,
        {
            if self.slots[i].entry.is_some() {
                self.slots[i].entry = None;
                let generation = self.slots[i].generation.wrapping_add(1);
                self.slots[i].generation = generation;
            }
            i = i + 1;
        }
        self.free_slots.clear();
        let mut j: usize = 0;
        while j < n
            invariant
                self.slots@.len() == n,
                forall|t: int| 0 <= t < n ==> (#[trigger] self.slots@[t]).entry is None,
                j <= n,
                self.free_slots@.len() == j,
                forall|k: int| 0 <= k < j ==> #[trigger] self.free_slots@[k] == k,
                self.buckets == old(self).buckets,
                self.same_frame(old(self)),
                2 <= self.count() <= 66,
                old(self).minimum_key.key_rank() <= old(self).maximum_key.key_rank(),
                n == old(self).slots@.len(),
                forall|s: usize|
                    #![trigger self.slots@[s as int]]
                    s < n ==> slot_step(self.slots@[s as int], old(self).slots@[s as int]),
            decreases n - j,
        {
            self.free_slots.push(j);
            j = j + 1;
        }
        let count = self.buckets.len();
        let mut b: usize = 0;
        while b < count
            invariant
                self.buckets@.len() == count,
                b <= count,
                forall|c: int| 0 <= c < b ==> (#[trigger] self.buckets@[c])@.len() == 0,
                self.slots@.len() == n,
                forall|t: int| 0 <= t < n ==> (#[trigger] self.slots@[t]).entry is None,
                self.free_slots@.len() == n,
                forall|k: int| 0 <= k < n ==> #[trigger] self.free_slots@[k] == k,
                self.same_frame(old(self)),
                2 <= count <= 66,
                old(self).minimum_key.key_rank() <= old(self).maximum_key.key_rank(),
                n == old(self).slots@.len(),
                forall|s: usize|
                    #![trigger self.slots@[s as int]]
                    s < n ==> slot_step(self.slots@[s as int], old(self).slots@[s as int]),
            decreases count - b,
        {
            self.buckets[b].clear();
            b = b + 1;
        }
        self.len = 0;
        self.last_deleted_key = self.minimum_key;
        self.current_minimum = None;
        proof {
            self.occupied_slots@ = Set::empty();
            assert(self.free_slots@.no_duplicates()) by {
                assert forall|x: int, y: int| 0 <= x < self.free_slots@.len() && 0 <= y < self.free_slots@.len() && x != y implies
                    self.free_slots@[x] != self.free_slots@[y] by {
                    assert(self.free_slots@[x] == x);
                    assert(self.free_slots@[y] == y);
                }
            }
            assert(self.live() =~= Map::<RadixHandle, (K, V)>::empty());
            self.lemma_ranks();
        }
    }
}


/// An addressable monotone radix heap for `u32` keys.
///
/// Entries are reached through stable [`RadixHandle`]s.  Keys must remain
/// within the construction bounds and cannot move below the most recently
/// removed key.
pub struct U32RadixAddressableHeap<V> {
    core: AddressableRadixHeapCore<u32, V>,
    releases: Ghost<nat>,
}

impl<V> U32RadixAddressableHeap<V> {
    /// The identity of this heap, shared by the handles it issues.
    pub closed spec fn id(&self) -> u64 {
        self.core.heap_id
    }

    /// The inclusive lower key bound.
    pub closed spec fn lower(&self) -> u32 {
        self.core.minimum_key
    }

    /// The inclusive upper key bound.
    pub closed spec fn upper(&self) -> u32 {
        self.core.maximum_key
    }

    /// The most recently removed key, or the lower bound.
    pub closed spec fn last_removed(&self) -> u32 {
        self.core.last_deleted_key
    }

    /// Whether this heap has handed out `handle` at some time.  A handle
    /// that it issued and that no longer names an entry is never handed out
    /// again, unless its slot's generation counter wraps around.
    pub closed spec fn handed_out(&self, handle: RadixHandle) -> bool {
        self.core.handed_out(handle)
    }

    /// Whether the generation counter of `handle`'s slot is at its last
    /// value, so that freeing the slot once more wraps it around to zero.
    pub closed spec fn spent(&self, handle: RadixHandle) -> bool {
        self.core.spent(handle)
    }

    /// How many times entries have been released: each `pop` or `delete`
    /// that removes an entry, and each `clear`, counts once.
    pub closed spec fn releases(&self) -> nat {
        self.releases@
    }

    /// No slot is spent while fewer than `u64::MAX` releases have happened,
    /// so until then a handle that no longer names an entry is never handed
    /// out again.
    pub proof fn lemma_unspent(&self)
        requires
            self.is_well_formed(),
            self.releases() < u64::MAX,
        ensures
            forall|h: RadixHandle| !#[trigger] self.spent(h),
    {
        self.core.lemma_unspent(self.releases@);
    }

    /// Every live handle was handed out by this heap and carries its
    /// identity.
    pub proof fn lemma_live_handed_out(&self)
        ensures
            forall|h: RadixHandle| #[trigger] self.live_entries().contains_key(h) ==> self.handed_out(h) && h.issuer()
                == self.id(),
    {
    }

    /// The handle of the minimum entry that `peek` shows and `pop` removes;
    /// deleting it acts as `pop`.
    pub closed spec fn minimum_handle(&self) -> Option<RadixHandle> {
        self.core.minimum_handle()
    }

    /// The number of buckets.
    pub closed spec fn buckets(&self) -> int {
        self.core.count()
    }

    /// The heap's internal invariant.
    pub closed spec fn is_well_formed(&self) -> bool {
        self.core.wf() && self.core.gens_within(self.releases@)
    }

    /// The live handles and the entries they identify.
    pub closed spec fn live_entries(&self) -> Map<RadixHandle, (u32, V)> {
        self.core.live()
    }

    /// Creates an empty heap with inclusive key bounds.
    pub fn new(minimum_key: u32, maximum_key: u32) -> (result: Result<Self, RadixHeapError>)
        ensures
            result is Ok <==> minimum_key <= maximum_key,
            result matches Err(e) ==> e == RadixHeapError::InvalidRange,
            result matches Ok(heap) ==> {
                &&& heap.is_well_formed()
                &&& heap.live_entries() =~= Map::empty()
                &&& heap.lower() == minimum_key
                &&& heap.upper() == maximum_key
                &&& heap.last_removed() == minimum_key
                &&& heap.releases() == 0
            },
    {
        let core = AddressableRadixHeapCore::new(minimum_key, maximum_key)?;
        Ok(U32RadixAddressableHeap { core, releases: Ghost(0) })
    }

    /// Alias for [`Self::new`].
    pub fn with_bounds(minimum_key: u32, maximum_key: u32) -> (result: Result<Self, RadixHeapError>)
        ensures
            result is Ok <==> minimum_key <= maximum_key,
            result matches Err(e) ==> e == RadixHeapError::InvalidRange,
            result matches Ok(heap) ==> {
                &&& heap.is_well_formed()
                &&& heap.live_entries() =~= Map::empty()
                &&& heap.lower() == minimum_key
                &&& heap.upper() == maximum_key
                &&& heap.last_removed() == minimum_key
            },
    {
        Self::new(minimum_key, maximum_key)
    }

    /// Returns the inclusive lower key bound.
    pub fn minimum_key(&self) -> (result: &u32)
        ensures
            *result == self.lower(),
    {
        &self.core.minimum_key
    }

    /// Returns the inclusive upper key bound.
    pub fn maximum_key(&self) -> (result: &u32)
        ensures
            *result == self.upper(),
    {
        &self.core.maximum_key
    }

    /// Returns the most recently removed key, or the lower bound if no key
    /// has yet been removed or the heap was cleared.
    pub fn last_deleted_key(&self) -> (result: &u32)
        ensures
            *result == self.last_removed(),
    {
        &self.core.last_deleted_key
    }

    /// Returns the fixed number of radix buckets.
    pub fn bucket_count(&self) -> (result: usize)
        requires
            self.is_well_formed(),
        ensures
            result == self.buckets(),
            result == range_bucket_count(self.lower() as int, self.upper() as int),
    {
        self.core.buckets.len()
    }

    /// Inserts an entry and returns its handle, or reports why the key was
    /// refused: keys outside the bounds and keys below the last removed key.
    pub fn try_insert(&mut self, key: u32, value: V) -> (result: Result<RadixHandle, RadixHeapError>)
        requires
            old(self).is_well_formed(),
            old(self).live_entries().len() < usize::MAX,
        ensures
            final(self).is_well_formed(),
            final(self).id() == old(self).id(),
            final(self).lower() == old(self).lower(),
            final(self).upper() == old(self).upper(),
            final(self).last_removed() == old(self).last_removed(),
            result is Ok <==> old(self).lower() <= key <= old(self).upper() && old(self).last_removed() <= key,
            result matches Err(e) ==> {
                ||| e == RadixHeapError::KeyOutOfRange && !(old(self).lower() <= key <= old(self).upper())
                ||| e == RadixHeapError::MonotonicityViolation && old(self).lower() <= key <= old(self).upper()
                    && key < old(self).last_removed()
            },
            result matches Ok(handle) ==> {
                &&& handle.issuer() == old(self).id()
                &&& !old(self).live_entries().contains_key(handle)
                &&& final(self).live_entries() == old(self).live_entries().insert(handle, (key, value))
            },
            result is Err ==> final(self).live_entries() == old(self).live_entries(),
            result matches Ok(handle) ==> !old(self).handed_out(handle) && final(self).handed_out(handle),
            forall|h: RadixHandle| #[trigger] old(self).handed_out(h) ==> final(self).handed_out(h),
            final(self).releases() == old(self).releases(),
    {
        let result = self.core.try_insert(key, value);
        proof {
            self.core.lemma_gens_kept(&old(self).core, self.releases@);
        }
        result
    }

    /// Returns the handle, key, and value of a minimum entry.
    pub fn peek(&self) -> (result: Option<(RadixHandle, &u32, &V)>)
        requires
            self.is_well_formed(),
        ensures
            result is None <==> self.live_entries().len() == 0,
            result matches Some((h, k, v)) ==> {
                &&& least_entry(self.live_entries(), h, |key: u32| key as int)
                &&& self.live_entries()[h] == (*k, *v)
                &&& self.minimum_handle() == Some(h)
            },
    {
        self.core.peek()
    }

    /// Removes and returns a minimum entry; its key becomes the last removed
    /// key.
    pub fn pop(&mut self) -> (result: Option<(u32, V)>)
        requires
            old(self).is_well_formed(),
        ensures
            final(self).is_well_formed(),
            final(self).id() == old(self).id(),
            final(self).lower() == old(self).lower(),
            final(self).upper() == old(self).upper(),
            result is None <==> old(self).live_entries().len() == 0,
            result is None ==> final(self).live_entries() == old(self).live_entries() && final(self).last_removed()
                == old(self).last_removed(),
            result matches Some(e) ==> {
                &&& final(self).last_removed() == e.0
                &&& exists|h: RadixHandle| {
                    &&& least_entry(old(self).live_entries(), h, |key: u32| key as int)
                    &&& old(self).live_entries()[h] == e
                    &&& final(self).live_entries() == old(self).live_entries().remove(h)
                }
            },
            forall|h: RadixHandle| #[trigger] old(self).handed_out(h) && !old(self).spent(h) ==> final(self).handed_out(h),
            final(self).releases() == old(self).releases() + if result is Some { 1nat } else { 0nat },
    {
        let result = self.core.pop();
        if result.is_some() {
            proof {
                self.core.lemma_release_bound(&old(self).core, self.releases@);
            }
            self.releases = Ghost(self.releases@ + 1);
        }
        proof {
            self.core.lemma_advanced_keeps(&old(self).core);
        }
        proof {
            if result is Some {
                let h = old(self).core.handle_of(old(self).core.current_minimum->0);
                assert(least_entry(old(self).live_entries(), h, |key: u32| key as int));
            }
        }
        result
    }

    /// Returns the key identified by `handle`.
    pub fn key(&self, handle: RadixHandle) -> (result: Result<&u32, InvalidHandle>)
        ensures
            checked(handle.issuer() == self.id(), self.live_entries().contains_key(handle), result),
            result matches Ok(k) ==> *k == self.live_entries()[handle].0,
    {
        self.core.key(handle)
    }

    /// Returns the value identified by `handle`.
    pub fn value(&self, handle: RadixHandle) -> (result: Result<&V, InvalidHandle>)
        ensures
            checked(handle.issuer() == self.id(), self.live_entries().contains_key(handle), result),
            result matches Ok(v) ==> *v == self.live_entries()[handle].1,
    {
        self.core.value(handle)
    }

    /// Returns mutable access to the value identified by `handle`.
    pub fn value_mut(&mut self, handle: RadixHandle) -> (result: Result<&mut V, InvalidHandle>)
        requires
            old(self).is_well_formed(),
        ensures
            checked(handle.issuer() == old(self).id(), old(self).live_entries().contains_key(handle), result),
            result matches Ok(v) ==> {
                &&& *v == old(self).live_entries()[handle].1
                &&& final(self).live_entries() == old(self).live_entries().insert(
                    handle,
                    (old(self).live_entries()[handle].0, *final(v)),
                )
                &&& final(self).is_well_formed()
                &&& final(self).id() == old(self).id()
                &&& final(self).lower() == old(self).lower()
                &&& final(self).upper() == old(self).upper()
                &&& final(self).last_removed() == old(self).last_removed()
            },
            result is Err ==> *final(self) == *old(self),
            forall|h: RadixHandle| #[trigger] final(self).handed_out(h) == old(self).handed_out(h),
            final(self).releases() == old(self).releases(),
    {
        self.core.value_mut(handle)
    }

    /// Decreases the key identified by `handle`, or reports why it was
    /// refused: a stale or foreign handle, a key outside the bounds or below
    /// the last removed key, or a key greater than the current one.
    pub fn decrease_key(&mut self, handle: RadixHandle, key: u32) -> (result: Result<(), RadixDecreaseKeyError>)
        requires
            old(self).is_well_formed(),
        ensures
            final(self).is_well_formed(),
            final(self).id() == old(self).id(),
            final(self).lower() == old(self).lower(),
            final(self).upper() == old(self).upper(),
            final(self).last_removed() == old(self).last_removed(),
            result is Ok <==> handle.issuer() == old(self).id() && old(self).live_entries().contains_key(handle)
                && old(self).lower() <= key <= old(self).upper() && old(self).last_removed() <= key
                && key <= old(self).live_entries()[handle].0,
            result matches Err(RadixDecreaseKeyError::InvalidHandle(e)) ==> checked(
                handle.issuer() == old(self).id(),
                old(self).live_entries().contains_key(handle),
                Err::<(), InvalidHandle>(e),
            ),
            result matches Err(RadixDecreaseKeyError::Radix(e)) ==> {
                &&& handle.issuer() == old(self).id() && old(self).live_entries().contains_key(handle)
                &&& {
                    ||| e == RadixHeapError::KeyOutOfRange && !(old(self).lower() <= key <= old(self).upper())
                    ||| e == RadixHeapError::MonotonicityViolation && old(self).lower() <= key <= old(self).upper()
                        && key < old(self).last_removed()
                }
            },
            result matches Err(RadixDecreaseKeyError::NotDecreased) ==> {
                &&& handle.issuer() == old(self).id() && old(self).live_entries().contains_key(handle)
                &&& old(self).lower() <= key <= old(self).upper() && old(self).last_removed() <= key
                &&& key > old(self).live_entries()[handle].0
            },
            result is Ok ==> final(self).live_entries() == old(self).live_entries().insert(
                handle,
                (key, old(self).live_entries()[handle].1),
            ),
            result is Ok ==> final(self).minimum_handle() == match old(self).minimum_handle() {
                Some(m) => if m != handle && old(self).live_entries()[m].0 <= key {
                    Some(m)
                } else {
                    Some(handle)
                },
                None => Some(handle),
            },
            result is Err ==> final(self).live_entries() == old(self).live_entries(),
            forall|h: RadixHandle| #[trigger] final(self).handed_out(h) == old(self).handed_out(h),
            final(self).releases() == old(self).releases(),
    {
        self.core.try_decrease_key(handle, key)
    }

    /// Removes and returns the entry identified by `handle`.
    pub fn delete(&mut self, handle: RadixHandle) -> (result: Result<(u32, V), InvalidHandle>)
        requires
            old(self).is_well_formed(),
        ensures
            final(self).is_well_formed(),
            result matches Ok(e) ==> final(self).last_removed() == if old(self).minimum_handle() == Some(handle) {
                e.0
            } else {
                old(self).last_removed()
            },
            result is Err ==> final(self).last_removed() == old(self).last_removed(),
            final(self).id() == old(self).id(),
            final(self).lower() == old(self).lower(),
            final(self).upper() == old(self).upper(),
            checked(handle.issuer() == old(self).id(), old(self).live_entries().contains_key(handle), result),
            result matches Ok(e) ==> {
                &&& e == old(self).live_entries()[handle]
                &&& final(self).live_entries() == old(self).live_entries().remove(handle)
            },
            result is Err ==> final(self).live_entries() == old(self).live_entries(),
            forall|h: RadixHandle| #[trigger] old(self).handed_out(h) && !old(self).spent(h) ==> final(self).handed_out(h),
            final(self).releases() == old(self).releases() + if result is Ok { 1nat } else { 0nat },
    {
        let result = self.core.delete(handle);
        if result.is_ok() {
            proof {
                self.core.lemma_release_bound(&old(self).core, self.releases@);
            }
            self.releases = Ghost(self.releases@ + 1);
        }
        proof {
            self.core.lemma_advanced_keeps(&old(self).core);
        }
        result
    }

    /// Returns the number of live entries.
    pub fn len(&self) -> (result: usize)
        requires
            self.is_well_formed(),
        ensures
            result == self.live_entries().len(),
    {
        proof {
            self.core.lemma_live_len();
        }
        self.core.len
    }

    /// Returns whether the heap contains no entries.
    pub fn is_empty(&self) -> (result: bool)
        requires
            self.is_well_formed(),
        ensures
            result == (self.live_entries().len() == 0),
    {
        proof {
            self.core.lemma_live_len();
        }
        self.core.len == 0
    }

    /// Removes every entry, invalidates every outstanding handle, and resets
    /// the monotonicity constraint.
    pub fn clear(&mut self)
        requires
            old(self).is_well_formed(),
        ensures
            final(self).is_well_formed(),
            final(self).id() == old(self).id(),
            final(self).lower() == old(self).lower(),
            final(self).upper() == old(self).upper(),
            final(self).last_removed() == old(self).lower(),
            final(self).live_entries() == Map::<RadixHandle, (u32, V)>::empty(),
            forall|h: RadixHandle| #[trigger] old(self).handed_out(h) && !old(self).spent(h) ==> final(self).handed_out(h),
            final(self).releases() == old(self).releases() + 1,
    {
        self.core.clear();
        proof {
            self.core.lemma_advanced_keeps(&old(self).core);
            self.core.lemma_release_bound(&old(self).core, self.releases@);
        }
        self.releases = Ghost(self.releases@ + 1);
    }
}

impl<V> TryAddressableHeap<u32, V> for U32RadixAddressableHeap<V> {
    type Handle = RadixHandle;

    type InsertError = RadixHeapError;

    open spec fn well_formed(&self) -> bool {
        self.is_well_formed()
    }

    open spec fn live(&self) -> Map<RadixHandle, (u32, V)> {
        self.live_entries()
    }

    open spec fn owns(&self, handle: RadixHandle) -> bool {
        handle.issuer() == self.id()
    }

    open spec fn priority(&self, key: u32) -> int {
        key as int
    }

    open spec fn accepts(&self, key: u32) -> bool {
        &&& self.lower() <= key <= self.upper()
        &&& self.last_removed() <= key
    }

    fn try_insert(&mut self, key: u32, value: V) -> (result: Result<RadixHandle, RadixHeapError>) {
        U32RadixAddressableHeap::try_insert(self, key, value)
    }

    fn peek(&self) -> (result: Option<(RadixHandle, &u32, &V)>) {
        U32RadixAddressableHeap::peek(self)
    }

    fn pop(&mut self) -> (result: Option<(u32, V)>) {
        let result = U32RadixAddressableHeap::pop(self);
        proof {
            if result is Some {
                let e = result->0;
                let h = choose|h: RadixHandle| {
                    &&& least_entry(old(self).live_entries(), h, |key: u32| key as int)
                    &&& old(self).live_entries()[h] == e
                    &&& self.live_entries() == old(self).live_entries().remove(h)
                };
                assert(least_entry(old(self).live(), h, |key: u32| old(self).priority(key)));
            }
        }
        result
    }

    fn key(&self, handle: RadixHandle) -> (result: Result<&u32, InvalidHandle>) {
        U32RadixAddressableHeap::key(self, handle)
    }

    fn value(&self, handle: RadixHandle) -> (result: Result<&V, InvalidHandle>) {
        U32RadixAddressableHeap::value(self, handle)
    }

    fn value_mut(&mut self, handle: RadixHandle) -> (result: Result<&mut V, InvalidHandle>) {
        U32RadixAddressableHeap::value_mut(self, handle)
    }

    fn delete(&mut self, handle: RadixHandle) -> (result: Result<(u32, V), InvalidHandle>) {
        U32RadixAddressableHeap::delete(self, handle)
    }

    fn len(&self) -> (result: usize) {
        U32RadixAddressableHeap::len(self)
    }

    fn clear(&mut self) {
        U32RadixAddressableHeap::clear(self)
    }
}

impl<V> TryDecreaseKeyHeap<u32, V> for U32RadixAddressableHeap<V> {
    type DecreaseKeyError = RadixDecreaseKeyError;

    fn decrease_key(&mut self, handle: RadixHandle, key: u32) -> (result: Result<(), RadixDecreaseKeyError>) {
        U32RadixAddressableHeap::decrease_key(self, handle, key)
    }
}

/// An addressable monotone radix heap for `u64` keys.
///
/// Entries are reached through stable [`RadixHandle`]s.  Keys must remain
/// within the construction bounds and cannot move below the most recently
/// removed key.
pub struct U64RadixAddressableHeap<V> {
    core: AddressableRadixHeapCore<u64, V>,
    releases: Ghost<nat>,
}

impl<V> U64RadixAddressableHeap<V> {
    /// The identity of this heap, shared by the handles it issues.
    pub closed spec fn id(&self) -> u64 {
        self.core.heap_id
    }

    /// The inclusive lower key bound.
    pub closed spec fn lower(&self) -> u64 {
        self.core.minimum_key
    }

    /// The inclusive upper key bound.
    pub closed spec fn upper(&self) -> u64 {
        self.core.maximum_key
    }

    /// The most recently removed key, or the lower bound.
    pub closed spec fn last_removed(&self) -> u64 {
        self.core.last_deleted_key
    }

    /// Whether this heap has handed out `handle` at some time.  A handle
    /// that it issued and that no longer names an entry is never handed out
    /// again, unless its slot's generation counter wraps around.
    pub closed spec fn handed_out(&self, handle: RadixHandle) -> bool {
        self.core.handed_out(handle)
    }

    /// Whether the generation counter of `handle`'s slot is at its last
    /// value, so that freeing the slot once more wraps it around to zero.
    pub closed spec fn spent(&self, handle: RadixHandle) -> bool {
        self.core.spent(handle)
    }

    /// How many times entries have been released: each `pop` or `delete`
    /// that removes an entry, and each `clear`, counts once.
    pub closed spec fn releases(&self) -> nat {
        self.releases@
    }

    /// No slot is spent while fewer than `u64::MAX` releases have happened,
    /// so until then a handle that no longer names an entry is never handed
    /// out again.
    pub proof fn lemma_unspent(&self)
        requires
            self.is_well_formed(),
            self.releases() < u64::MAX,
        ensures
            forall|h: RadixHandle| !#[trigger] self.spent(h),
    {
        self.core.lemma_unspent(self.releases@);
    }

    /// Every live handle was handed out by this heap and carries its
    /// identity.
    pub proof fn lemma_live_handed_out(&self)
        ensures
            forall|h: RadixHandle| #[trigger] self.live_entries().contains_key(h) ==> self.handed_out(h) && h.issuer()
                == self.id(),
    {
    }

    /// The handle of the minimum entry that `peek` shows and `pop` removes;
    /// deleting it acts as `pop`.
    pub closed spec fn minimum_handle(&self) -> Option<RadixHandle> {
        self.core.minimum_handle()
    }

    /// The number of buckets.
    pub closed spec fn buckets(&self) -> int {
        self.core.count()
    }

    /// The heap's internal invariant.
    pub closed spec fn is_well_formed(&self) -> bool {
        self.core.wf() && self.core.gens_within(self.releases@)
    }

    /// The live handles and the entries they identify.
    pub closed spec fn live_entries(&self) -> Map<RadixHandle, (u64, V)> {
        self.core.live()
    }

    /// Creates an empty heap with inclusive key bounds.
    pub fn new(minimum_key: u64, maximum_key: u64) -> (result: Result<Self, RadixHeapError>)
        ensures
            result is Ok <==> minimum_key <= maximum_key,
            result matches Err(e) ==> e == RadixHeapError::InvalidRange,
            result matches Ok(heap) ==> {
                &&& heap.is_well_formed()
                &&& heap.live_entries() =~= Map::empty()
                &&& heap.lower() == minimum_key
                &&& heap.upper() == maximum_key
                &&& heap.last_removed() == minimum_key
                &&& heap.releases() == 0
            },
    {
        let core = AddressableRadixHeapCore::new(minimum_key, maximum_key)?;
        Ok(U64RadixAddressableHeap { core, releases: Ghost(0) })
    }

    /// Alias for [`Self::new`].
    pub fn with_bounds(minimum_key: u64, maximum_key: u64) -> (result: Result<Self, RadixHeapError>)
        ensures
            result is Ok <==> minimum_key <= maximum_key,
            result matches Err(e) ==> e == RadixHeapError::InvalidRange,
            result matches Ok(heap) ==> {
                &&& heap.is_well_formed()
                &&& heap.live_entries() =~= Map::empty()
                &&& heap.lower() == minimum_key
                &&& heap.upper() == maximum_key
                &&& heap.last_removed() == minimum_key
            },
    {
        Self::new(minimum_key, maximum_key)
    }

    /// Returns the inclusive lower key bound.
    pub fn minimum_key(&self) -> (result: &u64)
        ensures
            *result == self.lower(),
    {
        &self.core.minimum_key
    }

    /// Returns the inclusive upper key bound.
    pub fn maximum_key(&self) -> (result: &u64)
        ensures
            *result == self.upper(),
    {
        &self.core.maximum_key
    }

    /// Returns the most recently removed key, or the lower bound if no key
    /// has yet been removed or the heap was cleared.
    pub fn last_deleted_key(&self) -> (result: &u64)
        ensures
            *result == self.last_removed(),
    {
        &self.core.last_deleted_key
    }

    /// Returns the fixed number of radix buckets.
    pub fn bucket_count(&self) -> (result: usize)
        requires
            self.is_well_formed(),
        ensures
            result == self.buckets(),
            result == range_bucket_count(self.lower() as int, self.upper() as int),
    {
        self.core.buckets.len()
    }

    /// Inserts an entry and returns its handle, or reports why the key was
    /// refused: keys outside the bounds and keys below the last removed key.
    pub fn try_insert(&mut self, key: u64, value: V) -> (result: Result<RadixHandle, RadixHeapError>)
        requires
            old(self).is_well_formed(),
            old(self).live_entries().len() < usize::MAX,
        ensures
            final(self).is_well_formed(),
            final(self).id() == old(self).id(),
            final(self).lower() == old(self).lower(),
            final(self).upper() == old(self).upper(),
            final(self).last_removed() == old(self).last_removed(),
            result is Ok <==> old(self).lower() <= key <= old(self).upper() && old(self).last_removed() <= key,
            result matches Err(e) ==> {
                ||| e == RadixHeapError::KeyOutOfRange && !(old(self).lower() <= key <= old(self).upper())
                ||| e == RadixHeapError::MonotonicityViolation && old(self).lower() <= key <= old(self).upper()
                    && key < old(self).last_removed()
            },
            result matches Ok(handle) ==> {
                &&& handle.issuer() == old(self).id()
                &&& !old(self).live_entries().contains_key(handle)
                &&& final(self).live_entries() == old(self).live_entries().insert(handle, (key, value))
            },
            result is Err ==> final(self).live_entries() == old(self).live_entries(),
            result matches Ok(handle) ==> !old(self).handed_out(handle) && final(self).handed_out(handle),
            forall|h: RadixHandle| #[trigger] old(self).handed_out(h) ==> final(self).handed_out(h),
            final(self).releases() == old(self).releases(),
    {
        let result = self.core.try_insert(key, value);
        proof {
            self.core.lemma_gens_kept(&old(self).core, self.releases@);
        }
        result
    }

    /// Returns the handle, key, and value of a minimum entry.
    pub fn peek(&self) -> (result: Option<(RadixHandle, &u64, &V)>)
        requires
            self.is_well_formed(),
        ensures
            result is None <==> self.live_entries().len() == 0,
            result matches Some((h, k, v)) ==> {
                &&& least_entry(self.live_entries(), h, |key: u64| key as int)
                &&& self.live_entries()[h] == (*k, *v)
                &&& self.minimum_handle() == Some(h)
            },
    {
        self.core.peek()
    }

    /// Removes and returns a minimum entry; its key becomes the last removed
    /// key.
    pub fn pop(&mut self) -> (result: Option<(u64, V)>)
        requires
            old(self).is_well_formed(),
        ensures
            final(self).is_well_formed(),
            final(self).id() == old(self).id(),
            final(self).lower() == old(self).lower(),
            final(self).upper() == old(self).upper(),
            result is None <==> old(self).live_entries().len() == 0,
            result is None ==> final(self).live_entries() == old(self).live_entries() && final(self).last_removed()
                == old(self).last_removed(),
            result matches Some(e) ==> {
                &&& final(self).last_removed() == e.0
                &&& exists|h: RadixHandle| {
                    &&& least_entry(old(self).live_entries(), h, |key: u64| key as int)
                    &&& old(self).live_entries()[h] == e
                    &&& final(self).live_entries() == old(self).live_entries().remove(h)
                }
            },
            forall|h: RadixHandle| #[trigger] old(self).handed_out(h) && !old(self).spent(h) ==> final(self).handed_out(h),
            final(self).releases() == old(self).releases() + if result is Some { 1nat } else { 0nat },
    {
        let result = self.core.pop();
        if result.is_some() {
            proof {
                self.core.lemma_release_bound(&old(self).core, self.releases@);
            }
            self.releases = Ghost(self.releases@ + 1);
        }
        proof {
            self.core.lemma_advanced_keeps(&old(self).core);
        }
        proof {
            if result is Some {
                let h = old(self).core.handle_of(old(self).core.current_minimum->0);
                assert(least_entry(old(self).live_entries(), h, |key: u64| key as int));
            }
        }
        result
    }

    /// Returns the key identified by `handle`.
    pub fn key(&self, handle: RadixHandle) -> (result: Result<&u64, InvalidHandle>)
        ensures
            checked(handle.issuer() == self.id(), self.live_entries().contains_key(handle), result),
            result matches Ok(k) ==> *k == self.live_entries()[handle].0,
    {
        self.core.key(handle)
    }

    /// Returns the value identified by `handle`.
    pub fn value(&self, handle: RadixHandle) -> (result: Result<&V, InvalidHandle>)
        ensures
            checked(handle.issuer() == self.id(), self.live_entries().contains_key(handle), result),
            result matches Ok(v) ==> *v == self.live_entries()[handle].1,
    {
        self.core.value(handle)
    }

    /// Returns mutable access to the value identified by `handle`.
    pub fn value_mut(&mut self, handle: RadixHandle) -> (result: Result<&mut V, InvalidHandle>)
        requires
            old(self).is_well_formed(),
        ensures
            checked(handle.issuer() == old(self).id(), old(self).live_entries().contains_key(handle), result),
            result matches Ok(v) ==> {
                &&& *v == old(self).live_entries()[handle].1
                &&& final(self).live_entries() == old(self).live_entries().insert(
                    handle,
                    (old(self).live_entries()[handle].0, *final(v)),
                )
                &&& final(self).is_well_formed()
                &&& final(self).id() == old(self).id()
                &&& final(self).lower() == old(self).lower()
                &&& final(self).upper() == old(self).upper()
                &&& final(self).last_removed() == old(self).last_removed()
            },
            result is Err ==> *final(self) == *old(self),
            forall|h: RadixHandle| #[trigger] final(self).handed_out(h) == old(self).handed_out(h),
            final(self).releases() == old(self).releases(),
    {
        self.core.value_mut(handle)
    }

    /// Decreases the key identified by `handle`, or reports why it was
    /// refused: a stale or foreign handle, a key outside the bounds or below
    /// the last removed key, or a key greater than the current one.
    pub fn decrease_key(&mut self, handle: RadixHandle, key: u64) -> (result: Result<(), RadixDecreaseKeyError>)
        requires
            old(self).is_well_formed(),
        ensures
            final(self).is_well_formed(),
            final(self).id() == old(self).id(),
            final(self).lower() == old(self).lower(),
            final(self).upper() == old(self).upper(),
            final(self).last_removed() == old(self).last_removed(),
            result is Ok <==> handle.issuer() == old(self).id() && old(self).live_entries().contains_key(handle)
                && old(self).lower() <= key <= old(self).upper() && old(self).last_removed() <= key
                && key <= old(self).live_entries()[handle].0,
            result matches Err(RadixDecreaseKeyError::InvalidHandle(e)) ==> checked(
                handle.issuer() == old(self).id(),
                old(self).live_entries().contains_key(handle),
                Err::<(), InvalidHandle>(e),
            ),
            result matches Err(RadixDecreaseKeyError::Radix(e)) ==> {
                &&& handle.issuer() == old(self).id() && old(self).live_entries().contains_key(handle)
                &&& {
                    ||| e == RadixHeapError::KeyOutOfRange && !(old(self).lower() <= key <= old(self).upper())
                    ||| e == RadixHeapError::MonotonicityViolation && old(self).lower() <= key <= old(self).upper()
                        && key < old(self).last_removed()
                }
            },
            result matches Err(RadixDecreaseKeyError::NotDecreased) ==> {
                &&& handle.issuer() == old(self).id() && old(self).live_entries().contains_key(handle)
                &&& old(self).lower() <= key <= old(self).upper() && old(self).last_removed() <= key
                &&& key > old(self).live_entries()[handle].0
            },
            result is Ok ==> final(self).live_entries() == old(self).live_entries().insert(
                handle,
                (key, old(self).live_entries()[handle].1),
            ),
            result is Ok ==> final(self).minimum_handle() == match old(self).minimum_handle() {
                Some(m) => if m != handle && old(self).live_entries()[m].0 <= key {
                    Some(m)
                } else {
                    Some(handle)
                },
                None => Some(handle),
            },
            result is Err ==> final(self).live_entries() == old(self).live_entries(),
            forall|h: RadixHandle| #[trigger] final(self).handed_out(h) == old(self).handed_out(h),
            final(self).releases() == old(self).releases(),
    {
        self.core.try_decrease_key(handle, key)
    }

    /// Removes and returns the entry identified by `handle`.
    pub fn delete(&mut self, handle: RadixHandle) -> (result: Result<(u64, V), InvalidHandle>)
        requires
            old(self).is_well_formed(),
        ensures
            final(self).is_well_formed(),
            result matches Ok(e) ==> final(self).last_removed() == if old(self).minimum_handle() == Some(handle) {
                e.0
            } else {
                old(self).last_removed()
            },
            result is Err ==> final(self).last_removed() == old(self).last_removed(),
            final(self).id() == old(self).id(),
            final(self).lower() == old(self).lower(),
            final(self).upper() == old(self).upper(),
            checked(handle.issuer() == old(self).id(), old(self).live_entries().contains_key(handle), result),
            result matches Ok(e) ==> {
                &&& e == old(self).live_entries()[handle]
                &&& final(self).live_entries() == old(self).live_entries().remove(handle)
            },
            result is Err ==> final(self).live_entries() == old(self).live_entries(),
            forall|h: RadixHandle| #[trigger] old(self).handed_out(h) && !old(self).spent(h) ==> final(self).handed_out(h),
            final(self).releases() == old(self).releases() + if result is Ok { 1nat } else { 0nat },
    {
        let result = self.core.delete(handle);
        if result.is_ok() {
            proof {
                self.core.lemma_release_bound(&old(self).core, self.releases@);
            }
            self.releases = Ghost(self.releases@ + 1);
        }
        proof {
            self.core.lemma_advanced_keeps(&old(self).core);
        }
        result
    }

    /// Returns the number of live entries.
    pub fn len(&self) -> (result: usize)
        requires
            self.is_well_formed(),
        ensures
            result == self.live_entries().len(),
    {
        proof {
            self.core.lemma_live_len();
        }
        self.core.len
    }

    /// Returns whether the heap contains no entries.
    pub fn is_empty(&self) -> (result: bool)
        requires
            self.is_well_formed(),
        ensures
            result == (self.live_entries().len() == 0),
    {
        proof {
            self.core.lemma_live_len();
        }
        self.core.len == 0
    }

    /// Removes every entry, invalidates every outstanding handle, and resets
    /// the monotonicity constraint.
    pub fn clear(&mut self)
        requires
            old(self).is_well_formed(),
        ensures
            final(self).is_well_formed(),
            final(self).id() == old(self).id(),
            final(self).lower() == old(self).lower(),
            final(self).upper() == old(self).upper(),
            final(self).last_removed() == old(self).lower(),
            final(self).live_entries() == Map::<RadixHandle, (u64, V)>::empty(),
            forall|h: RadixHandle| #[trigger] old(self).handed_out(h) && !old(self).spent(h) ==> final(self).handed_out(h),
            final(self).releases() == old(self).releases() + 1,
    {
        self.core.clear();
        proof {
            self.core.lemma_advanced_keeps(&old(self).core);
            self.core.lemma_release_bound(&old(self).core, self.releases@);
        }
        self.releases = Ghost(self.releases@ + 1);
    }
}

impl<V> TryAddressableHeap<u64, V> for U64RadixAddressableHeap<V> {
    type Handle = RadixHandle;

    type InsertError = RadixHeapError;

    open spec fn well_formed(&self) -> bool {
        self.is_well_formed()
    }

    open spec fn live(&self) -> Map<RadixHandle, (u64, V)> {
        self.live_entries()
    }

    open spec fn owns(&self, handle: RadixHandle) -> bool {
        handle.issuer() == self.id()
    }

    open spec fn priority(&self, key: u64) -> int {
        key as int
    }

    open spec fn accepts(&self, key: u64) -> bool {
        &&& self.lower() <= key <= self.upper()
        &&& self.last_removed() <= key
    }

    fn try_insert(&mut self, key: u64, value: V) -> (result: Result<RadixHandle, RadixHeapError>) {
        U64RadixAddressableHeap::try_insert(self, key, value)
    }

    fn peek(&self) -> (result: Option<(RadixHandle, &u64, &V)>) {
        U64RadixAddressableHeap::peek(self)
    }

    fn pop(&mut self) -> (result: Option<(u64, V)>) {
        let result = U64RadixAddressableHeap::pop(self);
        proof {
            if result is Some {
                let e = result->0;
                let h = choose|h: RadixHandle| {
                    &&& least_entry(old(self).live_entries(), h, |key: u64| key as int)
                    &&& old(self).live_entries()[h] == e
                    &&& self.live_entries() == old(self).live_entries().remove(h)
                };
                assert(least_entry(old(self).live(), h, |key: u64| old(self).priority(key)));
            }
        }
        result
    }

    fn key(&self, handle: RadixHandle) -> (result: Result<&u64, InvalidHandle>) {
        U64RadixAddressableHeap::key(self, handle)
    }

    fn value(&self, handle: RadixHandle) -> (result: Result<&V, InvalidHandle>) {
        U64RadixAddressableHeap::value(self, handle)
    }

    fn value_mut(&mut self, handle: RadixHandle) -> (result: Result<&mut V, InvalidHandle>) {
        U64RadixAddressableHeap::value_mut(self, handle)
    }

    fn delete(&mut self, handle: RadixHandle) -> (result: Result<(u64, V), InvalidHandle>) {
        U64RadixAddressableHeap::delete(self, handle)
    }

    fn len(&self) -> (result: usize) {
        U64RadixAddressableHeap::len(self)
    }

    fn clear(&mut self) {
        U64RadixAddressableHeap::clear(self)
    }
}

impl<V> TryDecreaseKeyHeap<u64, V> for U64RadixAddressableHeap<V> {
    type DecreaseKeyError = RadixDecreaseKeyError;

    fn decrease_key(&mut self, handle: RadixHandle, key: u64) -> (result: Result<(), RadixDecreaseKeyError>) {
        U64RadixAddressableHeap::decrease_key(self, handle, key)
    }
}

} // verus!
