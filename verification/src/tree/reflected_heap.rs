//! A reflected double-ended addressable heap.
//!
//! Entries are kept in pairs: the smaller key of each pair lives in a
//! min-oriented Fibonacci heap, the larger in a max-oriented one, and each
//! side records its partner.  When the number of entries is odd, one entry
//! stays unpaired.  A minimum is then the smaller of the min-heap's root and
//! the unpaired entry, and a maximum the larger of the max-heap's root and
//! the unpaired entry.
use vstd::prelude::*;

use crate::error::{DecreaseKeyError, IncreaseKeyError, InvalidHandle};
use crate::order::{HeapKey, Reverse};
use crate::std_support::fresh_heap_id;
use crate::tree::fibonacci_heap::FibonacciHeap;
use crate::tree::handles::TreeHandle;
use crate::key_multiset::{keys_of, lemma_keys_contains, lemma_keys_empty, lemma_keys_insert, lemma_keys_len, lemma_keys_remove};
use crate::{checked, greatest_entry, least_entry, AddressableHeap, DecreaseKeyHeap, DoubleEndedAddressableHeap, DoubleEndedHeap, Heap};
use vstd::multiset::Multiset;

verus! {

/// An opaque handle for an entry in a reflected heap.
#[derive(Clone, Copy, Debug, PartialEq, Eq, Hash)]
pub struct ReflectedHandle {
    domain: u64,
    slot: usize,
    generation: u64,
}

impl ReflectedHandle {
    /// The heap that issued the handle.
    pub closed spec fn issuer(self) -> u64 {
        self.domain
    }
}

/// What an inner heap stores with a key: the outer entry it belongs to and
/// the inner handle of its partner.
#[derive(Clone, Copy)]
struct InnerRecord {
    outer: ReflectedHandle,
    other: Option<TreeHandle>,
}

/// Where a paired entry's key is kept.
#[derive(Clone, Copy)]
enum Location {
    Min(TreeHandle),
    Max(TreeHandle),
}

struct OuterEntry<K, V> {
    key: Option<K>,
    value: V,
    location: Option<Location>,
}

struct OuterSlot<K, V> {
    entry: Option<OuterEntry<K, V>>,
    generation: u64,
}

/// A reflected double-ended addressable heap backed by two Fibonacci heaps.
pub struct ReflectedHeap<K, V = ()> {
    min_heap: FibonacciHeap<K, InnerRecord>,
    max_heap: FibonacciHeap<Reverse<K>, InnerRecord>,
    free: Option<ReflectedHandle>,
    len: usize,
    own_domain: u64,
    slots: Vec<OuterSlot<K, V>>,
    free_slots: Vec<usize>,
    handles: Ghost<Set<ReflectedHandle>>,
    pairs: Ghost<nat>,
}

impl<K: HeapKey, V> ReflectedHeap<K, V> {
    spec fn slot_live(&self, s: int) -> bool {
        0 <= s < self.slots@.len() && self.slots@[s].entry is Some
    }

    spec fn ent(&self, h: ReflectedHandle) -> OuterEntry<K, V> {
        self.slots@[h.slot as int].entry->0
    }

    spec fn is_handle(&self, h: ReflectedHandle) -> bool {
        &&& h.domain == self.own_domain
        &&& self.slot_live(h.slot as int)
        &&& self.slots@[h.slot as int].generation == h.generation
    }

    spec fn mins(&self) -> Map<TreeHandle, (K, InnerRecord)> {
        self.min_heap.live_entries()
    }

    spec fn maxs(&self) -> Map<TreeHandle, (Reverse<K>, InnerRecord)> {
        self.max_heap.live_entries()
    }

    spec fn key_of(&self, h: ReflectedHandle) -> K {
        match self.ent(h).location {
            None => self.ent(h).key->0,
            Some(Location::Min(t)) => self.mins()[t].0,
            Some(Location::Max(t)) => self.maxs()[t].0.0,
        }
    }

    /// The live handles and the entries they identify.
    pub closed spec fn live_entries(&self) -> Map<ReflectedHandle, (K, V)> {
        Map::new(|h: ReflectedHandle| self.handles@.contains(h), |h: ReflectedHandle| (self.key_of(h), self.ent(h).value))
    }

    /// The identity of this heap, which its handles carry.
    pub closed spec fn id(&self) -> u64 {
        self.own_domain
    }

    spec fn arena_ok(&self) -> bool {
        &&& self.handles@.finite()
        &&& self.handles@.len() == self.len
        &&& forall|h: ReflectedHandle| #[trigger] self.handles@.contains(h) <==> self.is_handle(h)
        &&& forall|i: int|
            0 <= i < self.free_slots@.len() ==> (#[trigger] self.free_slots@[i]) < self.slots@.len()
                && self.slots@[self.free_slots@[i] as int].entry is None
        &&& self.free_slots@.no_duplicates()
    }

    spec fn inner_ok(&self) -> bool {
        &&& self.min_heap.is_well_formed()
        &&& !self.min_heap.consumed()
        &&& self.mins().dom().finite()
        &&& self.max_heap.is_well_formed()
        &&& !self.max_heap.consumed()
        &&& self.maxs().dom().finite()
        &&& self.mins().len() == self.pairs@
        &&& self.maxs().len() == self.pairs@
    }

    spec fn min_side_ok(&self, t: TreeHandle) -> bool {
        let r = self.mins()[t].1;
        &&& self.handles@.contains(r.outer)
        &&& self.ent(r.outer).location == Some(Location::Min(t))
        &&& r.other is Some
        &&& self.maxs().contains_key(r.other->0)
        &&& self.maxs()[r.other->0].1.other == Some(t)
        &&& self.mins()[t].0.key_rank() <= self.maxs()[r.other->0].0.0.key_rank()
    }

    spec fn max_side_ok(&self, t: TreeHandle) -> bool {
        let r = self.maxs()[t].1;
        &&& self.handles@.contains(r.outer)
        &&& self.ent(r.outer).location == Some(Location::Max(t))
        &&& r.other is Some
        &&& self.mins().contains_key(r.other->0)
        &&& self.mins()[r.other->0].1.other == Some(t)
    }

    spec fn sides_ok(&self) -> bool {
        &&& forall|t: TreeHandle| #[trigger] self.mins().contains_key(t) ==> self.min_side_ok(t)
        &&& forall|t: TreeHandle| #[trigger] self.maxs().contains_key(t) ==> self.max_side_ok(t)
    }

    spec fn paired_ok(&self, h: ReflectedHandle) -> bool {
        match self.ent(h).location {
            None => true,
            Some(Location::Min(t)) => self.mins().contains_key(t) && self.mins()[t].1.outer == h,
            Some(Location::Max(t)) => self.maxs().contains_key(t) && self.maxs()[t].1.outer == h,
        }
    }

    spec fn unpaired_ok(&self, h: ReflectedHandle) -> bool {
        self.ent(h).location is None ==> self.free == Some(h) && self.ent(h).key is Some
    }

    /// The heap's internal invariant.
    pub closed spec fn is_well_formed(&self) -> bool {
        &&& self.arena_ok()
        &&& self.inner_ok()
        &&& self.len == 2 * self.pairs@ + (if self.free is Some { 1int } else { 0int })
        &&& self.sides_ok()
        &&& forall|h: ReflectedHandle| #[trigger] self.handles@.contains(h) ==> self.paired_ok(h) && self.unpaired_ok(h)
        &&& self.free matches Some(f) ==> self.handles@.contains(f) && self.ent(f).location is None
    }

    /// The state between taking two unpaired entries and pairing them.
    spec fn pending(&self, a: ReflectedHandle, b: ReflectedHandle) -> bool {
        &&& self.arena_ok()
        &&& self.inner_ok()
        &&& self.len == 2 * self.pairs@ + 2 + (if self.free is Some { 1int } else { 0int })
        &&& self.free matches Some(f) ==> f != a && f != b && self.handles@.contains(f) && self.ent(f).location is None
        &&& self.sides_ok()
        &&& forall|h: ReflectedHandle| #[trigger] self.handles@.contains(h) ==> self.paired_ok(h)
        &&& forall|h: ReflectedHandle| #[trigger] self.handles@.contains(h) && h != a && h != b ==> self.unpaired_ok(h)
        &&& a != b
        &&& self.handles@.contains(a)
        &&& self.handles@.contains(b)
        &&& self.ent(a).location is None
        &&& self.ent(a).key is Some
        &&& self.ent(b).location is None
        &&& self.ent(b).key is Some
    }

    /// The min-heap's root key is no greater than any paired entry's key.
    proof fn lemma_min_root_bound(&self, t: TreeHandle, h: ReflectedHandle)
        requires
            self.is_well_formed(),
            least_entry(self.mins(), t, |k: K| k.key_rank()),
            self.handles@.contains(h),
            self.ent(h).location is Some,
        ensures
            self.mins()[t].0.key_rank() <= self.key_of(h).key_rank(),
    {
        assert(self.paired_ok(h));
        match self.ent(h).location {
            Some(Location::Min(u)) => {
                assert(self.mins().contains_key(u));
            },
            Some(Location::Max(u)) => {
                assert(self.max_side_ok(u));
                let p = self.maxs()[u].1.other->0;
                assert(self.mins().contains_key(p));
                assert(self.min_side_ok(p));
            },
            None => {},
        }
    }

    /// The max-heap's root key is no smaller than any paired entry's key.
    proof fn lemma_max_root_bound(&self, t: TreeHandle, h: ReflectedHandle)
        requires
            self.is_well_formed(),
            least_entry(self.maxs(), t, |k: Reverse<K>| k.key_rank()),
            self.handles@.contains(h),
            self.ent(h).location is Some,
        ensures
            self.key_of(h).key_rank() <= self.maxs()[t].0.0.key_rank(),
    {
        assert(self.paired_ok(h));
        match self.ent(h).location {
            Some(Location::Min(u)) => {
                assert(self.min_side_ok(u));
                let p = self.mins()[u].1.other->0;
                assert(self.maxs().contains_key(p));
            },
            Some(Location::Max(u)) => {
                assert(self.maxs().contains_key(u));
            },
            None => {},
        }
    }

    /// The live map's domain is the set of live handles.
    proof fn lemma_live_dom(&self)
        ensures
            self.live_entries().dom() == self.handles@,
    {
        assert(self.live_entries().dom() =~= self.handles@);
    }

    /// Creates an empty heap.
    pub fn new() -> (heap: Self)
        ensures
            heap.is_well_formed(),
            heap.live_entries() == Map::<ReflectedHandle, (K, V)>::empty(),
    {
        let heap = ReflectedHeap {
            min_heap: FibonacciHeap::new(),
            max_heap: FibonacciHeap::new(),
            free: None,
            len: 0,
            own_domain: fresh_heap_id(),
            slots: Vec::new(),
            free_slots: Vec::new(),
            handles: Ghost(Set::empty()),
            pairs: Ghost(0),
        };
        proof {
            assert(heap.mins() =~= Map::empty());
            assert(heap.maxs() =~= Map::empty());
            assert(heap.live_entries() =~= Map::empty());
        }
        heap
    }

    /// Checks that `handle` names a live entry of this heap.
    fn validate(&self, handle: ReflectedHandle) -> (result: Result<(), InvalidHandle>)
        requires
            self.arena_ok(),
        ensures
            checked(handle.domain == self.own_domain, self.handles@.contains(handle), result),
    {
        if handle.domain != self.own_domain {
            return Err(InvalidHandle::ForeignHeap);
        }
        if handle.slot >= self.slots.len() {
            return Err(InvalidHandle::Stale);
        }
        if self.slots[handle.slot].generation != handle.generation || self.slots[handle.slot].entry.is_none() {
            return Err(InvalidHandle::Stale);
        }
        Ok(())
    }

    /// Stores a new unpaired entry and returns its handle.
    fn insert_outer(&mut self, key: K, value: V) -> (handle: ReflectedHandle)
        requires
            old(self).arena_ok(),
            old(self).len < usize::MAX,
        ensures
            final(self).arena_ok(),
            final(self).len == old(self).len + 1,
            !old(self).handles@.contains(handle),
            handle.domain == old(self).own_domain,
            final(self).handles@ == old(self).handles@.insert(handle),
            final(self).ent(handle) == (OuterEntry { key: Some(key), value, location: None }),
            forall|g: ReflectedHandle| #[trigger] old(self).handles@.contains(g) ==> final(self).ent(g) == old(self).ent(g),
            final(self).min_heap == old(self).min_heap,
            final(self).max_heap == old(self).max_heap,
            final(self).free == old(self).free,
            final(self).own_domain == old(self).own_domain,
            final(self).pairs == old(self).pairs,
    {
        let entry = OuterEntry { key: Some(key), value, location: None };
        let ghost before = self.slots@;
        let slot = if self.free_slots.len() > 0 {
            let ghost fs = self.free_slots@;
            let slot = self.free_slots.pop().unwrap();
            proof {
                assert(fs == self.free_slots@.push(slot));
                assert(fs[fs.len() - 1] == slot);
            }
            self.slots[slot].entry = Some(entry);
            proof {
                assert forall|i: int| 0 <= i < self.free_slots@.len() implies (#[trigger] self.free_slots@[i]) < self.slots@.len()
                    && self.slots@[self.free_slots@[i] as int].entry is None by {
                    assert(fs[i] == self.free_slots@[i]);
                    assert(fs[i] != fs[fs.len() - 1]);
                }
            }
            slot
        } else {
            self.slots.push(OuterSlot { entry: Some(entry), generation: 0 });
            self.slots.len() - 1
        };
        let handle = ReflectedHandle { domain: self.own_domain, slot, generation: self.slots[slot].generation };
        proof {
            assert(!old(self).handles@.contains(handle));
            self.handles@ = self.handles@.insert(handle);
            assert forall|g: ReflectedHandle| #[trigger] self.handles@.contains(g) <==> self.is_handle(g) by {
                if g.slot != slot {
                    if (g.slot as int) < before.len() {
                        assert(self.slots@[g.slot as int] == before[g.slot as int]);
                    }
                    assert(old(self).handles@.contains(g) <==> old(self).is_handle(g));
                }
            }
            assert forall|g: ReflectedHandle| #[trigger] old(self).handles@.contains(g) implies self.ent(g) == old(self).ent(g) by {
                assert(old(self).is_handle(g));
                assert(g.slot != slot);
            }
        }
        self.len = self.len + 1;
        handle
    }

    /// Removes the entry of a live handle from the arena.
    fn remove_outer(&mut self, handle: ReflectedHandle) -> (entry: OuterEntry<K, V>)
        requires
            old(self).arena_ok(),
            old(self).handles@.contains(handle),
        ensures
            final(self).arena_ok(),
            entry == old(self).ent(handle),
            final(self).len == old(self).len - 1,
            final(self).handles@ == old(self).handles@.remove(handle),
            forall|g: ReflectedHandle| #[trigger] final(self).handles@.contains(g) ==> final(self).ent(g) == old(self).ent(g),
            final(self).min_heap == old(self).min_heap,
            final(self).max_heap == old(self).max_heap,
            final(self).free == old(self).free,
            final(self).own_domain == old(self).own_domain,
            final(self).pairs == old(self).pairs,
    {
        let slot = handle.slot;
        let ghost before = self.slots@;
        proof {
            assert(old(self).is_handle(handle));
        }
        let entry = self.slots[slot].entry.take().unwrap();
        self.slots[slot].generation = self.slots[slot].generation.wrapping_add(1);
        proof {
            assert(!self.free_slots@.contains(slot)) by {
                if self.free_slots@.contains(slot) {
                    let i = self.free_slots@.index_of(slot);
                    assert(self.free_slots@[i] == slot);
                }
            }
        }
        self.free_slots.push(slot);
        proof {
            self.handles@ = self.handles@.remove(handle);
            assert forall|g: ReflectedHandle| #[trigger] self.handles@.contains(g) <==> self.is_handle(g) by {
                if g.slot != slot {
                    if (g.slot as int) < before.len() {
                        assert(self.slots@[g.slot as int] == before[g.slot as int]);
                    }
                    assert(old(self).handles@.contains(g) <==> old(self).is_handle(g));
                } else {
                    assert(!self.is_handle(g));
                    if old(self).handles@.contains(g) {
                        assert(old(self).is_handle(g));
                        assert(g == handle);
                    }
                }
            }
            assert forall|i: int| 0 <= i < self.free_slots@.len() implies (#[trigger] self.free_slots@[i]) < self.slots@.len()
                && self.slots@[self.free_slots@[i] as int].entry is None by {
                if i < self.free_slots@.len() - 1 {
                    assert(old(self).free_slots@[i] == self.free_slots@[i]);
                }
            }
            assert(self.free_slots@.no_duplicates()) by {
                assert forall|i: int, j: int| 0 <= i < j < self.free_slots@.len() implies self.free_slots@[i] != self.free_slots@[j] by {
                    if j == self.free_slots@.len() - 1 {
                        assert(old(self).free_slots@[i] == self.free_slots@[i]);
                        assert(old(self).free_slots@.contains(self.free_slots@[i]));
                    } else {
                        assert(old(self).free_slots@[i] == self.free_slots@[i]);
                        assert(old(self).free_slots@[j] == self.free_slots@[j]);
                    }
                }
            }
            assert forall|g: ReflectedHandle| #[trigger] self.handles@.contains(g) implies self.ent(g) == old(self).ent(g) by {
                assert(self.is_handle(g));
                assert(g.slot != slot);
            }
        }
        self.len = self.len - 1;
        entry
    }

    /// Replaces the key and location of a live entry, keeping its value.
    fn set_place(&mut self, handle: ReflectedHandle, key: Option<K>, location: Option<Location>) -> (previous: Option<K>)
        requires
            old(self).arena_ok(),
            old(self).handles@.contains(handle),
        ensures
            final(self).arena_ok(),
            previous == old(self).ent(handle).key,
            final(self).ent(handle) == (OuterEntry { key, value: old(self).ent(handle).value, location }),
            forall|g: ReflectedHandle| #[trigger] final(self).handles@.contains(g) && g != handle ==> final(self).ent(g) == old(self).ent(g),
            final(self).len == old(self).len,
            final(self).handles == old(self).handles,
            final(self).min_heap == old(self).min_heap,
            final(self).max_heap == old(self).max_heap,
            final(self).free == old(self).free,
            final(self).own_domain == old(self).own_domain,
            final(self).pairs == old(self).pairs,
    {
        let slot = handle.slot;
        proof {
            assert(old(self).is_handle(handle));
        }
        let ghost before = self.slots@;
        let mut previous: Option<K> = None;
        match &mut self.slots[slot].entry {
            Some(entry) => {
                previous = entry.key.take();
                entry.key = key;
                entry.location = location;
            },
            None => {},
        }
        proof {
            assert forall|g: ReflectedHandle| #[trigger] self.handles@.contains(g) <==> self.is_handle(g) by {
                if g.slot != slot {
                    if (g.slot as int) < before.len() {
                        assert(self.slots@[g.slot as int] == before[g.slot as int]);
                    }
                }
                assert(old(self).handles@.contains(g) <==> old(self).is_handle(g));
            }
            assert forall|i: int| 0 <= i < self.free_slots@.len() implies (#[trigger] self.free_slots@[i]) < self.slots@.len()
                && self.slots@[self.free_slots@[i] as int].entry is None by {
                assert(old(self).slots@[old(self).free_slots@[i] as int].entry is None);
            }
            assert forall|g: ReflectedHandle| #[trigger] self.handles@.contains(g) && g != handle implies self.ent(g) == old(self).ent(g) by {
                assert(old(self).is_handle(g));
                assert(g.slot != slot);
            }
        }
        previous
    }

    /// The key held by an unpaired live entry.
    fn stored_key(&self, handle: ReflectedHandle) -> (key: &K)
        requires
            self.arena_ok(),
            self.handles@.contains(handle),
            self.ent(handle).key is Some,
        ensures
            *key == self.ent(handle).key->0,
    {
        proof {
            assert(self.is_handle(handle));
        }
        self.slots[handle.slot].entry.as_ref().unwrap().key.as_ref().unwrap()
    }

    /// Where a live entry's key is kept.
    fn location_of(&self, handle: ReflectedHandle) -> (location: Option<Location>)
        requires
            self.arena_ok(),
            self.handles@.contains(handle),
        ensures
            location == self.ent(handle).location,
    {
        proof {
            assert(self.is_handle(handle));
        }
        self.slots[handle.slot].entry.as_ref().unwrap().location
    }

    /// Pairs two unpaired entries: the smaller key goes to the min-heap, the
    /// larger to the max-heap, and each side records the other.
    fn insert_pair(&mut self, first: ReflectedHandle, second: ReflectedHandle)
        requires
            old(self).pending(first, second),
        ensures
            final(self).is_well_formed(),
            final(self).free == old(self).free,
            final(self).live_entries() == old(self).live_entries(),
            final(self).handles == old(self).handles,
            final(self).len == old(self).len,
            final(self).own_domain == old(self).own_domain,
    {
        let first_is_min = !self.stored_key(second).key_lt(self.stored_key(first));
        let (minimum, maximum) = if first_is_min {
            (first, second)
        } else {
            (second, first)
        };
        let ghost s0 = self.slots@;
        let ghost m0 = self.mins();
        let ghost x0 = self.maxs();
        let ghost e_min = self.ent(minimum);
        let ghost e_max = self.ent(maximum);
        let ghost live0 = self.live_entries();
        let minimum_key = self.set_place(minimum, None, None).unwrap();
        let maximum_key = self.set_place(maximum, None, None).unwrap();
        let minimum_inner = self.min_heap.insert(minimum_key, InnerRecord { outer: minimum, other: None });
        let maximum_inner = self.max_heap.insert(Reverse(maximum_key), InnerRecord { outer: maximum, other: Some(minimum_inner) });
        proof {
            self.min_heap.lemma_live_issued();
        }
        match self.min_heap.value_mut(minimum_inner) {
            Ok(record) => {
                *record = InnerRecord { outer: minimum, other: Some(maximum_inner) };
            },
            Err(_) => {},
        }
        self.set_place(minimum, None, Some(Location::Min(minimum_inner)));
        self.set_place(maximum, None, Some(Location::Max(maximum_inner)));
        proof {
            self.pairs@ = self.pairs@ + 1;
            self.min_heap.lemma_live_finite();
            self.max_heap.lemma_live_finite();
            let m1 = self.mins();
            let x1 = self.maxs();
            assert(m1 == m0.insert(minimum_inner, (e_min.key->0, InnerRecord { outer: minimum, other: Some(maximum_inner) })));
            assert(x1 == x0.insert(maximum_inner, (Reverse(e_max.key->0), InnerRecord { outer: maximum, other: Some(minimum_inner) })));
            assert(e_min.key->0.key_rank() <= e_max.key->0.key_rank());
            assert forall|t: TreeHandle| #[trigger] m1.contains_key(t) implies self.min_side_ok(t) by {
                if t != minimum_inner {
                    assert(old(self).min_side_ok(t));
                    let r = m0[t].1;
                    assert(old(self).paired_ok(r.outer));
                    assert(r.outer != minimum && r.outer != maximum);
                    assert(x0.contains_key(r.other->0));
                }
            }
            assert forall|t: TreeHandle| #[trigger] x1.contains_key(t) implies self.max_side_ok(t) by {
                if t != maximum_inner {
                    assert(old(self).max_side_ok(t));
                    let r = x0[t].1;
                    assert(r.outer != minimum && r.outer != maximum);
                    assert(m0.contains_key(r.other->0));
                }
            }
            assert forall|h: ReflectedHandle| #[trigger] self.handles@.contains(h) implies self.paired_ok(h) && self.unpaired_ok(h) by {
                if h != minimum && h != maximum {
                    assert(old(self).paired_ok(h));
                    assert(old(self).unpaired_ok(h));
                    match old(self).ent(h).location {
                        Some(Location::Min(t)) => { assert(t != minimum_inner); },
                        Some(Location::Max(t)) => { assert(t != maximum_inner); },
                        None => {},
                    }
                }
            }
            assert forall|h: ReflectedHandle| #[trigger] self.live_entries().contains_key(h) implies self.live_entries()[h] == live0[h] by {
                if h != minimum && h != maximum {
                    assert(old(self).paired_ok(h));
                    match old(self).ent(h).location {
                        Some(Location::Min(t)) => { assert(t != minimum_inner); },
                        Some(Location::Max(t)) => { assert(t != maximum_inner); },
                        None => { assert(old(self).unpaired_ok(h)); },
                    }
                }
            }
            self.lemma_live_dom();
            old(self).lemma_live_dom();
            assert(self.live_entries() =~= live0);
        }
    }

    /// Inserts an entry and returns its handle.
    pub fn insert(&mut self, key: K, value: V) -> (handle: ReflectedHandle)
        requires
            old(self).is_well_formed(),
            old(self).live_entries().len() < usize::MAX,
        ensures
            final(self).is_well_formed(),
            final(self).id() == old(self).id(),
            handle.issuer() == old(self).id(),
            !old(self).live_entries().contains_key(handle),
            final(self).live_entries() == old(self).live_entries().insert(handle, (key, value)),
            final(self).live_entries().len() == old(self).live_entries().len() + 1,
    {
        proof {
            self.lemma_live_dom();
        }
        let ghost live0 = self.live_entries();
        let handle = self.insert_outer(key, value);
        let ghost mid = self.live_entries();
        proof {
            assert forall|h: ReflectedHandle| #[trigger] self.handles@.contains(h) && h != handle implies self.paired_ok(h) && (self.free != Some(h) ==> self.unpaired_ok(h)) by {
                assert(old(self).paired_ok(h));
                assert(old(self).unpaired_ok(h));
            }
            assert forall|t: TreeHandle| #[trigger] self.mins().contains_key(t) implies self.min_side_ok(t) by {
                assert(old(self).min_side_ok(t));
            }
            assert forall|t: TreeHandle| #[trigger] self.maxs().contains_key(t) implies self.max_side_ok(t) by {
                assert(old(self).max_side_ok(t));
            }
            assert forall|h: ReflectedHandle| #[trigger] mid.contains_key(h) && h != handle implies mid[h] == live0[h] by {
                assert(old(self).paired_ok(h));
            }
            self.lemma_live_dom();
            assert(mid =~= live0.insert(handle, (key, value)));
        }
        match self.free {
            Some(free) => {
                self.free = None;
                proof {
                    assert(free != handle);
                    assert(self.ent(free) == old(self).ent(free));
                    assert forall|h: ReflectedHandle| #[trigger] self.handles@.contains(h) && h != handle && h != free implies self.unpaired_ok(h) by {
                        assert(old(self).unpaired_ok(h));
                    }
                }
                self.insert_pair(handle, free);
            },
            None => {
                self.free = Some(handle);
                proof {
                    assert forall|h: ReflectedHandle| #[trigger] self.handles@.contains(h) implies self.paired_ok(h) && self.unpaired_ok(h) by {
                        if h != handle {
                            assert(old(self).unpaired_ok(h));
                        }
                    }
                    assert(self.live_entries() =~= mid);
                }
            },
        }
        proof {
            self.lemma_live_dom();
        }
        handle
    }

    /// Returns a live handle with a least key, if any.
    fn minimum_handle(&self) -> (result: Option<ReflectedHandle>)
        requires
            self.is_well_formed(),
        ensures
            result is None <==> self.live_entries().len() == 0,
            result matches Some(h) ==> least_entry(self.live_entries(), h, |k: K| k.key_rank()),
    {
        proof {
            self.lemma_live_dom();
            self.min_heap.lemma_live_finite();
        }
        let top = self.min_heap.peek_entry();
        match top {
            None => {
                proof {
                    assert forall|h: ReflectedHandle| #[trigger] self.handles@.contains(h) implies self.free == Some(h) by {
                        assert(self.paired_ok(h));
                        assert(self.unpaired_ok(h));
                        match self.ent(h).location {
                            Some(Location::Max(t)) => {
                                assert(self.max_side_ok(t));
                                assert(self.mins().contains_key(self.maxs()[t].1.other->0));
                            },
                            _ => {},
                        }
                    }
                }
                match self.free {
                    None => {
                        proof {
                            if self.handles@.len() > 0 {
                                let h = self.handles@.choose();
                                assert(self.handles@.contains(h));
                            }
                        }
                        None
                    },
                    Some(free) => {
                        proof {
                            assert(self.live_entries().contains_key(free));
                        }
                        Some(free)
                    },
                }
            },
            Some((t, key, record)) => {
                proof {
                    assert(self.min_side_ok(t));
                    assert(self.live_entries().contains_key(record.outer));
                }
                match self.free {
                    None => {
                        proof {
                            assert forall|h: ReflectedHandle| #[trigger] self.live_entries().contains_key(h) implies self.key_of(record.outer).key_rank() <= self.key_of(h).key_rank() by {
                                assert(self.unpaired_ok(h));
                                self.lemma_min_root_bound(t, h);
                            }
                        }
                        Some(record.outer)
                    },
                    Some(free) => {
                        if key.key_lt(self.stored_key(free)) {
                            proof {
                                assert forall|h: ReflectedHandle| #[trigger] self.live_entries().contains_key(h) implies self.key_of(record.outer).key_rank() <= self.key_of(h).key_rank() by {
                                    assert(self.unpaired_ok(h));
                                    if self.ent(h).location is Some {
                                        self.lemma_min_root_bound(t, h);
                                    }
                                }
                            }
                            Some(record.outer)
                        } else {
                            proof {
                                assert(self.live_entries().contains_key(free));
                                assert forall|h: ReflectedHandle| #[trigger] self.live_entries().contains_key(h) implies self.key_of(free).key_rank() <= self.key_of(h).key_rank() by {
                                    assert(self.unpaired_ok(h));
                                    if self.ent(h).location is Some {
                                        self.lemma_min_root_bound(t, h);
                                    }
                                }
                            }
                            Some(free)
                        }
                    },
                }
            },
        }
    }

    /// Returns a live handle with a greatest key, if any.
    fn maximum_handle(&self) -> (result: Option<ReflectedHandle>)
        requires
            self.is_well_formed(),
        ensures
            result is None <==> self.live_entries().len() == 0,
            result matches Some(h) ==> greatest_entry(self.live_entries(), h, |k: K| k.key_rank()),
    {
        proof {
            self.lemma_live_dom();
            self.max_heap.lemma_live_finite();
        }
        let top = self.max_heap.peek_entry();
        match top {
            None => {
                proof {
                    assert forall|h: ReflectedHandle| #[trigger] self.handles@.contains(h) implies self.free == Some(h) by {
                        assert(self.paired_ok(h));
                        assert(self.unpaired_ok(h));
                        match self.ent(h).location {
                            Some(Location::Min(t)) => {
                                assert(self.min_side_ok(t));
                                assert(self.maxs().contains_key(self.mins()[t].1.other->0));
                            },
                            _ => {},
                        }
                    }
                }
                match self.free {
                    None => {
                        proof {
                            if self.handles@.len() > 0 {
                                let h = self.handles@.choose();
                                assert(self.handles@.contains(h));
                            }
                        }
                        None
                    },
                    Some(free) => {
                        proof {
                            assert(self.live_entries().contains_key(free));
                        }
                        Some(free)
                    },
                }
            },
            Some((t, key, record)) => {
                proof {
                    assert(self.max_side_ok(t));
                    assert(self.live_entries().contains_key(record.outer));
                }
                match self.free {
                    None => {
                        proof {
                            assert forall|h: ReflectedHandle| #[trigger] self.live_entries().contains_key(h) implies self.key_of(h).key_rank() <= self.key_of(record.outer).key_rank() by {
                                assert(self.unpaired_ok(h));
                                self.lemma_max_root_bound(t, h);
                            }
                        }
                        Some(record.outer)
                    },
                    Some(free) => {
                        if self.stored_key(free).key_lt(&key.0) {
                            proof {
                                assert forall|h: ReflectedHandle| #[trigger] self.live_entries().contains_key(h) implies self.key_of(h).key_rank() <= self.key_of(record.outer).key_rank() by {
                                    assert(self.unpaired_ok(h));
                                    if self.ent(h).location is Some {
                                        self.lemma_max_root_bound(t, h);
                                    }
                                }
                            }
                            Some(record.outer)
                        } else {
                            proof {
                                assert(self.live_entries().contains_key(free));
                                assert forall|h: ReflectedHandle| #[trigger] self.live_entries().contains_key(h) implies self.key_of(h).key_rank() <= self.key_of(free).key_rank() by {
                                    assert(self.unpaired_ok(h));
                                    if self.ent(h).location is Some {
                                        self.lemma_max_root_bound(t, h);
                                    }
                                }
                            }
                            Some(free)
                        }
                    },
                }
            },
        }
    }

    /// Returns the key identified by `handle`.
    pub fn key(&self, handle: ReflectedHandle) -> (result: Result<&K, InvalidHandle>)
        requires
            self.is_well_formed(),
        ensures
            checked(handle.issuer() == self.id(), self.live_entries().contains_key(handle), result),
            result matches Ok(k) ==> *k == self.live_entries()[handle].0,
    {
        proof {
            self.lemma_live_dom();
            self.min_heap.lemma_live_issued();
            self.max_heap.lemma_live_issued();
        }
        self.validate(handle)?;
        proof {
            assert(self.paired_ok(handle));
            assert(self.unpaired_ok(handle));
        }
        match self.location_of(handle) {
            None => Ok(self.stored_key(handle)),
            Some(Location::Min(inner)) => match self.min_heap.key(inner) {
                Ok(k) => Ok(k),
                Err(e) => Err(e),
            },
            Some(Location::Max(inner)) => match self.max_heap.key(inner) {
                Ok(k) => Ok(&k.0),
                Err(e) => Err(e),
            },
        }
    }

    /// Returns the value identified by `handle`.
    pub fn value(&self, handle: ReflectedHandle) -> (result: Result<&V, InvalidHandle>)
        requires
            self.is_well_formed(),
        ensures
            checked(handle.issuer() == self.id(), self.live_entries().contains_key(handle), result),
            result matches Ok(v) ==> *v == self.live_entries()[handle].1,
    {
        proof {
            self.lemma_live_dom();
        }
        self.validate(handle)?;
        proof {
            assert(self.is_handle(handle));
        }
        Ok(&self.slots[handle.slot].entry.as_ref().unwrap().value)
    }

    /// Returns the handle, key, and value of a minimum entry.
    pub fn peek_entry(&self) -> (result: Option<(ReflectedHandle, &K, &V)>)
        requires
            self.is_well_formed(),
        ensures
            result is None <==> self.live_entries().len() == 0,
            result matches Some((h, k, v)) ==> {
                &&& least_entry(self.live_entries(), h, |key: K| key.key_rank())
                &&& self.live_entries()[h] == (*k, *v)
            },
    {
        let handle = self.minimum_handle()?;
        proof {
            assert(handle.issuer() == self.id());
        }
        match (self.key(handle), self.value(handle)) {
            (Ok(k), Ok(v)) => Some((handle, k, v)),
            _ => None,
        }
    }

    /// Returns the handle, key, and value of a maximum entry.
    pub fn peek_max_entry(&self) -> (result: Option<(ReflectedHandle, &K, &V)>)
        requires
            self.is_well_formed(),
        ensures
            result is None <==> self.live_entries().len() == 0,
            result matches Some((h, k, v)) ==> {
                &&& greatest_entry(self.live_entries(), h, |key: K| key.key_rank())
                &&& self.live_entries()[h] == (*k, *v)
            },
    {
        let handle = self.maximum_handle()?;
        proof {
            assert(handle.issuer() == self.id());
        }
        match (self.key(handle), self.value(handle)) {
            (Ok(k), Ok(v)) => Some((handle, k, v)),
            _ => None,
        }
    }

    /// Returns the number of live entries.
    pub fn len(&self) -> (result: usize)
        requires
            self.is_well_formed(),
        ensures
            result == self.live_entries().len(),
    {
        proof {
            self.lemma_live_dom();
        }
        self.len
    }

    /// Returns whether the heap has no entries.
    pub fn is_empty(&self) -> (result: bool)
        requires
            self.is_well_formed(),
        ensures
            result == (self.live_entries().len() == 0),
    {
        proof {
            self.lemma_live_dom();
        }
        self.len == 0
    }

    /// The state after a paired entry's partner left the inner heaps, before
    /// `p` is made unpaired again.
    spec fn orphaned(&self, p: ReflectedHandle) -> bool {
        &&& self.arena_ok()
        &&& self.inner_ok()
        &&& self.len == 2 * self.pairs@ + 1 + (if self.free is Some { 1int } else { 0int })
        &&& self.free matches Some(f) ==> f != p && self.handles@.contains(f) && self.ent(f).location is None
        &&& self.sides_ok()
        &&& forall|h: ReflectedHandle| #[trigger] self.handles@.contains(h) && h != p ==> self.paired_ok(h) && self.unpaired_ok(h)
        &&& self.handles@.contains(p)
        &&& self.ent(p).location matches Some(Location::Min(t)) ==> !self.mins().contains_key(t)
        &&& self.ent(p).location matches Some(Location::Max(t)) ==> !self.maxs().contains_key(t)
    }

    /// Makes `p` an unpaired entry with `key`, pairing it with the current
    /// unpaired entry if there is one.
    fn make_free(&mut self, p: ReflectedHandle, key: K)
        requires
            old(self).orphaned(p),
        ensures
            final(self).is_well_formed(),
            final(self).handles == old(self).handles,
            final(self).len == old(self).len,
            final(self).own_domain == old(self).own_domain,
            forall|h: ReflectedHandle| #[trigger] old(self).handles@.contains(h) && h != p ==> final(self).live_entries()[h] == (old(self).key_of(h), old(self).ent(h).value),
            final(self).live_entries()[p] == (key, old(self).ent(p).value),
    {
        self.set_place(p, Some(key), None);
        let ghost mid = *self;
        proof {
            assert forall|h: ReflectedHandle| #[trigger] self.handles@.contains(h) && h != p implies self.paired_ok(h) && (self.free != Some(h) ==> self.unpaired_ok(h)) by {
                assert(old(self).paired_ok(h));
                assert(old(self).unpaired_ok(h));
            }
            assert forall|t: TreeHandle| #[trigger] self.mins().contains_key(t) implies self.min_side_ok(t) by {
                assert(old(self).min_side_ok(t));
                let r = old(self).mins()[t].1;
                assert(r.outer != p);
            }
            assert forall|t: TreeHandle| #[trigger] self.maxs().contains_key(t) implies self.max_side_ok(t) by {
                assert(old(self).max_side_ok(t));
                let r = old(self).maxs()[t].1;
                assert(r.outer != p);
            }
        }
        match self.free {
            Some(free) => {
                self.free = None;
                proof {
                    assert forall|h: ReflectedHandle| #[trigger] self.handles@.contains(h) && h != p && h != free implies self.unpaired_ok(h) by {
                        assert(old(self).unpaired_ok(h));
                    }
                }
                self.insert_pair(p, free);
            },
            None => {
                self.free = Some(p);
                proof {
                    assert forall|h: ReflectedHandle| #[trigger] self.handles@.contains(h) implies self.paired_ok(h) && self.unpaired_ok(h) by {
                        if h != p {
                            assert(old(self).unpaired_ok(h));
                        }
                    }
                    assert(self.live_entries() =~= mid.live_entries());
                }
            },
        }
        proof {
            assert forall|h: ReflectedHandle| #[trigger] old(self).handles@.contains(h) && h != p implies mid.live_entries()[h] == (old(self).key_of(h), old(self).ent(h).value) by {
                assert(old(self).paired_ok(h));
            }
        }
    }

    /// Removes and returns the entry identified by `handle`.
    pub fn delete(&mut self, handle: ReflectedHandle) -> (result: Result<(K, V), InvalidHandle>)
        requires
            old(self).is_well_formed(),
        ensures
            final(self).is_well_formed(),
            final(self).id() == old(self).id(),
            checked(handle.issuer() == old(self).id(), old(self).live_entries().contains_key(handle), result),
            result matches Ok(e) ==> {
                &&& e == old(self).live_entries()[handle]
                &&& final(self).live_entries() == old(self).live_entries().remove(handle)
                &&& final(self).live_entries().len() + 1 == old(self).live_entries().len()
            },
            result is Err ==> *final(self) == *old(self),
    {
        proof {
            self.lemma_live_dom();
            self.min_heap.lemma_live_issued();
            self.max_heap.lemma_live_issued();
            self.min_heap.lemma_live_finite();
            self.max_heap.lemma_live_finite();
        }
        self.validate(handle)?;
        let ghost live0 = self.live_entries();
        proof {
            assert(self.paired_ok(handle));
            assert(self.unpaired_ok(handle));
        }
        match self.location_of(handle) {
            None => {
                self.free = None;
                let entry = self.remove_outer(handle);
                proof {
                    assert forall|h: ReflectedHandle| #[trigger] self.handles@.contains(h) implies self.paired_ok(h) && self.unpaired_ok(h) by {
                        assert(old(self).paired_ok(h));
                        assert(old(self).unpaired_ok(h));
                    }
                    assert forall|t: TreeHandle| #[trigger] self.mins().contains_key(t) implies self.min_side_ok(t) by {
                        assert(old(self).min_side_ok(t));
                    }
                    assert forall|t: TreeHandle| #[trigger] self.maxs().contains_key(t) implies self.max_side_ok(t) by {
                        assert(old(self).max_side_ok(t));
                    }
                    assert forall|h: ReflectedHandle| #[trigger] self.live_entries().contains_key(h) implies self.live_entries()[h] == live0[h] by {
                        assert(old(self).paired_ok(h));
                    }
                    self.lemma_live_dom();
                    assert(self.live_entries() =~= live0.remove(handle));
                }
                Ok((entry.key.unwrap(), entry.value))
            },
            Some(Location::Min(inner)) => {
                let (key, record) = match self.min_heap.delete(inner) {
                    Ok(e) => e,
                    Err(e) => return Err(e),
                };
                proof {
                    assert(old(self).min_side_ok(inner));
                }
                let partner = record.other.unwrap();
                proof {
                    assert(old(self).max_side_ok(partner));
                }
                let (partner_key, partner_record) = match self.max_heap.delete(partner) {
                    Ok(e) => e,
                    Err(e) => return Err(e),
                };
                let p = partner_record.outer;
                let entry = self.remove_outer(handle);
                proof {
                    self.pairs@ = (self.pairs@ - 1) as nat;
                    self.min_heap.lemma_live_finite();
                    self.max_heap.lemma_live_finite();
                    assert(p != handle);
                    assert forall|t: TreeHandle| #[trigger] self.mins().contains_key(t) implies self.min_side_ok(t) by {
                        assert(old(self).min_side_ok(t));
                        let r = old(self).mins()[t].1;
                        assert(r.other->0 != partner);
                        assert(r.outer != handle);
                    }
                    assert forall|t: TreeHandle| #[trigger] self.maxs().contains_key(t) implies self.max_side_ok(t) by {
                        assert(old(self).max_side_ok(t));
                        let r = old(self).maxs()[t].1;
                        assert(r.other->0 != inner);
                        assert(r.outer != handle);
                    }
                    assert forall|h: ReflectedHandle| #[trigger] self.handles@.contains(h) && h != p implies self.paired_ok(h) && self.unpaired_ok(h) by {
                        assert(old(self).paired_ok(h));
                        assert(old(self).unpaired_ok(h));
                    }
                }
                self.make_free(p, partner_key.0);
                proof {
                    assert forall|h: ReflectedHandle| #[trigger] self.live_entries().contains_key(h) implies self.live_entries()[h] == live0[h] by {
                        assert(old(self).paired_ok(h));
                    }
                    self.lemma_live_dom();
                    assert(self.live_entries() =~= live0.remove(handle));
                }
                Ok((key, entry.value))
            },
            Some(Location::Max(inner)) => {
                let (key, record) = match self.max_heap.delete(inner) {
                    Ok(e) => e,
                    Err(e) => return Err(e),
                };
                proof {
                    assert(old(self).max_side_ok(inner));
                }
                let partner = record.other.unwrap();
                proof {
                    assert(old(self).min_side_ok(partner));
                }
                let (partner_key, partner_record) = match self.min_heap.delete(partner) {
                    Ok(e) => e,
                    Err(e) => return Err(e),
                };
                let p = partner_record.outer;
                let entry = self.remove_outer(handle);
                proof {
                    self.pairs@ = (self.pairs@ - 1) as nat;
                    self.min_heap.lemma_live_finite();
                    self.max_heap.lemma_live_finite();
                    assert(p != handle);
                    assert forall|t: TreeHandle| #[trigger] self.mins().contains_key(t) implies self.min_side_ok(t) by {
                        assert(old(self).min_side_ok(t));
                        let r = old(self).mins()[t].1;
                        assert(r.other->0 != inner);
                        assert(r.outer != handle);
                    }
                    assert forall|t: TreeHandle| #[trigger] self.maxs().contains_key(t) implies self.max_side_ok(t) by {
                        assert(old(self).max_side_ok(t));
                        let r = old(self).maxs()[t].1;
                        assert(r.other->0 != partner);
                        assert(r.outer != handle);
                    }
                    assert forall|h: ReflectedHandle| #[trigger] self.handles@.contains(h) && h != p implies self.paired_ok(h) && self.unpaired_ok(h) by {
                        assert(old(self).paired_ok(h));
                        assert(old(self).unpaired_ok(h));
                    }
                }
                self.make_free(p, partner_key);
                proof {
                    assert forall|h: ReflectedHandle| #[trigger] self.live_entries().contains_key(h) implies self.live_entries()[h] == live0[h] by {
                        assert(old(self).paired_ok(h));
                    }
                    self.lemma_live_dom();
                    assert(self.live_entries() =~= live0.remove(handle));
                }
                Ok((key.0, entry.value))
            },
        }
    }

    /// Removes and returns a minimum entry.
    pub fn pop_entry(&mut self) -> (result: Option<(K, V)>)
        requires
            old(self).is_well_formed(),
        ensures
            final(self).is_well_formed(),
            final(self).id() == old(self).id(),
            result is None <==> old(self).live_entries().len() == 0,
            result is None ==> final(self).live_entries() == old(self).live_entries(),
            result matches Some(e) ==> exists|h: ReflectedHandle| {
                &&& least_entry(old(self).live_entries(), h, |key: K| key.key_rank())
                &&& old(self).live_entries()[h] == e
                &&& final(self).live_entries() == old(self).live_entries().remove(h)
            },
    {
        let handle = self.minimum_handle()?;
        proof {
            self.lemma_live_dom();
        }
        match self.delete(handle) {
            Ok(e) => Some(e),
            Err(_) => None,
        }
    }

    /// Removes and returns a maximum entry.
    pub fn pop_max_entry(&mut self) -> (result: Option<(K, V)>)
        requires
            old(self).is_well_formed(),
        ensures
            final(self).is_well_formed(),
            final(self).id() == old(self).id(),
            result is None <==> old(self).live_entries().len() == 0,
            result is None ==> final(self).live_entries() == old(self).live_entries(),
            result matches Some(e) ==> exists|h: ReflectedHandle| {
                &&& greatest_entry(old(self).live_entries(), h, |key: K| key.key_rank())
                &&& old(self).live_entries()[h] == e
                &&& final(self).live_entries() == old(self).live_entries().remove(h)
            },
    {
        let handle = self.maximum_handle()?;
        proof {
            self.lemma_live_dom();
        }
        match self.delete(handle) {
            Ok(e) => Some(e),
            Err(_) => None,
        }
    }

    /// Removes every entry and invalidates every outstanding handle.
    pub fn clear(&mut self)
        requires
            old(self).is_well_formed(),
        ensures
            final(self).is_well_formed(),
            final(self).id() == old(self).id(),
            final(self).live_entries() == Map::<ReflectedHandle, (K, V)>::empty(),
    {
        self.free_slots.clear();
        let n = self.slots.len();
        let mut index: usize = 0;
        while index < n
            invariant
                self.slots@.len() == n,
                index <= n,
                self.free_slots@.len() == index,
                forall|j: int| 0 <= j < index ==> #[trigger] self.free_slots@[j] == j,
                forall|j: int| 0 <= j < index ==> (#[trigger] self.slots@[j]).entry is None,
                self.own_domain == old(self).own_domain,
                self.min_heap == old(self).min_heap,
                self.max_heap == old(self).max_heap,
            decreases n - index,
        {
            if self.slots[index].entry.is_some() {
                self.slots[index].entry = None;
                self.slots[index].generation = self.slots[index].generation.wrapping_add(1);
            }
            self.free_slots.push(index);
            index = index + 1;
        }
        self.min_heap.clear();
        self.max_heap.clear();
        self.free = None;
        self.len = 0;
        proof {
            self.handles@ = Set::empty();
            self.pairs@ = 0;
            assert(self.mins() =~= Map::empty());
            assert(self.maxs() =~= Map::empty());
            assert forall|h: ReflectedHandle| #[trigger] self.handles@.contains(h) <==> self.is_handle(h) by {
                if self.slot_live(h.slot as int) {
                    assert(self.slots@[h.slot as int].entry is None);
                }
            }
            assert(self.free_slots@.no_duplicates()) by {
                assert forall|i: int, j: int| 0 <= i < j < self.free_slots@.len() implies self.free_slots@[i] != self.free_slots@[j] by {
                    assert(self.free_slots@[i] == i);
                    assert(self.free_slots@[j] == j);
                }
            }
            assert forall|i: int| 0 <= i < self.free_slots@.len() implies (#[trigger] self.free_slots@[i]) < self.slots@.len()
                && self.slots@[self.free_slots@[i] as int].entry is None by {
                assert(self.free_slots@[i] == i);
            }
            assert(self.live_entries() =~= Map::empty());
        }
    }

    /// `self` is `before` with the value of `handle` replaced by `value`.
    spec fn value_replaced(&self, before: &Self, handle: ReflectedHandle, value: V) -> bool {
        &&& self.slots@ == before.slots@.update(
            handle.slot as int,
            OuterSlot {
                entry: Some(OuterEntry { key: before.ent(handle).key, value, location: before.ent(handle).location }),
                generation: before.slots@[handle.slot as int].generation,
            },
        )
        &&& self.min_heap == before.min_heap
        &&& self.max_heap == before.max_heap
        &&& self.free == before.free
        &&& self.len == before.len
        &&& self.own_domain == before.own_domain
        &&& self.free_slots == before.free_slots
        &&& self.handles == before.handles
        &&& self.pairs == before.pairs
    }

    fn entry_value_mut(&mut self, handle: ReflectedHandle) -> (v: &mut V)
        requires
            old(self).arena_ok(),
            old(self).handles@.contains(handle),
        ensures
            *v == old(self).ent(handle).value,
            final(self).value_replaced(&*old(self), handle, *final(v)),
    {
        proof {
            assert(self.is_handle(handle));
        }
        let entry = self.slots[handle.slot].entry.as_mut().unwrap();
        &mut entry.value
    }

    proof fn lemma_value_replaced(before: &Self, handle: ReflectedHandle)
        requires
            before.is_well_formed(),
            before.handles@.contains(handle),
        ensures
            forall|after: Self, value: V| #[trigger] after.value_replaced(before, handle, value) ==> {
                &&& after.is_well_formed()
                &&& after.id() == before.id()
                &&& after.live_entries() == before.live_entries().insert(handle, (before.live_entries()[handle].0, value))
            },
    {
        before.lemma_live_dom();
        assert forall|after: Self, value: V| #[trigger] after.value_replaced(before, handle, value) implies {
            &&& after.is_well_formed()
            &&& after.id() == before.id()
            &&& after.live_entries() == before.live_entries().insert(handle, (before.live_entries()[handle].0, value))
        } by {
            assert(before.is_handle(handle));
            assert forall|g: ReflectedHandle| #[trigger] after.handles@.contains(g) <==> after.is_handle(g) by {
                assert(before.handles@.contains(g) <==> before.is_handle(g));
            }
            assert forall|g: ReflectedHandle| #[trigger] before.handles@.contains(g) implies after.ent(g).key == before.ent(g).key
                && after.ent(g).location == before.ent(g).location && (g != handle ==> after.ent(g) == before.ent(g)) by {
                assert(before.is_handle(g));
                if g.slot == handle.slot {
                    assert(g == handle);
                }
            }
            assert forall|i: int| 0 <= i < after.free_slots@.len() implies (#[trigger] after.free_slots@[i]) < after.slots@.len()
                && after.slots@[after.free_slots@[i] as int].entry is None by {
                assert(before.slots@[before.free_slots@[i] as int].entry is None);
            }
            assert forall|t: TreeHandle| #[trigger] after.mins().contains_key(t) implies after.min_side_ok(t) by {
                assert(before.min_side_ok(t));
            }
            assert forall|t: TreeHandle| #[trigger] after.maxs().contains_key(t) implies after.max_side_ok(t) by {
                assert(before.max_side_ok(t));
            }
            assert forall|g: ReflectedHandle| #[trigger] after.handles@.contains(g) implies after.paired_ok(g) && after.unpaired_ok(g) by {
                assert(before.paired_ok(g));
                assert(before.unpaired_ok(g));
            }
            after.lemma_live_dom();
            assert forall|g: ReflectedHandle| #[trigger] after.live_entries().contains_key(g) implies after.live_entries()[g]
                == before.live_entries().insert(handle, (before.live_entries()[handle].0, value))[g] by {}
            assert(after.live_entries() =~= before.live_entries().insert(handle, (before.live_entries()[handle].0, value)));
        }
    }

    /// Returns mutable access to the value identified by `handle`.
    pub fn value_mut(&mut self, handle: ReflectedHandle) -> (result: Result<&mut V, InvalidHandle>)
        requires
            old(self).is_well_formed(),
        ensures
            checked(handle.issuer() == old(self).id(), old(self).live_entries().contains_key(handle), result),
            result matches Ok(v) ==> {
                &&& *v == old(self).live_entries()[handle].1
                &&& final(self).live_entries() == old(self).live_entries().insert(
                    handle,
                    (old(self).live_entries()[handle].0, *final(v)),
                )
                &&& final(self).is_well_formed()
                &&& final(self).id() == old(self).id()
            },
            result is Err ==> *final(self) == *old(self),
    {
        proof {
            self.lemma_live_dom();
        }
        self.validate(handle)?;
        proof {
            Self::lemma_value_replaced(self, handle);
        }
        Ok(self.entry_value_mut(handle))
    }

    /// Takes a paired entry and its partner out of the inner heaps, gives the
    /// entry `key`, and pairs the two again.
    fn repair(&mut self, handle: ReflectedHandle, key: K)
        requires
            old(self).is_well_formed(),
            old(self).handles@.contains(handle),
            old(self).ent(handle).location is Some,
        ensures
            final(self).is_well_formed(),
            final(self).id() == old(self).id(),
            final(self).live_entries() == old(self).live_entries().insert(handle, (key, old(self).ent(handle).value)),
    {
        proof {
            self.lemma_live_dom();
            self.min_heap.lemma_live_issued();
            self.max_heap.lemma_live_issued();
            self.min_heap.lemma_live_finite();
            self.max_heap.lemma_live_finite();
            assert(self.paired_ok(handle));
        }
        let ghost live0 = self.live_entries();
        let (partner_outer, partner_key) = match self.location_of(handle) {
            Some(Location::Min(inner)) => {
                proof {
                    assert(self.min_side_ok(inner));
                }
                let (_, record) = match self.min_heap.delete(inner) {
                    Ok(e) => e,
                    Err(_) => return,
                };
                let partner = record.other.unwrap();
                proof {
                    assert(old(self).max_side_ok(partner));
                }
                let (partner_key, partner_record) = match self.max_heap.delete(partner) {
                    Ok(e) => e,
                    Err(_) => return,
                };
                proof {
                    self.min_heap.lemma_live_finite();
                    self.max_heap.lemma_live_finite();
                    assert forall|t: TreeHandle| #[trigger] self.mins().contains_key(t) implies self.min_side_ok(t) by {
                        assert(old(self).min_side_ok(t));
                        let r = old(self).mins()[t].1;
                        assert(r.other->0 != partner);
                    }
                    assert forall|t: TreeHandle| #[trigger] self.maxs().contains_key(t) implies self.max_side_ok(t) by {
                        assert(old(self).max_side_ok(t));
                        let r = old(self).maxs()[t].1;
                        assert(r.other->0 != inner);
                    }
                    assert forall|h: ReflectedHandle| #[trigger] self.handles@.contains(h) && h != handle && h != partner_record.outer implies self.paired_ok(h) by {
                        assert(old(self).paired_ok(h));
                    }
                }
                (partner_record.outer, partner_key.0)
            },
            Some(Location::Max(inner)) => {
                proof {
                    assert(self.max_side_ok(inner));
                }
                let (_, record) = match self.max_heap.delete(inner) {
                    Ok(e) => e,
                    Err(_) => return,
                };
                let partner = record.other.unwrap();
                proof {
                    assert(old(self).min_side_ok(partner));
                }
                let (partner_key, partner_record) = match self.min_heap.delete(partner) {
                    Ok(e) => e,
                    Err(_) => return,
                };
                proof {
                    self.min_heap.lemma_live_finite();
                    self.max_heap.lemma_live_finite();
                    assert forall|t: TreeHandle| #[trigger] self.mins().contains_key(t) implies self.min_side_ok(t) by {
                        assert(old(self).min_side_ok(t));
                        let r = old(self).mins()[t].1;
                        assert(r.other->0 != inner);
                    }
                    assert forall|t: TreeHandle| #[trigger] self.maxs().contains_key(t) implies self.max_side_ok(t) by {
                        assert(old(self).max_side_ok(t));
                        let r = old(self).maxs()[t].1;
                        assert(r.other->0 != partner);
                    }
                    assert forall|h: ReflectedHandle| #[trigger] self.handles@.contains(h) && h != handle && h != partner_record.outer implies self.paired_ok(h) by {
                        assert(old(self).paired_ok(h));
                    }
                }
                (partner_record.outer, partner_key)
            },
            None => {
                return;
            },
        };
        proof {
            self.pairs@ = (self.pairs@ - 1) as nat;
            assert(partner_outer != handle);
            assert forall|h: ReflectedHandle| #[trigger] old(self).handles@.contains(h) && h != handle && h != partner_outer implies self.key_of(h) == old(self).key_of(h) by {
                assert(old(self).paired_ok(h));
            }
        }
        let ghost mid = *self;
        self.set_place(handle, Some(key), None);
        self.set_place(partner_outer, Some(partner_key), None);
        proof {
            assert forall|t: TreeHandle| #[trigger] self.mins().contains_key(t) implies self.min_side_ok(t) by {
                assert(mid.min_side_ok(t));
            }
            assert forall|t: TreeHandle| #[trigger] self.maxs().contains_key(t) implies self.max_side_ok(t) by {
                assert(mid.max_side_ok(t));
            }
            assert forall|h: ReflectedHandle| #[trigger] self.handles@.contains(h) implies self.paired_ok(h) by {
                if h != handle && h != partner_outer {
                    assert(mid.paired_ok(h));
                }
            }
            assert forall|h: ReflectedHandle| #[trigger] self.handles@.contains(h) && h != handle && h != partner_outer implies self.unpaired_ok(h) by {
                assert(old(self).unpaired_ok(h));
            }
        }
        self.insert_pair(handle, partner_outer);
        proof {
            self.lemma_live_dom();
            assert forall|h: ReflectedHandle| #[trigger] self.live_entries().contains_key(h) implies self.live_entries()[h]
                == live0.insert(handle, (key, old(self).ent(handle).value))[h] by {
                if h != handle && h != partner_outer {
                    assert(old(self).paired_ok(h));
                }
                if h == partner_outer {
                    assert(old(self).paired_ok(h));
                }
            }
            assert(self.live_entries() =~= live0.insert(handle, (key, old(self).ent(handle).value)));
        }
    }

    /// Decreases the key identified by `handle`.
    pub fn decrease_key(&mut self, handle: ReflectedHandle, key: K) -> (result: Result<(), DecreaseKeyError>)
        requires
            old(self).is_well_formed(),
        ensures
            final(self).is_well_formed(),
            final(self).id() == old(self).id(),
            match result {
                Ok(()) => {
                    &&& handle.issuer() == old(self).id()
                    &&& old(self).live_entries().contains_key(handle)
                    &&& key.key_rank() <= old(self).live_entries()[handle].0.key_rank()
                    &&& final(self).live_entries() == old(self).live_entries().insert(handle, (key, old(self).live_entries()[handle].1))
                },
                Err(DecreaseKeyError::InvalidHandle(e)) => {
                    &&& checked(handle.issuer() == old(self).id(), old(self).live_entries().contains_key(handle), Err::<(), InvalidHandle>(e))
                    &&& final(self).live_entries() == old(self).live_entries()
                },
                Err(DecreaseKeyError::NotDecreased) => {
                    &&& handle.issuer() == old(self).id()
                    &&& old(self).live_entries().contains_key(handle)
                    &&& key.key_rank() > old(self).live_entries()[handle].0.key_rank()
                    &&& final(self).live_entries() == old(self).live_entries()
                },
                Err(DecreaseKeyError::InvalidKey) => false,
            },
    {
        proof {
            self.lemma_live_dom();
            self.min_heap.lemma_live_issued();
            self.max_heap.lemma_live_issued();
        }
        if let Err(e) = self.validate(handle) {
            return Err(DecreaseKeyError::InvalidHandle(e));
        }
        let (greater, equal) = match self.key(handle) {
            Ok(current) => (current.key_lt(&key), !key.key_lt(current)),
            Err(e) => return Err(DecreaseKeyError::InvalidHandle(e)),
        };
        if greater {
            return Err(DecreaseKeyError::NotDecreased);
        }
        let ghost live0 = self.live_entries();
        proof {
            assert(self.paired_ok(handle));
            assert(self.unpaired_ok(handle));
        }
        match self.location_of(handle) {
            None => {
                let ghost mid = *self;
                self.set_place(handle, Some(key), None);
                proof {
                    assert forall|t: TreeHandle| #[trigger] self.mins().contains_key(t) implies self.min_side_ok(t) by {
                        assert(mid.min_side_ok(t));
                    }
                    assert forall|t: TreeHandle| #[trigger] self.maxs().contains_key(t) implies self.max_side_ok(t) by {
                        assert(mid.max_side_ok(t));
                    }
                    assert forall|h: ReflectedHandle| #[trigger] self.handles@.contains(h) implies self.paired_ok(h) && self.unpaired_ok(h) by {
                        assert(mid.paired_ok(h));
                        assert(mid.unpaired_ok(h));
                    }
                    self.lemma_live_dom();
                    assert(self.live_entries() =~= live0.insert(handle, (key, live0[handle].1)));
                }
            },
            Some(Location::Min(inner)) => {
                let ghost mid = *self;
                match self.min_heap.decrease_key(inner, key) {
                    Ok(()) => {},
                    Err(_) => {
                        proof {
                            assert(false);
                        }
                    },
                }
                proof {
                    assert(mid.min_side_ok(inner));
                    assert forall|t: TreeHandle| #[trigger] self.mins().contains_key(t) implies self.min_side_ok(t) by {
                        assert(mid.min_side_ok(t));
                    }
                    assert forall|t: TreeHandle| #[trigger] self.maxs().contains_key(t) implies self.max_side_ok(t) by {
                        assert(mid.max_side_ok(t));
                    }
                    assert forall|h: ReflectedHandle| #[trigger] self.handles@.contains(h) implies self.paired_ok(h) && self.unpaired_ok(h) by {
                        assert(mid.paired_ok(h));
                        assert(mid.unpaired_ok(h));
                    }
                    self.lemma_live_dom();
                    assert forall|h: ReflectedHandle| #[trigger] self.live_entries().contains_key(h) implies self.live_entries()[h]
                        == live0.insert(handle, (key, live0[handle].1))[h] by {
                        assert(mid.paired_ok(h));
                    }
                    assert(self.live_entries() =~= live0.insert(handle, (key, live0[handle].1)));
                }
            },
            Some(Location::Max(inner)) => {
                if equal {
                    let ghost mid = *self;
                    match self.max_heap.decrease_key(inner, Reverse(key)) {
                        Ok(()) => {},
                        Err(_) => {
                            proof {
                                assert(false);
                            }
                        },
                    }
                    proof {
                        assert(mid.max_side_ok(inner));
                        assert forall|t: TreeHandle| #[trigger] self.mins().contains_key(t) implies self.min_side_ok(t) by {
                            assert(mid.min_side_ok(t));
                        }
                        assert forall|t: TreeHandle| #[trigger] self.maxs().contains_key(t) implies self.max_side_ok(t) by {
                            assert(mid.max_side_ok(t));
                        }
                        assert forall|h: ReflectedHandle| #[trigger] self.handles@.contains(h) implies self.paired_ok(h) && self.unpaired_ok(h) by {
                            assert(mid.paired_ok(h));
                            assert(mid.unpaired_ok(h));
                        }
                        self.lemma_live_dom();
                        assert forall|h: ReflectedHandle| #[trigger] self.live_entries().contains_key(h) implies self.live_entries()[h]
                            == live0.insert(handle, (key, live0[handle].1))[h] by {
                            assert(mid.paired_ok(h));
                        }
                        assert(self.live_entries() =~= live0.insert(handle, (key, live0[handle].1)));
                    }
                } else {
                    self.repair(handle, key);
                }
            },
        }
        Ok(())
    }

    /// Increases the key identified by `handle`.
    pub fn increase_key(&mut self, handle: ReflectedHandle, key: K) -> (result: Result<(), IncreaseKeyError>)
        requires
            old(self).is_well_formed(),
        ensures
            final(self).is_well_formed(),
            final(self).id() == old(self).id(),
            match result {
                Ok(()) => {
                    &&& handle.issuer() == old(self).id()
                    &&& old(self).live_entries().contains_key(handle)
                    &&& key.key_rank() >= old(self).live_entries()[handle].0.key_rank()
                    &&& final(self).live_entries() == old(self).live_entries().insert(handle, (key, old(self).live_entries()[handle].1))
                },
                Err(IncreaseKeyError::InvalidHandle(e)) => {
                    &&& checked(handle.issuer() == old(self).id(), old(self).live_entries().contains_key(handle), Err::<(), InvalidHandle>(e))
                    &&& final(self).live_entries() == old(self).live_entries()
                },
                Err(IncreaseKeyError::NotIncreased) => {
                    &&& handle.issuer() == old(self).id()
                    &&& old(self).live_entries().contains_key(handle)
                    &&& key.key_rank() < old(self).live_entries()[handle].0.key_rank()
                    &&& final(self).live_entries() == old(self).live_entries()
                },
            },
    {
        proof {
            self.lemma_live_dom();
            self.min_heap.lemma_live_issued();
            self.max_heap.lemma_live_issued();
        }
        if let Err(e) = self.validate(handle) {
            return Err(IncreaseKeyError::InvalidHandle(e));
        }
        let (smaller, equal) = match self.key(handle) {
            Ok(current) => (key.key_lt(current), !current.key_lt(&key)),
            Err(e) => return Err(IncreaseKeyError::InvalidHandle(e)),
        };
        if smaller {
            return Err(IncreaseKeyError::NotIncreased);
        }
        let ghost live0 = self.live_entries();
        proof {
            assert(self.paired_ok(handle));
            assert(self.unpaired_ok(handle));
        }
        match self.location_of(handle) {
            None => {
                let ghost mid = *self;
                self.set_place(handle, Some(key), None);
                proof {
                    assert forall|t: TreeHandle| #[trigger] self.mins().contains_key(t) implies self.min_side_ok(t) by {
                        assert(mid.min_side_ok(t));
                    }
                    assert forall|t: TreeHandle| #[trigger] self.maxs().contains_key(t) implies self.max_side_ok(t) by {
                        assert(mid.max_side_ok(t));
                    }
                    assert forall|h: ReflectedHandle| #[trigger] self.handles@.contains(h) implies self.paired_ok(h) && self.unpaired_ok(h) by {
                        assert(mid.paired_ok(h));
                        assert(mid.unpaired_ok(h));
                    }
                    self.lemma_live_dom();
                    assert(self.live_entries() =~= live0.insert(handle, (key, live0[handle].1)));
                }
            },
            Some(Location::Max(inner)) => {
                let ghost mid = *self;
                match self.max_heap.decrease_key(inner, Reverse(key)) {
                    Ok(()) => {},
                    Err(_) => {
                        proof {
                            assert(false);
                        }
                    },
                }
                proof {
                    assert(mid.max_side_ok(inner));
                    assert forall|t: TreeHandle| #[trigger] self.mins().contains_key(t) implies self.min_side_ok(t) by {
                        assert(mid.min_side_ok(t));
                    }
                    assert forall|t: TreeHandle| #[trigger] self.maxs().contains_key(t) implies self.max_side_ok(t) by {
                        assert(mid.max_side_ok(t));
                    }
                    assert forall|h: ReflectedHandle| #[trigger] self.handles@.contains(h) implies self.paired_ok(h) && self.unpaired_ok(h) by {
                        assert(mid.paired_ok(h));
                        assert(mid.unpaired_ok(h));
                    }
                    self.lemma_live_dom();
                    assert forall|h: ReflectedHandle| #[trigger] self.live_entries().contains_key(h) implies self.live_entries()[h]
                        == live0.insert(handle, (key, live0[handle].1))[h] by {
                        assert(mid.paired_ok(h));
                    }
                    assert(self.live_entries() =~= live0.insert(handle, (key, live0[handle].1)));
                }
            },
            Some(Location::Min(inner)) => {
                if equal {
                    let ghost mid = *self;
                    match self.min_heap.decrease_key(inner, key) {
                        Ok(()) => {},
                        Err(_) => {
                            proof {
                                assert(false);
                            }
                        },
                    }
                    proof {
                        assert(mid.min_side_ok(inner));
                        assert forall|t: TreeHandle| #[trigger] self.mins().contains_key(t) implies self.min_side_ok(t) by {
                            assert(mid.min_side_ok(t));
                        }
                        assert forall|t: TreeHandle| #[trigger] self.maxs().contains_key(t) implies self.max_side_ok(t) by {
                            assert(mid.max_side_ok(t));
                        }
                        assert forall|h: ReflectedHandle| #[trigger] self.handles@.contains(h) implies self.paired_ok(h) && self.unpaired_ok(h) by {
                            assert(mid.paired_ok(h));
                            assert(mid.unpaired_ok(h));
                        }
                        self.lemma_live_dom();
                        assert forall|h: ReflectedHandle| #[trigger] self.live_entries().contains_key(h) implies self.live_entries()[h]
                            == live0.insert(handle, (key, live0[handle].1))[h] by {
                            assert(mid.paired_ok(h));
                        }
                        assert(self.live_entries() =~= live0.insert(handle, (key, live0[handle].1)));
                    }
                } else {
                    self.repair(handle, key);
                }
            },
        }
        Ok(())
    }
}

impl<K: HeapKey, V> ReflectedHeap<K, V> {
    /// Inserts an entry; a reflected heap always accepts one.
    pub fn try_insert(&mut self, key: K, value: V) -> (result: Result<ReflectedHandle, crate::tree::handles::MeldError>)
        requires
            old(self).is_well_formed(),
            old(self).live_entries().len() < usize::MAX,
        ensures
            final(self).is_well_formed(),
            final(self).id() == old(self).id(),
            result matches Ok(handle) ==> {
                &&& handle.issuer() == old(self).id()
                &&& !old(self).live_entries().contains_key(handle)
                &&& final(self).live_entries() == old(self).live_entries().insert(handle, (key, value))
            },
            result is Ok,
    {
        Ok(self.insert(key, value))
    }
}

impl<K: HeapKey> ReflectedHeap<K, ()> {
    /// Inserts a key into this value-less heap.
    pub fn push(&mut self, key: K)
        requires
            old(self).is_well_formed(),
            old(self).live_entries().len() < usize::MAX,
        ensures
            final(self).is_well_formed(),
            exists|h: ReflectedHandle| {
                &&& !old(self).live_entries().contains_key(h)
                &&& final(self).live_entries() == old(self).live_entries().insert(h, (key, ()))
            },
    {
        self.insert(key, ());
    }

    /// Returns a minimum key, if present.
    pub fn peek(&self) -> (result: Option<&K>)
        requires
            self.is_well_formed(),
        ensures
            result is None <==> self.live_entries().len() == 0,
            result matches Some(k) ==> exists|h: ReflectedHandle| {
                &&& least_entry(self.live_entries(), h, |key: K| key.key_rank())
                &&& self.live_entries()[h].0 == *k
            },
    {
        match self.peek_entry() {
            Some((_, k, _)) => Some(k),
            None => None,
        }
    }

    /// Removes and returns a minimum key, if present.
    pub fn pop(&mut self) -> (result: Option<K>)
        requires
            old(self).is_well_formed(),
        ensures
            final(self).is_well_formed(),
            result is None <==> old(self).live_entries().len() == 0,
            result matches Some(k) ==> exists|h: ReflectedHandle| {
                &&& least_entry(old(self).live_entries(), h, |key: K| key.key_rank())
                &&& old(self).live_entries()[h].0 == k
                &&& final(self).live_entries() == old(self).live_entries().remove(h)
            },
    {
        match self.pop_entry() {
            Some((k, _)) => Some(k),
            None => None,
        }
    }

    /// Returns a maximum key, if present.
    pub fn peek_max(&self) -> (result: Option<&K>)
        requires
            self.is_well_formed(),
        ensures
            result is None <==> self.live_entries().len() == 0,
            result matches Some(k) ==> exists|h: ReflectedHandle| {
                &&& greatest_entry(self.live_entries(), h, |key: K| key.key_rank())
                &&& self.live_entries()[h].0 == *k
            },
    {
        match self.peek_max_entry() {
            Some((_, k, _)) => Some(k),
            None => None,
        }
    }

    /// Removes and returns a maximum key, if present.
    pub fn pop_max(&mut self) -> (result: Option<K>)
        requires
            old(self).is_well_formed(),
        ensures
            final(self).is_well_formed(),
            result is None <==> old(self).live_entries().len() == 0,
            result matches Some(k) ==> exists|h: ReflectedHandle| {
                &&& greatest_entry(old(self).live_entries(), h, |key: K| key.key_rank())
                &&& old(self).live_entries()[h].0 == k
                &&& final(self).live_entries() == old(self).live_entries().remove(h)
            },
    {
        match self.pop_max_entry() {
            Some((k, _)) => Some(k),
            None => None,
        }
    }
}

impl<K: HeapKey, V> AddressableHeap<K, V> for ReflectedHeap<K, V> {
    type Handle = ReflectedHandle;

    open spec fn well_formed(&self) -> bool {
        self.is_well_formed()
    }

    open spec fn live(&self) -> Map<ReflectedHandle, (K, V)> {
        self.live_entries()
    }

    open spec fn owns(&self, handle: ReflectedHandle) -> bool {
        handle.issuer() == self.id()
    }

    open spec fn is_consumed(&self) -> bool {
        false
    }

    open spec fn priority(&self, key: K) -> int {
        key.key_rank()
    }

    fn insert(&mut self, key: K, value: V) -> (handle: ReflectedHandle) {
        ReflectedHeap::insert(self, key, value)
    }

    fn peek(&self) -> (result: Option<(ReflectedHandle, &K, &V)>) {
        self.peek_entry()
    }

    fn pop(&mut self) -> (result: Option<(K, V)>) {
        self.pop_entry()
    }

    fn key(&self, handle: ReflectedHandle) -> (result: Result<&K, InvalidHandle>) {
        ReflectedHeap::key(self, handle)
    }

    fn value(&self, handle: ReflectedHandle) -> (result: Result<&V, InvalidHandle>) {
        ReflectedHeap::value(self, handle)
    }

    fn value_mut(&mut self, handle: ReflectedHandle) -> (result: Result<&mut V, InvalidHandle>) {
        ReflectedHeap::value_mut(self, handle)
    }

    fn delete(&mut self, handle: ReflectedHandle) -> (result: Result<(K, V), InvalidHandle>) {
        ReflectedHeap::delete(self, handle)
    }

    fn len(&self) -> (result: usize) {
        ReflectedHeap::len(self)
    }

    fn clear(&mut self) {
        ReflectedHeap::clear(self)
    }
}

impl<K: HeapKey, V> DecreaseKeyHeap<K, V> for ReflectedHeap<K, V> {
    fn decrease_key(&mut self, handle: ReflectedHandle, key: K) -> (result: Result<(), DecreaseKeyError>) {
        ReflectedHeap::decrease_key(self, handle, key)
    }
}

impl<K: HeapKey, V> DoubleEndedAddressableHeap<K, V> for ReflectedHeap<K, V> {
    fn peek_max(&self) -> (result: Option<(ReflectedHandle, &K, &V)>) {
        self.peek_max_entry()
    }

    fn pop_max(&mut self) -> (result: Option<(K, V)>) {
        self.pop_max_entry()
    }

    fn increase_key(&mut self, handle: ReflectedHandle, key: K) -> (result: Result<(), IncreaseKeyError>) {
        ReflectedHeap::increase_key(self, handle, key)
    }
}

/// The reflected heap over Fibonacci heaps, under the name its users know.
pub type ReflectedFibonacciHeap<K, V = ()> = ReflectedHeap<K, V>;

impl<K: HeapKey, V> Default for ReflectedHeap<K, V> {
    fn default() -> (heap: Self)
        ensures
            heap.is_well_formed(),
            heap.live_entries() == Map::<ReflectedHandle, (K, V)>::empty(),
    {
        Self::new()
    }
}

impl<K: HeapKey> Heap<K> for ReflectedHeap<K, ()> {
    open spec fn well_formed(&self) -> bool {
        &&& self.is_well_formed()
        &&& self.live_entries().dom().finite()
    }

    open spec fn items(&self) -> Multiset<K> {
        keys_of(self.live_entries())
    }

    open spec fn priority(&self, value: K) -> int {
        value.key_rank()
    }

    open spec fn accepts_push(&self) -> bool {
        true
    }

    fn push(&mut self, value: K) {
        proof {
            lemma_keys_len(self.live_entries());
        }
        let handle = ReflectedHeap::insert(self, value, ());
        proof {
            lemma_keys_insert(old(self).live_entries(), handle, (value, ()));
            self.lemma_live_dom();
        }
    }

    fn peek(&self) -> (result: Option<&K>) {
        proof {
            lemma_keys_len(self.live_entries());
        }
        match self.peek_entry() {
            Some((h, k, _)) => {
                proof {
                    lemma_keys_remove(self.live_entries(), h);
                    assert forall|other: K| self.items().contains(other) implies k.key_rank() <= other.key_rank() by {
                        lemma_keys_contains(self.live_entries(), other);
                        let g = choose|g: ReflectedHandle| self.live_entries().dom().contains(g) && self.live_entries()[g].0 == other;
                        assert(self.live_entries().contains_key(g));
                    }
                }
                Some(k)
            },
            None => None,
        }
    }

    fn pop(&mut self) -> (result: Option<K>) {
        proof {
            lemma_keys_len(self.live_entries());
        }
        let popped = self.pop_entry();
        proof {
            self.lemma_live_dom();
            if popped is Some {
                let e = popped->0;
                let h = choose|h: ReflectedHandle| {
                    &&& least_entry(old(self).live_entries(), h, |key: K| key.key_rank())
                    &&& old(self).live_entries()[h] == e
                    &&& self.live_entries() == old(self).live_entries().remove(h)
                };
                lemma_keys_remove(old(self).live_entries(), h);
                assert forall|other: K| old(self).items().contains(other) implies e.0.key_rank() <= other.key_rank() by {
                    lemma_keys_contains(old(self).live_entries(), other);
                    let g = choose|g: ReflectedHandle| old(self).live_entries().dom().contains(g)
                        && old(self).live_entries()[g].0 == other;
                    assert(old(self).live_entries().contains_key(g));
                }
            }
        }
        match popped {
            Some((k, _)) => Some(k),
            None => None,
        }
    }

    fn len(&self) -> (result: usize) {
        proof {
            lemma_keys_len(self.live_entries());
        }
        ReflectedHeap::len(self)
    }

    fn clear(&mut self) {
        ReflectedHeap::clear(self);
        proof {
            lemma_keys_empty(self.live_entries());
        }
    }
}

impl<K: HeapKey> DoubleEndedHeap<K> for ReflectedHeap<K, ()> {
    fn peek_max(&self) -> (result: Option<&K>) {
        proof {
            lemma_keys_len(self.live_entries());
        }
        match self.peek_max_entry() {
            Some((h, k, _)) => {
                proof {
                    lemma_keys_remove(self.live_entries(), h);
                    assert forall|other: K| self.items().contains(other) implies other.key_rank() <= k.key_rank() by {
                        lemma_keys_contains(self.live_entries(), other);
                        let g = choose|g: ReflectedHandle| self.live_entries().dom().contains(g) && self.live_entries()[g].0 == other;
                        assert(self.live_entries().contains_key(g));
                    }
                }
                Some(k)
            },
            None => None,
        }
    }

    fn pop_max(&mut self) -> (result: Option<K>) {
        proof {
            lemma_keys_len(self.live_entries());
        }
        let popped = self.pop_max_entry();
        proof {
            self.lemma_live_dom();
            if popped is Some {
                let e = popped->0;
                let h = choose|h: ReflectedHandle| {
                    &&& greatest_entry(old(self).live_entries(), h, |key: K| key.key_rank())
                    &&& old(self).live_entries()[h] == e
                    &&& self.live_entries() == old(self).live_entries().remove(h)
                };
                lemma_keys_remove(old(self).live_entries(), h);
                assert forall|other: K| old(self).items().contains(other) implies other.key_rank() <= e.0.key_rank() by {
                    lemma_keys_contains(old(self).live_entries(), other);
                    let g = choose|g: ReflectedHandle| old(self).live_entries().dom().contains(g)
                        && old(self).live_entries()[g].0 == other;
                    assert(old(self).live_entries().contains_key(g));
                }
            }
        }
        match popped {
            Some((k, _)) => Some(k),
            None => None,
        }
    }
}

} // verus!
