//! The storage of the explicit-tree addressable heaps: a complete tree of
//! nodes linked by parent and child pointers, each node holding one entry,
//! and a table of entry slots that handles name.
//!
//! Node `i` of a tree with `n` nodes and branching factor `d` has parent
//! `(i - 1) / d` and children `d * i + 1 ..= d * i + d` (those below `n`);
//! the pointers are kept equal to these positions.  Entries move between
//! nodes to restore heap order while their slots, and so their handles,
//! stay put.
use vstd::prelude::*;

use crate::array::layout::{
    heap_ordered, lemma_down_done, lemma_down_start_root, lemma_down_step, lemma_drop_last_ordered,
    lemma_parent_bounds, lemma_replace_state, lemma_root_least, lemma_up_done, lemma_up_start,
    lemma_up_step, least_child, ordered_from, parent_of, sifting_down, sifting_up, swapped,
};
use crate::error::{DecreaseKeyError, InvalidHandle};
use crate::order::HeapKey;
use crate::std_support::fresh_heap_id;
use crate::tree::handles::TreeHandle;
use crate::{checked, least_entry};

verus! {

broadcast use {vstd::set::group_set_axioms, vstd::map::group_map_axioms};

pub(crate) struct Entry<K, V> {
    pub(crate) key: K,
    pub(crate) value: V,
    position: usize,
}

struct EntrySlot<K, V> {
    entry: Option<Entry<K, V>>,
    generation: u64,
}

/// How one slot may change: it keeps its generation and stays occupied if
/// it was, or an occupied slot is emptied with its generation advanced by
/// one (wrapping).
spec fn entry_step<K, V>(after: EntrySlot<K, V>, before: EntrySlot<K, V>) -> bool {
    ||| after.generation == before.generation && (before.entry is Some ==> after.entry is Some)
    ||| before.entry is Some && after.entry is None && after.generation == before.generation.wrapping_add(1)
}

struct Node {
    parent: Option<usize>,
    children: Vec<Option<usize>>,
    entry: usize,
}

/// The ranking of keys that heap order follows.
pub open spec fn key_order<K: HeapKey>() -> spec_fn(K) -> int {
    |k: K| k.key_rank()
}

pub(crate) struct ExplicitTreeCore<K, V> {
    degree: usize,
    entries: Vec<EntrySlot<K, V>>,
    free_entries: Vec<usize>,
    nodes: Vec<Node>,
    domain: u64,
}

impl<K: HeapKey, V> ExplicitTreeCore<K, V> {
    pub(crate) closed spec fn arity(&self) -> int {
        self.degree as int
    }

    pub(crate) closed spec fn domain_id(&self) -> u64 {
        self.domain
    }

    spec fn occupied(&self, s: int) -> bool {
        0 <= s < self.entries@.len() && self.entries@[s].entry is Some
    }

    spec fn ent(&self, s: int) -> Entry<K, V> {
        self.entries@[s].entry->0
    }

    spec fn slot_at(&self, i: int) -> int {
        self.nodes@[i].entry as int
    }

    /// The keys of the nodes, in node order.
    spec fn keys(&self) -> Seq<K> {
        Seq::new(self.nodes@.len(), |i: int| self.ent(self.slot_at(i)).key)
    }

    /// Every node holds an occupied slot that records the node, and every
    /// occupied slot is held by the node it records.
    spec fn linked(&self) -> bool {
        &&& forall|i: int|
            #![trigger self.nodes@[i]]
            0 <= i < self.nodes@.len() ==> {
                &&& self.occupied(self.slot_at(i))
                &&& self.ent(self.slot_at(i)).position == i
            }
        &&& forall|s: int|
            #![trigger self.entries@[s]]
            self.occupied(s) ==> {
                &&& self.ent(s).position < self.nodes@.len()
                &&& self.slot_at(self.ent(s).position as int) == s
            }
    }

    /// The pointers of node `i` name its parent and children positions.
    spec fn node_shaped(&self, i: int, n: int) -> bool {
        let d = self.degree as int;
        let node = self.nodes@[i];
        &&& i == 0 ==> node.parent is None
        &&& i > 0 ==> node.parent is Some && node.parent->0 == parent_of(i, d)
        &&& node.children@.len() == d
        &&& forall|j: int|
            0 <= j < d ==> {
                &&& (#[trigger] node.children@[j] is Some <==> d * i + 1 + j < n)
                &&& node.children@[j] is Some ==> node.children@[j]->0 == d * i + 1 + j
            }
    }

    spec fn shaped(&self) -> bool {
        forall|i: int|
            #![trigger self.nodes@[i]]
            0 <= i < self.nodes@.len() ==> self.node_shaped(i, self.nodes@.len() as int)
    }

    spec fn free_ok(&self) -> bool {
        &&& forall|k: int|
            #![trigger self.free_entries@[k]]
            0 <= k < self.free_entries@.len() ==> {
                &&& self.free_entries@[k] < self.entries@.len()
                &&& self.entries@[self.free_entries@[k] as int].entry is None
            }
        &&& self.free_entries@.no_duplicates()
    }

    pub(crate) closed spec fn wf(&self) -> bool {
        &&& self.degree >= 2
        &&& self.linked()
        &&& self.shaped()
        &&& self.free_ok()
        &&& heap_ordered(self.keys(), key_order::<K>(), self.degree as int)
    }

    pub(crate) closed spec fn live(&self) -> Map<TreeHandle, (K, V)> {
        Map::new(
            |h: TreeHandle|
                h.domain == self.domain && self.occupied(h.slot as int) && h.generation
                    == self.entries@[h.slot as int].generation,
            |h: TreeHandle| (self.ent(h.slot as int).key, self.ent(h.slot as int).value),
        )
    }

    spec fn handle_of(&self, s: usize) -> TreeHandle {
        TreeHandle { domain: self.domain, slot: s, generation: self.entries@[s as int].generation }
    }

    /// Two states whose slots hold the same entries under the same
    /// generations.
    spec fn same_slots(&self, other: &Self) -> bool {
        &&& self.entries@.len() == other.entries@.len()
        &&& self.domain == other.domain
        &&& self.degree == other.degree
        &&& self.free_entries == other.free_entries
        &&& forall|s: int|
            #![trigger self.entries@[s]]
            0 <= s < self.entries@.len() ==> {
                &&& self.entries@[s].generation == other.entries@[s].generation
                &&& (self.entries@[s].entry is Some <==> other.entries@[s].entry is Some)
                &&& self.entries@[s].entry is Some ==> self.ent(s).key == other.ent(s).key
                    && self.ent(s).value == other.ent(s).value
            }
    }

    /// Whether this core has handed out `handle`: its slot has moved past
    /// the handle's generation, or still holds the entry it names.
    pub(crate) closed spec fn handed_out(&self, h: TreeHandle) -> bool {
        &&& h.domain == self.domain
        &&& h.slot < self.entries@.len()
        &&& (h.generation < self.entries@[h.slot as int].generation || (h.generation
            == self.entries@[h.slot as int].generation && self.entries@[h.slot as int].entry is Some))
    }

    /// Whether the generation counter of `handle`'s slot is at its last value.
    pub(crate) closed spec fn spent(&self, h: TreeHandle) -> bool {
        h.slot < self.entries@.len() && self.entries@[h.slot as int].generation == u64::MAX
    }

    /// Every slot of `before` moved by one step of [`entry_step`].
    pub(crate) closed spec fn slots_advanced(&self, before: &Self) -> bool {
        &&& self.domain == before.domain
        &&& self.entries@.len() >= before.entries@.len()
        &&& forall|s: usize|
            #![trigger self.entries@[s as int]]
            s < before.entries@.len() ==> entry_step(self.entries@[s as int], before.entries@[s as int])
    }

    /// The number of entry slots.
    pub(crate) closed spec fn slot_count(&self) -> nat {
        self.entries@.len()
    }

    /// No slot's generation exceeds `bound`.
    pub(crate) closed spec fn gens_within(&self, bound: nat) -> bool {
        forall|s: usize| #![trigger self.entries@[s as int]] s < self.entries@.len() ==> self.entries@[s as int].generation <= bound
    }

    /// Every slot of `before` keeps its generation, and new slots start at
    /// generation zero.
    pub(crate) closed spec fn gens_kept(&self, before: &Self) -> bool {
        &&& self.entries@.len() >= before.entries@.len()
        &&& forall|s: usize|
            #![trigger self.entries@[s as int]]
            s < self.entries@.len() ==> self.entries@[s as int].generation == if s < before.entries@.len() {
                before.entries@[s as int].generation
            } else {
                0
            }
    }

    pub(crate) proof fn lemma_gens_kept(&self, before: &Self, bound: nat)
        requires
            self.gens_kept(before),
            before.gens_within(bound),
        ensures
            self.gens_within(bound),
    {
        assert forall|s: usize| #![trigger self.entries@[s as int]] s < self.entries@.len() implies self.entries@[s as int].generation
            <= bound by {
            if s < before.entries@.len() {
                assert(before.entries@[s as int] == before.entries@[s as int]);
            }
        }
    }

    /// A release frees each slot at most once, so generations stay within
    /// one more than before.
    pub(crate) proof fn lemma_release_bound(&self, before: &Self, bound: nat)
        requires
            self.slots_advanced(before),
            self.slot_count() == before.slot_count(),
            before.gens_within(bound),
        ensures
            self.gens_within(bound + 1),
    {
        assert forall|s: usize| #![trigger self.entries@[s as int]] s < self.entries@.len() implies self.entries@[s as int].generation
            <= bound + 1 by {
            assert(before.entries@[s as int] == before.entries@[s as int]);
            assert(self.entries@[s as int] == self.entries@[s as int]);
        }
    }

    /// While every generation is below the last one, no slot is spent.
    pub(crate) proof fn lemma_unspent(&self, bound: nat)
        requires
            self.gens_within(bound),
            bound < u64::MAX,
        ensures
            forall|h: TreeHandle| !#[trigger] self.spent(h),
    {
        assert forall|h: TreeHandle| !#[trigger] self.spent(h) by {
            if h.slot < self.entries@.len() {
                assert(self.entries@[h.slot as int] == self.entries@[h.slot as int]);
            }
        }
    }

    /// Every live handle carries this core's domain and was handed out.
    pub(crate) proof fn lemma_live_handed_out(&self)
        ensures
            forall|h: TreeHandle| #[trigger] self.live().contains_key(h) ==> self.handed_out(h) && h.domain == self.domain_id(),
    {
    }

    pub(crate) proof fn lemma_advanced_keeps(&self, before: &Self)
        requires
            self.slots_advanced(before),
        ensures
            forall|h: TreeHandle| #[trigger] before.handed_out(h) && !before.spent(h) ==> self.handed_out(h),
    {
        assert forall|h: TreeHandle| #[trigger] before.handed_out(h) && !before.spent(h) implies self.handed_out(h) by {
            assert(self.entries@[h.slot as int] == self.entries@[h.slot as int]);
        }
    }

    proof fn lemma_same_advanced(&self, mid: &Self, before: &Self)
        requires
            self.same_slots(mid),
            mid.slots_advanced(before),
        ensures
            self.slots_advanced(before),
    {
        assert forall|s: usize| #![trigger self.entries@[s as int]] s < before.entries@.len() implies entry_step(
            self.entries@[s as int],
            before.entries@[s as int],
        ) by {
            assert(mid.entries@[s as int] == mid.entries@[s as int]);
        }
    }

    proof fn lemma_advanced_after_same(&self, mid: &Self, before: &Self)
        requires
            self.slots_advanced(mid),
            mid.same_slots(before),
        ensures
            self.slots_advanced(before),
    {
        assert forall|s: usize| #![trigger self.entries@[s as int]] s < before.entries@.len() implies entry_step(
            self.entries@[s as int],
            before.entries@[s as int],
        ) by {
            assert(mid.entries@[s as int] == mid.entries@[s as int]);
            assert(before.entries@[s as int] == before.entries@[s as int]);
        }
    }

    proof fn lemma_same_handed_out(&self, other: &Self)
        requires
            self.same_slots(other),
        ensures
            forall|h: TreeHandle| #[trigger] self.handed_out(h) == other.handed_out(h),
    {
        assert forall|h: TreeHandle| #[trigger] self.handed_out(h) == other.handed_out(h) by {
            if h.slot < self.entries@.len() {
                assert(self.entries@[h.slot as int] == self.entries@[h.slot as int]);
            }
        }
    }

    proof fn lemma_same_live(&self, other: &Self)
        requires
            self.same_slots(other),
        ensures
            self.live() == other.live(),
    {
        assert(self.live() =~= other.live()) by {
            assert forall|h: TreeHandle| #[trigger] self.live().contains_key(h) <==> other.live().contains_key(h) by {
                if 0 <= h.slot < self.entries@.len() {
                    assert(self.entries@[h.slot as int].generation == other.entries@[h.slot as int].generation);
                }
            }
            assert forall|h: TreeHandle| #[trigger] self.live().contains_key(h) implies self.live()[h] == other.live()[h] by {
                assert(self.entries@[h.slot as int].generation == other.entries@[h.slot as int].generation);
            }
        }
    }

    proof fn lemma_handle_of(&self, s: usize)
        requires
            self.occupied(s as int),
        ensures
            self.live().contains_key(self.handle_of(s)),
            self.live()[self.handle_of(s)] == (self.ent(s as int).key, self.ent(s as int).value),
    {
    }

    /// A well-formed core has finitely many live handles.
    pub(crate) proof fn lemma_live_finite(&self)
        requires
            self.wf(),
        ensures
            self.live().dom().finite(),
    {
        self.lemma_live_len();
    }

    /// There are exactly as many live handles as nodes.
    proof fn lemma_live_len(&self)
        requires
            self.linked(),
        ensures
            self.live().dom().finite(),
            self.live().len() == self.nodes@.len(),
    {
        let n = self.nodes@.len() as int;
        let f = |i: int| self.handle_of(self.nodes@[i].entry);
        let idx = Set::new(|i: int| 0 <= i < n);
        assert(idx =~= vstd::set_lib::set_int_range(0, n));
        assert(vstd::relations::injective_on(f, idx)) by {
            assert forall|a: int, b: int| idx.contains(a) && idx.contains(b) && #[trigger] f(a) == #[trigger] f(b) implies a == b by {
                assert(self.nodes@[a] == self.nodes@[a]);
                assert(self.nodes@[b] == self.nodes@[b]);
            }
        }
        assert(idx.map(f) =~= self.live().dom()) by {
            assert forall|h: TreeHandle| self.live().dom().contains(h) implies idx.map(f).contains(h) by {
                let s = h.slot as int;
                assert(self.entries@[s] == self.entries@[s]);
                let i = self.ent(s).position as int;
                assert(self.nodes@[i] == self.nodes@[i]);
                assert(idx.contains(i));
                assert(f(i) == h);
            }
            assert forall|h: TreeHandle| idx.map(f).contains(h) implies self.live().dom().contains(h) by {
                let i = choose|i: int| idx.contains(i) && f(i) == h;
                assert(self.nodes@[i] == self.nodes@[i]);
            }
        }
        vstd::set_lib::lemma_int_range(0, n);
        vstd::set_lib::lemma_map_size(idx, self.live().dom(), f);
    }

    /// The root holds a least entry.
    proof fn lemma_root_least_entry(&self)
        requires
            self.wf(),
            self.nodes@.len() > 0,
        ensures
            least_entry(self.live(), self.handle_of(self.nodes@[0].entry), key_order::<K>()),
    {
        assert(self.nodes@[0] == self.nodes@[0]);
        self.lemma_handle_of(self.nodes@[0].entry);
        assert forall|h: TreeHandle| self.live().contains_key(h) implies key_order::<K>()(
            self.live()[self.handle_of(self.nodes@[0].entry)].0,
        ) <= key_order::<K>()(self.live()[h].0) by {
            let s = h.slot as int;
            assert(self.entries@[s] == self.entries@[s]);
            let i = self.ent(s).position as int;
            assert(self.nodes@[i] == self.nodes@[i]);
            lemma_root_least(self.keys(), key_order::<K>(), self.degree as int, i);
        }
    }
}


impl<K: HeapKey, V> ExplicitTreeCore<K, V> {
    pub(crate) fn new(degree: usize) -> (core: Self)
        requires
            degree >= 2,
        ensures
            core.wf(),
            core.arity() == degree,
            core.live() == Map::<TreeHandle, (K, V)>::empty(),
            core.gens_within(0),
    {
        let core = ExplicitTreeCore {
            degree,
            entries: Vec::new(),
            free_entries: Vec::new(),
            nodes: Vec::new(),
            domain: fresh_heap_id(),
        };
        proof {
            assert(core.keys() =~= Seq::<K>::empty());
            assert(core.live() =~= Map::<TreeHandle, (K, V)>::empty());
        }
        core
    }

    pub(crate) fn degree(&self) -> (result: usize)
        ensures
            result == self.arity(),
    {
        self.degree
    }

    pub(crate) fn len(&self) -> (result: usize)
        requires
            self.wf(),
        ensures
            result == self.live().len(),
    {
        proof {
            self.lemma_live_len();
        }
        self.nodes.len()
    }

    fn handle(&self, slot: usize) -> (handle: TreeHandle)
        requires
            slot < self.entries@.len(),
        ensures
            handle == self.handle_of(slot),
    {
        TreeHandle { domain: self.domain, slot, generation: self.entries[slot].generation }
    }

    fn validate(&self, handle: TreeHandle) -> (result: Result<usize, InvalidHandle>)
        ensures
            checked(handle.domain == self.domain, self.live().contains_key(handle), result),
            result matches Ok(s) ==> s == handle.slot && self.occupied(s as int) && self.handle_of(s) == handle,
    {
        if handle.domain != self.domain {
            return Err(InvalidHandle::ForeignHeap);
        }
        if handle.slot >= self.entries.len() {
            return Err(InvalidHandle::Stale);
        }
        let slot = &self.entries[handle.slot];
        if slot.generation != handle.generation || slot.entry.is_none() {
            return Err(InvalidHandle::Stale);
        }
        Ok(handle.slot)
    }

    fn slot_entry(&self, slot: usize) -> (entry: &Entry<K, V>)
        requires
            self.occupied(slot as int),
        ensures
            *entry == self.ent(slot as int),
    {
        self.entries[slot].entry.as_ref().unwrap()
    }

    fn node_key(&self, i: usize) -> (key: &K)
        requires
            self.linked(),
            i < self.nodes@.len(),
        ensures
            *key == self.keys()[i as int],
    {
        assert(self.nodes@[i as int] == self.nodes@[i as int]);
        &self.slot_entry(self.nodes[i].entry).key
    }

    fn swap_entries(&mut self, left: usize, right: usize)
        requires
            old(self).linked(),
            left < old(self).nodes@.len(),
            right < old(self).nodes@.len(),
        ensures
            final(self).linked(),
            final(self).same_slots(old(self)),
            final(self).nodes@.len() == old(self).nodes@.len(),
            final(self).keys() == swapped(old(self).keys(), left as int, right as int),
            forall|i: int| #![trigger final(self).nodes@[i]] 0 <= i < final(self).nodes@.len() ==> final(self).nodes@[i].parent
                == old(self).nodes@[i].parent && final(self).nodes@[i].children == old(self).nodes@[i].children,
            final(self).slot_at(left as int) == old(self).slot_at(right as int),
            final(self).slot_at(right as int) == old(self).slot_at(left as int),
    {
        let ghost old_nodes = self.nodes@;
        let ghost old_entries = self.entries@;
        proof {
            assert(old_nodes[left as int] == old_nodes[left as int]);
            assert(old_nodes[right as int] == old_nodes[right as int]);
        }
        let left_entry = self.nodes[left].entry;
        let right_entry = self.nodes[right].entry;
        self.nodes[left].entry = right_entry;
        self.nodes[right].entry = left_entry;
        match &mut self.entries[left_entry].entry {
            Some(entry) => {
                entry.position = right;
            },
            None => {},
        }
        match &mut self.entries[right_entry].entry {
            Some(entry) => {
                entry.position = left;
            },
            None => {},
        }
        proof {
            assert(left != right ==> left_entry != right_entry);
            assert forall|i: int| #![trigger self.nodes@[i]] 0 <= i < self.nodes@.len() implies self.nodes@[i].parent
                == old_nodes[i].parent && self.nodes@[i].children == old_nodes[i].children by {}
            assert forall|s: int| #![trigger self.entries@[s]] 0 <= s < self.entries@.len() implies {
                &&& self.entries@[s].generation == old_entries[s].generation
                &&& (self.entries@[s].entry is Some <==> old_entries[s].entry is Some)
                &&& self.entries@[s].entry is Some ==> self.ent(s).key == old(self).ent(s).key
                    && self.ent(s).value == old(self).ent(s).value
            } by {}
            assert forall|i: int| #![trigger self.nodes@[i]] 0 <= i < self.nodes@.len() implies {
                &&& self.occupied(self.slot_at(i))
                &&& self.ent(self.slot_at(i)).position == i
            } by {
                if i != left && i != right {
                    assert(old_nodes[i] == self.nodes@[i]);
                    assert(old(self).ent(old(self).slot_at(i)).position == i);
                    assert(old(self).slot_at(i) != left_entry as int);
                    assert(old(self).slot_at(i) != right_entry as int);
                    assert(self.entries@[self.slot_at(i)] == old_entries[self.slot_at(i)]);
                }
            }
            assert forall|s: int| #![trigger self.entries@[s]] self.occupied(s) implies {
                &&& self.ent(s).position < self.nodes@.len()
                &&& self.slot_at(self.ent(s).position as int) == s
            } by {
                assert(old_entries[s] == old_entries[s]);
                if s != left_entry && s != right_entry {
                    assert(self.entries@[s] == old_entries[s]);
                    let i = old(self).ent(s).position as int;
                    assert(old_nodes[i] == old_nodes[i]);
                    assert(i != left && i != right);
                }
            }
            assert(self.keys() =~= swapped(old(self).keys(), left as int, right as int)) by {
                assert forall|i: int| 0 <= i < self.nodes@.len() implies #[trigger] self.keys()[i] == swapped(
                    old(self).keys(),
                    left as int,
                    right as int,
                )[i] by {
                    assert(self.nodes@[i] == self.nodes@[i]);
                    assert(old_nodes[i] == old_nodes[i]);
                }
            }
        }
    }

    /// Moves the entry at node `start` up until its parent is no greater.
    fn fix_up(&mut self, start: usize)
        requires
            old(self).linked(),
            old(self).shaped(),
            old(self).degree >= 2,
            sifting_up(old(self).keys(), key_order::<K>(), old(self).degree as int, start as int),
        ensures
            final(self).linked(),
            final(self).shaped(),
            final(self).same_slots(old(self)),
            final(self).nodes@.len() == old(self).nodes@.len(),
            heap_ordered(final(self).keys(), key_order::<K>(), final(self).degree as int),
    {
        let mut position = start;
        loop
            invariant
                self.linked(),
                self.shaped(),
                self.degree >= 2,
                self.same_slots(old(self)),
                self.nodes@.len() == old(self).nodes@.len(),
                position < self.nodes@.len(),
                sifting_up(self.keys(), key_order::<K>(), self.degree as int, position as int),
            decreases position,
        {
            proof {
                assert(self.nodes@[position as int] == self.nodes@[position as int]);
                if position > 0 {
                    lemma_parent_bounds(position as int, 0, self.degree as int);
                }
            }
            let parent = match self.nodes[position].parent {
                Some(parent) => parent,
                None => {
                    proof {
                        lemma_up_done(self.keys(), key_order::<K>(), self.degree as int, position as int);
                    }
                    return;
                },
            };
            if !self.node_key(position).key_lt(self.node_key(parent)) {
                proof {
                    lemma_up_done(self.keys(), key_order::<K>(), self.degree as int, position as int);
                }
                return;
            }
            proof {
                lemma_up_step(self.keys(), key_order::<K>(), self.degree as int, position as int);
            }
            let ghost before = *self;
            self.swap_entries(position, parent);
            proof {
                assert forall|i: int| #![trigger self.nodes@[i]] 0 <= i < self.nodes@.len() implies self.node_shaped(
                    i,
                    self.nodes@.len() as int,
                ) by {
                    assert(before.nodes@[i] == before.nodes@[i]);
                }
            }
            position = parent;
        }
    }

    /// Moves the entry at node `start` down until no child is smaller, when
    /// every edge is in order but those below `start`.
    fn fix_down(&mut self, start: usize)
        requires
            old(self).linked(),
            old(self).shaped(),
            old(self).degree >= 2,
            start < old(self).nodes@.len(),
            sifting_down(old(self).keys(), key_order::<K>(), old(self).degree as int, 0, start as int),
        ensures
            final(self).linked(),
            final(self).shaped(),
            final(self).same_slots(old(self)),
            final(self).nodes@.len() == old(self).nodes@.len(),
            heap_ordered(final(self).keys(), key_order::<K>(), final(self).degree as int),
    {
        let len = self.nodes.len();
        let degree = self.degree;
        let mut position = start;
        loop
            invariant
                self.linked(),
                self.shaped(),
                self.degree == degree,
                degree >= 2,
                self.same_slots(old(self)),
                self.nodes@.len() == len,
                len == old(self).nodes@.len(),
                position < len,
                sifting_down(self.keys(), key_order::<K>(), degree as int, 0, position as int),
            decreases len - position,
        {
            let ghost d = degree as int;
            let ghost i = position as int;
            proof {
                assert(self.nodes@[i] == self.nodes@[i]);
                assert(self.node_shaped(i, len as int));
            }
            let mut best: Option<usize> = None;
            let mut j: usize = 0;
            while j < degree
                invariant
                    self.linked(),
                    self.shaped(),
                    self.degree == degree,
                    degree >= 2,
                    self.nodes@.len() == len,
                    position < len,
                    j <= degree,
                    self.node_shaped(i, len as int),
                    i == position,
                    d == degree,
                    best is None ==> forall|k: int| 0 <= k < j ==> #[trigger] self.nodes@[i].children@[k] is None,
                    best matches Some(b) ==> {
                        &&& 0 < b < len
                        &&& parent_of(b as int, d) == i
                        &&& forall|k: int|
                            0 <= k < j && #[trigger] self.nodes@[i].children@[k] is Some ==> key_order::<K>()(
                                self.keys()[b as int],
                            ) <= key_order::<K>()(self.keys()[d * i + 1 + k])
                    },
                decreases degree - j,
            {
                match self.nodes[position].children[j] {
                    Some(child) => {
                        proof {
                            assert(self.nodes@[i].children@[j as int] is Some);
                            assert(child == d * i + 1 + j);
                            lemma_parent_bounds(child as int, i, d);
                        }
                        let better = match best {
                            Some(b) => self.node_key(child).key_lt(self.node_key(b)),
                            None => true,
                        };
                        if better {
                            best = Some(child);
                        }
                    },
                    None => {},
                }
                j = j + 1;
            }
            let smallest = match best {
                Some(b) => b,
                None => {
                    proof {
                        assert forall|c: int| #![trigger self.keys()[c]] 0 < c < self.keys().len() && parent_of(c, d) == i implies key_order::<K>()(
                            self.keys()[i],
                        ) <= key_order::<K>()(self.keys()[c]) by {
                            lemma_parent_bounds(c, i, d);
                            assert(self.nodes@[i].children@[c - d * i - 1] is None);
                        }
                        lemma_down_done(self.keys(), key_order::<K>(), d, 0, i);
                    }
                    return;
                },
            };
            proof {
                assert forall|c: int| #![trigger self.keys()[c]] 0 < c < self.keys().len() && parent_of(c, d) == i implies key_order::<K>()(
                    self.keys()[smallest as int],
                ) <= key_order::<K>()(self.keys()[c]) by {
                    lemma_parent_bounds(c, i, d);
                    assert(self.nodes@[i].children@[c - d * i - 1] is Some);
                }
                assert(least_child(self.keys(), key_order::<K>(), d, i, smallest as int));
            }
            if !self.node_key(smallest).key_lt(self.node_key(position)) {
                proof {
                    assert forall|c: int| #![trigger self.keys()[c]] 0 < c < self.keys().len() && parent_of(c, d) == i implies key_order::<K>()(
                        self.keys()[i],
                    ) <= key_order::<K>()(self.keys()[c]) by {
                    }
                    lemma_down_done(self.keys(), key_order::<K>(), d, 0, i);
                }
                return;
            }
            proof {
                lemma_down_step(self.keys(), key_order::<K>(), d, 0, i, smallest as int);
            }
            let ghost before = *self;
            self.swap_entries(position, smallest);
            proof {
                assert forall|k: int| #![trigger self.nodes@[k]] 0 <= k < self.nodes@.len() implies self.node_shaped(
                    k,
                    self.nodes@.len() as int,
                ) by {
                    assert(before.nodes@[k] == before.nodes@[k]);
                }
                lemma_parent_bounds(smallest as int, i, d);
            }
            position = smallest;
        }
    }
}


/// Node `i`'s child `j` is node `n` exactly when `i` and `j` are the
/// quotient and remainder of `n - 1` by the branching factor.
proof fn lemma_child_slot(d: int, i: int, j: int, n: int)
    requires
        d >= 2,
        i >= 0,
        0 <= j < d,
        n >= 1,
    ensures
        (d * i + 1 + j == n) <==> (i == (n - 1) / d && j == (n - 1) % d),
{
    assert(d * i == i * d) by (nonlinear_arith);
    if d * i + 1 + j == n {
        vstd::arithmetic::div_mod::lemma_fundamental_div_mod_converse(n - 1, d, i, j);
    }
    if i == (n - 1) / d && j == (n - 1) % d {
        vstd::arithmetic::div_mod::lemma_fundamental_div_mod(n - 1, d);
    }
}

impl<K: HeapKey, V> ExplicitTreeCore<K, V> {
    /// Stores an entry for node `position` in a free slot, or in a new one.
    fn insert_entry(&mut self, key: K, value: V, position: usize) -> (slot: usize)
        requires
            old(self).free_ok(),
        ensures
            final(self).free_ok(),
            !old(self).occupied(slot as int),
            slot < final(self).entries@.len(),
            final(self).entries@.len() >= old(self).entries@.len(),
            forall|t: int| 0 <= t < old(self).entries@.len() && t != slot ==> #[trigger] final(self).entries@[t] == old(self).entries@[t],
            final(self).entries@.len() == if slot < old(self).entries@.len() { old(self).entries@.len() } else { old(self).entries@.len() + 1 },
            final(self).entries@[slot as int].entry == Some(Entry { key, value, position }),
            slot < old(self).entries@.len() ==> final(self).entries@[slot as int].generation == old(self).entries@[slot as int].generation,
            slot >= old(self).entries@.len() ==> final(self).entries@[slot as int].generation == 0,
            final(self).nodes == old(self).nodes,
            final(self).domain == old(self).domain,
            final(self).degree == old(self).degree,
    {
        match self.free_entries.pop() {
            Some(slot) => {
                proof {
                    assert(old(self).free_entries@[old(self).free_entries@.len() - 1] == slot);
                }
                self.entries[slot].entry = Some(Entry { key, value, position });
                proof {
                    assert forall|k: int| #![trigger self.free_entries@[k]] 0 <= k < self.free_entries@.len() implies {
                        &&& self.free_entries@[k] < self.entries@.len()
                        &&& self.entries@[self.free_entries@[k] as int].entry is None
                    } by {
                        assert(old(self).free_entries@[k] == self.free_entries@[k]);
                        assert(self.free_entries@[k] != slot);
                    }
                }
                slot
            },
            None => {
                let slot = self.entries.len();
                self.entries.push(EntrySlot { entry: Some(Entry { key, value, position }), generation: 0 });
                slot
            },
        }
    }

    /// Empties slot `slot`, advances its generation, and frees it.
    fn remove_entry(&mut self, slot: usize) -> (entry: Entry<K, V>)
        requires
            old(self).occupied(slot as int),
            old(self).free_ok(),
        ensures
            entry == old(self).ent(slot as int),
            final(self).free_ok(),
            final(self).entries@ == old(self).entries@.update(
                slot as int,
                EntrySlot { entry: None, generation: old(self).entries@[slot as int].generation.wrapping_add(1) },
            ),
            final(self).nodes == old(self).nodes,
            final(self).domain == old(self).domain,
            final(self).degree == old(self).degree,
            final(self).slots_advanced(old(self)),
    {
        proof {
            if self.free_entries@.contains(slot) {
                let k = choose|k: int| 0 <= k < self.free_entries@.len() && self.free_entries@[k] == slot;
                assert(self.entries@[self.free_entries@[k] as int].entry is None);
            }
        }
        let entry = self.entries[slot].entry.take().unwrap();
        let generation = self.entries[slot].generation.wrapping_add(1);
        self.entries[slot].generation = generation;
        self.free_entries.push(slot);
        proof {
            assert(self.entries@ =~= old(self).entries@.update(
                slot as int,
                EntrySlot { entry: None, generation: old(self).entries@[slot as int].generation.wrapping_add(1) },
            ));
            assert forall|k: int| #![trigger self.free_entries@[k]] 0 <= k < self.free_entries@.len() implies {
                &&& self.free_entries@[k] < self.entries@.len()
                &&& self.entries@[self.free_entries@[k] as int].entry is None
            } by {
                if k < self.free_entries@.len() - 1 {
                    assert(old(self).free_entries@[k] == self.free_entries@[k]);
                }
            }
            assert forall|s: usize| #![trigger self.entries@[s as int]] s < old(self).entries@.len() implies entry_step(
                self.entries@[s as int],
                old(self).entries@[s as int],
            ) by {
                assert(old(self).entries@[s as int] == old(self).entries@[s as int]);
            }
        }
        entry
    }

    /// A new node's child pointers: none.
    fn empty_children(degree: usize) -> (children: Vec<Option<usize>>)
        ensures
            children@.len() == degree,
            forall|j: int| 0 <= j < degree ==> #[trigger] children@[j] is None,
    {
        let mut children: Vec<Option<usize>> = Vec::with_capacity(degree);
        while children.len() < degree
            invariant
                children@.len() <= degree,
                forall|j: int| 0 <= j < children@.len() ==> #[trigger] children@[j] is None,
            decreases degree - children@.len(),
        {
            children.push(None);
        }
        children
    }

    /// Unlinks the last node from its parent and drops it.
    fn detach_last(&mut self, last: usize)
        requires
            old(self).shaped(),
            old(self).degree >= 2,
            last + 1 == old(self).nodes@.len(),
        ensures
            final(self).shaped(),
            final(self).nodes@ == old(self).nodes@.drop_last().update(
                parent_of(last as int, old(self).degree as int),
                final(self).nodes@[parent_of(last as int, old(self).degree as int)],
            ) || last == 0,
            last == 0 ==> final(self).nodes@ == old(self).nodes@.drop_last(),
            forall|i: int| 0 <= i < last ==> (#[trigger] final(self).nodes@[i]).entry == old(self).nodes@[i].entry,
            final(self).nodes@.len() == last,
            final(self).entries == old(self).entries,
            final(self).free_entries == old(self).free_entries,
            final(self).domain == old(self).domain,
            final(self).degree == old(self).degree,
    {
        let ghost d = self.degree as int;
        let ghost n = self.nodes@.len() as int;
        proof {
            assert(self.nodes@[last as int] == self.nodes@[last as int]);
        }
        if last > 0 {
            let parent = (last - 1) / self.degree;
            let side = (last - 1) % self.degree;
            proof {
                lemma_parent_bounds(last as int, 0, d);
                assert(self.nodes@[parent as int] == self.nodes@[parent as int]);
                lemma_child_slot(d, parent as int, side as int, last as int);
            }
            self.nodes[parent].children.set(side, None);
        }
        let ghost before_pop = self.nodes@;
        self.nodes.pop();
        proof {
            assert forall|i: int| #![trigger self.nodes@[i]] 0 <= i < self.nodes@.len() implies self.node_shaped(
                i,
                self.nodes@.len() as int,
            ) by {
                assert(old(self).nodes@[i] == old(self).nodes@[i]);
                assert(old(self).node_shaped(i, n));
                assert forall|j: int| 0 <= j < d implies {
                    &&& (#[trigger] self.nodes@[i].children@[j] is Some <==> d * i + 1 + j < n - 1)
                    &&& self.nodes@[i].children@[j] is Some ==> self.nodes@[i].children@[j]->0 == d * i + 1 + j
                } by {
                    if last > 0 {
                        lemma_child_slot(d, i, j, last as int);
                    }
                }
            }
            if last > 0 {
                assert(self.nodes@ =~= old(self).nodes@.drop_last().update(parent_of(last as int, d), self.nodes@[parent_of(last as int, d)]));
            } else {
                assert(self.nodes@ =~= old(self).nodes@.drop_last());
            }
        }
    }
}


impl<K: HeapKey, V> ExplicitTreeCore<K, V> {
    /// The identity and branching factor that every operation keeps.
    pub(crate) open spec fn same_frame(&self, other: &Self) -> bool {
        &&& self.domain_id() == other.domain_id()
        &&& self.arity() == other.arity()
    }

    pub(crate) fn insert(&mut self, key: K, value: V) -> (handle: TreeHandle)
        requires
            old(self).wf(),
        ensures
            final(self).wf(),
            final(self).same_frame(old(self)),
            handle.domain == old(self).domain_id(),
            !old(self).live().contains_key(handle),
            final(self).live() == old(self).live().insert(handle, (key, value)),
            !old(self).handed_out(handle),
            final(self).handed_out(handle),
            final(self).slots_advanced(old(self)),
            forall|h: TreeHandle| #[trigger] old(self).handed_out(h) ==> final(self).handed_out(h),
            final(self).gens_kept(old(self)),
    {
        proof {
            self.lemma_live_len();
        }
        let position = self.nodes.len();
        let ghost d = self.degree as int;
        let ghost old_keys = self.keys();
        let slot = self.insert_entry(key, value, position);
        let children = Self::empty_children(self.degree);
        if position == 0 {
            self.nodes.push(Node { parent: None, children, entry: slot });
        } else {
            let parent = (position - 1) / self.degree;
            let side = (position - 1) % self.degree;
            proof {
                lemma_parent_bounds(position as int, 0, d);
                lemma_child_slot(d, parent as int, side as int, position as int);
            }
            self.nodes.push(Node { parent: Some(parent), children, entry: slot });
            self.nodes[parent].children.set(side, Some(position));
        }
        proof {
            let n = position as int + 1;
            assert forall|i: int| 0 <= i < position implies #[trigger] self.nodes@[i].entry == old(self).nodes@[i].entry by {}
            assert forall|t: int| 0 <= t < old(self).entries@.len() && t != slot implies #[trigger] self.entries@[t] == old(self).entries@[t] by {}
            assert forall|i: int| #![trigger self.nodes@[i]] 0 <= i < self.nodes@.len() implies self.node_shaped(
                i,
                self.nodes@.len() as int,
            ) by {
                if i < position {
                    assert(old(self).nodes@[i] == old(self).nodes@[i]);
                    assert(old(self).node_shaped(i, position as int));
                    assert forall|j: int| 0 <= j < d implies {
                        &&& (#[trigger] self.nodes@[i].children@[j] is Some <==> d * i + 1 + j < n)
                        &&& self.nodes@[i].children@[j] is Some ==> self.nodes@[i].children@[j]->0 == d * i + 1 + j
                    } by {
                        if position > 0 {
                            lemma_child_slot(d, i, j, position as int);
                        }
                    }
                } else {
                    assert(d * i >= i) by (nonlinear_arith)
                        requires
                            d >= 2,
                            i >= 0,
                    ;
                    if i > 0 {
                        lemma_parent_bounds(i, 0, d);
                    }
                }
            }
            assert forall|i: int| #![trigger self.nodes@[i]] 0 <= i < self.nodes@.len() implies {
                &&& self.occupied(self.slot_at(i))
                &&& self.ent(self.slot_at(i)).position == i
            } by {
                if i < position {
                    assert(old(self).nodes@[i] == old(self).nodes@[i]);
                    assert(old(self).slot_at(i) != slot);
                }
            }
            assert forall|t: int| #![trigger self.entries@[t]] self.occupied(t) implies {
                &&& self.ent(t).position < self.nodes@.len()
                &&& self.slot_at(self.ent(t).position as int) == t
            } by {
                if t != slot {
                    assert(t < old(self).entries@.len());
                    assert(self.entries@[t] == old(self).entries@[t]);
                    let i = old(self).ent(t).position as int;
                    assert(old(self).nodes@[i] == old(self).nodes@[i]);
                }
            }
            assert(self.keys() =~= old_keys.push(key)) by {
                assert forall|i: int| 0 <= i < self.nodes@.len() implies #[trigger] self.keys()[i] == old_keys.push(key)[i] by {
                    assert(self.nodes@[i] == self.nodes@[i]);
                    if i < position {
                        assert(old(self).nodes@[i] == old(self).nodes@[i]);
                        assert(old(self).slot_at(i) != slot);
                    }
                }
            }
            lemma_up_start(old_keys, key_order::<K>(), d, key);
            assert forall|s: usize| #![trigger self.entries@[s as int]] s < old(self).entries@.len() implies entry_step(
                self.entries@[s as int],
                old(self).entries@[s as int],
            ) by {
                assert(old(self).entries@[s as int] == old(self).entries@[s as int]);
            }
        }
        let ghost before_fix = *self;
        self.fix_up(position);
        proof {
            self.lemma_same_advanced(&before_fix, old(self));
            self.lemma_same_handed_out(&before_fix);
            assert forall|t: usize| #![trigger self.entries@[t as int]] t < self.entries@.len() implies self.entries@[t as int].generation
                == if t < old(self).entries@.len() {
                old(self).entries@[t as int].generation
            } else {
                0
            } by {
                assert(before_fix.entries@[t as int] == before_fix.entries@[t as int]);
                if t < old(self).entries@.len() {
                    assert(old(self).entries@[t as int] == old(self).entries@[t as int]);
                }
            }
            assert forall|g: TreeHandle| #[trigger] old(self).handed_out(g) implies self.handed_out(g) by {
                assert(before_fix.entries@[g.slot as int] == before_fix.entries@[g.slot as int]);
                assert(old(self).entries@[g.slot as int] == old(self).entries@[g.slot as int]);
                if g.slot == slot {
                    assert(!old(self).occupied(slot as int));
                }
            }
            let h = self.handle_of(slot);
            assert(!old(self).live().contains_key(h));
            assert(self.live() =~= old(self).live().insert(h, (key, value))) by {
                assert forall|g: TreeHandle| #[trigger] self.live().contains_key(g) <==> old(self).live().insert(h, (key, value)).contains_key(g) by {
                    if 0 <= g.slot < self.entries@.len() {
                        assert(self.entries@[g.slot as int] == self.entries@[g.slot as int]);
                        if g.slot != slot && g.slot < old(self).entries@.len() {
                            assert(old(self).entries@[g.slot as int] == old(self).entries@[g.slot as int]);
                        }
                    }
                }
                assert forall|g: TreeHandle| #[trigger] self.live().contains_key(g) implies self.live()[g] == old(self).live().insert(h, (key, value))[g] by {
                    assert(self.entries@[g.slot as int] == self.entries@[g.slot as int]);
                    if g.slot != slot {
                        assert(old(self).entries@[g.slot as int] == old(self).entries@[g.slot as int]);
                    }
                }
            }
        }
        self.handle(slot)
    }

    pub(crate) fn peek(&self) -> (result: Option<(TreeHandle, &K, &V)>)
        requires
            self.wf(),
        ensures
            result is None <==> self.live().len() == 0,
            result matches Some((h, k, v)) ==> {
                &&& least_entry(self.live(), h, key_order::<K>())
                &&& self.live()[h] == (*k, *v)
            },
    {
        proof {
            self.lemma_live_len();
        }
        if self.nodes.len() == 0 {
            return None;
        }
        let slot = self.nodes[0].entry;
        proof {
            assert(self.nodes@[0] == self.nodes@[0]);
            self.lemma_root_least_entry();
            self.lemma_handle_of(slot);
        }
        let entry = self.slot_entry(slot);
        Some((self.handle(slot), &entry.key, &entry.value))
    }

    pub(crate) fn key(&self, handle: TreeHandle) -> (result: Result<&K, InvalidHandle>)
        ensures
            checked(handle.domain == self.domain_id(), self.live().contains_key(handle), result),
            result matches Ok(k) ==> *k == self.live()[handle].0,
    {
        let slot = self.validate(handle)?;
        Ok(&self.slot_entry(slot).key)
    }

    pub(crate) fn value(&self, handle: TreeHandle) -> (result: Result<&V, InvalidHandle>)
        ensures
            checked(handle.domain == self.domain_id(), self.live().contains_key(handle), result),
            result matches Ok(v) ==> *v == self.live()[handle].1,
    {
        let slot = self.validate(handle)?;
        Ok(&self.slot_entry(slot).value)
    }

    /// `self` is `before` with the value in slot `slot` replaced.
    spec fn value_replaced(&self, before: &Self, slot: usize, value: V) -> bool {
        &&& self.nodes == before.nodes
        &&& self.free_entries == before.free_entries
        &&& self.domain == before.domain
        &&& self.degree == before.degree
        &&& self.entries@ == before.entries@.update(
            slot as int,
            EntrySlot {
                entry: Some(Entry { value: value, ..before.ent(slot as int) }),
                generation: before.entries@[slot as int].generation,
            },
        )
    }

    /// Mutable access to the value in occupied slot `slot`.
    fn slot_value_mut(&mut self, slot: usize) -> (v: &mut V)
        requires
            old(self).occupied(slot as int),
        ensures
            *v == old(self).ent(slot as int).value,
            final(self).value_replaced(old(self), slot, *final(v)),
    {
        let entry = self.entries[slot].entry.as_mut().unwrap();
        &mut entry.value
    }

    proof fn lemma_value_replaced(before: &Self, slot: usize)
        requires
            before.wf(),
            before.occupied(slot as int),
        ensures
            forall|after: Self, value: V| #[trigger] after.value_replaced(before, slot, value) ==> {
                &&& after.wf()
                &&& after.same_frame(before)
                &&& after.live() == before.live().insert(before.handle_of(slot), (before.ent(slot as int).key, value))
                &&& forall|h: TreeHandle| #[trigger] after.handed_out(h) == before.handed_out(h)
            },
    {
        assert forall|after: Self, value: V| #[trigger] after.value_replaced(before, slot, value) implies {
            &&& after.wf()
            &&& after.same_frame(before)
            &&& after.live() == before.live().insert(before.handle_of(slot), (before.ent(slot as int).key, value))
            &&& forall|h: TreeHandle| #[trigger] after.handed_out(h) == before.handed_out(h)
        } by {
            assert forall|h: TreeHandle| #[trigger] after.handed_out(h) == before.handed_out(h) by {
                if h.slot < after.entries@.len() {
                    assert(before.entries@[h.slot as int] == before.entries@[h.slot as int]);
                }
            }
            assert forall|i: int| #![trigger after.nodes@[i]] 0 <= i < after.nodes@.len() implies {
                &&& after.occupied(after.slot_at(i))
                &&& after.ent(after.slot_at(i)).position == i
            } by {
                assert(before.nodes@[i] == before.nodes@[i]);
            }
            assert forall|t: int| #![trigger after.entries@[t]] after.occupied(t) implies {
                &&& after.ent(t).position < after.nodes@.len()
                &&& after.slot_at(after.ent(t).position as int) == t
            } by {
                assert(before.entries@[t] == before.entries@[t]);
            }
            assert forall|i: int| #![trigger after.nodes@[i]] 0 <= i < after.nodes@.len() implies after.node_shaped(
                i,
                after.nodes@.len() as int,
            ) by {
                assert(before.nodes@[i] == before.nodes@[i]);
            }
            assert forall|k: int| #![trigger after.free_entries@[k]] 0 <= k < after.free_entries@.len() implies {
                &&& after.free_entries@[k] < after.entries@.len()
                &&& after.entries@[after.free_entries@[k] as int].entry is None
            } by {
                assert(before.free_entries@[k] == after.free_entries@[k]);
            }
            assert(after.keys() =~= before.keys()) by {
                assert forall|i: int| 0 <= i < after.nodes@.len() implies #[trigger] after.keys()[i] == before.keys()[i] by {
                    assert(before.nodes@[i] == before.nodes@[i]);
                }
            }
            let h = before.handle_of(slot);
            assert(after.live() =~= before.live().insert(h, (before.ent(slot as int).key, value))) by {
                assert forall|g: TreeHandle| #[trigger] after.live().contains_key(g) <==> before.live().insert(h, (before.ent(slot as int).key, value)).contains_key(g) by {
                    if 0 <= g.slot < after.entries@.len() {
                        assert(before.entries@[g.slot as int] == before.entries@[g.slot as int]);
                    }
                }
                assert forall|g: TreeHandle| #[trigger] after.live().contains_key(g) implies after.live()[g] == before.live().insert(
                    h,
                    (before.ent(slot as int).key, value),
                )[g] by {
                    assert(before.entries@[g.slot as int] == before.entries@[g.slot as int]);
                }
            }
        }
    }

    pub(crate) fn value_mut(&mut self, handle: TreeHandle) -> (result: Result<&mut V, InvalidHandle>)
        requires
            old(self).wf(),
        ensures
            checked(handle.domain == old(self).domain_id(), old(self).live().contains_key(handle), result),
            result matches Ok(v) ==> {
                &&& *v == old(self).live()[handle].1
                &&& final(self).live() == old(self).live().insert(handle, (old(self).live()[handle].0, *final(v)))
                &&& final(self).wf()
                &&& final(self).same_frame(old(self))
                &&& forall|h: TreeHandle| #[trigger] final(self).handed_out(h) == old(self).handed_out(h)
            },
            result is Err ==> *final(self) == *old(self),
            forall|b: nat| #[trigger] old(self).gens_within(b) ==> final(self).gens_within(b),
    {
        let slot = self.validate(handle)?;
        proof {
            Self::lemma_value_replaced(self, slot);
            self.lemma_handle_of(slot);
        }
        Ok(self.slot_value_mut(slot))
    }

    pub(crate) fn set_value(&mut self, handle: TreeHandle, value: V) -> (result: Result<(), InvalidHandle>)
        requires
            old(self).wf(),
        ensures
            final(self).wf(),
            final(self).same_frame(old(self)),
            checked(handle.domain == old(self).domain_id(), old(self).live().contains_key(handle), result),
            result is Ok ==> final(self).live() == old(self).live().insert(handle, (old(self).live()[handle].0, value)),
            result is Err ==> *final(self) == *old(self),
            forall|h: TreeHandle| #[trigger] final(self).handed_out(h) == old(self).handed_out(h),
            forall|b: nat| #[trigger] old(self).gens_within(b) ==> final(self).gens_within(b),
    {
        match self.value_mut(handle) {
            Ok(slot_value) => {
                *slot_value = value;
                Ok(())
            },
            Err(error) => Err(error),
        }
    }

    /// Removes the entry at the last node, which holds slot `slot`, and
    /// frees the slot.
    fn remove_last(&mut self, slot: usize) -> (entry: Entry<K, V>)
        requires
            old(self).linked(),
            old(self).shaped(),
            old(self).free_ok(),
            old(self).degree >= 2,
            old(self).nodes@.len() > 0,
            old(self).slot_at(old(self).nodes@.len() - 1) == slot,
        ensures
            entry == old(self).ent(slot as int),
            final(self).linked(),
            final(self).shaped(),
            final(self).free_ok(),
            final(self).same_frame(old(self)),
            final(self).keys() == old(self).keys().drop_last(),
            final(self).live() == old(self).live().remove(old(self).handle_of(slot)),
            final(self).slots_advanced(old(self)),
            final(self).entries@.len() == old(self).entries@.len(),
    {
        let last = self.nodes.len() - 1;
        proof {
            assert(self.nodes@[last as int] == self.nodes@[last as int]);
        }
        self.detach_last(last);
        let ghost detached = *self;
        let entry = self.remove_entry(slot);
        proof {
            assert forall|i: int| #![trigger self.nodes@[i]] 0 <= i < self.nodes@.len() implies {
                &&& self.occupied(self.slot_at(i))
                &&& self.ent(self.slot_at(i)).position == i
            } by {
                assert(old(self).nodes@[i] == old(self).nodes@[i]);
                assert(old(self).slot_at(i) != slot);
            }
            assert forall|t: int| #![trigger self.entries@[t]] self.occupied(t) implies {
                &&& self.ent(t).position < self.nodes@.len()
                &&& self.slot_at(self.ent(t).position as int) == t
            } by {
                assert(old(self).entries@[t] == old(self).entries@[t]);
                let i = old(self).ent(t).position as int;
                assert(old(self).nodes@[i] == old(self).nodes@[i]);
                assert(i != last);
            }
            assert(self.keys() =~= old(self).keys().drop_last()) by {
                assert forall|i: int| 0 <= i < self.nodes@.len() implies #[trigger] self.keys()[i] == old(self).keys().drop_last()[i] by {
                    assert(old(self).nodes@[i] == old(self).nodes@[i]);
                    assert(old(self).slot_at(i) != slot);
                }
            }
            let h = old(self).handle_of(slot);
            assert(self.live() =~= old(self).live().remove(h)) by {
                assert forall|g: TreeHandle| #[trigger] self.live().contains_key(g) <==> old(self).live().remove(h).contains_key(g) by {
                    if 0 <= g.slot < self.entries@.len() && g.slot != slot {
                        assert(self.entries@[g.slot as int] == old(self).entries@[g.slot as int]);
                    } else if g.slot == slot && old(self).live().contains_key(g) {
                        assert(g == h);
                    }
                }
                assert forall|g: TreeHandle| #[trigger] self.live().contains_key(g) implies self.live()[g] == old(self).live().remove(h)[g] by {
                    assert(self.entries@[g.slot as int] == old(self).entries@[g.slot as int]);
                }
            }
        }
        entry
    }

    pub(crate) fn pop(&mut self) -> (result: Option<(K, V)>)
        requires
            old(self).wf(),
        ensures
            final(self).wf(),
            final(self).same_frame(old(self)),
            result is None <==> old(self).live().len() == 0,
            result is None ==> *final(self) == *old(self),
            result matches Some(e) ==> exists|h: TreeHandle| {
                &&& least_entry(old(self).live(), h, key_order::<K>())
                &&& old(self).live()[h] == e
                &&& final(self).live() == old(self).live().remove(h)
            },
            final(self).slots_advanced(old(self)),
            final(self).slot_count() == old(self).slot_count(),
    {
        proof {
            self.lemma_live_len();
            assert forall|s: usize| #![trigger self.entries@[s as int]] s < old(self).entries@.len() implies entry_step(
                self.entries@[s as int],
                old(self).entries@[s as int],
            ) by {
                assert(old(self).entries@[s as int] == old(self).entries@[s as int]);
            }
        }
        let len = self.nodes.len();
        if len == 0 {
            return None;
        }
        let minimum = self.nodes[0].entry;
        let ghost h = self.handle_of(minimum);
        let ghost d = self.degree as int;
        proof {
            assert(self.nodes@[0] == self.nodes@[0]);
            self.lemma_root_least_entry();
            self.lemma_handle_of(minimum);
        }
        if len == 1 {
            let entry = self.remove_last(minimum);
            proof {
                assert(self.keys() =~= Seq::<K>::empty());
            }
            return Some((entry.key, entry.value));
        }
        let last = len - 1;
        let ghost s0 = self.keys();
        self.swap_entries(0, last);
        proof {
            assert forall|i: int| #![trigger self.nodes@[i]] 0 <= i < self.nodes@.len() implies self.node_shaped(
                i,
                self.nodes@.len() as int,
            ) by {
                assert(old(self).nodes@[i] == old(self).nodes@[i]);
            }
            assert(self.nodes@[last as int] == self.nodes@[last as int]);
        }
        let ghost swapped_state = *self;
        let entry = self.remove_last(minimum);
        proof {
            self.lemma_advanced_after_same(&swapped_state, old(self));
            lemma_drop_last_ordered(s0, key_order::<K>(), d);
            lemma_replace_state(s0.drop_last(), key_order::<K>(), d, 0, s0[last as int]);
            assert(self.keys() =~= s0.drop_last().update(0, s0[last as int]));
        }
        let ghost before_fix = *self;
        self.fix_down(0);
        proof {
            self.lemma_same_live(&before_fix);
            self.lemma_same_advanced(&before_fix, old(self));
            assert(least_entry(old(self).live(), h, key_order::<K>()));
            assert(old(self).live()[h] == (entry.key, entry.value));
        }
        Some((entry.key, entry.value))
    }

    /// Restores heap order after the entry at node `position` changed.
    fn restore_at(&mut self, position: usize)
        requires
            old(self).linked(),
            old(self).shaped(),
            old(self).degree >= 2,
            position < old(self).nodes@.len(),
            position > 0 && old(self).keys()[position as int].key_rank() < old(self).keys()[parent_of(position as int, old(self).degree as int)].key_rank()
                ==> sifting_up(old(self).keys(), key_order::<K>(), old(self).degree as int, position as int),
            !(position > 0 && old(self).keys()[position as int].key_rank() < old(self).keys()[parent_of(position as int, old(self).degree as int)].key_rank())
                ==> sifting_down(old(self).keys(), key_order::<K>(), old(self).degree as int, 0, position as int),
        ensures
            final(self).linked(),
            final(self).shaped(),
            final(self).same_slots(old(self)),
            final(self).nodes@.len() == old(self).nodes@.len(),
            heap_ordered(final(self).keys(), key_order::<K>(), final(self).degree as int),
    {
        proof {
            assert(self.nodes@[position as int] == self.nodes@[position as int]);
        }
        match self.nodes[position].parent {
            Some(parent) => {
                proof {
                    lemma_parent_bounds(position as int, 0, self.degree as int);
                }
                if self.node_key(position).key_lt(self.node_key(parent)) {
                    self.fix_up(position);
                    return;
                }
            },
            None => {},
        }
        self.fix_down(position);
    }

    pub(crate) fn delete(&mut self, handle: TreeHandle) -> (result: Result<(K, V), InvalidHandle>)
        requires
            old(self).wf(),
        ensures
            final(self).wf(),
            final(self).same_frame(old(self)),
            checked(handle.domain == old(self).domain_id(), old(self).live().contains_key(handle), result),
            result matches Ok(e) ==> {
                &&& e == old(self).live()[handle]
                &&& final(self).live() == old(self).live().remove(handle)
            },
            result is Err ==> *final(self) == *old(self),
            final(self).slots_advanced(old(self)),
            final(self).slot_count() == old(self).slot_count(),
    {
        proof {
            assert forall|s: usize| #![trigger self.entries@[s as int]] s < old(self).entries@.len() implies entry_step(
                self.entries@[s as int],
                old(self).entries@[s as int],
            ) by {
                assert(old(self).entries@[s as int] == old(self).entries@[s as int]);
            }
        }
        let slot = self.validate(handle)?;
        let ghost d = self.degree as int;
        proof {
            assert(self.entries@[slot as int] == self.entries@[slot as int]);
            self.lemma_handle_of(slot);
        }
        let position = self.slot_entry(slot).position;
        let last = self.nodes.len() - 1;
        let ghost s0 = self.keys();
        if position != last {
            self.swap_entries(position, last);
            proof {
                assert forall|i: int| #![trigger self.nodes@[i]] 0 <= i < self.nodes@.len() implies self.node_shaped(
                    i,
                    self.nodes@.len() as int,
                ) by {
                    assert(old(self).nodes@[i] == old(self).nodes@[i]);
                }
                assert(self.nodes@[last as int] == self.nodes@[last as int]);
            }
        }
        proof {
            assert(self.nodes@[last as int] == self.nodes@[last as int]);
            assert(self.slot_at(last as int) == slot);
        }
        let ghost before_remove = *self;
        let entry = self.remove_last(slot);
        proof {
            before_remove.lemma_same_live(old(self));
            self.lemma_advanced_after_same(&before_remove, old(self));
            assert(before_remove.handle_of(slot) == handle);
        }
        if position != last {
            proof {
                lemma_drop_last_ordered(s0, key_order::<K>(), d);
                lemma_replace_state(s0.drop_last(), key_order::<K>(), d, position as int, s0[last as int]);
                assert(self.keys() =~= s0.drop_last().update(position as int, s0[last as int]));
                if position > 0 {
                    lemma_parent_bounds(position as int, 0, d);
                    assert(s0.drop_last()[parent_of(position as int, d)].key_rank() <= s0.drop_last()[position as int].key_rank());
                }
            }
            let ghost before_restore = *self;
            self.restore_at(position);
            proof {
                self.lemma_same_live(&before_restore);
                self.lemma_same_advanced(&before_restore, old(self));
            }
        } else {
            proof {
                lemma_drop_last_ordered(s0, key_order::<K>(), d);
            }
        }
        Ok((entry.key, entry.value))
    }

    pub(crate) fn decrease_key(&mut self, handle: TreeHandle, key: K) -> (result: Result<(), DecreaseKeyError>)
        requires
            old(self).wf(),
        ensures
            final(self).wf(),
            final(self).same_frame(old(self)),
            match result {
                Ok(()) => {
                    &&& handle.domain == old(self).domain_id()
                    &&& old(self).live().contains_key(handle)
                    &&& key.key_rank() <= old(self).live()[handle].0.key_rank()
                    &&& final(self).live() == old(self).live().insert(handle, (key, old(self).live()[handle].1))
                },
                Err(DecreaseKeyError::InvalidHandle(e)) => {
                    &&& checked(handle.domain == old(self).domain_id(), old(self).live().contains_key(handle), Err::<(), InvalidHandle>(e))
                    &&& *final(self) == *old(self)
                },
                Err(DecreaseKeyError::NotDecreased) => {
                    &&& handle.domain == old(self).domain_id()
                    &&& old(self).live().contains_key(handle)
                    &&& key.key_rank() > old(self).live()[handle].0.key_rank()
                    &&& *final(self) == *old(self)
                },
                Err(DecreaseKeyError::InvalidKey) => false,
            },
            forall|h: TreeHandle| #[trigger] final(self).handed_out(h) == old(self).handed_out(h),
            final(self).gens_kept(old(self)),
    {
        let slot = match self.validate(handle) {
            Ok(slot) => slot,
            Err(error) => return Err(DecreaseKeyError::InvalidHandle(error)),
        };
        proof {
            assert(self.entries@[slot as int] == self.entries@[slot as int]);
            self.lemma_handle_of(slot);
        }
        if self.slot_entry(slot).key.key_lt(&key) {
            return Err(DecreaseKeyError::NotDecreased);
        }
        let position = self.slot_entry(slot).position;
        let ghost s0 = self.keys();
        match &mut self.entries[slot].entry {
            Some(entry) => {
                entry.key = key;
            },
            None => {},
        }
        proof {
            assert forall|i: int| #![trigger self.nodes@[i]] 0 <= i < self.nodes@.len() implies {
                &&& self.occupied(self.slot_at(i))
                &&& self.ent(self.slot_at(i)).position == i
            } by {
                assert(old(self).nodes@[i] == old(self).nodes@[i]);
            }
            assert forall|t: int| #![trigger self.entries@[t]] self.occupied(t) implies {
                &&& self.ent(t).position < self.nodes@.len()
                &&& self.slot_at(self.ent(t).position as int) == t
            } by {
                assert(old(self).entries@[t] == old(self).entries@[t]);
            }
            assert forall|k: int| #![trigger self.free_entries@[k]] 0 <= k < self.free_entries@.len() implies {
                &&& self.free_entries@[k] < self.entries@.len()
                &&& self.entries@[self.free_entries@[k] as int].entry is None
            } by {
                assert(old(self).free_entries@[k] == self.free_entries@[k]);
            }
            assert(self.nodes@[position as int] == self.nodes@[position as int]);
            assert(self.keys() =~= s0.update(position as int, key)) by {
                assert forall|i: int| 0 <= i < self.nodes@.len() implies #[trigger] self.keys()[i] == s0.update(position as int, key)[i] by {
                    assert(old(self).nodes@[i] == old(self).nodes@[i]);
                }
            }
            lemma_replace_state(s0, key_order::<K>(), self.degree as int, position as int, key);
        }
        let ghost before = *self;
        self.fix_up(position);
        proof {
            self.lemma_same_live(&before);
            self.lemma_same_handed_out(&before);
            assert forall|h: TreeHandle| #[trigger] before.handed_out(h) == old(self).handed_out(h) by {
                if h.slot < before.entries@.len() {
                    assert(before.entries@[h.slot as int] == before.entries@[h.slot as int]);
                    assert(old(self).entries@[h.slot as int] == old(self).entries@[h.slot as int]);
                }
            }
            assert(before.live() =~= old(self).live().insert(handle, (key, old(self).live()[handle].1))) by {
                assert forall|g: TreeHandle| #[trigger] before.live().contains_key(g) <==> old(self).live().contains_key(g) by {
                    if 0 <= g.slot < before.entries@.len() {
                        assert(before.entries@[g.slot as int].generation == old(self).entries@[g.slot as int].generation);
                    }
                }
                assert forall|g: TreeHandle| #[trigger] before.live().contains_key(g) implies before.live()[g] == old(self).live().insert(
                    handle,
                    (key, old(self).live()[handle].1),
                )[g] by {
                    assert(before.entries@[g.slot as int] == before.entries@[g.slot as int]);
                }
            }
        }
        Ok(())
    }

    pub(crate) fn clear(&mut self)
        requires
            old(self).wf(),
        ensures
            final(self).wf(),
            final(self).same_frame(old(self)),
            final(self).live() == Map::<TreeHandle, (K, V)>::empty(),
            final(self).slots_advanced(old(self)),
            final(self).slot_count() == old(self).slot_count(),
    {
        self.nodes.clear();
        self.free_entries.clear();
        let n = self.entries.len();
        let mut i: usize = 0;
        while i < n
            invariant
                self.entries@.len() == n,
                i <= n,
                forall|t: int| 0 <= t < i ==> (#[trigger] self.entries@[t]).entry is None,
                self.free_entries@.len() == i,
                forall|k: int| 0 <= k < i ==> #[trigger] self.free_entries@[k] == k,
                self.nodes@.len() == 0,
                self.same_frame(old(self)),
                self.degree >= 2,
                self.domain == old(self).domain,
                n == old(self).entries@.len(),
                forall|s: usize|
                    #![trigger self.entries@[s as int]]
                    s < n ==> entry_step(self.entries@[s as int], old(self).entries@[s as int]),
                forall|s: int| i <= s < n ==> #[trigger] self.entries@[s] == old(self).entries@[s],
            decreases n - i,
        {
            if self.entries[i].entry.is_some() {
                self.entries[i].entry = None;
                let generation = self.entries[i].generation.wrapping_add(1);
                self.entries[i].generation = generation;
            }
            self.free_entries.push(i);
            i = i + 1;
        }
        proof {
            assert(self.free_entries@.no_duplicates()) by {
                assert forall|x: int, y: int| 0 <= x < self.free_entries@.len() && 0 <= y < self.free_entries@.len() && x != y implies
                    self.free_entries@[x] != self.free_entries@[y] by {
                    assert(self.free_entries@[x] == x);
                    assert(self.free_entries@[y] == y);
                }
            }
            assert(self.keys() =~= Seq::<K>::empty());
            assert(self.live() =~= Map::<TreeHandle, (K, V)>::empty());
        }
    }
}

} // verus!
