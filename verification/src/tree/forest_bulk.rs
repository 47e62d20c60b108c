//! Whole-heap operations on the shared tree storage: clearing every arena
//! and moving a donor's arenas into a receiver.
use vstd::prelude::*;

use crate::tree::forest::{Arena, NodeRef, Slot, TreeCore};
use crate::tree::handles::TreeHandle;

verus! {

broadcast use {vstd::set::group_set_axioms, vstd::map::group_map_axioms};

impl<K, V> TreeCore<K, V> {
    /// An arena with the domain of `arena`, all of its slots empty and
    /// free, and the generation of every occupied slot advanced.
    fn emptied(arena: &Arena<K, V>) -> (fresh: Arena<K, V>)
        ensures
            fresh.domain == arena.domain,
            fresh.slots@.len() == arena.slots@.len(),
            forall|k: int| 0 <= k < fresh.slots@.len() ==> (#[trigger] fresh.slots@[k]).node is None,
            Self::arena_free_ok(fresh),
    {
        let count = arena.slots.len();
        let mut slots: Vec<Slot<K, V>> = Vec::new();
        let mut free_slots: Vec<usize> = Vec::new();
        let mut index: usize = 0;
        while index < count
            invariant
                count == arena.slots@.len(),
                index <= count,
                slots@.len() == index,
                free_slots@.len() == index,
                forall|k: int| 0 <= k < index ==> (#[trigger] slots@[k]).node is None,
                forall|k: int| 0 <= k < index ==> #[trigger] free_slots@[k] == k,
            decreases count - index,
        {
            let slot = &arena.slots[index];
            let generation = if slot.node.is_some() {
                slot.generation.wrapping_add(1)
            } else {
                slot.generation
            };
            slots.push(Slot { node: None, generation });
            free_slots.push(index);
            index = index + 1;
        }
        let fresh = Arena { domain: arena.domain, slots, free_slots };
        proof {
            assert(fresh.free_slots@.no_duplicates()) by {
                assert forall|x: int, y: int|
                    0 <= x < fresh.free_slots@.len() && 0 <= y < fresh.free_slots@.len() && x != y implies fresh.free_slots@[x]
                    != fresh.free_slots@[y] by {
                    assert(fresh.free_slots@[x] == x);
                    assert(fresh.free_slots@[y] == y);
                }
            }
            assert forall|k: int|
                #![trigger fresh.free_slots@[k]]
                0 <= k < fresh.free_slots@.len() implies {
                    &&& fresh.free_slots@[k] < fresh.slots@.len()
                    &&& fresh.slots@[fresh.free_slots@[k] as int].node is None
                } by {
                assert(fresh.free_slots@[k] == k);
            }
        }
        fresh
    }

    /// Removes every node, keeping the arenas and their domains.
    pub(crate) fn clear(&mut self)
        requires
            old(self).wf(),
        ensures
            final(self).wf(),
            final(self).root is None,
            final(self).len == 0,
            final(self).active == old(self).active,
            final(self).own_domain == old(self).own_domain,
            forall|d: u64| #[trigger] final(self).has_domain(d) == old(self).has_domain(d),
            forall|h: TreeHandle| final(self).owns(h) == old(self).owns(h),
            forall|q: NodeRef| !#[trigger] final(self).is_live(q),
            final(self).live() == Map::<TreeHandle, (K, V)>::empty(),
    {
        let count = self.arenas.len();
        let mut index: usize = 0;
        while index < count
            invariant
                count == self.arenas@.len(),
                count == old(self).arenas@.len(),
                index <= count,
                forall|k: int| 0 <= k < count ==> #[trigger] self.arenas@[k].domain == old(self).arenas@[k].domain,
                forall|k: int| 0 <= k < count ==> Self::arena_free_ok(#[trigger] self.arenas@[k]),
                forall|k: int, s: int|
                    0 <= k < index && 0 <= s < self.arenas@[k].slots@.len() ==> (#[trigger] self.arenas@[k].slots@[s]).node is None,
                self.root == old(self).root,
                self.active == old(self).active,
                self.own_domain == old(self).own_domain,
                old(self).wf(),
            decreases count - index,
        {
            let fresh = Self::emptied(&self.arenas[index]);
            self.arenas.set(index, fresh);
            index = index + 1;
        }
        self.root = None;
        self.len = 0;
        proof {
            self.live_nodes@ = Set::empty();
            assert forall|k: int| 0 <= k < count implies #[trigger] self.arenas@[k].domain == old(self).arenas@[k].domain by {}
            assert(self.distinct_domains()) by {
                assert forall|i: int, j: int|
                    0 <= i < self.arenas@.len() && 0 <= j < self.arenas@.len() && #[trigger] self.arenas@[i].domain
                        == #[trigger] self.arenas@[j].domain implies i == j by {
                    assert(old(self).arenas@[i].domain == self.arenas@[i].domain);
                    assert(old(self).arenas@[j].domain == self.arenas@[j].domain);
                }
            }
            assert forall|d: u64| #[trigger] self.has_domain(d) == old(self).has_domain(d) by {
                if self.has_domain(d) {
                    let k = choose|k: int| 0 <= k < self.arenas@.len() && #[trigger] self.arenas@[k].domain == d;
                    assert(old(self).arenas@[k].domain == d);
                }
                if old(self).has_domain(d) {
                    let k = choose|k: int| 0 <= k < old(self).arenas@.len() && #[trigger] old(self).arenas@[k].domain == d;
                    assert(self.arenas@[k].domain == d);
                }
            }
            assert forall|q: NodeRef| !#[trigger] self.is_live(q) by {
                if self.has_domain(q.domain) {
                    let k = self.arena_index(q.domain);
                    if q.slot < self.arenas@[k].slots@.len() {
                        assert(self.arenas@[k].slots@[q.slot as int].node is None);
                    }
                }
            }
            assert(self.live() =~= Map::<TreeHandle, (K, V)>::empty());
            if self.active {
                assert(self.arenas@[0].domain == old(self).arenas@[0].domain);
            }
        }
    }
}

impl<K, V> TreeCore<K, V> {
    /// Whether the two heaps have a storage domain in common.
    pub(crate) fn shares_domain(&self, other: &Self) -> (result: bool)
        ensures
            result == exists|d: u64| self.has_domain(d) && other.has_domain(d),
    {
        let mut i: usize = 0;
        while i < other.arenas.len()
            invariant
                i <= other.arenas@.len(),
                forall|k: int| 0 <= k < i ==> !self.has_domain(#[trigger] other.arenas@[k].domain),
            decreases other.arenas@.len() - i,
        {
            let d = other.arenas[i].domain;
            let mut j: usize = 0;
            while j < self.arenas.len()
                invariant
                    j <= self.arenas@.len(),
                    i < other.arenas@.len(),
                    d == other.arenas@[i as int].domain,
                    forall|k: int| 0 <= k < j ==> (#[trigger] self.arenas@[k]).domain != d,
                decreases self.arenas@.len() - j,
            {
                if self.arenas[j].domain == d {
                    proof {
                        assert(self.has_domain(d));
                        assert(other.arenas@[i as int].domain == d);
                        assert(other.has_domain(d));
                    }
                    return true;
                }
                j = j + 1;
            }
            proof {
                assert(!self.has_domain(d)) by {
                    if self.has_domain(d) {
                        let k = choose|k: int| 0 <= k < self.arenas@.len() && #[trigger] self.arenas@[k].domain == d;
                        assert(self.arenas@[k].domain != d);
                    }
                }
            }
            i = i + 1;
        }
        proof {
            assert forall|d: u64| !(self.has_domain(d) && other.has_domain(d)) by {
                if other.has_domain(d) {
                    let k = choose|k: int| 0 <= k < other.arenas@.len() && #[trigger] other.arenas@[k].domain == d;
                    assert(!self.has_domain(other.arenas@[k].domain));
                }
            }
        }
        false
    }

    /// Moves every arena of `other`, whose domains this heap does not
    /// have, into this heap; `other` is left empty and refusing entries.
    pub(crate) fn take_arenas_from(&mut self, other: &mut Self)
        requires
            old(self).wf(),
            old(other).wf(),
            forall|d: u64| #[trigger] old(self).has_domain(d) ==> !old(other).has_domain(d),
            old(self).len + old(other).len <= usize::MAX,
        ensures
            final(self).wf(),
            final(self).root == old(self).root,
            final(self).active == old(self).active,
            final(self).own_domain == old(self).own_domain,
            final(self).len == old(self).len + old(other).len,
            forall|q: NodeRef| #[trigger] final(self).is_live(q) == (old(self).is_live(q) || old(other).is_live(q)),
            forall|q: NodeRef| #[trigger] old(self).is_live(q) ==> final(self).slot_at(q) == old(self).slot_at(q),
            forall|q: NodeRef| #[trigger] old(other).is_live(q) ==> final(self).slot_at(q) == old(other).slot_at(q),
            forall|d: u64| #[trigger] final(self).has_domain(d) == (old(self).has_domain(d) || old(other).has_domain(d)),
            old(self).live().dom().disjoint(old(other).live().dom()),
            final(self).live() == old(self).live().union_prefer_right(old(other).live()),
            final(other).wf(),
            !final(other).active,
            final(other).root is None,
            final(other).len == 0,
            final(other).live() == Map::<TreeHandle, (K, V)>::empty(),
            forall|q: NodeRef| !#[trigger] final(other).is_live(q),
    {
        let ghost s0 = *self;
        let ghost o0 = *other;
        self.arenas.append(&mut other.arenas);
        self.len = self.len + other.len;
        other.root = None;
        other.len = 0;
        other.active = false;
        proof {
            self.live_nodes@ = s0.live_nodes@.union(o0.live_nodes@);
            other.live_nodes@ = Set::empty();
            let n = s0.arenas@.len();
            assert forall|k: int| 0 <= k < n implies #[trigger] self.arenas@[k] == s0.arenas@[k] by {}
            assert forall|k: int| n <= k < self.arenas@.len() implies #[trigger] self.arenas@[k] == o0.arenas@[k - n] by {}
            assert(self.distinct_domains()) by {
                assert forall|i: int, j: int|
                    0 <= i < self.arenas@.len() && 0 <= j < self.arenas@.len() && #[trigger] self.arenas@[i].domain
                        == #[trigger] self.arenas@[j].domain implies i == j by {
                    if i < n && j >= n {
                        assert(s0.arenas@[i].domain == self.arenas@[i].domain);
                        assert(o0.arenas@[j - n].domain == self.arenas@[j].domain);
                        assert(s0.has_domain(self.arenas@[i].domain));
                        assert(o0.has_domain(self.arenas@[i].domain));
                    } else if i >= n && j < n {
                        assert(s0.arenas@[j].domain == self.arenas@[j].domain);
                        assert(o0.arenas@[i - n].domain == self.arenas@[i].domain);
                        assert(s0.has_domain(self.arenas@[j].domain));
                        assert(o0.has_domain(self.arenas@[j].domain));
                    } else if i < n {
                        assert(s0.arenas@[i].domain == self.arenas@[i].domain);
                        assert(s0.arenas@[j].domain == self.arenas@[j].domain);
                    } else {
                        assert(o0.arenas@[i - n].domain == self.arenas@[i].domain);
                        assert(o0.arenas@[j - n].domain == self.arenas@[j].domain);
                    }
                }
            }
            assert forall|d: u64| #[trigger] self.has_domain(d) == (s0.has_domain(d) || o0.has_domain(d)) by {
                if self.has_domain(d) {
                    let k = choose|k: int| 0 <= k < self.arenas@.len() && #[trigger] self.arenas@[k].domain == d;
                    if k < n {
                        assert(s0.arenas@[k].domain == d);
                    } else {
                        assert(o0.arenas@[k - n].domain == d);
                    }
                }
                if s0.has_domain(d) {
                    let k = choose|k: int| 0 <= k < s0.arenas@.len() && #[trigger] s0.arenas@[k].domain == d;
                    assert(self.arenas@[k].domain == d);
                }
                if o0.has_domain(d) {
                    let k = choose|k: int| 0 <= k < o0.arenas@.len() && #[trigger] o0.arenas@[k].domain == d;
                    assert(self.arenas@[k + n].domain == d);
                }
            }
            assert forall|d: u64| s0.has_domain(d) implies #[trigger] self.arena_index(d) == s0.arena_index(d) by {
                let k = s0.arena_index(d);
                assert(self.arenas@[k].domain == d);
                assert(self.has_domain(d));
                let m = self.arena_index(d);
                assert(self.arenas@[m].domain == d);
            }
            assert forall|d: u64| o0.has_domain(d) implies #[trigger] self.arena_index(d) == o0.arena_index(d) + n by {
                let k = o0.arena_index(d);
                assert(self.arenas@[k + n].domain == d);
                assert(self.has_domain(d));
                let m = self.arena_index(d);
                assert(self.arenas@[m].domain == d);
            }
            assert forall|q: NodeRef| #[trigger] self.slot_at(q) == (if s0.has_domain(q.domain) {
                s0.slot_at(q)
            } else {
                o0.slot_at(q)
            }) by {
                if s0.has_domain(q.domain) {
                    assert(self.arena_index(q.domain) == s0.arena_index(q.domain));
                } else if o0.has_domain(q.domain) {
                    assert(self.arena_index(q.domain) == o0.arena_index(q.domain) + n);
                }
            }
            assert forall|q: NodeRef| #[trigger] self.is_live(q) == (s0.is_live(q) || o0.is_live(q)) by {
                if s0.has_domain(q.domain) {
                    assert(!o0.has_domain(q.domain));
                }
            }
            assert forall|q: NodeRef| #[trigger] s0.is_live(q) implies self.slot_at(q) == s0.slot_at(q) by {}
            assert forall|q: NodeRef| #[trigger] o0.is_live(q) implies self.slot_at(q) == o0.slot_at(q) by {
                assert(!s0.has_domain(q.domain));
            }
            assert forall|k: int| 0 <= k < self.arenas@.len() implies Self::arena_free_ok(#[trigger] self.arenas@[k]) by {
                if k < n {
                    assert(Self::arena_free_ok(s0.arenas@[k]));
                } else {
                    assert(Self::arena_free_ok(o0.arenas@[k - n]));
                }
            }
            assert forall|q: NodeRef| #[trigger] self.is_live(q) implies self.node_linked(q) by {
                if s0.is_live(q) {
                    assert(s0.node_linked(q));
                    let nq = s0.nd(q);
                    if let Some(p) = nq.parent {
                        assert(s0.is_live(p));
                    }
                    assert forall|i: int| 0 <= i < nq.children@.len() implies (#[trigger] nq.children@[i] matches Some(c) ==> {
                        &&& self.is_live(c)
                        &&& self.nd(c).parent == Some(q)
                        &&& self.nd(c).position == i
                    }) by {
                        if let Some(c) = nq.children@[i] {
                            assert(s0.is_live(c));
                        }
                    }
                } else {
                    assert(o0.node_linked(q));
                    let nq = o0.nd(q);
                    if let Some(p) = nq.parent {
                        assert(o0.is_live(p));
                    }
                    assert forall|i: int| 0 <= i < nq.children@.len() implies (#[trigger] nq.children@[i] matches Some(c) ==> {
                        &&& self.is_live(c)
                        &&& self.nd(c).parent == Some(q)
                        &&& self.nd(c).position == i
                    }) by {
                        if let Some(c) = nq.children@[i] {
                            assert(o0.is_live(c));
                        }
                    }
                }
            }
            if let Some(r) = self.root {
                assert(s0.is_live(r));
            }
            if self.active {
                assert(self.arenas@[0] == s0.arenas@[0]);
            }
            assert(s0.live_nodes@.disjoint(o0.live_nodes@)) by {
                assert forall|q: NodeRef| s0.live_nodes@.contains(q) implies !o0.live_nodes@.contains(q) by {
                    assert(s0.is_live(q));
                    assert(!o0.has_domain(q.domain));
                }
            }
            vstd::set_lib::lemma_set_disjoint_lens(s0.live_nodes@, o0.live_nodes@);
            assert forall|q: NodeRef| #[trigger] self.live_nodes@.contains(q) <==> self.is_live(q) by {
                assert(s0.live_nodes@.contains(q) == s0.is_live(q));
                assert(o0.live_nodes@.contains(q) == o0.is_live(q));
            }
            assert(s0.live().dom().disjoint(o0.live().dom())) by {
                assert forall|h: TreeHandle| s0.live().dom().contains(h) implies !o0.live().dom().contains(h) by {
                    let q = Self::ref_of(h);
                    assert(s0.is_live(q));
                    assert(!o0.has_domain(q.domain));
                }
            }
            assert(self.live() =~= s0.live().union_prefer_right(o0.live())) by {
                assert forall|h: TreeHandle| #[trigger] self.live().contains_key(h) <==> s0.live().union_prefer_right(
                    o0.live(),
                ).contains_key(h) by {
                    let q = Self::ref_of(h);
                    if s0.is_live(q) {
                        assert(self.slot_at(q) == s0.slot_at(q));
                    } else if o0.is_live(q) {
                        assert(self.slot_at(q) == o0.slot_at(q));
                    }
                }
                assert forall|h: TreeHandle| #[trigger] self.live().contains_key(h) implies self.live()[h] == s0.live().union_prefer_right(
                    o0.live(),
                )[h] by {
                    let q = Self::ref_of(h);
                    if s0.is_live(q) {
                        assert(self.slot_at(q) == s0.slot_at(q));
                    } else {
                        assert(self.slot_at(q) == o0.slot_at(q));
                    }
                }
            }
            assert forall|q: NodeRef| !#[trigger] other.is_live(q) by {}
            assert(other.live() =~= Map::<TreeHandle, (K, V)>::empty());
        }
    }
}

} // verus!
