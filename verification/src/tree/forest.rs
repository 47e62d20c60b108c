//! Shared storage for the addressable meldable tree heaps: arenas of node
//! slots, one per storage domain, and checked handles into them.
//!
//! Every heap that has contributed nodes keeps its arena in the receiver of
//! a meld, so a donor's handles keep their identity: a handle names its
//! domain, a slot, and the slot's generation when the entry was inserted.
//!
//! The invariant kept here is that the parent and child links agree: a
//! node's parent lists it at the position the node records, every listed
//! child names the parent back, and every link leads to a live node.
use vstd::prelude::*;

use crate::error::{DecreaseKeyError, InvalidHandle};
use crate::order::HeapKey;
use crate::std_support::fresh_heap_id;
use crate::tree::handles::TreeHandle;
use crate::checked;

verus! {

broadcast use {vstd::set::group_set_axioms, vstd::map::group_map_axioms};

/// The address of a node: its storage domain and slot.
#[derive(Clone, Copy, Debug, PartialEq, Eq, Structural, Hash)]
pub(crate) struct NodeRef {
    pub(crate) domain: u64,
    pub(crate) slot: usize,
}

pub(crate) struct Node<K, V> {
    pub(crate) key: K,
    pub(crate) value: V,
    pub(crate) parent: Option<NodeRef>,
    pub(crate) position: usize,
    pub(crate) children: Vec<Option<NodeRef>>,
    pub(crate) rank: usize,
    pub(crate) marked: bool,
}

pub(crate) struct Slot<K, V> {
    pub(crate) node: Option<Node<K, V>>,
    pub(crate) generation: u64,
}

pub(crate) struct Arena<K, V> {
    pub(crate) domain: u64,
    pub(crate) slots: Vec<Slot<K, V>>,
    pub(crate) free_slots: Vec<usize>,
}

/// The storage of a tree heap: its arenas, the root it records, the number
/// of live nodes, and whether it still accepts entries.
pub(crate) struct TreeCore<K, V> {
    pub(crate) root: Option<NodeRef>,
    pub(crate) len: usize,
    pub(crate) active: bool,
    pub(crate) own_domain: u64,
    pub(crate) arenas: Vec<Arena<K, V>>,
    pub(crate) live_nodes: Ghost<Set<NodeRef>>,
}

impl<K, V> TreeCore<K, V> {
    pub(crate) open spec fn has_domain(&self, d: u64) -> bool {
        exists|i: int| 0 <= i < self.arenas@.len() && #[trigger] self.arenas@[i].domain == d
    }

    pub(crate) open spec fn arena_index(&self, d: u64) -> int {
        choose|i: int| 0 <= i < self.arenas@.len() && #[trigger] self.arenas@[i].domain == d
    }

    pub(crate) open spec fn distinct_domains(&self) -> bool {
        forall|i: int, j: int|
            0 <= i < self.arenas@.len() && 0 <= j < self.arenas@.len() && #[trigger] self.arenas@[i].domain
                == #[trigger] self.arenas@[j].domain ==> i == j
    }

    /// The slot that `r` addresses, if its domain and slot exist.
    pub(crate) open spec fn slot_at(&self, r: NodeRef) -> Option<Slot<K, V>> {
        if self.has_domain(r.domain) && r.slot < self.arenas@[self.arena_index(r.domain)].slots@.len() {
            Some(self.arenas@[self.arena_index(r.domain)].slots@[r.slot as int])
        } else {
            None
        }
    }

    pub(crate) open spec fn is_live(&self, r: NodeRef) -> bool {
        self.slot_at(r) matches Some(slot) && slot.node is Some
    }

    pub(crate) open spec fn nd(&self, r: NodeRef) -> Node<K, V> {
        self.slot_at(r)->0.node->0
    }

    /// A link in a node, absent or to a live node.
    pub(crate) open spec fn link_ok(&self, link: Option<NodeRef>) -> bool {
        link matches Some(c) ==> self.is_live(c)
    }

    /// The links of live node `r` agree with its parent and children.
    pub(crate) open spec fn node_linked(&self, r: NodeRef) -> bool {
        let n = self.nd(r);
        &&& n.parent matches Some(p) ==> {
            &&& p != r
            &&& self.is_live(p)
            &&& n.position < self.nd(p).children@.len()
            &&& self.nd(p).children@[n.position as int] == Some(r)
        }
        &&& forall|i: int|
            0 <= i < n.children@.len() ==> (#[trigger] n.children@[i] matches Some(c) ==> {
                &&& self.is_live(c)
                &&& self.nd(c).parent == Some(r)
                &&& self.nd(c).position == i
            })
    }

    pub(crate) open spec fn linked(&self) -> bool {
        forall|r: NodeRef| #[trigger] self.is_live(r) ==> self.node_linked(r)
    }

    pub(crate) open spec fn arena_free_ok(arena: Arena<K, V>) -> bool {
        &&& forall|k: int|
            #![trigger arena.free_slots@[k]]
            0 <= k < arena.free_slots@.len() ==> {
                &&& arena.free_slots@[k] < arena.slots@.len()
                &&& arena.slots@[arena.free_slots@[k] as int].node is None
            }
        &&& arena.free_slots@.no_duplicates()
    }

    /// The structural invariant.
    pub(crate) open spec fn wf(&self) -> bool {
        &&& self.distinct_domains()
        &&& forall|i: int| 0 <= i < self.arenas@.len() ==> Self::arena_free_ok(#[trigger] self.arenas@[i])
        &&& self.active ==> self.arenas@.len() > 0 && self.arenas@[0].domain == self.own_domain
        &&& self.linked()
        &&& self.root matches Some(r) ==> self.is_live(r) && self.nd(r).parent is None
        &&& self.live_nodes@.finite()
        &&& forall|r: NodeRef| #[trigger] self.live_nodes@.contains(r) <==> self.is_live(r)
        &&& self.live_nodes@.len() == self.len
    }

    pub(crate) open spec fn ref_of(h: TreeHandle) -> NodeRef {
        NodeRef { domain: h.domain, slot: h.slot }
    }

    pub(crate) open spec fn handle_of(&self, r: NodeRef) -> TreeHandle {
        TreeHandle { domain: r.domain, slot: r.slot, generation: self.slot_at(r)->0.generation }
    }

    /// The live handles and the entries they identify.
    pub(crate) open spec fn live(&self) -> Map<TreeHandle, (K, V)> {
        Map::new(
            |h: TreeHandle| self.is_live(Self::ref_of(h)) && self.slot_at(Self::ref_of(h))->0.generation == h.generation,
            |h: TreeHandle| (self.nd(Self::ref_of(h)).key, self.nd(Self::ref_of(h)).value),
        )
    }

    /// Whether `handle` names a domain of this heap, which still accepts
    /// handles.
    pub(crate) open spec fn owns(&self, handle: TreeHandle) -> bool {
        self.active && self.has_domain(handle.domain)
    }

    /// Two states that agree on every slot: the same entries under the same
    /// generations, with possibly different links.
    pub(crate) open spec fn same_entries(&self, other: &Self) -> bool {
        &&& forall|r: NodeRef| #[trigger] self.is_live(r) <==> other.is_live(r)
        &&& forall|r: NodeRef| #[trigger] self.is_live(r) ==> {
            &&& self.nd(r).key == other.nd(r).key
            &&& self.nd(r).value == other.nd(r).value
            &&& self.slot_at(r)->0.generation == other.slot_at(r)->0.generation
        }
        &&& forall|d: u64| #[trigger] self.has_domain(d) == other.has_domain(d)
        &&& self.active == other.active
        &&& self.own_domain == other.own_domain
    }

    pub(crate) proof fn lemma_same_entries(&self, other: &Self)
        requires
            self.same_entries(other),
        ensures
            self.live() == other.live(),
            forall|h: TreeHandle| self.owns(h) == other.owns(h),
    {
        assert(self.live() =~= other.live()) by {
            assert forall|h: TreeHandle| #[trigger] self.live().contains_key(h) <==> other.live().contains_key(h) by {
                let r = Self::ref_of(h);
                if self.is_live(r) {
                    assert(self.slot_at(r)->0.generation == other.slot_at(r)->0.generation);
                }
            }
        }
    }

    /// There are exactly as many live handles as live nodes.
    pub(crate) proof fn lemma_live_len(&self)
        requires
            self.wf(),
        ensures
            self.live().dom().finite(),
            self.live().len() == self.len,
    {
        let f = |r: NodeRef| self.handle_of(r);
        assert(vstd::relations::injective_on(f, self.live_nodes@)) by {
            assert forall|a: NodeRef, b: NodeRef|
                self.live_nodes@.contains(a) && self.live_nodes@.contains(b) && #[trigger] f(a) == #[trigger] f(b) implies a
                == b by {
            }
        }
        assert(self.live_nodes@.map(f) =~= self.live().dom()) by {
            assert forall|h: TreeHandle| self.live().dom().contains(h) implies self.live_nodes@.map(f).contains(h) by {
                let r = Self::ref_of(h);
                assert(self.live_nodes@.contains(r));
                assert(f(r) == h);
            }
        }
        vstd::set_lib::lemma_map_size(self.live_nodes@, self.live().dom(), f);
    }

    pub(crate) proof fn lemma_handle_of(&self, r: NodeRef)
        requires
            self.is_live(r),
        ensures
            self.live().contains_key(self.handle_of(r)),
            self.live()[self.handle_of(r)] == (self.nd(r).key, self.nd(r).value),
            Self::ref_of(self.handle_of(r)) == r,
    {
    }
}


impl<K, V> TreeCore<K, V> {
    /// `self` is `before` with the node in the slot that `r` addresses
    /// replaced by `node`.
    pub(crate) open spec fn replaced(&self, before: &Self, r: NodeRef, node: Option<Node<K, V>>) -> bool {
        let a = before.arena_index(r.domain);
        &&& before.has_domain(r.domain)
        &&& r.slot < before.arenas@[a].slots@.len()
        &&& self.arenas@.len() == before.arenas@.len()
        &&& forall|i: int| #![trigger self.arenas@[i]] 0 <= i < self.arenas@.len() ==> {
            &&& self.arenas@[i].domain == before.arenas@[i].domain
            &&& self.arenas@[i].free_slots == before.arenas@[i].free_slots
            &&& self.arenas@[i].slots@.len() == before.arenas@[i].slots@.len()
            &&& i != a ==> self.arenas@[i].slots == before.arenas@[i].slots
        }
        &&& forall|s: int| #![trigger self.arenas@[a].slots@[s]] 0 <= s < self.arenas@[a].slots@.len() && s != r.slot ==> self.arenas@[a].slots@[s] == before.arenas@[a].slots@[s]
        &&& self.arenas@[a].slots@[r.slot as int] == Slot { node, generation: before.arenas@[a].slots@[r.slot as int].generation }
        &&& self.root == before.root
        &&& self.len == before.len
        &&& self.active == before.active
        &&& self.own_domain == before.own_domain
        &&& self.live_nodes == before.live_nodes
    }

    pub(crate) proof fn lemma_replaced(&self, before: &Self, r: NodeRef, node: Option<Node<K, V>>)
        requires
            before.distinct_domains(),
            self.replaced(before, r, node),
        ensures
            self.distinct_domains(),
            forall|d: u64| #[trigger] self.has_domain(d) == before.has_domain(d),
            forall|d: u64| before.has_domain(d) ==> #[trigger] self.arena_index(d) == before.arena_index(d),
            forall|q: NodeRef| q != r ==> #[trigger] self.slot_at(q) == before.slot_at(q),
            self.slot_at(r) == Some(Slot { node, generation: before.slot_at(r)->0.generation }),
            forall|i: int| 0 <= i < self.arenas@.len() ==> Self::arena_free_ok(before.arenas@[i]) ==> Self::arena_free_ok(
                #[trigger] self.arenas@[i],
            ) || (i == before.arena_index(r.domain) && node is Some),
    {
        let a = before.arena_index(r.domain);
        assert forall|i: int| 0 <= i < self.arenas@.len() implies #[trigger] self.arenas@[i].domain == before.arenas@[i].domain by {
            assert(self.arenas@[i] == self.arenas@[i]);
        }
        assert forall|d: u64| self.has_domain(d) implies #[trigger] before.has_domain(d) by {
            let i = choose|i: int| 0 <= i < self.arenas@.len() && #[trigger] self.arenas@[i].domain == d;
            assert(before.arenas@[i].domain == d);
        }
        assert forall|d: u64| before.has_domain(d) implies #[trigger] self.has_domain(d) by {
            let i = choose|i: int| 0 <= i < before.arenas@.len() && #[trigger] before.arenas@[i].domain == d;
            assert(self.arenas@[i].domain == d);
        }
        assert forall|i: int, j: int|
            0 <= i < self.arenas@.len() && 0 <= j < self.arenas@.len() && #[trigger] self.arenas@[i].domain
                == #[trigger] self.arenas@[j].domain implies i == j by {
            assert(before.arenas@[i].domain == self.arenas@[i].domain);
            assert(before.arenas@[j].domain == self.arenas@[j].domain);
        }
        assert forall|d: u64| before.has_domain(d) implies #[trigger] self.arena_index(d) == before.arena_index(d) by {
            assert(self.has_domain(d));
            let i = self.arena_index(d);
            let j = before.arena_index(d);
            assert(self.arenas@[i].domain == d);
            assert(before.arenas@[i].domain == d);
            assert(self.arenas@[j].domain == d);
        }
        assert forall|q: NodeRef| q != r implies #[trigger] self.slot_at(q) == before.slot_at(q) by {
            if before.has_domain(q.domain) {
                let i = before.arena_index(q.domain);
                assert(self.arenas@[i] == self.arenas@[i]);
                if i == a && q.slot < before.arenas@[a].slots@.len() {
                    assert(q.slot != r.slot);
                    assert(self.arenas@[a].slots@[q.slot as int] == before.arenas@[a].slots@[q.slot as int]);
                }
            }
        }
        assert(self.arenas@[a] == self.arenas@[a]);
        assert forall|i: int| 0 <= i < self.arenas@.len() implies Self::arena_free_ok(before.arenas@[i]) ==> Self::arena_free_ok(
            #[trigger] self.arenas@[i],
        ) || (i == a && node is Some) by {
            assert(self.arenas@[i] == self.arenas@[i]);
            if i == a && node is None && Self::arena_free_ok(before.arenas@[i]) {
                assert forall|k: int| #![trigger self.arenas@[i].free_slots@[k]] 0 <= k < self.arenas@[i].free_slots@.len() implies {
                    &&& self.arenas@[i].free_slots@[k] < self.arenas@[i].slots@.len()
                    &&& self.arenas@[i].slots@[self.arenas@[i].free_slots@[k] as int].node is None
                } by {
                    assert(before.arenas@[i].free_slots@[k] == self.arenas@[i].free_slots@[k]);
                    let s = self.arenas@[i].free_slots@[k] as int;
                    if s != r.slot {
                        assert(self.arenas@[a].slots@[s] == before.arenas@[a].slots@[s]);
                    }
                }
            }
        }
    }

    /// The index of the arena of domain `d`.
    pub(crate) fn locate(&self, d: u64) -> (result: Option<usize>)
        requires
            self.distinct_domains(),
        ensures
            result is None <==> !self.has_domain(d),
            result matches Some(i) ==> i == self.arena_index(d) && i < self.arenas@.len(),
    {
        let mut i: usize = 0;
        while i < self.arenas.len()
            invariant
                self.distinct_domains(),
                i <= self.arenas@.len(),
                forall|j: int| 0 <= j < i ==> (#[trigger] self.arenas@[j]).domain != d,
            decreases self.arenas@.len() - i,
        {
            if self.arenas[i].domain == d {
                proof {
                    assert(self.arenas@[i as int].domain == d);
                    assert(self.has_domain(d));
                    let k = self.arena_index(d);
                    assert(self.arenas@[k].domain == d);
                }
                return Some(i);
            }
            i = i + 1;
        }
        None
    }

    /// Takes the node out of the slot that `r` addresses.
    pub(crate) fn take_node(&mut self, r: NodeRef) -> (node: Node<K, V>)
        requires
            old(self).distinct_domains(),
            old(self).is_live(r),
        ensures
            node == old(self).nd(r),
            final(self).replaced(old(self), r, None),
    {
        let i = self.locate(r.domain).unwrap();
        let node = self.arenas[i].slots[r.slot].node.take().unwrap();
        proof {
            assert(self.arenas@[i as int] == self.arenas@[i as int]);
        }
        node
    }

    /// Puts `node` into the slot that `r` addresses.
    pub(crate) fn put_node(&mut self, r: NodeRef, node: Node<K, V>)
        requires
            old(self).distinct_domains(),
            old(self).slot_at(r) is Some,
        ensures
            final(self).replaced(old(self), r, Some(node)),
    {
        let i = self.locate(r.domain).unwrap();
        self.arenas[i].slots[r.slot].node = Some(node);
        proof {
            assert(self.arenas@[i as int] == self.arenas@[i as int]);
        }
    }
}


impl<K, V> TreeCore<K, V> {
    /// `self` agrees with `before` outside the nodes of `changed`, which are
    /// live in both.
    pub(crate) open spec fn agrees_outside(&self, before: &Self, changed: Set<NodeRef>) -> bool {
        &&& forall|q: NodeRef| !changed.contains(q) ==> #[trigger] self.slot_at(q) == before.slot_at(q)
        &&& forall|q: NodeRef| changed.contains(q) ==> before.is_live(q) && #[trigger] self.is_live(q)
        &&& forall|q: NodeRef| changed.contains(q) ==> #[trigger] self.slot_at(q)->0.generation == before.slot_at(q)->0.generation
    }

    /// Links stay consistent when only the nodes of `changed` changed, each
    /// of them is consistent, and every other node's links into them still
    /// hold.
    pub(crate) proof fn lemma_linked_after(&self, before: &Self, changed: Set<NodeRef>)
        requires
            before.linked(),
            self.agrees_outside(before, changed),
            forall|q: NodeRef| #[trigger] changed.contains(q) ==> self.node_linked(q),
            forall|q: NodeRef|
                #![trigger before.is_live(q)]
                before.is_live(q) && !changed.contains(q) ==> {
                    &&& (before.nd(q).parent is Some && changed.contains(before.nd(q).parent->0)) ==> {
                        &&& before.nd(q).position < self.nd(before.nd(q).parent->0).children@.len()
                        &&& self.nd(before.nd(q).parent->0).children@[before.nd(q).position as int] == Some(q)
                    }
                    &&& forall|i: int|
                        0 <= i < before.nd(q).children@.len() ==> ((#[trigger] before.nd(q).children@[i]) is Some
                            && changed.contains(before.nd(q).children@[i]->0) ==> self.nd(before.nd(q).children@[i]->0).parent
                            == Some(q) && self.nd(before.nd(q).children@[i]->0).position == i)
                },
        ensures
            self.linked(),
            forall|q: NodeRef| #[trigger] self.is_live(q) == before.is_live(q),
    {
        assert forall|q: NodeRef| #[trigger] self.is_live(q) == before.is_live(q) by {
            if changed.contains(q) {
            } else {
                assert(self.slot_at(q) == before.slot_at(q));
            }
        }
        assert forall|r: NodeRef| #[trigger] self.is_live(r) implies self.node_linked(r) by {
            if !changed.contains(r) {
                assert(self.slot_at(r) == before.slot_at(r));
                assert(before.is_live(r));
                assert(before.node_linked(r));
                let n = before.nd(r);
                assert(self.nd(r) == n);
                if let Some(p) = n.parent {
                    if !changed.contains(p) {
                        assert(self.slot_at(p) == before.slot_at(p));
                    }
                }
                assert forall|i: int| 0 <= i < n.children@.len() implies (#[trigger] n.children@[i] matches Some(c) ==> {
                    &&& self.is_live(c)
                    &&& self.nd(c).parent == Some(r)
                    &&& self.nd(c).position == i
                }) by {
                    if let Some(c) = n.children@[i] {
                        if !changed.contains(c) {
                            assert(self.slot_at(c) == before.slot_at(c));
                        }
                    }
                }
            }
        }
    }
}


impl<K, V> TreeCore<K, V> {
    /// The structural part of the invariant: arenas, links, and root.
    pub(crate) open spec fn links_wf(&self) -> bool {
        &&& self.distinct_domains()
        &&& forall|i: int| 0 <= i < self.arenas@.len() ==> Self::arena_free_ok(#[trigger] self.arenas@[i])
        &&& self.linked()
    }

    /// Two states with the same live nodes holding the same entries under
    /// the same generations, in the same domains.
    /// Every live node keeps its rank and mark.
    pub(crate) open spec fn keeps_marks(&self, before: &Self) -> bool {
        forall|q: NodeRef|
            #[trigger] self.is_live(q) && before.is_live(q) ==> self.nd(q).rank == before.nd(q).rank && self.nd(q).marked
                == before.nd(q).marked
    }

    pub(crate) open spec fn same_nodes(&self, other: &Self) -> bool {
        &&& forall|q: NodeRef| #[trigger] self.is_live(q) == other.is_live(q)
        &&& forall|q: NodeRef| #[trigger] self.is_live(q) ==> {
            &&& self.nd(q).key == other.nd(q).key
            &&& self.nd(q).value == other.nd(q).value
            &&& self.slot_at(q)->0.generation == other.slot_at(q)->0.generation
        }
        &&& forall|d: u64| #[trigger] self.has_domain(d) == other.has_domain(d)
        &&& self.arenas@.len() == other.arenas@.len()
        &&& forall|i: int| 0 <= i < self.arenas@.len() ==> #[trigger] self.arenas@[i].domain == other.arenas@[i].domain
        &&& self.root == other.root
        &&& self.len == other.len
        &&& self.active == other.active
        &&& self.own_domain == other.own_domain
        &&& self.live_nodes == other.live_nodes
    }

    /// A relinking keeps the whole invariant when the root still stands
    /// without a parent.
    pub(crate) proof fn lemma_same_nodes_wf(&self, other: &Self)
        requires
            other.wf(),
            self.links_wf(),
            self.same_nodes(other),
            self.root matches Some(r) ==> self.nd(r).parent is None,
        ensures
            self.wf(),
            self.same_entries(other),
            self.live() == other.live(),
    {
        if self.active {
            assert(other.arenas@[0].domain == self.arenas@[0].domain);
        }
        self.lemma_same_entries(other);
    }

    /// Keeping marks twice keeps them.
    pub(crate) proof fn lemma_keeps_marks_trans(&self, mid: &Self, first: &Self)
        requires
            self.keeps_marks(mid),
            mid.keeps_marks(first),
            forall|q: NodeRef| #[trigger] self.is_live(q) == mid.is_live(q),
        ensures
            self.keeps_marks(first),
    {
        assert forall|q: NodeRef| #[trigger] self.is_live(q) && first.is_live(q) implies self.nd(q).rank == first.nd(q).rank
            && self.nd(q).marked == first.nd(q).marked by {
            assert(mid.is_live(q));
        }
    }

    /// Relinking twice is a relinking.
    pub(crate) proof fn lemma_same_nodes_trans(&self, mid: &Self, first: &Self)
        requires
            self.same_nodes(mid),
            mid.same_nodes(first),
        ensures
            self.same_nodes(first),
    {
        assert forall|q: NodeRef| #[trigger] self.is_live(q) == first.is_live(q) by {
            assert(mid.is_live(q) == first.is_live(q));
        }
        assert forall|q: NodeRef| #[trigger] self.is_live(q) implies {
            &&& self.nd(q).key == first.nd(q).key
            &&& self.nd(q).value == first.nd(q).value
            &&& self.slot_at(q)->0.generation == first.slot_at(q)->0.generation
        } by {
            assert(mid.is_live(q));
        }
        assert forall|d: u64| #[trigger] self.has_domain(d) == first.has_domain(d) by {
            assert(mid.has_domain(d) == first.has_domain(d));
        }
        assert forall|i: int| 0 <= i < self.arenas@.len() implies #[trigger] self.arenas@[i].domain == first.arenas@[i].domain by {
            assert(mid.arenas@[i].domain == first.arenas@[i].domain);
        }
    }

    /// A relinked state under a new root keeps the whole invariant when
    /// the new root stands without a parent.
    pub(crate) proof fn lemma_rerooted(&self, before: &Self, other: &Self)
        requires
            other.wf(),
            before.links_wf(),
            before.same_nodes(other),
            *self == (TreeCore { root: self.root, ..*before }),
            self.root matches Some(r) ==> self.is_live(r) && self.nd(r).parent is None,
        ensures
            self.wf(),
            self.same_entries(other),
            self.live() == other.live(),
    {
        assert(self.arenas == before.arenas);
        assert forall|q: NodeRef| #[trigger] self.slot_at(q) == before.slot_at(q) by {}
        assert forall|d: u64| #[trigger] self.has_domain(d) == before.has_domain(d) by {}
        assert(self.linked()) by {
            assert forall|q: NodeRef| #[trigger] self.is_live(q) implies self.node_linked(q) by {
                assert(self.slot_at(q) == before.slot_at(q));
                assert(before.is_live(q));
                assert(before.node_linked(q));
                let n = self.nd(q);
                if let Some(p) = n.parent {
                    assert(self.slot_at(p) == before.slot_at(p));
                }
                assert forall|i: int| 0 <= i < n.children@.len() implies (#[trigger] n.children@[i] matches Some(c) ==> {
                    &&& self.is_live(c)
                    &&& self.nd(c).parent == Some(q)
                    &&& self.nd(c).position == i
                }) by {
                    if let Some(c) = n.children@[i] {
                        assert(self.slot_at(c) == before.slot_at(c));
                    }
                }
            }
        }
        assert(self.same_entries(other)) by {
            assert forall|r: NodeRef| #[trigger] self.is_live(r) <==> other.is_live(r) by {
                assert(self.slot_at(r) == before.slot_at(r));
                assert(before.is_live(r) == other.is_live(r));
            }
            assert forall|r: NodeRef| #[trigger] self.is_live(r) implies {
                &&& self.nd(r).key == other.nd(r).key
                &&& self.nd(r).value == other.nd(r).value
                &&& self.slot_at(r)->0.generation == other.slot_at(r)->0.generation
            } by {
                assert(self.slot_at(r) == before.slot_at(r));
                assert(before.is_live(r));
            }
        }
        assert forall|r: NodeRef| #[trigger] self.live_nodes@.contains(r) <==> self.is_live(r) by {
            assert(self.slot_at(r) == before.slot_at(r));
        }
        if let Some(r) = self.root {
            assert(self.slot_at(r) == before.slot_at(r));
        }
        if self.active {
            assert(other.arenas@[0].domain == self.arenas@[0].domain);
        }
        self.lemma_same_entries(other);
    }

    /// Makes `child` the child at position `index` of `parent`, whose
    /// child slot there is empty; `child` must have no parent.
    pub(crate) fn set_child(&mut self, parent: NodeRef, index: usize, child: NodeRef)
        requires
            old(self).links_wf(),
            old(self).is_live(parent),
            old(self).is_live(child),
            parent != child,
            old(self).nd(child).parent is None,
            index < old(self).nd(parent).children@.len() ==> old(self).nd(parent).children@[index as int] is None,
        ensures
            final(self).links_wf(),
            final(self).same_nodes(old(self)),
            final(self).keeps_marks(old(self)),
            final(self).nd(parent).children@.len() == if index < old(self).nd(parent).children@.len() {
                old(self).nd(parent).children@.len() as int
            } else {
                index + 1
            },
            final(self).nd(parent).children@[index as int] == Some(child),
            forall|j: int| 0 <= j < old(self).nd(parent).children@.len() && j != index ==> #[trigger] final(self).nd(parent).children@[j]
                == old(self).nd(parent).children@[j],
            forall|j: int| old(self).nd(parent).children@.len() <= j < index ==> #[trigger] final(self).nd(parent).children@[j] is None,
            final(self).nd(parent).parent == old(self).nd(parent).parent,
            final(self).nd(parent).position == old(self).nd(parent).position,
            final(self).nd(child).parent == Some(parent),
            final(self).nd(child).position == index,
            final(self).nd(child).children == old(self).nd(child).children,
            forall|q: NodeRef| q != parent && q != child ==> #[trigger] final(self).slot_at(q) == old(self).slot_at(q),
    {
        let ghost s0 = *self;
        let mut p = self.take_node(parent);
        proof {
            self.lemma_replaced(&s0, parent, None);
        }
        let ghost s1 = *self;
        while p.children.len() < index
            invariant
                p.children@.len() <= index || p.children@.len() == s0.nd(parent).children@.len(),
                p == (Node { children: p.children, ..s0.nd(parent) }),
                p.children@.len() >= s0.nd(parent).children@.len(),
                forall|j: int| 0 <= j < s0.nd(parent).children@.len() ==> #[trigger] p.children@[j] == s0.nd(parent).children@[j],
                forall|j: int| s0.nd(parent).children@.len() <= j < p.children@.len() ==> #[trigger] p.children@[j] is None,
            decreases index - p.children@.len(),
        {
            p.children.push(None);
        }
        if index < p.children.len() {
            p.children.set(index, Some(child));
        } else {
            p.children.push(Some(child));
        }
        self.put_node(parent, p);
        proof {
            self.lemma_replaced(&s1, parent, Some(p));
        }
        let ghost s2 = *self;
        let mut c = self.take_node(child);
        proof {
            self.lemma_replaced(&s2, child, None);
        }
        let ghost s3 = *self;
        c.parent = Some(parent);
        c.position = index;
        self.put_node(child, c);
        proof {
            self.lemma_replaced(&s3, child, Some(c));
            let changed = Set::empty().insert(parent).insert(child);
            assert(self.agrees_outside(&s0, changed)) by {
                assert forall|q: NodeRef| !changed.contains(q) implies #[trigger] self.slot_at(q) == s0.slot_at(q) by {}
            }
            assert forall|q: NodeRef| #[trigger] changed.contains(q) implies self.node_linked(q) by {
                if q == parent {
                    let n = self.nd(parent);
                    if let Some(pp) = n.parent {
                        assert(s0.node_linked(parent));
                        if pp == child {
                            assert(s0.nd(child).children == self.nd(child).children);
                        }
                    }
                    assert(n == p);
                    assert forall|i: int| 0 <= i < n.children@.len() implies (#[trigger] n.children@[i] matches Some(x) ==> {
                        &&& self.is_live(x)
                        &&& self.nd(x).parent == Some(parent)
                        &&& self.nd(x).position == i
                    }) by {
                        if i == index {
                            assert(n.children@[i] == Some(child));
                            assert(self.nd(child) == c);
                        } else if i < s0.nd(parent).children@.len() {
                            assert(n.children@[i] == s0.nd(parent).children@[i]);
                            assert(s0.node_linked(parent));
                            if let Some(x) = n.children@[i] {
                                assert(s0.nd(x).parent == Some(parent));
                                assert(x != child);
                                if x != parent {
                                    assert(self.slot_at(x) == s0.slot_at(x));
                                }
                            }
                        } else {
                            assert(n.children@[i] is None);
                        }
                    }
                } else {
                    let n = self.nd(child);
                    assert(n == c);
                    assert(s0.node_linked(child));
                    assert forall|i: int| 0 <= i < n.children@.len() implies (#[trigger] n.children@[i] matches Some(x) ==> {
                        &&& self.is_live(x)
                        &&& self.nd(x).parent == Some(child)
                        &&& self.nd(x).position == i
                    }) by {
                        assert(n.children@[i] == s0.nd(child).children@[i]);
                        if let Some(x) = n.children@[i] {
                            assert(s0.nd(x).parent == Some(child));
                            if x == parent {
                                assert(self.nd(parent).parent == s0.nd(parent).parent);
                            } else if x != child {
                                assert(self.slot_at(x) == s0.slot_at(x));
                            }
                        }
                    }
                }
            }
            assert forall|q: NodeRef|
                #![trigger s0.is_live(q)]
                s0.is_live(q) && !changed.contains(q) implies {
                    &&& (s0.nd(q).parent is Some && changed.contains(s0.nd(q).parent->0)) ==> {
                        &&& s0.nd(q).position < self.nd(s0.nd(q).parent->0).children@.len()
                        &&& self.nd(s0.nd(q).parent->0).children@[s0.nd(q).position as int] == Some(q)
                    }
                    &&& forall|i: int|
                        0 <= i < s0.nd(q).children@.len() ==> ((#[trigger] s0.nd(q).children@[i]) is Some
                            && changed.contains(s0.nd(q).children@[i]->0) ==> self.nd(s0.nd(q).children@[i]->0).parent
                            == Some(q) && self.nd(s0.nd(q).children@[i]->0).position == i)
                } by {
                assert(s0.node_linked(q));
                if let Some(pp) = s0.nd(q).parent {
                    if pp == child {
                        assert(s0.nd(child).children == self.nd(child).children);
                    }
                    if pp == parent {
                        assert(s0.nd(parent).children@[s0.nd(q).position as int] == Some(q));
                        assert(s0.nd(q).position != index);
                    }
                }
                assert forall|i: int| 0 <= i < s0.nd(q).children@.len() implies ((#[trigger] s0.nd(q).children@[i]) is Some
                    && changed.contains(s0.nd(q).children@[i]->0) ==> self.nd(s0.nd(q).children@[i]->0).parent
                    == Some(q) && self.nd(s0.nd(q).children@[i]->0).position == i) by {
                    if let Some(x) = s0.nd(q).children@[i] {
                        if x == child {
                            assert(s0.nd(child).parent == Some(q));
                        }
                    }
                }
            }
            self.lemma_linked_after(&s0, changed);
            assert forall|i: int| 0 <= i < self.arenas@.len() implies Self::arena_free_ok(#[trigger] self.arenas@[i]) by {
                assert(s0.arenas@[i] == s0.arenas@[i]);
                assert(s1.arenas@[i] == s1.arenas@[i]);
                assert(s2.arenas@[i] == s2.arenas@[i]);
                assert(s3.arenas@[i] == s3.arenas@[i]);
                assert(self.arenas@[i].free_slots == s0.arenas@[i].free_slots);
                assert forall|k: int| #![trigger self.arenas@[i].free_slots@[k]] 0 <= k < self.arenas@[i].free_slots@.len() implies {
                    &&& self.arenas@[i].free_slots@[k] < self.arenas@[i].slots@.len()
                    &&& self.arenas@[i].slots@[self.arenas@[i].free_slots@[k] as int].node is None
                } by {
                    let sl = self.arenas@[i].free_slots@[k];
                    assert(s0.arenas@[i].free_slots@[k] == sl);
                    let q = NodeRef { domain: self.arenas@[i].domain, slot: sl };
                    assert(s0.arena_index(q.domain) == i);
                    assert(self.arena_index(q.domain) == i);
                    assert(s0.slot_at(q) == Some(s0.arenas@[i].slots@[sl as int]));
                    assert(q != parent && q != child);
                    assert(self.slot_at(q) == s0.slot_at(q));
                }
            }
        }
    }
}


impl<K, V> TreeCore<K, V> {
    proof fn lemma_free_kept(&self, s0: &Self, changed: Set<NodeRef>)
        requires
            s0.links_wf(),
            self.distinct_domains(),
            self.arenas@.len() == s0.arenas@.len(),
            forall|i: int| #![trigger self.arenas@[i]] 0 <= i < self.arenas@.len() ==> {
                &&& self.arenas@[i].domain == s0.arenas@[i].domain
                &&& self.arenas@[i].free_slots == s0.arenas@[i].free_slots
                &&& self.arenas@[i].slots@.len() == s0.arenas@[i].slots@.len()
            },
            forall|d: u64| #[trigger] self.has_domain(d) == s0.has_domain(d),
            forall|d: u64| s0.has_domain(d) ==> #[trigger] self.arena_index(d) == s0.arena_index(d),
            forall|q: NodeRef| !changed.contains(q) ==> #[trigger] self.slot_at(q) == s0.slot_at(q),
            forall|q: NodeRef| #[trigger] changed.contains(q) ==> s0.is_live(q) && self.is_live(q),
        ensures
            forall|i: int| 0 <= i < self.arenas@.len() ==> Self::arena_free_ok(#[trigger] self.arenas@[i]),
    {
        assert forall|i: int| 0 <= i < self.arenas@.len() implies Self::arena_free_ok(#[trigger] self.arenas@[i]) by {
            assert(s0.arenas@[i] == s0.arenas@[i]);
            assert(self.arenas@[i] == self.arenas@[i]);
            assert forall|k: int| #![trigger self.arenas@[i].free_slots@[k]] 0 <= k < self.arenas@[i].free_slots@.len() implies {
                &&& self.arenas@[i].free_slots@[k] < self.arenas@[i].slots@.len()
                &&& self.arenas@[i].slots@[self.arenas@[i].free_slots@[k] as int].node is None
            } by {
                let sl = self.arenas@[i].free_slots@[k];
                assert(s0.arenas@[i].free_slots@[k] == sl);
                let q = NodeRef { domain: self.arenas@[i].domain, slot: sl };
                assert(s0.arenas@[i].domain == q.domain);
                assert(s0.has_domain(q.domain));
                assert(s0.arena_index(q.domain) == i);
                assert(self.arena_index(q.domain) == i);
                assert(s0.slot_at(q) == Some(s0.arenas@[i].slots@[sl as int]));
                assert(!s0.is_live(q));
                assert(!changed.contains(q));
                assert(self.slot_at(q) == s0.slot_at(q));
            }
        }
    }

    /// Takes the child at position `index` of `parent`, if any, and clears
    /// its parent link.
    pub(crate) fn take_child(&mut self, parent: NodeRef, index: usize) -> (taken: Option<NodeRef>)
        requires
            old(self).links_wf(),
            old(self).is_live(parent),
        ensures
            final(self).links_wf(),
            final(self).same_nodes(old(self)),
            final(self).keeps_marks(old(self)),
            taken == (if index < old(self).nd(parent).children@.len() {
                old(self).nd(parent).children@[index as int]
            } else {
                None::<NodeRef>
            }),
            final(self).nd(parent).children@.len() == old(self).nd(parent).children@.len(),
            index < old(self).nd(parent).children@.len() ==> final(self).nd(parent).children@[index as int] is None,
            forall|j: int| 0 <= j < old(self).nd(parent).children@.len() && j != index ==> #[trigger] final(self).nd(parent).children@[j]
                == old(self).nd(parent).children@[j],
            taken matches Some(c) ==> c != parent && final(self).nd(c).parent is None && final(self).nd(c).children
                == old(self).nd(c).children,
            final(self).nd(parent).parent == old(self).nd(parent).parent,
            final(self).nd(parent).position == old(self).nd(parent).position,
            forall|q: NodeRef| q != parent && (taken matches Some(c) ==> q != c) ==> #[trigger] final(self).slot_at(q)
                == old(self).slot_at(q),
    {
        let ghost s0 = *self;
        let taken = {
            let node = self.node(parent);
            if index < node.children.len() {
                node.children[index]
            } else {
                None
            }
        };
        let child = match taken {
            Some(child) => child,
            None => {
                proof {
                    assert(self.same_nodes(&s0));
                }
                return None;
            },
        };
        proof {
            assert(s0.node_linked(parent));
            assert(s0.nd(child).parent == Some(parent));
        }
        let mut p = self.take_node(parent);
        proof {
            self.lemma_replaced(&s0, parent, None);
        }
        let ghost s1 = *self;
        p.children.set(index, None);
        self.put_node(parent, p);
        proof {
            self.lemma_replaced(&s1, parent, Some(p));
        }
        let ghost s2 = *self;
        let mut c = self.take_node(child);
        proof {
            self.lemma_replaced(&s2, child, None);
        }
        let ghost s3 = *self;
        c.parent = None;
        self.put_node(child, c);
        proof {
            self.lemma_replaced(&s3, child, Some(c));
            let changed = Set::empty().insert(parent).insert(child);
            assert(self.nd(parent) == p);
            assert(self.nd(child) == c);
            assert forall|q: NodeRef| #[trigger] changed.contains(q) implies self.node_linked(q) by {
                if q == parent {
                    assert(s0.node_linked(parent));
                    if let Some(pp) = p.parent {
                        if pp == child {
                            assert(s0.nd(child).children@[s0.nd(parent).position as int] == Some(parent));
                            assert(s0.nd(parent).parent == Some(child));
                        }
                    }
                    assert forall|i: int| 0 <= i < p.children@.len() implies (#[trigger] p.children@[i] matches Some(x) ==> {
                        &&& self.is_live(x)
                        &&& self.nd(x).parent == Some(parent)
                        &&& self.nd(x).position == i
                    }) by {
                        if i != index {
                            assert(p.children@[i] == s0.nd(parent).children@[i]);
                            if let Some(x) = p.children@[i] {
                                assert(s0.nd(x).parent == Some(parent));
                                assert(x != child) by {
                                    assert(s0.nd(child).position == index);
                                }
                                if x != parent {
                                    assert(self.slot_at(x) == s0.slot_at(x));
                                }
                            }
                        }
                    }
                } else {
                    assert(s0.node_linked(child));
                    assert forall|i: int| 0 <= i < c.children@.len() implies (#[trigger] c.children@[i] matches Some(x) ==> {
                        &&& self.is_live(x)
                        &&& self.nd(x).parent == Some(child)
                        &&& self.nd(x).position == i
                    }) by {
                        if let Some(x) = c.children@[i] {
                            assert(s0.nd(x).parent == Some(child));
                            if x == parent {
                                assert(p.parent == s0.nd(parent).parent);
                            } else if x != child {
                                assert(self.slot_at(x) == s0.slot_at(x));
                            }
                        }
                    }
                }
            }
            assert forall|q: NodeRef|
                #![trigger s0.is_live(q)]
                s0.is_live(q) && !changed.contains(q) implies {
                    &&& (s0.nd(q).parent is Some && changed.contains(s0.nd(q).parent->0)) ==> {
                        &&& s0.nd(q).position < self.nd(s0.nd(q).parent->0).children@.len()
                        &&& self.nd(s0.nd(q).parent->0).children@[s0.nd(q).position as int] == Some(q)
                    }
                    &&& forall|i: int|
                        0 <= i < s0.nd(q).children@.len() ==> ((#[trigger] s0.nd(q).children@[i]) is Some
                            && changed.contains(s0.nd(q).children@[i]->0) ==> self.nd(s0.nd(q).children@[i]->0).parent
                            == Some(q) && self.nd(s0.nd(q).children@[i]->0).position == i)
                } by {
                assert(s0.node_linked(q));
                if let Some(pp) = s0.nd(q).parent {
                    if pp == parent {
                        assert(s0.nd(q).position != index);
                    }
                }
                assert forall|i: int| 0 <= i < s0.nd(q).children@.len() implies ((#[trigger] s0.nd(q).children@[i]) is Some
                    && changed.contains(s0.nd(q).children@[i]->0) ==> self.nd(s0.nd(q).children@[i]->0).parent
                    == Some(q) && self.nd(s0.nd(q).children@[i]->0).position == i) by {
                    if let Some(x) = s0.nd(q).children@[i] {
                        if x == child {
                            assert(s0.nd(child).parent == Some(q));
                        }
                    }
                }
            }
            self.lemma_linked_after(&s0, changed);
            self.lemma_free_kept(&s0, changed);
        }
        Some(child)
    }

    /// The node that `r` addresses.
    pub(crate) fn node(&self, r: NodeRef) -> (node: &Node<K, V>)
        requires
            self.distinct_domains(),
            self.is_live(r),
        ensures
            *node == self.nd(r),
    {
        let i = self.locate(r.domain).unwrap();
        self.arenas[i].slots[r.slot].node.as_ref().unwrap()
    }
}


impl<K, V> TreeCore<K, V> {
    /// Drops the last child slot of `parent`, which is empty.
    pub(crate) fn drop_last_slot(&mut self, parent: NodeRef)
        requires
            old(self).links_wf(),
            old(self).is_live(parent),
            old(self).nd(parent).children@.len() > 0,
            old(self).nd(parent).children@.last() is None,
        ensures
            final(self).links_wf(),
            final(self).same_nodes(old(self)),
            final(self).keeps_marks(old(self)),
            final(self).nd(parent).children@ == old(self).nd(parent).children@.drop_last(),
            final(self).nd(parent).parent == old(self).nd(parent).parent,
            final(self).nd(parent).position == old(self).nd(parent).position,
            forall|q: NodeRef| q != parent ==> #[trigger] final(self).slot_at(q) == old(self).slot_at(q),
    {
        let ghost s0 = *self;
        let mut p = self.take_node(parent);
        proof {
            self.lemma_replaced(&s0, parent, None);
        }
        let ghost s1 = *self;
        p.children.pop();
        self.put_node(parent, p);
        proof {
            self.lemma_replaced(&s1, parent, Some(p));
            let changed = Set::empty().insert(parent);
            assert(self.nd(parent) == p);
            assert forall|q: NodeRef| #[trigger] changed.contains(q) implies self.node_linked(q) by {
                assert(s0.node_linked(parent));
                assert forall|i: int| 0 <= i < p.children@.len() implies (#[trigger] p.children@[i] matches Some(x) ==> {
                    &&& self.is_live(x)
                    &&& self.nd(x).parent == Some(parent)
                    &&& self.nd(x).position == i
                }) by {
                    assert(p.children@[i] == s0.nd(parent).children@[i]);
                    if let Some(x) = p.children@[i] {
                        assert(s0.nd(x).parent == Some(parent));
                        if x != parent {
                            assert(self.slot_at(x) == s0.slot_at(x));
                        }
                    }
                }
                if let Some(pp) = p.parent {
                    if pp != parent {
                        assert(self.slot_at(pp) == s0.slot_at(pp));
                    }
                }
            }
            assert forall|q: NodeRef|
                #![trigger s0.is_live(q)]
                s0.is_live(q) && !changed.contains(q) implies {
                    &&& (s0.nd(q).parent is Some && changed.contains(s0.nd(q).parent->0)) ==> {
                        &&& s0.nd(q).position < self.nd(s0.nd(q).parent->0).children@.len()
                        &&& self.nd(s0.nd(q).parent->0).children@[s0.nd(q).position as int] == Some(q)
                    }
                    &&& forall|i: int|
                        0 <= i < s0.nd(q).children@.len() ==> ((#[trigger] s0.nd(q).children@[i]) is Some
                            && changed.contains(s0.nd(q).children@[i]->0) ==> self.nd(s0.nd(q).children@[i]->0).parent
                            == Some(q) && self.nd(s0.nd(q).children@[i]->0).position == i)
                } by {
                assert(s0.node_linked(q));
                if let Some(pp) = s0.nd(q).parent {
                    if pp == parent {
                        assert(s0.nd(parent).children@[s0.nd(q).position as int] == Some(q));
                        assert(s0.nd(q).position != s0.nd(parent).children@.len() - 1);
                    }
                }
                assert forall|i: int| 0 <= i < s0.nd(q).children@.len() implies ((#[trigger] s0.nd(q).children@[i]) is Some
                    && changed.contains(s0.nd(q).children@[i]->0) ==> self.nd(s0.nd(q).children@[i]->0).parent
                    == Some(q) && self.nd(s0.nd(q).children@[i]->0).position == i) by {
                    if let Some(x) = s0.nd(q).children@[i] {
                        if x == parent {
                            assert(s0.nd(parent).parent == Some(q));
                        }
                    }
                }
            }
            self.lemma_linked_after(&s0, changed);
            self.lemma_free_kept(&s0, changed);
        }
    }

    /// Drops the child slots of `parent`, all of which are empty.
    fn clear_children(&mut self, parent: NodeRef)
        requires
            old(self).links_wf(),
            old(self).is_live(parent),
            forall|j: int| 0 <= j < old(self).nd(parent).children@.len() ==> #[trigger] old(self).nd(parent).children@[j] is None,
        ensures
            final(self).links_wf(),
            final(self).same_nodes(old(self)),
            final(self).keeps_marks(old(self)),
            final(self).nd(parent).children@.len() == 0,
            final(self).nd(parent).parent == old(self).nd(parent).parent,
            final(self).nd(parent).position == old(self).nd(parent).position,
            forall|q: NodeRef| q != parent ==> #[trigger] final(self).slot_at(q) == old(self).slot_at(q),
    {
        let ghost s0 = *self;
        let mut p = self.take_node(parent);
        proof {
            self.lemma_replaced(&s0, parent, None);
        }
        let ghost s1 = *self;
        p.children = Vec::new();
        self.put_node(parent, p);
        proof {
            self.lemma_replaced(&s1, parent, Some(p));
            let changed = Set::empty().insert(parent);
            assert(self.nd(parent) == p);
            assert forall|q: NodeRef| #[trigger] changed.contains(q) implies self.node_linked(q) by {
                assert(s0.node_linked(parent));
            }
            assert forall|q: NodeRef|
                #![trigger s0.is_live(q)]
                s0.is_live(q) && !changed.contains(q) implies {
                    &&& (s0.nd(q).parent is Some && changed.contains(s0.nd(q).parent->0)) ==> {
                        &&& s0.nd(q).position < self.nd(s0.nd(q).parent->0).children@.len()
                        &&& self.nd(s0.nd(q).parent->0).children@[s0.nd(q).position as int] == Some(q)
                    }
                    &&& forall|i: int|
                        0 <= i < s0.nd(q).children@.len() ==> ((#[trigger] s0.nd(q).children@[i]) is Some
                            && changed.contains(s0.nd(q).children@[i]->0) ==> self.nd(s0.nd(q).children@[i]->0).parent
                            == Some(q) && self.nd(s0.nd(q).children@[i]->0).position == i)
                } by {
                assert(s0.node_linked(q));
                if let Some(pp) = s0.nd(q).parent {
                    if pp == parent {
                        assert(s0.nd(parent).children@[s0.nd(q).position as int] == Some(q));
                    }
                }
                assert forall|i: int| 0 <= i < s0.nd(q).children@.len() implies ((#[trigger] s0.nd(q).children@[i]) is Some
                    && changed.contains(s0.nd(q).children@[i]->0) ==> self.nd(s0.nd(q).children@[i]->0).parent
                    == Some(q) && self.nd(s0.nd(q).children@[i]->0).position == i) by {
                    if let Some(x) = s0.nd(q).children@[i] {
                        if x == parent {
                            assert(s0.nd(parent).parent == Some(q));
                        }
                    }
                }
            }
            self.lemma_linked_after(&s0, changed);
            self.lemma_free_kept(&s0, changed);
        }
    }

    /// Detaches every child of `parent`, in order, and returns them.
    pub(crate) fn take_children(&mut self, parent: NodeRef) -> (children: Vec<NodeRef>)
        requires
            old(self).links_wf(),
            old(self).is_live(parent),
        ensures
            final(self).links_wf(),
            final(self).same_nodes(old(self)),
            final(self).keeps_marks(old(self)),
            final(self).nd(parent).children@.len() == 0,
            final(self).nd(parent).parent == old(self).nd(parent).parent,
            final(self).nd(parent).position == old(self).nd(parent).position,
            children@.no_duplicates(),
            forall|k: int| 0 <= k < children@.len() ==> {
                &&& #[trigger] children@[k] != parent
                &&& final(self).is_live(children@[k])
                &&& final(self).nd(children@[k]).parent is None
            },
            forall|k: int| 0 <= k < children@.len() ==> old(self).nd(parent).children@.contains(Some(#[trigger] children@[k])),
            forall|q: NodeRef| q != parent && !children@.contains(q) ==> #[trigger] final(self).slot_at(q) == old(self).slot_at(q),
            forall|k: int| 0 <= k < children@.len() ==> final(self).nd(#[trigger] children@[k]).children == old(self).nd(children@[k]).children,
    {
        let len = self.node(parent).children.len();
        let mut children: Vec<NodeRef> = Vec::new();
        let mut index: usize = 0;
        while index < len
            invariant
                self.links_wf(),
                self.same_nodes(old(self)),
                self.keeps_marks(old(self)),
                self.is_live(parent),
                len == old(self).nd(parent).children@.len(),
                self.nd(parent).children@.len() == len,
                index <= len,
                forall|j: int| 0 <= j < index ==> #[trigger] self.nd(parent).children@[j] is None,
                forall|j: int| index <= j < len ==> #[trigger] self.nd(parent).children@[j] == old(self).nd(parent).children@[j],
                self.nd(parent).parent == old(self).nd(parent).parent,
                self.nd(parent).position == old(self).nd(parent).position,
                children@.no_duplicates(),
                forall|k: int| 0 <= k < children@.len() ==> {
                    &&& #[trigger] children@[k] != parent
                    &&& self.is_live(children@[k])
                    &&& self.nd(children@[k]).parent is None
                },
                forall|k: int| 0 <= k < children@.len() ==> exists|j: int| 0 <= j < index && old(self).nd(parent).children@[j] == Some(#[trigger] children@[k]),
                forall|q: NodeRef| q != parent && !children@.contains(q) ==> #[trigger] self.slot_at(q) == old(self).slot_at(q),
                forall|k: int| 0 <= k < children@.len() ==> self.nd(#[trigger] children@[k]).children == old(self).nd(children@[k]).children,
            decreases len - index,
        {
            let ghost before = *self;
            let ghost old_child = old(self).nd(parent).children@[index as int];
            proof {
                if let Some(c) = old_child {
                    assert(before.node_linked(parent));
                    assert(before.nd(parent).children@[index as int] == Some(c));
                    assert(before.nd(c).parent == Some(parent));
                    assert forall|k: int| 0 <= k < children@.len() implies #[trigger] children@[k] != c by {
                        assert(before.nd(children@[k]).parent is None);
                    }
                }
            }
            let taken = self.take_child(parent, index);
            proof {
                assert forall|q: NodeRef| #[trigger] self.is_live(q) && old(self).is_live(q) implies self.nd(q).rank == old(self).nd(q).rank
                    && self.nd(q).marked == old(self).nd(q).marked by {
                    assert(before.is_live(q));
                }
            }
            match taken {
                Some(child) => {
                    proof {
                        assert forall|k: int| 0 <= k < children@.len() implies {
                            &&& #[trigger] children@[k] != parent
                            &&& self.is_live(children@[k])
                            &&& self.nd(children@[k]).parent is None
                        } by {
                            assert(children@[k] != child);
                            assert(self.slot_at(children@[k]) == before.slot_at(children@[k]));
                        }
                        assert forall|k: int| 0 <= k < children@.len() implies self.nd(#[trigger] children@[k]).children == old(self).nd(children@[k]).children by {
                            assert(children@[k] != child);
                            assert(self.slot_at(children@[k]) == before.slot_at(children@[k]));
                        }
                        assert(self.nd(child).children == before.nd(child).children);
                        assert(!children@.contains(child));
                        assert(before.slot_at(child) == old(self).slot_at(child));
                    }
                    let ghost prior = children@;
                    children.push(child);
                    proof {
                        assert(children@ == prior.push(child));
                        assert forall|q: NodeRef| q != parent && !children@.contains(q) implies #[trigger] self.slot_at(q) == old(self).slot_at(q) by {
                            if prior.contains(q) {
                                let k = choose|k: int| 0 <= k < prior.len() && prior[k] == q;
                                assert(children@[k] == q);
                            }
                            if q == child {
                                assert(children@[children@.len() - 1] == child);
                            }
                            assert(self.slot_at(q) == before.slot_at(q));
                        }
                        assert forall|k: int| 0 <= k < children@.len() implies self.nd(#[trigger] children@[k]).children == old(self).nd(children@[k]).children by {
                            if k < prior.len() {
                                assert(children@[k] == prior[k]);
                            }
                        }
                    }
                    proof {
                        assert forall|k: int| 0 <= k < children@.len() implies exists|j: int| 0 <= j < index + 1 && old(self).nd(parent).children@[j] == Some(#[trigger] children@[k]) by {
                            if k == children@.len() - 1 {
                                assert(old(self).nd(parent).children@[index as int] == Some(children@[k]));
                            } else {
                                let j = choose|j: int| 0 <= j < index && old(self).nd(parent).children@[j] == Some(children@[k]);
                            }
                        }
                    }
                },
                None => {
                    proof {
                        assert forall|q: NodeRef| q != parent && !children@.contains(q) implies #[trigger] self.slot_at(q) == old(self).slot_at(q) by {
                            assert(self.slot_at(q) == before.slot_at(q));
                        }
                        assert forall|k: int| 0 <= k < children@.len() implies self.nd(#[trigger] children@[k]).children == old(self).nd(children@[k]).children by {
                            assert(self.slot_at(children@[k]) == before.slot_at(children@[k]));
                        }
                    }
                },
            }
            index = index + 1;
        }
        let ghost before_clear = *self;
        self.clear_children(parent);
        proof {
            assert forall|q: NodeRef| #[trigger] self.is_live(q) && old(self).is_live(q) implies self.nd(q).rank == old(self).nd(q).rank
                && self.nd(q).marked == old(self).nd(q).marked by {
                assert(before_clear.is_live(q));
            }
            assert forall|q: NodeRef| q != parent && !children@.contains(q) implies #[trigger] self.slot_at(q) == old(self).slot_at(q) by {
                assert(self.slot_at(q) == before_clear.slot_at(q));
            }
            assert forall|k: int| 0 <= k < children@.len() implies self.nd(#[trigger] children@[k]).children == old(self).nd(children@[k]).children by {
                assert(self.slot_at(children@[k]) == before_clear.slot_at(children@[k]));
            }
            assert forall|k: int| 0 <= k < children@.len() implies old(self).nd(parent).children@.contains(Some(#[trigger] children@[k])) by {
                let j = choose|j: int| 0 <= j < len && old(self).nd(parent).children@[j] == Some(children@[k]);
            }
        }
        children
    }
}


impl<K, V> TreeCore<K, V> {
    /// Replacing a live node by one with the same links keeps the links
    /// consistent, and the whole invariant.
    proof fn lemma_payload_update(&self, s0: &Self, r: NodeRef, n: Node<K, V>)
        requires
            s0.links_wf(),
            s0.is_live(r),
            self.replaced(s0, r, Some(n)),
            n.parent == s0.nd(r).parent,
            n.position == s0.nd(r).position,
            n.children == s0.nd(r).children,
        ensures
            self.links_wf(),
            s0.wf() ==> self.wf(),
            forall|q: NodeRef| #[trigger] self.is_live(q) == s0.is_live(q),
            forall|q: NodeRef| q != r ==> #[trigger] self.slot_at(q) == s0.slot_at(q),
            self.nd(r) == n,
            self.slot_at(r)->0.generation == s0.slot_at(r)->0.generation,
    {
        self.lemma_replaced(s0, r, Some(n));
        let changed = Set::empty().insert(r);
        assert forall|q: NodeRef| #[trigger] changed.contains(q) implies self.node_linked(q) by {
            assert(s0.node_linked(r));
            let m = self.nd(r);
            assert forall|i: int| 0 <= i < m.children@.len() implies (#[trigger] m.children@[i] matches Some(x) ==> {
                &&& self.is_live(x)
                &&& self.nd(x).parent == Some(r)
                &&& self.nd(x).position == i
            }) by {
                if let Some(x) = m.children@[i] {
                    assert(s0.nd(x).parent == Some(r));
                    assert(x != r);
                }
            }
        }
        assert forall|q: NodeRef|
            #![trigger s0.is_live(q)]
            s0.is_live(q) && !changed.contains(q) implies {
                &&& (s0.nd(q).parent is Some && changed.contains(s0.nd(q).parent->0)) ==> {
                    &&& s0.nd(q).position < self.nd(s0.nd(q).parent->0).children@.len()
                    &&& self.nd(s0.nd(q).parent->0).children@[s0.nd(q).position as int] == Some(q)
                }
                &&& forall|i: int|
                    0 <= i < s0.nd(q).children@.len() ==> ((#[trigger] s0.nd(q).children@[i]) is Some
                        && changed.contains(s0.nd(q).children@[i]->0) ==> self.nd(s0.nd(q).children@[i]->0).parent
                        == Some(q) && self.nd(s0.nd(q).children@[i]->0).position == i)
            } by {
            assert(s0.node_linked(q));
            assert forall|i: int| 0 <= i < s0.nd(q).children@.len() implies ((#[trigger] s0.nd(q).children@[i]) is Some
                && changed.contains(s0.nd(q).children@[i]->0) ==> self.nd(s0.nd(q).children@[i]->0).parent
                == Some(q) && self.nd(s0.nd(q).children@[i]->0).position == i) by {
                if let Some(x) = s0.nd(q).children@[i] {
                    if x == r {
                        assert(s0.nd(r).parent == Some(q));
                    }
                }
            }
        }
        self.lemma_linked_after(s0, changed);
        self.lemma_free_kept(s0, changed);
        if s0.wf() {
            if self.active {
                assert(s0.arenas@[0] == s0.arenas@[0]);
                assert(self.arenas@[0] == self.arenas@[0]);
            }
            if let Some(root) = self.root {
                if root != r {
                    assert(self.slot_at(root) == s0.slot_at(root));
                }
            }
        }
    }

    pub(crate) fn set_rank(&mut self, r: NodeRef, rank: usize)
        requires
            old(self).links_wf(),
            old(self).is_live(r),
        ensures
            final(self).links_wf(),
            old(self).wf() ==> final(self).wf(),
            final(self).same_entries(old(self)),
            final(self).same_nodes(old(self)),
            forall|q: NodeRef| q != r ==> #[trigger] final(self).slot_at(q) == old(self).slot_at(q),
            final(self).nd(r) == (Node { rank, ..old(self).nd(r) }),
            final(self).root == old(self).root,
            final(self).len == old(self).len,
            final(self).live_nodes == old(self).live_nodes,
            forall|i: int| 0 <= i < final(self).arenas@.len() ==> #[trigger] final(self).arenas@[i].domain == old(self).arenas@[i].domain,
            final(self).arenas@.len() == old(self).arenas@.len(),
    {
        let ghost s0 = *self;
        let mut n = self.take_node(r);
        proof {
            self.lemma_replaced(&s0, r, None);
        }
        let ghost s1 = *self;
        n.rank = rank;
        self.put_node(r, n);
        proof {
            self.lemma_replaced(&s1, r, Some(n));
            assert(self.replaced(&s0, r, Some(n))) by {
                assert forall|i: int| #![trigger self.arenas@[i]] 0 <= i < self.arenas@.len() implies {
                    &&& self.arenas@[i].domain == s0.arenas@[i].domain
                    &&& self.arenas@[i].free_slots == s0.arenas@[i].free_slots
                    &&& self.arenas@[i].slots@.len() == s0.arenas@[i].slots@.len()
                    &&& i != s0.arena_index(r.domain) ==> self.arenas@[i].slots == s0.arenas@[i].slots
                } by {
                    assert(s1.arenas@[i] == s1.arenas@[i]);
                }
            }
            self.lemma_payload_update(&s0, r, n);
        }
    }
}


impl<K, V> TreeCore<K, V> {
    /// Puts back into the slot of `r` a node taken out of state `s0`, with
    /// the same links and new contents.
    fn restore_node(&mut self, r: NodeRef, n: Node<K, V>, s0: Ghost<Self>)
        requires
            s0@.links_wf(),
            s0@.is_live(r),
            old(self).replaced(&s0@, r, None),
            n.parent == s0@.nd(r).parent,
            n.position == s0@.nd(r).position,
            n.children == s0@.nd(r).children,
        ensures
            final(self).links_wf(),
            s0@.wf() ==> final(self).wf(),
            forall|q: NodeRef| #[trigger] final(self).is_live(q) == s0@.is_live(q),
            forall|q: NodeRef| q != r ==> #[trigger] final(self).slot_at(q) == s0@.slot_at(q),
            final(self).nd(r) == n,
            final(self).slot_at(r)->0.generation == s0@.slot_at(r)->0.generation,
            final(self).root == s0@.root,
            final(self).len == s0@.len,
            final(self).active == s0@.active,
            final(self).own_domain == s0@.own_domain,
            final(self).live_nodes == s0@.live_nodes,
            forall|d: u64| #[trigger] final(self).has_domain(d) == s0@.has_domain(d),
            final(self).arenas@.len() == s0@.arenas@.len(),
            forall|i: int| 0 <= i < final(self).arenas@.len() ==> #[trigger] final(self).arenas@[i].domain == s0@.arenas@[i].domain,
    {
        let ghost s1 = *self;
        proof {
            self.lemma_replaced(&s0@, r, None);
        }
        self.put_node(r, n);
        proof {
            self.lemma_replaced(&s1, r, Some(n));
            assert(self.replaced(&s0@, r, Some(n))) by {
                assert forall|i: int| #![trigger self.arenas@[i]] 0 <= i < self.arenas@.len() implies {
                    &&& self.arenas@[i].domain == s0@.arenas@[i].domain
                    &&& self.arenas@[i].free_slots == s0@.arenas@[i].free_slots
                    &&& self.arenas@[i].slots@.len() == s0@.arenas@[i].slots@.len()
                    &&& i != s0@.arena_index(r.domain) ==> self.arenas@[i].slots == s0@.arenas@[i].slots
                } by {
                    assert(s1.arenas@[i] == s1.arenas@[i]);
                }
            }
            self.lemma_payload_update(&s0@, r, n);
            assert forall|i: int| 0 <= i < self.arenas@.len() implies #[trigger] self.arenas@[i].domain == s0@.arenas@[i].domain by {
                assert(self.arenas@[i] == self.arenas@[i]);
            }
        }
    }

    pub(crate) fn set_marked(&mut self, r: NodeRef, marked: bool)
        requires
            old(self).links_wf(),
            old(self).is_live(r),
        ensures
            final(self).links_wf(),
            old(self).wf() ==> final(self).wf(),
            final(self).same_entries(old(self)),
            final(self).same_nodes(old(self)),
            forall|q: NodeRef| q != r ==> #[trigger] final(self).slot_at(q) == old(self).slot_at(q),
            final(self).nd(r) == (Node { marked, ..old(self).nd(r) }),
            final(self).root == old(self).root,
            final(self).len == old(self).len,
            final(self).live_nodes == old(self).live_nodes,
            final(self).arenas@.len() == old(self).arenas@.len(),
            forall|i: int| 0 <= i < final(self).arenas@.len() ==> #[trigger] final(self).arenas@[i].domain == old(self).arenas@[i].domain,
    {
        let ghost s0 = *self;
        let mut n = self.take_node(r);
        n.marked = marked;
        self.restore_node(r, n, Ghost(s0));
    }

    /// Replaces the key of live node `r`.
    pub(crate) fn set_node_key(&mut self, r: NodeRef, key: K)
        requires
            old(self).links_wf(),
            old(self).is_live(r),
        ensures
            final(self).links_wf(),
            old(self).wf() ==> final(self).wf(),
            forall|q: NodeRef| #[trigger] final(self).is_live(q) == old(self).is_live(q),
            forall|q: NodeRef| q != r ==> #[trigger] final(self).slot_at(q) == old(self).slot_at(q),
            final(self).nd(r) == (Node { key, ..old(self).nd(r) }),
            final(self).slot_at(r)->0.generation == old(self).slot_at(r)->0.generation,
            final(self).root == old(self).root,
            final(self).len == old(self).len,
            final(self).active == old(self).active,
            final(self).own_domain == old(self).own_domain,
            final(self).live_nodes == old(self).live_nodes,
            forall|d: u64| #[trigger] final(self).has_domain(d) == old(self).has_domain(d),
            final(self).arenas@.len() == old(self).arenas@.len(),
            forall|i: int| 0 <= i < final(self).arenas@.len() ==> #[trigger] final(self).arenas@[i].domain == old(self).arenas@[i].domain,
    {
        let ghost s0 = *self;
        let mut n = self.take_node(r);
        n.key = key;
        self.restore_node(r, n, Ghost(s0));
    }

    /// Replaces the value of live node `r`.
    pub(crate) fn set_node_value(&mut self, r: NodeRef, value: V)
        requires
            old(self).links_wf(),
            old(self).is_live(r),
        ensures
            final(self).links_wf(),
            old(self).wf() ==> final(self).wf(),
            forall|q: NodeRef| #[trigger] final(self).is_live(q) == old(self).is_live(q),
            forall|q: NodeRef| q != r ==> #[trigger] final(self).slot_at(q) == old(self).slot_at(q),
            final(self).nd(r) == (Node { value, ..old(self).nd(r) }),
            final(self).slot_at(r)->0.generation == old(self).slot_at(r)->0.generation,
            final(self).root == old(self).root,
            final(self).len == old(self).len,
            final(self).active == old(self).active,
            final(self).own_domain == old(self).own_domain,
            final(self).live_nodes == old(self).live_nodes,
            forall|d: u64| #[trigger] final(self).has_domain(d) == old(self).has_domain(d),
            final(self).arenas@.len() == old(self).arenas@.len(),
            forall|i: int| 0 <= i < final(self).arenas@.len() ==> #[trigger] final(self).arenas@[i].domain == old(self).arenas@[i].domain,
    {
        let ghost s0 = *self;
        let mut n = self.take_node(r);
        n.value = value;
        self.restore_node(r, n, Ghost(s0));
    }
}


impl<K, V> TreeCore<K, V> {
    /// An empty heap with an arena of a fresh domain.
    pub(crate) fn new() -> (core: Self)
        ensures
            core.wf(),
            core.active,
            core.root is None,
            core.len == 0,
            core.live() == Map::<TreeHandle, (K, V)>::empty(),
            forall|d: u64| #[trigger] core.has_domain(d) == (d == core.own_domain),
    {
        let own_domain = fresh_heap_id();
        let mut arenas: Vec<Arena<K, V>> = Vec::new();
        arenas.push(Arena { domain: own_domain, slots: Vec::new(), free_slots: Vec::new() });
        let core = TreeCore { root: None, len: 0, active: true, own_domain, arenas, live_nodes: Ghost(Set::empty()) };
        proof {
            assert forall|r: NodeRef| !core.is_live(r) by {
                if core.has_domain(r.domain) {
                    let i = core.arena_index(r.domain);
                    assert(core.arenas@[i] == core.arenas@[i]);
                }
            }
            assert(core.live() =~= Map::<TreeHandle, (K, V)>::empty());
            assert forall|d: u64| #[trigger] core.has_domain(d) == (d == core.own_domain) by {
                if d == core.own_domain {
                    assert(core.arenas@[0].domain == d);
                }
            }
        }
        core
    }

    pub(crate) fn handle(&self, r: NodeRef) -> (handle: TreeHandle)
        requires
            self.distinct_domains(),
            self.is_live(r),
        ensures
            handle == self.handle_of(r),
    {
        let i = self.locate(r.domain).unwrap();
        TreeHandle { domain: r.domain, slot: r.slot, generation: self.arenas[i].slots[r.slot].generation }
    }

    pub(crate) fn validate(&self, handle: TreeHandle) -> (result: Result<NodeRef, InvalidHandle>)
        requires
            self.wf(),
        ensures
            checked(self.owns(handle), self.live().contains_key(handle), result),
            result matches Ok(r) ==> r == Self::ref_of(handle) && self.is_live(r) && self.handle_of(r) == handle,
    {
        if !self.active {
            return Err(InvalidHandle::ForeignHeap);
        }
        let i = match self.locate(handle.domain) {
            Some(i) => i,
            None => return Err(InvalidHandle::ForeignHeap),
        };
        if handle.slot >= self.arenas[i].slots.len() {
            return Err(InvalidHandle::Stale);
        }
        let slot = &self.arenas[i].slots[handle.slot];
        if slot.generation != handle.generation || slot.node.is_none() {
            return Err(InvalidHandle::Stale);
        }
        Ok(NodeRef { domain: handle.domain, slot: handle.slot })
    }

    pub(crate) fn key(&self, handle: TreeHandle) -> (result: Result<&K, InvalidHandle>)
        requires
            self.wf(),
        ensures
            checked(self.owns(handle), self.live().contains_key(handle), result),
            result matches Ok(k) ==> *k == self.live()[handle].0,
    {
        let r = self.validate(handle)?;
        Ok(&self.node(r).key)
    }

    pub(crate) fn value(&self, handle: TreeHandle) -> (result: Result<&V, InvalidHandle>)
        requires
            self.wf(),
        ensures
            checked(self.owns(handle), self.live().contains_key(handle), result),
            result matches Ok(v) ==> *v == self.live()[handle].1,
    {
        let r = self.validate(handle)?;
        Ok(&self.node(r).value)
    }

    /// Replaces the value identified by `handle`.
    pub(crate) fn set_value(&mut self, handle: TreeHandle, value: V) -> (result: Result<(), InvalidHandle>)
        requires
            old(self).wf(),
        ensures
            final(self).wf(),
            final(self).root == old(self).root,
            forall|h: TreeHandle| final(self).owns(h) == old(self).owns(h),
            final(self).active == old(self).active,
            checked(old(self).owns(handle), old(self).live().contains_key(handle), result),
            result is Ok ==> final(self).live() == old(self).live().insert(handle, (old(self).live()[handle].0, value)),
            result is Ok ==> final(self).same_shape(old(self)) && final(self).len == old(self).len,
            result is Err ==> *final(self) == *old(self),
    {
        let r = self.validate(handle)?;
        self.set_node_value(r, value);
        proof {
            assert forall|q: NodeRef| #[trigger] self.is_live(q) implies self.nd(q) == Self::with_value(old(self).nd(q), self.nd(q).value) by {
                if q != r {
                    assert(self.slot_at(q) == old(self).slot_at(q));
                }
            }
            assert(self.live() =~= old(self).live().insert(handle, (old(self).live()[handle].0, value))) by {
                assert forall|h: TreeHandle| #[trigger] self.live().contains_key(h) <==> old(self).live().insert(
                    handle,
                    (old(self).live()[handle].0, value),
                ).contains_key(h) by {
                    let q = Self::ref_of(h);
                    if q != r {
                        assert(self.slot_at(q) == old(self).slot_at(q));
                    }
                }
                assert forall|h: TreeHandle| #[trigger] self.live().contains_key(h) implies self.live()[h] == old(self).live().insert(
                    handle,
                    (old(self).live()[handle].0, value),
                )[h] by {
                    let q = Self::ref_of(h);
                    if q != r {
                        assert(self.slot_at(q) == old(self).slot_at(q));
                    }
                }
            }
        }
        Ok(())
    }

    pub(crate) open spec fn with_value(n: Node<K, V>, value: V) -> Node<K, V> {
        Node { value: value, ..n }
    }

    /// The same live nodes with the same links and keys; only values may
    /// differ.
    pub(crate) open spec fn same_shape(&self, before: &Self) -> bool {
        &&& forall|q: NodeRef| #[trigger] self.is_live(q) == before.is_live(q)
        &&& forall|q: NodeRef| #[trigger] self.is_live(q) ==> self.nd(q) == Self::with_value(before.nd(q), self.nd(q).value)
    }

    /// Mutable access to the value of live node `r`.
    fn node_value_mut(&mut self, r: NodeRef) -> (v: &mut V)
        requires
            old(self).distinct_domains(),
            old(self).is_live(r),
        ensures
            *v == old(self).nd(r).value,
            final(self).replaced(old(self), r, Some(Self::with_value(old(self).nd(r), *final(v)))),
    {
        let i = self.locate(r.domain).unwrap();
        proof {
            assert(self.arenas@[i as int] == self.arenas@[i as int]);
        }
        let node = self.arenas[i].slots[r.slot].node.as_mut().unwrap();
        &mut node.value
    }

    proof fn lemma_value_replaced(before: &Self, r: NodeRef)
        requires
            before.wf(),
            before.is_live(r),
        ensures
            forall|after: Self, value: V| #[trigger] after.replaced(before, r, Some(Self::with_value(before.nd(r), value))) ==> {
                &&& after.wf()
                &&& after.root == before.root
                &&& after.len == before.len
                &&& after.active == before.active
                &&& forall|h: TreeHandle| after.owns(h) == before.owns(h)
                &&& after.live() == before.live().insert(before.handle_of(r), (before.nd(r).key, value))
                &&& after.same_shape(before)
            },
    {
        assert forall|after: Self, value: V| #[trigger] after.replaced(before, r, Some(Self::with_value(before.nd(r), value))) implies {
            &&& after.wf()
            &&& after.root == before.root
            &&& after.len == before.len
            &&& after.active == before.active
            &&& forall|h: TreeHandle| after.owns(h) == before.owns(h)
            &&& after.live() == before.live().insert(before.handle_of(r), (before.nd(r).key, value))
            &&& after.same_shape(before)
        } by {
            let n = Self::with_value(before.nd(r), value);
            after.lemma_payload_update(before, r, n);
            after.lemma_replaced(before, r, Some(n));
            assert forall|q: NodeRef| #[trigger] after.is_live(q) implies after.nd(q) == Self::with_value(before.nd(q), after.nd(q).value) by {
                if q != r {
                    assert(after.slot_at(q) == before.slot_at(q));
                }
            }
            assert forall|q: NodeRef| #[trigger] after.is_live(q) == before.is_live(q) by {
                if q != r {
                    assert(after.slot_at(q) == before.slot_at(q));
                }
            }
            let h0 = before.handle_of(r);
            assert(after.live() =~= before.live().insert(h0, (before.nd(r).key, value))) by {
                assert forall|h: TreeHandle| #[trigger] after.live().contains_key(h) <==> before.live().insert(
                    h0,
                    (before.nd(r).key, value),
                ).contains_key(h) by {
                    let q = Self::ref_of(h);
                    if q != r {
                        assert(after.slot_at(q) == before.slot_at(q));
                    }
                }
                assert forall|h: TreeHandle| #[trigger] after.live().contains_key(h) implies after.live()[h] == before.live().insert(
                    h0,
                    (before.nd(r).key, value),
                )[h] by {
                    let q = Self::ref_of(h);
                    if q != r {
                        assert(after.slot_at(q) == before.slot_at(q));
                    }
                }
            }
        }
    }

    pub(crate) fn value_mut(&mut self, handle: TreeHandle) -> (result: Result<&mut V, InvalidHandle>)
        requires
            old(self).wf(),
        ensures
            checked(old(self).owns(handle), old(self).live().contains_key(handle), result),
            result matches Ok(v) ==> {
                &&& *v == old(self).live()[handle].1
                &&& final(self).live() == old(self).live().insert(handle, (old(self).live()[handle].0, *final(v)))
                &&& final(self).wf()
                &&& final(self).root == old(self).root
                &&& final(self).active == old(self).active
                &&& forall|h: TreeHandle| final(self).owns(h) == old(self).owns(h)
                &&& final(self).same_shape(old(self))
                &&& final(self).len == old(self).len
            },
            result is Err ==> *final(self) == *old(self),
    {
        let r = self.validate(handle)?;
        proof {
            Self::lemma_value_replaced(self, r);
        }
        Ok(self.node_value_mut(r))
    }
}

impl<K: HeapKey, V> TreeCore<K, V> {
    /// Whether the key of `left` comes before that of `right`.
    pub(crate) fn precedes(&self, left: NodeRef, right: NodeRef) -> (result: bool)
        requires
            self.distinct_domains(),
            self.is_live(left),
            self.is_live(right),
        ensures
            result == (self.nd(left).key.key_rank() < self.nd(right).key.key_rank()),
    {
        self.node(left).key.key_lt(&self.node(right).key)
    }

    /// Replaces the key identified by `handle` by a key no greater; returns
    /// its node and whether the key ranks equal to the old one.
    pub(crate) fn set_key(&mut self, handle: TreeHandle, key: K) -> (result: Result<(NodeRef, bool), DecreaseKeyError>)
        requires
            old(self).wf(),
        ensures
            final(self).links_wf(),
            old(self).wf() ==> final(self).wf(),
            final(self).root == old(self).root,
            final(self).active == old(self).active,
            forall|h: TreeHandle| final(self).owns(h) == old(self).owns(h),
            match result {
                Ok((r, equal)) => {
                    &&& old(self).owns(handle)
                    &&& old(self).live().contains_key(handle)
                    &&& r == Self::ref_of(handle)
                    &&& final(self).is_live(r)
                    &&& key.key_rank() <= old(self).live()[handle].0.key_rank()
                    &&& equal == (key.key_rank() == old(self).live()[handle].0.key_rank())
                    &&& final(self).nd(r) == (Node { key, ..old(self).nd(r) })
                    &&& forall|q: NodeRef| q != r ==> #[trigger] final(self).slot_at(q) == old(self).slot_at(q)
                    &&& final(self).live() == old(self).live().insert(handle, (key, old(self).live()[handle].1))
                },
                Err(DecreaseKeyError::InvalidHandle(e)) => {
                    &&& checked(old(self).owns(handle), old(self).live().contains_key(handle), Err::<(), InvalidHandle>(e))
                    &&& *final(self) == *old(self)
                },
                Err(DecreaseKeyError::NotDecreased) => {
                    &&& old(self).owns(handle)
                    &&& old(self).live().contains_key(handle)
                    &&& key.key_rank() > old(self).live()[handle].0.key_rank()
                    &&& *final(self) == *old(self)
                },
                Err(DecreaseKeyError::InvalidKey) => false,
            },
    {
        let r = match self.validate(handle) {
            Ok(r) => r,
            Err(error) => return Err(DecreaseKeyError::InvalidHandle(error)),
        };
        if self.node(r).key.key_lt(&key) {
            return Err(DecreaseKeyError::NotDecreased);
        }
        let equal = !key.key_lt(&self.node(r).key);
        self.set_node_key(r, key);
        proof {
            assert(self.live() =~= old(self).live().insert(handle, (key, old(self).live()[handle].1))) by {
                assert forall|h: TreeHandle| #[trigger] self.live().contains_key(h) <==> old(self).live().insert(
                    handle,
                    (key, old(self).live()[handle].1),
                ).contains_key(h) by {
                    let q = Self::ref_of(h);
                    if q != r {
                        assert(self.slot_at(q) == old(self).slot_at(q));
                    }
                }
                assert forall|h: TreeHandle| #[trigger] self.live().contains_key(h) implies self.live()[h] == old(self).live().insert(
                    handle,
                    (key, old(self).live()[handle].1),
                )[h] by {
                    let q = Self::ref_of(h);
                    if q != r {
                        assert(self.slot_at(q) == old(self).slot_at(q));
                    }
                }
            }
        }
        Ok((r, equal))
    }
}


impl<K, V> TreeCore<K, V> {
    /// Links consistency depends only on the live nodes.
    proof fn lemma_linked_same_live(&self, before: &Self)
        requires
            before.linked(),
            forall|q: NodeRef| #[trigger] self.is_live(q) == before.is_live(q),
            forall|q: NodeRef| before.is_live(q) ==> #[trigger] self.nd(q) == before.nd(q),
        ensures
            self.linked(),
    {
        assert forall|r: NodeRef| #[trigger] self.is_live(r) implies self.node_linked(r) by {
            assert(before.node_linked(r));
            let n = self.nd(r);
            if let Some(p) = n.parent {
                assert(self.nd(p) == before.nd(p));
            }
            assert forall|i: int| 0 <= i < n.children@.len() implies (#[trigger] n.children@[i] matches Some(c) ==> {
                &&& self.is_live(c)
                &&& self.nd(c).parent == Some(r)
                &&& self.nd(c).position == i
            }) by {
                if let Some(c) = n.children@[i] {
                    assert(self.nd(c) == before.nd(c));
                }
            }
        }
    }

    /// A fresh, unlinked node in the heap's own arena; the number of live
    /// nodes grows by one.
    pub(crate) fn insert_node(&mut self, key: K, value: V) -> (r: NodeRef)
        requires
            old(self).wf(),
            old(self).active,
            old(self).len < usize::MAX,
        ensures
            final(self).wf(),
            final(self).root == old(self).root,
            final(self).active == old(self).active,
            forall|h: TreeHandle| final(self).owns(h) == old(self).owns(h),
            final(self).len == old(self).len + 1,
            !old(self).is_live(r),
            final(self).is_live(r),
            final(self).nd(r).key == key,
            final(self).nd(r).value == value,
            final(self).nd(r).parent is None,
            final(self).nd(r).children@.len() == 0,
            final(self).nd(r).rank == 0,
            !final(self).nd(r).marked,
            forall|q: NodeRef| q != r ==> #[trigger] final(self).slot_at(q) == old(self).slot_at(q),
            !old(self).live().contains_key(final(self).handle_of(r)),
            final(self).live() == old(self).live().insert(final(self).handle_of(r), (key, value)),
    {
        let ghost s0 = *self;
        let own = self.own_domain;
        proof {
            assert(self.arenas@[0].domain == own);
            assert(self.has_domain(own));
            assert(self.arena_index(own) == 0);
        }
        let slot = match self.arenas[0].free_slots.pop() {
            Some(slot) => {
                proof {
                    assert(s0.arenas@[0] == s0.arenas@[0]);
                    assert(Self::arena_free_ok(s0.arenas@[0]));
                    let fl = s0.arenas@[0].free_slots@;
                    assert(fl[fl.len() - 1] == slot);
                }
                slot
            },
            None => {
                let slot = self.arenas[0].slots.len();
                self.arenas[0].slots.push(Slot { node: None, generation: 0 });
                slot
            },
        };
        let r = NodeRef { domain: own, slot };
        self.len = self.len + 1;
        proof {
            self.live_nodes@ = self.live_nodes@.insert(r);
        }
        let ghost s1 = *self;
        proof {
            assert(s1.arenas@.len() == s0.arenas@.len());
            assert(s1.arenas@[0] == s1.arenas@[0]);
            assert forall|i: int| 0 <= i < s1.arenas@.len() implies #[trigger] s1.arenas@[i].domain == s0.arenas@[i].domain by {
                assert(s1.arenas@[i] == s1.arenas@[i]);
            }
            assert forall|i: int, j: int|
                0 <= i < s1.arenas@.len() && 0 <= j < s1.arenas@.len() && #[trigger] s1.arenas@[i].domain
                    == #[trigger] s1.arenas@[j].domain implies i == j by {
                assert(s0.arenas@[i].domain == s1.arenas@[i].domain);
                assert(s0.arenas@[j].domain == s1.arenas@[j].domain);
            }
            assert forall|d: u64| #[trigger] s1.has_domain(d) == s0.has_domain(d) by {
                if s1.has_domain(d) {
                    let i = choose|i: int| 0 <= i < s1.arenas@.len() && #[trigger] s1.arenas@[i].domain == d;
                    assert(s0.arenas@[i].domain == d);
                }
                if s0.has_domain(d) {
                    let i = choose|i: int| 0 <= i < s0.arenas@.len() && #[trigger] s0.arenas@[i].domain == d;
                    assert(s1.arenas@[i].domain == d);
                }
            }
            assert forall|d: u64| s0.has_domain(d) implies #[trigger] s1.arena_index(d) == s0.arena_index(d) by {
                assert(s1.has_domain(d));
                let i = s1.arena_index(d);
                let j = s0.arena_index(d);
                assert(s1.arenas@[i].domain == d);
                assert(s0.arenas@[j].domain == d);
                assert(s1.arenas@[j].domain == d);
            }
            assert(s1.arena_index(own) == 0);
            assert forall|q: NodeRef| q != r implies #[trigger] s1.slot_at(q) == s0.slot_at(q) by {
                if s0.has_domain(q.domain) {
                    let i = s0.arena_index(q.domain);
                    assert(s1.arenas@[i] == s1.arenas@[i]);
                    if i == 0 {
                        assert(q.slot != slot);
                        if q.slot < s0.arenas@[0].slots@.len() {
                            assert(s1.arenas@[0].slots@[q.slot as int] == s0.arenas@[0].slots@[q.slot as int]);
                        }
                    }
                }
            }
            assert(s1.slot_at(r)->0.node is None);
            assert(!s0.is_live(r)) by {
                if slot < s0.arenas@[0].slots@.len() {
                    assert(s0.slot_at(r) == Some(s0.arenas@[0].slots@[slot as int]));
                }
            }
            assert forall|q: NodeRef| #[trigger] s1.is_live(q) == s0.is_live(q) by {
                if q != r {
                    assert(s1.slot_at(q) == s0.slot_at(q));
                }
            }
            assert forall|q: NodeRef| s0.is_live(q) implies #[trigger] s1.nd(q) == s0.nd(q) by {
                assert(q != r);
                assert(s1.slot_at(q) == s0.slot_at(q));
            }
            s1.lemma_linked_same_live(&s0);
            assert forall|i: int| 0 <= i < s1.arenas@.len() implies Self::arena_free_ok(#[trigger] s1.arenas@[i]) by {
                assert(s0.arenas@[i] == s0.arenas@[i]);
                if i == 0 {
                    let a = s1.arenas@[0];
                    assert forall|k: int| #![trigger a.free_slots@[k]] 0 <= k < a.free_slots@.len() implies {
                        &&& a.free_slots@[k] < a.slots@.len()
                        &&& a.slots@[a.free_slots@[k] as int].node is None
                    } by {
                        assert(s0.arenas@[0].free_slots@[k] == a.free_slots@[k]);
                        let sl = a.free_slots@[k] as int;
                        if sl != slot {
                            assert(a.slots@[sl] == s0.arenas@[0].slots@[sl]);
                        }
                    }
                } else {
                    assert(s1.arenas@[i] == s0.arenas@[i]);
                }
            }
        }
        let node = Node { key, value, parent: None, position: 0, children: Vec::new(), rank: 0, marked: false };
        self.put_node(r, node);
        proof {
            self.lemma_replaced(&s1, r, Some(node));
        }
        proof {
            let changed = Set::empty().insert(r);
            assert forall|q: NodeRef| #[trigger] self.is_live(q) == (s1.is_live(q) || q == r) by {
                if q != r {
                    assert(self.slot_at(q) == s1.slot_at(q));
                }
            }
            assert forall|q: NodeRef| #[trigger] self.is_live(q) implies self.node_linked(q) by {
                if q == r {
                } else {
                    assert(s1.node_linked(q));
                    assert(self.slot_at(q) == s1.slot_at(q));
                    let n = self.nd(q);
                    if let Some(p) = n.parent {
                        assert(p != r);
                        assert(self.slot_at(p) == s1.slot_at(p));
                    }
                    assert forall|i: int| 0 <= i < n.children@.len() implies (#[trigger] n.children@[i] matches Some(c) ==> {
                        &&& self.is_live(c)
                        &&& self.nd(c).parent == Some(q)
                        &&& self.nd(c).position == i
                    }) by {
                        if let Some(c) = n.children@[i] {
                            assert(c != r);
                            assert(self.slot_at(c) == s1.slot_at(c));
                        }
                    }
                }
            }
            assert forall|i: int| 0 <= i < self.arenas@.len() implies Self::arena_free_ok(#[trigger] self.arenas@[i]) by {
                assert(s1.arenas@[i] == s1.arenas@[i]);
                assert(self.arenas@[i] == self.arenas@[i]);
                if i == 0 {
                    let a = self.arenas@[0];
                    assert forall|k: int| #![trigger a.free_slots@[k]] 0 <= k < a.free_slots@.len() implies {
                        &&& a.free_slots@[k] < a.slots@.len()
                        &&& a.slots@[a.free_slots@[k] as int].node is None
                    } by {
                        let sl = a.free_slots@[k] as int;
                        assert(s1.arenas@[0].free_slots@[k] == a.free_slots@[k]);
                        assert(sl != slot) by {
                            if sl == slot {
                                assert(s0.arenas@[0].free_slots@.no_duplicates());
                            }
                        }
                        assert(a.slots@[sl] == s1.arenas@[0].slots@[sl]);
                    }
                }
            }
            if let Some(root) = self.root {
                assert(root != r);
                assert(self.slot_at(root) == s0.slot_at(root));
            }
            if self.active {
                assert(self.arenas@[0] == self.arenas@[0]);
            }
            assert(!s0.live_nodes@.contains(r));
            let h = self.handle_of(r);
            assert(!s0.live().contains_key(h));
            assert(self.live() =~= s0.live().insert(h, (key, value))) by {
                assert forall|g: TreeHandle| #[trigger] self.live().contains_key(g) <==> s0.live().insert(h, (key, value)).contains_key(g) by {
                    let q = Self::ref_of(g);
                    if q != r {
                        assert(self.slot_at(q) == s0.slot_at(q));
                    }
                }
                assert forall|g: TreeHandle| #[trigger] self.live().contains_key(g) implies self.live()[g] == s0.live().insert(h, (key, value))[g] by {
                    let q = Self::ref_of(g);
                    if q != r {
                        assert(self.slot_at(q) == s0.slot_at(q));
                    }
                }
            }
            assert forall|g: TreeHandle| self.owns(g) == s0.owns(g) by {}
        }
        r
    }
}


impl<K, V> TreeCore<K, V> {
    /// Removes the unlinked live node `r` and frees its slot under a new
    /// generation; the number of live nodes drops by one.
    pub(crate) fn remove_node(&mut self, r: NodeRef) -> (entry: (K, V))
        requires
            old(self).wf(),
            old(self).is_live(r),
            old(self).nd(r).parent is None,
            forall|j: int| 0 <= j < old(self).nd(r).children@.len() ==> #[trigger] old(self).nd(r).children@[j] is None,
            old(self).root != Some(r),
        ensures
            final(self).wf(),
            final(self).root == old(self).root,
            final(self).active == old(self).active,
            forall|h: TreeHandle| final(self).owns(h) == old(self).owns(h),
            final(self).len == old(self).len - 1,
            entry == (old(self).nd(r).key, old(self).nd(r).value),
            !final(self).is_live(r),
            forall|q: NodeRef| q != r ==> #[trigger] final(self).slot_at(q) == old(self).slot_at(q),
            final(self).live() == old(self).live().remove(old(self).handle_of(r)),
    {
        let ghost s0 = *self;
        proof {
            assert(s0.live_nodes@.contains(r));
            assert(s0.len > 0);
        }
        self.len = self.len - 1;
        proof {
            self.live_nodes@ = self.live_nodes@.remove(r);
        }
        let ghost s1 = *self;
        let node = self.take_node(r);
        proof {
            self.lemma_replaced(&s1, r, None);
        }
        let i = self.locate(r.domain).unwrap();
        let ghost s2 = *self;
        proof {
            assert(i == s1.arena_index(r.domain));
            assert(self.arenas@[i as int] == self.arenas@[i as int]);
        }
        let generation = self.arenas[i].slots[r.slot].generation.wrapping_add(1);
        self.arenas[i].slots[r.slot].generation = generation;
        self.arenas[i].free_slots.push(r.slot);
        proof {
            assert(self.arenas@.len() == s2.arenas@.len());
            assert forall|k: int| #![trigger self.arenas@[k]] 0 <= k < self.arenas@.len() && k != i implies self.arenas@[k]
                == s2.arenas@[k] by {}
            assert(self.arenas@[i as int].domain == s2.arenas@[i as int].domain);
            assert forall|k: int| 0 <= k < self.arenas@.len() implies #[trigger] self.arenas@[k].domain == s2.arenas@[k].domain by {
                if k != i {
                    assert(self.arenas@[k] == s2.arenas@[k]);
                }
            }
            assert forall|a: int, b: int|
                0 <= a < self.arenas@.len() && 0 <= b < self.arenas@.len() && #[trigger] self.arenas@[a].domain
                    == #[trigger] self.arenas@[b].domain implies a == b by {
                assert(s2.arenas@[a].domain == self.arenas@[a].domain);
                assert(s2.arenas@[b].domain == self.arenas@[b].domain);
            }
            assert forall|d: u64| #[trigger] self.has_domain(d) == s2.has_domain(d) by {
                if self.has_domain(d) {
                    let k = choose|k: int| 0 <= k < self.arenas@.len() && #[trigger] self.arenas@[k].domain == d;
                    assert(s2.arenas@[k].domain == d);
                }
                if s2.has_domain(d) {
                    let k = choose|k: int| 0 <= k < s2.arenas@.len() && #[trigger] s2.arenas@[k].domain == d;
                    assert(self.arenas@[k].domain == d);
                }
            }
            assert forall|d: u64| s2.has_domain(d) implies #[trigger] self.arena_index(d) == s2.arena_index(d) by {
                assert(self.has_domain(d));
                let a = self.arena_index(d);
                let b = s2.arena_index(d);
                assert(self.arenas@[a].domain == d);
                assert(s2.arenas@[b].domain == d);
                assert(self.arenas@[b].domain == d);
            }
            assert forall|q: NodeRef| q != r implies #[trigger] self.slot_at(q) == s2.slot_at(q) by {
                if s2.has_domain(q.domain) {
                    let k = s2.arena_index(q.domain);
                    if k == i && q.slot < s2.arenas@[k].slots@.len() {
                        assert(q.slot != r.slot);
                        assert(self.arenas@[k].slots@[q.slot as int] == s2.arenas@[k].slots@[q.slot as int]);
                    } else if k != i {
                        assert(self.arenas@[k] == s2.arenas@[k]);
                    }
                }
            }
            assert(self.slot_at(r)->0.node is None);
            assert forall|q: NodeRef| #[trigger] self.is_live(q) == (s0.is_live(q) && q != r) by {
                if q != r {
                    assert(self.slot_at(q) == s2.slot_at(q));
                    assert(s2.slot_at(q) == s1.slot_at(q));
                }
            }
            assert forall|q: NodeRef| #[trigger] self.is_live(q) implies self.node_linked(q) by {
                assert(q != r);
                assert(self.slot_at(q) == s0.slot_at(q));
                assert(s0.node_linked(q));
                let n = self.nd(q);
                if let Some(p) = n.parent {
                    assert(p != r) by {
                        if p == r {
                            assert(s0.nd(r).children@[n.position as int] == Some(q));
                        }
                    }
                    assert(self.slot_at(p) == s0.slot_at(p));
                }
                assert forall|k: int| 0 <= k < n.children@.len() implies (#[trigger] n.children@[k] matches Some(c) ==> {
                    &&& self.is_live(c)
                    &&& self.nd(c).parent == Some(q)
                    &&& self.nd(c).position == k
                }) by {
                    if let Some(c) = n.children@[k] {
                        assert(c != r);
                        assert(self.slot_at(c) == s0.slot_at(c));
                    }
                }
            }
            assert forall|k: int| 0 <= k < self.arenas@.len() implies Self::arena_free_ok(#[trigger] self.arenas@[k]) by {
                assert(s0.arenas@[k] == s0.arenas@[k]);
                assert(s1.arenas@[k] == s1.arenas@[k]);
                assert(s2.arenas@[k] == s2.arenas@[k]);
                if k == i {
                    let a = self.arenas@[k];
                    let a0 = s0.arenas@[k];
                    assert(s0.arena_index(r.domain) == i);
                    assert(a0.slots@[r.slot as int].node is Some);
                    assert forall|m: int| #![trigger a.free_slots@[m]] 0 <= m < a.free_slots@.len() implies {
                        &&& a.free_slots@[m] < a.slots@.len()
                        &&& a.slots@[a.free_slots@[m] as int].node is None
                    } by {
                        if m < a.free_slots@.len() - 1 {
                            assert(a0.free_slots@[m] == a.free_slots@[m]);
                            let sl = a.free_slots@[m] as int;
                            if sl != r.slot {
                                assert(a.slots@[sl] == a0.slots@[sl]);
                            }
                        }
                    }
                    assert(a.free_slots@.no_duplicates()) by {
                        assert forall|x: int, y: int| 0 <= x < a.free_slots@.len() && 0 <= y < a.free_slots@.len() && x != y implies a.free_slots@[x] != a.free_slots@[y] by {
                            if x < a.free_slots@.len() - 1 && y < a.free_slots@.len() - 1 {
                                assert(a0.free_slots@[x] == a.free_slots@[x]);
                                assert(a0.free_slots@[y] == a.free_slots@[y]);
                            } else if x < a.free_slots@.len() - 1 {
                                assert(a0.free_slots@[x] == a.free_slots@[x]);
                                assert(a0.slots@[a0.free_slots@[x] as int].node is None);
                            } else if y < a.free_slots@.len() - 1 {
                                assert(a0.free_slots@[y] == a.free_slots@[y]);
                                assert(a0.slots@[a0.free_slots@[y] as int].node is None);
                            }
                        }
                    }
                } else {
                    assert(self.arenas@[k] == s0.arenas@[k]);
                }
            }
            if let Some(root) = self.root {
                assert(root != r);
                assert(self.slot_at(root) == s0.slot_at(root));
            }
            if self.active {
                assert(self.arenas@[0].domain == s0.arenas@[0].domain);
            }
            let h = s0.handle_of(r);
            assert(self.live() =~= s0.live().remove(h)) by {
                assert forall|g: TreeHandle| #[trigger] self.live().contains_key(g) <==> s0.live().remove(h).contains_key(g) by {
                    let q = Self::ref_of(g);
                    if q != r {
                        assert(self.slot_at(q) == s0.slot_at(q));
                    } else if s0.live().contains_key(g) {
                        assert(g == h);
                    }
                }
                assert forall|g: TreeHandle| #[trigger] self.live().contains_key(g) implies self.live()[g] == s0.live().remove(h)[g] by {
                    let q = Self::ref_of(g);
                    assert(self.slot_at(q) == s0.slot_at(q));
                }
            }
            assert forall|g: TreeHandle| self.owns(g) == s0.owns(g) by {}
            assert forall|q: NodeRef| q != r implies #[trigger] self.slot_at(q) == s0.slot_at(q) by {
                assert(self.slot_at(q) == s2.slot_at(q));
                assert(s2.slot_at(q) == s1.slot_at(q));
            }
        }
        (node.key, node.value)
    }
}

} // verus!
