//! Heap order on the shared tree storage.
//!
//! A forest is heap-ordered under a height function when every node's key
//! ranks no earlier than its parent's and its height is strictly below its
//! parent's.  The heights rule out cycles, so every live node reaches a
//! parentless node by following parents, and that node's key ranks no later
//! than its own.
use vstd::prelude::*;

use crate::order::HeapKey;
use crate::tree::forest::{NodeRef, TreeCore};

verus! {

broadcast use {vstd::set::group_set_axioms, vstd::map::group_map_axioms};

/// Heights no greater than the returned bound cover every node of `nodes`.
pub(crate) proof fn lemma_height_bound(nodes: Set<NodeRef>, height: spec_fn(NodeRef) -> nat) -> (bound: nat)
    requires
        nodes.finite(),
    ensures
        forall|q: NodeRef| #[trigger] nodes.contains(q) ==> height(q) <= bound,
    decreases nodes.len(),
{
    if nodes.len() == 0 {
        assert forall|q: NodeRef| #[trigger] nodes.contains(q) implies height(q) <= 0 by {
            assert(nodes.remove(q).len() < nodes.len());
        }
        0
    } else {
        let x = nodes.choose();
        let rest = lemma_height_bound(nodes.remove(x), height);
        if height(x) > rest {
            height(x)
        } else {
            rest
        }
    }
}

impl<K: HeapKey, V> TreeCore<K, V> {
    /// Every parented live node ranks no earlier than its parent and sits
    /// strictly lower under `height`.
    pub(crate) open spec fn ordered_by(&self, height: spec_fn(NodeRef) -> nat) -> bool {
        forall|q: NodeRef|
            #[trigger] self.is_live(q) && self.nd(q).parent is Some ==> {
                &&& self.nd(self.nd(q).parent->0).key.key_rank() <= self.nd(q).key.key_rank()
                &&& height(q) < height(self.nd(q).parent->0)
            }
    }

    /// Heap order survives a relinking that keeps every node's key and
    /// either keeps a node's parent or gives it an ordered one.
    pub(crate) proof fn lemma_ordered_frame(&self, before: &Self, height: spec_fn(NodeRef) -> nat)
        requires
            before.ordered_by(height),
            self.links_wf(),
            self.same_nodes(before),
            forall|q: NodeRef|
                #[trigger] self.is_live(q) && self.nd(q).parent is Some ==> self.nd(q).parent == before.nd(q).parent || {
                    &&& before.nd(self.nd(q).parent->0).key.key_rank() <= before.nd(q).key.key_rank()
                    &&& height(q) < height(self.nd(q).parent->0)
                },
        ensures
            self.ordered_by(height),
    {
        assert forall|q: NodeRef| #[trigger] self.is_live(q) && self.nd(q).parent is Some implies {
            &&& self.nd(self.nd(q).parent->0).key.key_rank() <= self.nd(q).key.key_rank()
            &&& height(q) < height(self.nd(q).parent->0)
        } by {
            assert(self.node_linked(q));
            let p = self.nd(q).parent->0;
            assert(self.is_live(p));
            assert(before.is_live(q));
        }
    }

    /// Heap order depends on the slots alone.
    pub(crate) proof fn lemma_ordered_same_slots(&self, before: &Self, height: spec_fn(NodeRef) -> nat)
        requires
            before.ordered_by(height),
            forall|q: NodeRef| #[trigger] self.slot_at(q) == before.slot_at(q),
        ensures
            self.ordered_by(height),
    {
        assert forall|q: NodeRef| #[trigger] self.is_live(q) && self.nd(q).parent is Some implies {
            &&& self.nd(self.nd(q).parent->0).key.key_rank() <= self.nd(q).key.key_rank()
            &&& height(q) < height(self.nd(q).parent->0)
        } by {
            assert(self.slot_at(q) == before.slot_at(q));
            assert(before.is_live(q));
            assert(self.slot_at(self.nd(q).parent->0) == before.slot_at(self.nd(q).parent->0));
        }
    }

    /// Heap order survives a change of values alone.
    pub(crate) proof fn lemma_ordered_same_shape(&self, before: &Self, height: spec_fn(NodeRef) -> nat)
        requires
            before.ordered_by(height),
            before.linked(),
            self.same_shape(before),
        ensures
            self.ordered_by(height),
    {
        assert forall|q: NodeRef| #[trigger] self.is_live(q) && self.nd(q).parent is Some implies {
            &&& self.nd(self.nd(q).parent->0).key.key_rank() <= self.nd(q).key.key_rank()
            &&& height(q) < height(self.nd(q).parent->0)
        } by {
            assert(before.is_live(q));
            assert(self.nd(q) == Self::with_value(before.nd(q), self.nd(q).value));
            assert(before.node_linked(q));
            let p = self.nd(q).parent->0;
            assert(before.is_live(p));
            assert(self.is_live(p));
            assert(self.nd(p) == Self::with_value(before.nd(p), self.nd(p).value));
        }
    }

    /// Heap order survives the removal of a live node without children
    /// when every other slot is kept.
    pub(crate) proof fn lemma_ordered_removed(&self, before: &Self, height: spec_fn(NodeRef) -> nat, r: NodeRef)
        requires
            before.ordered_by(height),
            before.linked(),
            before.is_live(r),
            forall|j: int| 0 <= j < before.nd(r).children@.len() ==> #[trigger] before.nd(r).children@[j] is None,
            !self.is_live(r),
            forall|q: NodeRef| q != r ==> #[trigger] self.slot_at(q) == before.slot_at(q),
        ensures
            self.ordered_by(height),
    {
        assert forall|q: NodeRef| #[trigger] self.is_live(q) && self.nd(q).parent is Some implies {
            &&& self.nd(self.nd(q).parent->0).key.key_rank() <= self.nd(q).key.key_rank()
            &&& height(q) < height(self.nd(q).parent->0)
        } by {
            assert(self.slot_at(q) == before.slot_at(q));
            assert(before.is_live(q));
            assert(before.node_linked(q));
            let p = self.nd(q).parent->0;
            assert(p != r) by {
                if p == r {
                    assert(before.nd(r).children@[before.nd(q).position as int] == Some(q));
                }
            }
            assert(self.slot_at(p) == before.slot_at(p));
        }
    }

    /// Following parents from `q` leads to the node `top` names, which is
    /// live and whose key ranks no later.
    proof fn lemma_climb(&self, height: spec_fn(NodeRef) -> nat, top: Option<NodeRef>, bound: nat, q: NodeRef)
        requires
            self.linked(),
            self.ordered_by(height),
            self.is_live(q),
            forall|x: NodeRef| #[trigger] self.is_live(x) ==> height(x) <= bound,
            forall|x: NodeRef| #[trigger] self.is_live(x) && self.nd(x).parent is None ==> top == Some(x),
        ensures
            top is Some,
            self.is_live(top->0),
            self.nd(top->0).key.key_rank() <= self.nd(q).key.key_rank(),
        decreases bound - height(q),
    {
        if let Some(p) = self.nd(q).parent {
            assert(self.node_linked(q));
            assert(self.is_live(p));
            self.lemma_climb(height, top, bound, p);
        }
    }

    /// In a heap-ordered forest whose only parentless live node is the one
    /// `top` names, that node is live whenever any node is, and its key
    /// ranks no later than any live node's.
    pub(crate) proof fn lemma_top_least(&self, height: spec_fn(NodeRef) -> nat, top: Option<NodeRef>)
        requires
            self.wf(),
            self.ordered_by(height),
            forall|x: NodeRef| #[trigger] self.is_live(x) && self.nd(x).parent is None ==> top == Some(x),
        ensures
            forall|q: NodeRef| #[trigger] self.is_live(q) ==> {
                &&& top is Some
                &&& self.is_live(top->0)
                &&& self.nd(top->0).key.key_rank() <= self.nd(q).key.key_rank()
            },
    {
        let bound = lemma_height_bound(self.live_nodes@, height);
        assert forall|x: NodeRef| #[trigger] self.is_live(x) implies height(x) <= bound by {
            assert(self.live_nodes@.contains(x));
        }
        assert forall|q: NodeRef| #[trigger] self.is_live(q) implies {
            &&& top is Some
            &&& self.is_live(top->0)
            &&& self.nd(top->0).key.key_rank() <= self.nd(q).key.key_rank()
        } by {
            self.lemma_climb(height, top, bound, q);
        }
    }
}

impl<K: HeapKey, V> TreeCore<K, V> {
    /// Following parents from `q` leads to a live parentless node whose key
    /// ranks no later.
    proof fn lemma_climb_any(&self, height: spec_fn(NodeRef) -> nat, bound: nat, q: NodeRef) -> (top: NodeRef)
        requires
            self.linked(),
            self.ordered_by(height),
            self.is_live(q),
            forall|x: NodeRef| #[trigger] self.is_live(x) ==> height(x) <= bound,
        ensures
            self.is_live(top),
            self.nd(top).parent is None,
            self.nd(top).key.key_rank() <= self.nd(q).key.key_rank(),
        decreases bound - height(q),
    {
        if let Some(p) = self.nd(q).parent {
            assert(self.node_linked(q));
            assert(self.is_live(p));
            self.lemma_climb_any(height, bound, p)
        } else {
            q
        }
    }

    /// In a heap-ordered forest, every live node has a live parentless node
    /// whose key ranks no later.
    pub(crate) proof fn lemma_forest_least(&self, height: spec_fn(NodeRef) -> nat)
        requires
            self.wf(),
            self.ordered_by(height),
        ensures
            forall|q: NodeRef| #[trigger] self.is_live(q) ==> exists|t: NodeRef|
                self.is_live(t) && self.nd(t).parent is None && self.nd(t).key.key_rank() <= self.nd(q).key.key_rank(),
    {
        let bound = lemma_height_bound(self.live_nodes@, height);
        assert forall|x: NodeRef| #[trigger] self.is_live(x) implies height(x) <= bound by {
            assert(self.live_nodes@.contains(x));
        }
        assert forall|q: NodeRef| #[trigger] self.is_live(q) implies exists|t: NodeRef|
            self.is_live(t) && self.nd(t).parent is None && self.nd(t).key.key_rank() <= self.nd(q).key.key_rank() by {
            let t = self.lemma_climb_any(height, bound, q);
        }
    }
}

} // verus!
