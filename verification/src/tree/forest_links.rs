//! Relinking steps that keep a forest heap-ordered: detaching children,
//! cutting a subtree from its parent, and linking two trees.
//!
//! Each step takes the height function that witnesses the order and, where
//! it lifts a root, returns the new one.
use vstd::prelude::*;

use crate::order::HeapKey;
use crate::least_entry;
use crate::tree::forest::{NodeRef, TreeCore};
use crate::tree::handles::TreeHandle;

verus! {

broadcast use {vstd::set::group_set_axioms, vstd::map::group_map_axioms};

impl<K: HeapKey, V> TreeCore<K, V> {
    /// Links agree and the forest is heap-ordered under `height`.
    #[verifier::opaque]
    pub(crate) open spec fn shaped_by(&self, height: spec_fn(NodeRef) -> nat) -> bool {
        self.links_wf() && self.ordered_by(height)
    }

    /// `q` is a live node without a parent.
    pub(crate) open spec fn detached(&self, q: NodeRef) -> bool {
        self.is_live(q) && self.nd(q).parent is None
    }

    /// The edge from `q` to its parent, if any, is ordered under `height`.
    pub(crate) open spec fn edge_ordered(&self, height: spec_fn(NodeRef) -> nat, q: NodeRef) -> bool {
        self.nd(q).parent is Some ==> {
            &&& self.nd(self.nd(q).parent->0).key.key_rank() <= self.nd(q).key.key_rank()
            &&& height(q) < height(self.nd(q).parent->0)
        }
    }

    /// Detaches the child at position `index` of `node`.
    pub(crate) fn detach_at(&mut self, Ghost(height): Ghost<spec_fn(NodeRef) -> nat>, node: NodeRef, index: usize) -> (taken:
        Option<NodeRef>)
        requires
            old(self).shaped_by(height),
            old(self).is_live(node),
        ensures
            final(self).shaped_by(height),
            final(self).same_nodes(old(self)),
            final(self).keeps_marks(old(self)),
            final(self).nd(node).parent == old(self).nd(node).parent,
            final(self).nd(node).children@.len() == old(self).nd(node).children@.len(),
            index < final(self).nd(node).children@.len() ==> final(self).nd(node).children@[index as int] is None,
            forall|j: int|
                0 <= j < old(self).nd(node).children@.len() && j != index ==> #[trigger] final(self).nd(node).children@[j]
                    == old(self).nd(node).children@[j],
            taken == (if index < old(self).nd(node).children@.len() {
                old(self).nd(node).children@[index as int]
            } else {
                None::<NodeRef>
            }),
            taken matches Some(c) ==> {
                &&& final(self).detached(c)
                &&& !old(self).detached(c)
                &&& c != node
                &&& height(c) < height(node)
                &&& old(self).nd(node).key.key_rank() <= old(self).nd(c).key.key_rank()
            },
            forall|q: NodeRef| #[trigger] final(self).detached(q) ==> old(self).detached(q) || taken == Some(q),
            forall|q: NodeRef| #[trigger] old(self).detached(q) ==> final(self).detached(q),
            forall|q: NodeRef| q != node && taken != Some(q) ==> #[trigger] final(self).slot_at(q) == old(self).slot_at(q),
    {
        reveal(TreeCore::shaped_by);
        let ghost s0 = *self;
        let taken = self.take_child(node, index);
        proof {
            if let Some(c) = taken {
                assert(s0.node_linked(node));
                assert(s0.nd(c).parent == Some(node));
            }
            assert forall|q: NodeRef| #[trigger] self.is_live(q) && self.nd(q).parent is Some implies self.nd(q).parent
                == s0.nd(q).parent by {
                if q != node && taken != Some(q) {
                    assert(self.slot_at(q) == s0.slot_at(q));
                }
            }
            self.lemma_ordered_frame(&s0, height);
            assert forall|q: NodeRef| #[trigger] self.detached(q) implies s0.detached(q) || taken == Some(q) by {
                if q != node && taken != Some(q) {
                    assert(self.slot_at(q) == s0.slot_at(q));
                }
            }
            assert forall|q: NodeRef| #[trigger] s0.detached(q) implies self.detached(q) by {
                if q != node && taken != Some(q) {
                    assert(self.slot_at(q) == s0.slot_at(q));
                }
            }
        }
        taken
    }

    /// Detaches every child of `node` and returns them in order.
    pub(crate) fn detach_all(&mut self, Ghost(height): Ghost<spec_fn(NodeRef) -> nat>, node: NodeRef) -> (children: Vec<
        NodeRef,
    >)
        requires
            old(self).shaped_by(height),
            old(self).is_live(node),
        ensures
            final(self).shaped_by(height),
            final(self).same_nodes(old(self)),
            final(self).keeps_marks(old(self)),
            final(self).nd(node).parent == old(self).nd(node).parent,
            final(self).nd(node).children@.len() == 0,
            children@.no_duplicates(),
            forall|k: int|
                0 <= k < children@.len() ==> {
                    &&& #[trigger] children@[k] != node
                    &&& final(self).detached(children@[k])
                    &&& !old(self).detached(children@[k])
                    &&& height(children@[k]) < height(node)
                    &&& old(self).nd(node).key.key_rank() <= old(self).nd(children@[k]).key.key_rank()
                },
            forall|q: NodeRef| #[trigger] final(self).detached(q) ==> old(self).detached(q) || children@.contains(q),
            forall|q: NodeRef| #[trigger] old(self).detached(q) ==> final(self).detached(q),
            forall|q: NodeRef| q != node && !children@.contains(q) ==> #[trigger] final(self).slot_at(q) == old(self).slot_at(q),
            forall|k: int| 0 <= k < children@.len() ==> final(self).nd(#[trigger] children@[k]).children == old(self).nd(children@[k]).children,
    {
        reveal(TreeCore::shaped_by);
        let ghost s0 = *self;
        let children = self.take_children(node);
        proof {
            assert forall|k: int| 0 <= k < children@.len() implies {
                &&& #[trigger] children@[k] != node
                &&& self.detached(children@[k])
                &&& !s0.detached(children@[k])
                &&& height(children@[k]) < height(node)
                &&& s0.nd(node).key.key_rank() <= s0.nd(children@[k]).key.key_rank()
            } by {
                let c = children@[k];
                assert(s0.nd(node).children@.contains(Some(c)));
                let j = choose|j: int| 0 <= j < s0.nd(node).children@.len() && s0.nd(node).children@[j] == Some(c);
                assert(s0.node_linked(node));
                assert(s0.nd(node).children@[j] == Some(c));
                assert(s0.nd(c).parent == Some(node));
            }
            assert forall|q: NodeRef| #[trigger] self.is_live(q) && self.nd(q).parent is Some implies self.nd(q).parent
                == s0.nd(q).parent by {
                if q != node && !children@.contains(q) {
                    assert(self.slot_at(q) == s0.slot_at(q));
                }
            }
            self.lemma_ordered_frame(&s0, height);
            assert forall|q: NodeRef| #[trigger] self.detached(q) implies s0.detached(q) || children@.contains(q) by {
                if q != node && !children@.contains(q) {
                    assert(self.slot_at(q) == s0.slot_at(q));
                }
            }
            assert forall|q: NodeRef| #[trigger] s0.detached(q) implies self.detached(q) by {
                if q != node && !children@.contains(q) {
                    assert(self.slot_at(q) == s0.slot_at(q));
                } else if children@.contains(q) {
                    let k = choose|k: int| 0 <= k < children@.len() && children@[k] == q;
                    assert(!s0.detached(children@[k]));
                }
            }
        }
        children
    }

    /// Cuts `node`, with its subtree, from its parent, moving the parent's
    /// last child into the vacated position; only the edge into `node` may
    /// have been out of order.
    pub(crate) fn cut_out(&mut self, Ghost(height): Ghost<spec_fn(NodeRef) -> nat>, node: NodeRef)
        requires
            old(self).links_wf(),
            forall|q: NodeRef| #[trigger] old(self).is_live(q) && q != node ==> old(self).edge_ordered(height, q),
            old(self).is_live(node),
            old(self).nd(node).parent is Some,
        ensures
            final(self).shaped_by(height),
            final(self).same_nodes(old(self)),
            final(self).keeps_marks(old(self)),
            final(self).detached(node),
            final(self).nd(node).children == old(self).nd(node).children,
            forall|q: NodeRef| #[trigger] final(self).detached(q) == (old(self).detached(q) || q == node),
            final(self).nd(old(self).nd(node).parent->0).children@ == old(self).nd(old(self).nd(node).parent->0).children@.update(
                old(self).nd(node).position as int,
                old(self).nd(old(self).nd(node).parent->0).children@.last(),
            ).drop_last(),
            forall|q: NodeRef|
                #[trigger] final(self).is_live(q) && q != old(self).nd(node).parent->0 ==> final(self).nd(q).children
                    == old(self).nd(q).children,
            forall|q: NodeRef| #[trigger] final(self).is_live(q) && q != node ==> final(self).nd(q).parent == old(self).nd(q).parent,
    {
        reveal(TreeCore::shaped_by);
        let ghost s0 = *self;
        let parent = self.node(node).parent.unwrap();
        let position = self.node(node).position;
        let count = self.node(parent).children.len();
        proof {
            assert(s0.node_linked(node));
            assert(s0.is_live(parent));
        }
        self.take_child(parent, position);
        let ghost s1 = *self;
        let last = count - 1;
        let ghost mut moved: Option<NodeRef> = None;
        if position < last {
            let taken = self.take_child(parent, last);
            proof {
                moved = taken;
            }
            let ghost s2 = *self;
            self.drop_last_slot(parent);
            let ghost s3 = *self;
            if let Some(m) = taken {
                proof {
                    assert(s3.slot_at(m) == s2.slot_at(m));
                    assert(s0.node_linked(parent));
                    assert(s0.nd(m).parent == Some(parent));
                }
                self.set_child(parent, position, m);
                proof {
                    assert(self.nd(m).parent == Some(parent));
                }
            }
            proof {
                assert forall|q: NodeRef| q != parent && Some(q) != taken implies #[trigger] self.slot_at(q) == s1.slot_at(q) by {
                    assert(s3.slot_at(q) == s2.slot_at(q));
                    assert(s2.slot_at(q) == s1.slot_at(q));
                }
            }
        } else {
            self.drop_last_slot(parent);
        }
        proof {
            assert forall|q: NodeRef| q != parent && q != node && Some(q) != moved implies #[trigger] self.slot_at(q) == s0.slot_at(q) by {
                assert(self.slot_at(q) == s1.slot_at(q));
                assert(s1.slot_at(q) == s0.slot_at(q));
            }
            assert(self.nd(parent).parent == s0.nd(parent).parent);
            if let Some(m) = moved {
                assert(s0.nd(m).parent == Some(parent));
                assert(self.nd(m).parent == Some(parent));
            }
            assert(self.nd(node).parent is None) by {
                assert(node != parent);
                if moved == Some(node) {
                    assert(s0.nd(parent).children@[position as int] == Some(node));
                    assert(s0.nd(parent).children@[last as int] == Some(node));
                    assert(s0.nd(node).position == last);
                }
                assert(self.slot_at(node) == s1.slot_at(node));
            }
            assert(self.nd(node).children == s0.nd(node).children) by {
                assert(self.slot_at(node) == s1.slot_at(node));
            }
            assert forall|q: NodeRef| #[trigger] self.is_live(q) && self.nd(q).parent is Some implies {
                &&& self.nd(self.nd(q).parent->0).key.key_rank() <= self.nd(q).key.key_rank()
                &&& height(q) < height(self.nd(q).parent->0)
            } by {
                assert(q != node);
                assert(s0.is_live(q));
                assert(self.nd(q).parent == s0.nd(q).parent);
                assert(s0.edge_ordered(height, q));
                assert(self.node_linked(q));
                let p = self.nd(q).parent->0;
                assert(s0.node_linked(q));
            }
            assert forall|q: NodeRef| #[trigger] self.detached(q) == (s0.detached(q) || q == node) by {
                if q != parent && q != node && Some(q) != moved {
                    assert(self.slot_at(q) == s0.slot_at(q));
                }
            }
            assert forall|q: NodeRef| #[trigger] self.is_live(q) && q != node implies self.nd(q).parent == s0.nd(q).parent by {
                if q != parent && Some(q) != moved {
                    assert(self.slot_at(q) == s0.slot_at(q));
                }
            }
            assert forall|q: NodeRef| #[trigger] self.is_live(q) && q != parent implies self.nd(q).children == s0.nd(q).children by {
                if q != node && Some(q) != moved {
                    assert(self.slot_at(q) == s0.slot_at(q));
                }
            }
            let old_children = s0.nd(parent).children@;
            assert(self.nd(parent).children@ =~= old_children.update(position as int, old_children.last()).drop_last());
            assert forall|q: NodeRef| #[trigger] self.is_live(q) && s0.is_live(q) implies self.nd(q).rank == s0.nd(q).rank
                && self.nd(q).marked == s0.nd(q).marked by {
                assert(s1.is_live(q));
            }
        }
    }

    /// Makes the detached node `child` the last child of the detached node
    /// `root`, lifting `root` above it.
    pub(crate) fn attach(&mut self, Ghost(height): Ghost<spec_fn(NodeRef) -> nat>, root: NodeRef, child: NodeRef) -> (lifted:
        Ghost<spec_fn(NodeRef) -> nat>)
        requires
            old(self).shaped_by(height),
            old(self).detached(root),
            old(self).detached(child),
            root != child,
            old(self).nd(root).key.key_rank() <= old(self).nd(child).key.key_rank(),
        ensures
            final(self).shaped_by(lifted@),
            final(self).same_nodes(old(self)),
            final(self).keeps_marks(old(self)),
            forall|q: NodeRef| q != root ==> #[trigger] lifted@(q) == height(q),
            final(self).detached(root),
            final(self).nd(root).children@ == old(self).nd(root).children@.push(Some(child)),
            final(self).nd(child).children == old(self).nd(child).children,
            forall|q: NodeRef| #[trigger] final(self).detached(q) == (old(self).detached(q) && q != child),
            forall|q: NodeRef| q != root && q != child ==> #[trigger] final(self).slot_at(q) == old(self).slot_at(q),
    {
        reveal(TreeCore::shaped_by);
        let ghost s0 = *self;
        let index = self.node(root).children.len();
        self.set_child(root, index, child);
        let ghost new_height = |q: NodeRef| if q == root { height(root) + height(child) + 1 } else { height(q) };
        proof {
            assert(self.nd(root).children@ =~= s0.nd(root).children@.push(Some(child)));
            assert forall|q: NodeRef| #[trigger] self.is_live(q) && self.nd(q).parent is Some implies {
                &&& self.nd(self.nd(q).parent->0).key.key_rank() <= self.nd(q).key.key_rank()
                &&& new_height(q) < new_height(self.nd(q).parent->0)
            } by {
                assert(q != root);
                assert(s0.is_live(q));
                if q != child {
                    assert(self.slot_at(q) == s0.slot_at(q));
                    assert(s0.node_linked(q));
                    let p = s0.nd(q).parent->0;
                    assert(s0.is_live(p));
                }
            }
            assert forall|q: NodeRef| #[trigger] self.detached(q) == (s0.detached(q) && q != child) by {
                if q != root && q != child {
                    assert(self.slot_at(q) == s0.slot_at(q));
                }
            }
        }
        Ghost(new_height)
    }

    /// Links the trees under `first` and `second`, both detached: the root
    /// with the larger key becomes the last child of the other.
    pub(crate) fn link(
        &mut self,
        Ghost(height): Ghost<spec_fn(NodeRef) -> nat>,
        first: Option<NodeRef>,
        second: Option<NodeRef>,
    ) -> (result: (Option<NodeRef>, Ghost<spec_fn(NodeRef) -> nat>))
        requires
            old(self).shaped_by(height),
            first matches Some(a) ==> old(self).detached(a),
            second matches Some(b) ==> old(self).detached(b),
            first is Some && second is Some ==> first != second,
        ensures
            final(self).shaped_by(result.1@),
            final(self).same_nodes(old(self)),
            final(self).keeps_marks(old(self)),
            result.0 is None <==> (first is None && second is None),
            result.0 matches Some(m) ==> {
                &&& first == Some(m) || second == Some(m)
                &&& final(self).detached(m)
                &&& first matches Some(a) ==> old(self).nd(m).key.key_rank() <= old(self).nd(a).key.key_rank()
                &&& second matches Some(b) ==> old(self).nd(m).key.key_rank() <= old(self).nd(b).key.key_rank()
            },
            forall|q: NodeRef| #[trigger]
                final(self).detached(q) ==> (old(self).detached(q) && first != Some(q) && second != Some(q)) || result.0
                    == Some(q),
            forall|q: NodeRef|
                old(self).detached(q) && first != Some(q) && second != Some(q) ==> #[trigger] final(self).slot_at(q)
                    == old(self).slot_at(q) && final(self).detached(q),
    {
        reveal(TreeCore::shaped_by);
        let (a, b) = match (first, second) {
            (None, other) => return (other, Ghost(height)),
            (other, None) => return (other, Ghost(height)),
            (Some(a), Some(b)) => (a, b),
        };
        let (root, child) = if self.precedes(b, a) {
            (b, a)
        } else {
            (a, b)
        };
        let lifted = self.attach(Ghost(height), root, child);
        (Some(root), lifted)
    }
}

impl<K: HeapKey, V> TreeCore<K, V> {
    /// A single heap-ordered tree under the recorded root, with nothing left
    /// in a heap consumed by a meld.
    pub(crate) open spec fn single_tree(&self, height: spec_fn(NodeRef) -> nat) -> bool {
        &&& self.wf()
        &&& self.ordered_by(height)
        &&& forall|q: NodeRef| #[trigger] self.detached(q) ==> self.root == Some(q)
        &&& !self.active ==> self.len == 0
    }

    /// The root of a single tree is present exactly when there are entries,
    /// and it holds a least entry.
    pub(crate) proof fn lemma_single_tree_least(&self, height: spec_fn(NodeRef) -> nat)
        requires
            self.single_tree(height),
        ensures
            self.root is Some <==> self.live().len() > 0,
            forall|q: NodeRef| #[trigger] self.is_live(q) ==> self.root is Some,
            self.root matches Some(r) ==> {
                &&& self.is_live(r)
                &&& self.active
                &&& least_entry(self.live(), self.handle_of(r), |key: K| key.key_rank())
                &&& self.live()[self.handle_of(r)] == (self.nd(r).key, self.nd(r).value)
            },
    {
        self.lemma_live_len();
        assert forall|x: NodeRef| #[trigger] self.is_live(x) && self.nd(x).parent is None implies self.root == Some(x) by {
            assert(self.detached(x));
        }
        self.lemma_top_least(height, self.root);
        if let Some(r) = self.root {
            assert(self.live_nodes@.contains(r));
            assert(self.live_nodes@.len() > 0);
            self.lemma_handle_of(r);
            let live = self.live();
            let h = self.handle_of(r);
            assert forall|other: TreeHandle| live.contains_key(other) implies (|key: K| key.key_rank())(live[h].0) <= (|key: K|
                key.key_rank())(live[other].0) by {
                let q = Self::ref_of(other);
                assert(self.is_live(q));
            }
        } else {
            assert forall|q: NodeRef| !self.live_nodes@.contains(q) by {
                if self.live_nodes@.contains(q) {
                    assert(self.is_live(q));
                }
            }
            assert(self.live_nodes@ =~= Set::empty());
        }
    }

    /// A relinked forest whose only detached node is the new root is again
    /// a single tree.
    pub(crate) proof fn lemma_settled_tree(&self, before: &Self, other: &Self, height: spec_fn(NodeRef) -> nat)
        requires
            other.wf(),
            before.shaped_by(height),
            before.same_nodes(other),
            *self == (TreeCore { root: self.root, ..*before }),
            forall|q: NodeRef| #[trigger] before.detached(q) ==> self.root == Some(q),
            self.root matches Some(r) ==> before.detached(r),
            !self.active ==> self.len == 0,
        ensures
            self.single_tree(height),
            self.live() == other.live(),
            self.same_entries(other),
    {
        reveal(TreeCore::shaped_by);
        assert(self.arenas == before.arenas);
        assert forall|q: NodeRef| #[trigger] self.slot_at(q) == before.slot_at(q) by {}
        self.lemma_rerooted(before, other);
        self.lemma_ordered_same_slots(before, height);
        assert forall|q: NodeRef| #[trigger] self.detached(q) implies self.root == Some(q) by {
            assert(before.detached(q));
        }
    }

    /// Every state that changes values alone is again a single tree.
    pub(crate) proof fn lemma_values_changed_tree(&self, height: spec_fn(NodeRef) -> nat)
        requires
            self.single_tree(height),
        ensures
            forall|after: Self|
                #[trigger] after.same_shape(self) && after.wf() && after.active == self.active && after.len == self.len
                    && after.root == self.root ==> after.single_tree(height),
    {
        assert forall|after: Self|
            #[trigger] after.same_shape(self) && after.wf() && after.active == self.active && after.len == self.len
                && after.root == self.root implies after.single_tree(height) by {
            after.lemma_ordered_same_shape(self, height);
            assert forall|q: NodeRef| #[trigger] after.detached(q) implies after.root == Some(q) by {
                assert(self.is_live(q));
                assert(after.nd(q) == Self::with_value(self.nd(q), after.nd(q).value));
                assert(self.detached(q));
            }
        }
    }
}

impl<K: HeapKey, V> TreeCore<K, V> {
    /// A single tree is a heap-ordered forest.
    pub(crate) proof fn lemma_tree_shaped(&self, height: spec_fn(NodeRef) -> nat)
        requires
            self.single_tree(height),
        ensures
            self.shaped_by(height),
            self.root matches Some(r) ==> self.detached(r),
            forall|q: NodeRef| #[trigger] self.detached(q) ==> self.root == Some(q),
    {
        reveal(TreeCore::shaped_by);
    }

    /// Adds a fresh detached node holding `key` and `value`.
    pub(crate) fn insert_detached(&mut self, Ghost(height): Ghost<spec_fn(NodeRef) -> nat>, key: K, value: V) -> (r: NodeRef)
        requires
            old(self).wf(),
            old(self).shaped_by(height),
            old(self).active,
            old(self).len < usize::MAX,
        ensures
            final(self).wf(),
            final(self).shaped_by(height),
            final(self).root == old(self).root,
            final(self).active == old(self).active,
            forall|h: TreeHandle| final(self).owns(h) == old(self).owns(h),
            final(self).len == old(self).len + 1,
            !old(self).is_live(r),
            final(self).detached(r),
            final(self).nd(r).children@.len() == 0,
            final(self).nd(r).rank == 0,
            forall|q: NodeRef| #[trigger] final(self).detached(q) == (old(self).detached(q) || q == r),
            forall|q: NodeRef| q != r ==> #[trigger] final(self).slot_at(q) == old(self).slot_at(q),
            final(self).owns(final(self).handle_of(r)),
            !old(self).live().contains_key(final(self).handle_of(r)),
            final(self).live() == old(self).live().insert(final(self).handle_of(r), (key, value)),
    {
        reveal(TreeCore::shaped_by);
        let ghost s0 = *self;
        let r = self.insert_node(key, value);
        proof {
            assert forall|q: NodeRef| #[trigger] self.is_live(q) && self.nd(q).parent is Some implies {
                &&& self.nd(self.nd(q).parent->0).key.key_rank() <= self.nd(q).key.key_rank()
                &&& height(q) < height(self.nd(q).parent->0)
            } by {
                assert(q != r);
                assert(self.slot_at(q) == s0.slot_at(q));
                assert(s0.is_live(q));
                assert(s0.node_linked(q));
                let p = s0.nd(q).parent->0;
                assert(s0.is_live(p));
                assert(self.slot_at(p) == s0.slot_at(p));
            }
            assert forall|q: NodeRef| #[trigger] self.detached(q) == (s0.detached(q) || q == r) by {
                if q != r {
                    assert(self.slot_at(q) == s0.slot_at(q));
                }
            }
            assert(self.is_live(r));
        }
        r
    }

    /// Removes the detached, childless node `r`, which is not the root.
    pub(crate) fn remove_detached(&mut self, Ghost(height): Ghost<spec_fn(NodeRef) -> nat>, r: NodeRef) -> (entry: (K, V))
        requires
            old(self).wf(),
            old(self).shaped_by(height),
            old(self).detached(r),
            forall|j: int| 0 <= j < old(self).nd(r).children@.len() ==> #[trigger] old(self).nd(r).children@[j] is None,
            old(self).root != Some(r),
        ensures
            final(self).wf(),
            final(self).shaped_by(height),
            final(self).root == old(self).root,
            final(self).active == old(self).active,
            forall|h: TreeHandle| final(self).owns(h) == old(self).owns(h),
            final(self).len == old(self).len - 1,
            entry == old(self).live()[old(self).handle_of(r)],
            forall|q: NodeRef| #[trigger] final(self).detached(q) == (old(self).detached(q) && q != r),
            !final(self).is_live(r),
            forall|q: NodeRef| q != r ==> #[trigger] final(self).slot_at(q) == old(self).slot_at(q),
            final(self).live() == old(self).live().remove(old(self).handle_of(r)),
    {
        reveal(TreeCore::shaped_by);
        let ghost s0 = *self;
        proof {
            self.lemma_handle_of(r);
        }
        let entry = self.remove_node(r);
        proof {
            self.lemma_ordered_removed(&s0, height, r);
            assert forall|q: NodeRef| #[trigger] self.detached(q) == (s0.detached(q) && q != r) by {
                if q != r {
                    assert(self.slot_at(q) == s0.slot_at(q));
                }
            }
        }
        entry
    }

    /// Takes the arenas of `other`, a single tree of another domain, into
    /// this single tree; the two roots are the only detached nodes left.
    pub(crate) fn absorb(
        &mut self,
        Ghost(height): Ghost<spec_fn(NodeRef) -> nat>,
        other: &mut Self,
        Ghost(other_height): Ghost<spec_fn(NodeRef) -> nat>,
    ) -> (joined: Ghost<spec_fn(NodeRef) -> nat>)
        requires
            old(self).wf(),
            old(self).ordered_by(height),
            old(other).wf(),
            old(other).ordered_by(other_height),
            old(self).active,
            old(other).active,
            forall|d: u64| #[trigger] old(self).has_domain(d) ==> !old(other).has_domain(d),
            old(self).len + old(other).len <= usize::MAX,
        ensures
            final(self).wf(),
            final(self).shaped_by(joined@),
            final(self).root == old(self).root,
            final(self).active,
            final(self).len == old(self).len + old(other).len,
            forall|q: NodeRef| #[trigger] old(self).is_live(q) ==> !old(other).is_live(q),
            forall|q: NodeRef| #[trigger] old(self).is_live(q) ==> final(self).slot_at(q) == old(self).slot_at(q),
            forall|q: NodeRef| #[trigger] old(other).is_live(q) ==> final(self).slot_at(q) == old(other).slot_at(q),
            forall|q: NodeRef| #[trigger] final(self).is_live(q) == (old(self).is_live(q) || old(other).is_live(q)),
            forall|q: NodeRef| #[trigger] final(self).detached(q) == (old(self).detached(q) || old(other).detached(q)),
            forall|h: TreeHandle| final(self).owns(h) == (old(self).owns(h) || old(other).owns(h)),
            old(self).live().dom().disjoint(old(other).live().dom()),
            final(self).live() == old(self).live().union_prefer_right(old(other).live()),
            final(other).wf(),
            final(other).ordered_by(other_height),
            final(other).root is None,
            final(other).len == 0,
            forall|q: NodeRef| !#[trigger] final(other).is_live(q),
            !final(other).active,
            final(other).live() == Map::<TreeHandle, (K, V)>::empty(),
    {
        reveal(TreeCore::shaped_by);
        let ghost s0 = *self;
        let ghost o0 = *other;
        self.take_arenas_from(other);
        let ghost joined = |q: NodeRef| if s0.is_live(q) { height(q) } else { other_height(q) };
        proof {
            assert forall|q: NodeRef| #[trigger] o0.is_live(q) implies !s0.is_live(q) by {
                assert(!s0.has_domain(q.domain));
            }
            assert forall|q: NodeRef| #[trigger] self.is_live(q) && self.nd(q).parent is Some implies {
                &&& self.nd(self.nd(q).parent->0).key.key_rank() <= self.nd(q).key.key_rank()
                &&& joined(q) < joined(self.nd(q).parent->0)
            } by {
                if s0.is_live(q) {
                    assert(s0.node_linked(q));
                    let p = s0.nd(q).parent->0;
                    assert(s0.is_live(p));
                } else {
                    assert(o0.is_live(q));
                    assert(o0.node_linked(q));
                    let p = o0.nd(q).parent->0;
                    assert(o0.is_live(p));
                    assert(!s0.is_live(p));
                }
            }
            assert forall|q: NodeRef| #[trigger] self.detached(q) == (s0.detached(q) || o0.detached(q)) by {
                if s0.is_live(q) {
                } else if o0.is_live(q) {
                }
            }
            assert forall|h: TreeHandle| self.owns(h) == (s0.owns(h) || o0.owns(h)) by {
                assert(self.has_domain(h.domain) == (s0.has_domain(h.domain) || o0.has_domain(h.domain)));
            }
            assert(other.ordered_by(other_height)) by {
                assert forall|q: NodeRef| !#[trigger] other.is_live(q) by {}
            }
        }
        Ghost(joined)
    }
}

} // verus!
