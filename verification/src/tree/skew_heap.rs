//! An addressable skew heap.
use vstd::multiset::Multiset;
use vstd::prelude::*;

use crate::error::{DecreaseKeyError, InvalidHandle};
use crate::key_multiset::{keys_of, lemma_keys_contains, lemma_keys_empty, lemma_keys_insert, lemma_keys_len, lemma_keys_remove, lemma_keys_union};
use crate::order::HeapKey;
use crate::tree::forest::{NodeRef, TreeCore};
use crate::tree::handles::{MeldError, TreeHandle};
use crate::{checked, least_entry, AddressableHeap, DecreaseKeyHeap, Heap, MeldableAddressableHeap, MeldableHeap};

verus! {

broadcast use {vstd::set::group_set_axioms, vstd::map::group_map_axioms};

/// An addressable skew heap.
///
/// Insert, minimum removal, deletion, and melding are amortized `O(log n)`;
/// finding the minimum is `O(1)`.  A key decrease cuts the entry's subtree
/// from its parent and melds it back, also in amortized `O(log n)`.
pub struct SkewHeap<K, V = ()> {
    core: TreeCore<K, V>,
    height: Ghost<spec_fn(NodeRef) -> nat>,
}

/// The recursion weight of an optional subtree root.
spec fn weight(height: spec_fn(NodeRef) -> nat, link: Option<NodeRef>) -> nat {
    match link {
        Some(r) => height(r) + 1,
        None => 0,
    }
}

impl<K: HeapKey, V> SkewHeap<K, V> {
    /// Links agree, the forest is heap-ordered, and no node has more than
    /// two child positions.
    spec fn shaped(&self) -> bool {
        &&& self.core.links_wf()
        &&& self.core.ordered_by(self.height@)
        &&& forall|q: NodeRef| #[trigger] self.core.is_live(q) ==> self.core.nd(q).children@.len() <= 2
    }

    /// `q` is a live node without a parent.
    spec fn detached(&self, q: NodeRef) -> bool {
        self.core.is_live(q) && self.core.nd(q).parent is None
    }

    /// The heap's internal invariant: a single heap-ordered tree under the
    /// recorded root, and nothing left in a heap consumed by a meld.
    pub closed spec fn is_well_formed(&self) -> bool {
        &&& self.core.wf()
        &&& self.shaped()
        &&& forall|q: NodeRef| #[trigger] self.detached(q) ==> self.core.root == Some(q)
        &&& !self.core.active ==> self.core.len == 0
    }

    /// The live handles and the entries they identify.
    pub closed spec fn live_entries(&self) -> Map<TreeHandle, (K, V)> {
        self.core.live()
    }

    /// Whether `handle` was issued by this heap or a heap melded into it,
    /// while this heap still accepts handles.
    pub closed spec fn issued(&self, handle: TreeHandle) -> bool {
        self.core.owns(handle)
    }

    /// Every live handle was issued by this heap.
    pub proof fn lemma_live_issued(&self)
        requires
            self.is_well_formed(),
        ensures
            forall|h: TreeHandle| #[trigger] self.live_entries().contains_key(h) ==> self.issued(h),
    {
        self.core.lemma_live_len();
        assert forall|h: TreeHandle| #[trigger] self.live_entries().contains_key(h) implies self.issued(h) by {
            let r = TreeCore::<K, V>::ref_of(h);
            assert(self.core.is_live(r));
            assert(self.core.arenas@[self.core.arena_index(h.domain)].domain == h.domain);
        }
    }

    /// Whether this heap was consumed as a meld donor.
    pub closed spec fn consumed(&self) -> bool {
        !self.core.active
    }

    /// Melds the trees under `first` and `second`, both detached, and
    /// returns the root of the result.
    fn union(&mut self, first: Option<NodeRef>, second: Option<NodeRef>, Ghost(fuel): Ghost<nat>) -> (merged: Option<
        NodeRef,
    >)
        requires
            old(self).shaped(),
            first matches Some(a) ==> old(self).detached(a),
            second matches Some(b) ==> old(self).detached(b),
            first is Some && second is Some ==> first != second,
            weight(old(self).height@, first) + weight(old(self).height@, second) <= fuel,
        ensures
            final(self).shaped(),
            final(self).core.same_nodes(&old(self).core),
            merged is None <==> (first is None && second is None),
            merged matches Some(m) ==> {
                &&& first == Some(m) || second == Some(m)
                &&& final(self).detached(m)
                &&& first matches Some(a) ==> old(self).core.nd(m).key.key_rank() <= old(self).core.nd(a).key.key_rank()
                &&& second matches Some(b) ==> old(self).core.nd(m).key.key_rank() <= old(self).core.nd(b).key.key_rank()
            },
            forall|q: NodeRef| #[trigger]
                final(self).detached(q) ==> (old(self).detached(q) && first != Some(q) && second != Some(q))
                    || merged == Some(q),
            forall|q: NodeRef|
                old(self).detached(q) && first != Some(q) && second != Some(q) ==> #[trigger] final(self).core.slot_at(q)
                    == old(self).core.slot_at(q),
        decreases fuel,
    {
        let (a, b) = match (first, second) {
            (None, other) => return other,
            (other, None) => return other,
            (Some(a), Some(b)) => (a, b),
        };
        let (root, other) = if self.core.precedes(b, a) {
            (b, a)
        } else {
            (a, b)
        };
        let right = self.detach_child(root, 1);
        let merged = self.union(right, Some(other), Ghost((fuel - 1) as nat));
        self.attach_pair(root, merged);
        Some(root)
    }

    /// Detaches the child at position `index` of `node`.
    fn detach_child(&mut self, node: NodeRef, index: usize) -> (taken: Option<NodeRef>)
        requires
            old(self).shaped(),
            old(self).core.is_live(node),
        ensures
            final(self).shaped(),
            final(self).height == old(self).height,
            final(self).core.same_nodes(&old(self).core),
            final(self).core.nd(node).parent == old(self).core.nd(node).parent,
            final(self).core.nd(node).children@.len() == old(self).core.nd(node).children@.len(),
            index < final(self).core.nd(node).children@.len() ==> final(self).core.nd(node).children@[index as int] is None,
            forall|j: int|
                0 <= j < old(self).core.nd(node).children@.len() && j != index ==> #[trigger] final(self).core.nd(node).children@[j]
                    == old(self).core.nd(node).children@[j],
            taken == (if index < old(self).core.nd(node).children@.len() {
                old(self).core.nd(node).children@[index as int]
            } else {
                None::<NodeRef>
            }),
            taken matches Some(c) ==> {
                &&& final(self).detached(c)
                &&& !old(self).detached(c)
                &&& c != node
                &&& old(self).height@(c) < old(self).height@(node)
                &&& old(self).core.nd(node).key.key_rank() <= old(self).core.nd(c).key.key_rank()
            },
            forall|q: NodeRef| #[trigger] final(self).detached(q) ==> old(self).detached(q) || taken == Some(q),
            forall|q: NodeRef| #[trigger] old(self).detached(q) ==> final(self).detached(q),
            forall|q: NodeRef| q != node && taken != Some(q) ==> #[trigger] final(self).core.slot_at(q) == old(self).core.slot_at(q),
    {
        let ghost s0 = self.core;
        let taken = self.core.take_child(node, index);
        proof {
            if let Some(c) = taken {
                assert(s0.node_linked(node));
                assert(s0.nd(c).parent == Some(node));
            }
            assert forall|q: NodeRef| #[trigger] self.core.is_live(q) && self.core.nd(q).parent is Some implies self.core.nd(q).parent
                == s0.nd(q).parent by {
                if q != node && taken != Some(q) {
                    assert(self.core.slot_at(q) == s0.slot_at(q));
                }
            }
            self.core.lemma_ordered_frame(&s0, self.height@);
            assert forall|q: NodeRef| #[trigger] self.core.is_live(q) implies self.core.nd(q).children@.len() <= 2 by {
                if q != node && taken != Some(q) {
                    assert(self.core.slot_at(q) == s0.slot_at(q));
                }
            }
            assert forall|q: NodeRef| #[trigger] self.detached(q) implies s0.is_live(q) && s0.nd(q).parent is None || taken == Some(q) by {
                if q != node && taken != Some(q) {
                    assert(self.core.slot_at(q) == s0.slot_at(q));
                }
            }
            assert forall|q: NodeRef| s0.is_live(q) && s0.nd(q).parent is None implies #[trigger] self.detached(q) by {
                if q != node && taken != Some(q) {
                    assert(self.core.slot_at(q) == s0.slot_at(q));
                }
            }
        }
        taken
    }

    /// Cuts `node`, with its subtree, from its parent; only the edge into
    /// `node` may have been out of order.
    fn cut(&mut self, node: NodeRef)
        requires
            old(self).core.links_wf(),
            forall|q: NodeRef| #[trigger] old(self).core.is_live(q) ==> old(self).core.nd(q).children@.len() <= 2,
            forall|q: NodeRef|
                #[trigger] old(self).core.is_live(q) && old(self).core.nd(q).parent is Some && q != node ==> {
                    &&& old(self).core.nd(old(self).core.nd(q).parent->0).key.key_rank() <= old(self).core.nd(q).key.key_rank()
                    &&& old(self).height@(q) < old(self).height@(old(self).core.nd(q).parent->0)
                },
            old(self).core.is_live(node),
            old(self).core.nd(node).parent is Some,
        ensures
            final(self).shaped(),
            final(self).height == old(self).height,
            final(self).core.same_nodes(&old(self).core),
            final(self).detached(node),
            final(self).core.nd(node).children == old(self).core.nd(node).children,
            forall|q: NodeRef| #[trigger] final(self).detached(q) ==> old(self).detached(q) || q == node,
            forall|q: NodeRef| #[trigger] old(self).detached(q) ==> final(self).detached(q),
    {
        let ghost s0 = self.core;
        let parent = self.core.node(node).parent.unwrap();
        let position = self.core.node(node).position;
        proof {
            assert(s0.node_linked(node));
        }
        let taken = self.core.take_child(parent, position);
        proof {
            assert(taken == Some(node));
            assert forall|q: NodeRef| #[trigger] self.core.is_live(q) && self.core.nd(q).parent is Some implies {
                &&& self.core.nd(self.core.nd(q).parent->0).key.key_rank() <= self.core.nd(q).key.key_rank()
                &&& self.height@(q) < self.height@(self.core.nd(q).parent->0)
            } by {
                assert(q != node);
                if q != parent {
                    assert(self.core.slot_at(q) == s0.slot_at(q));
                }
                assert(self.core.node_linked(q));
                let p = self.core.nd(q).parent->0;
                assert(s0.is_live(q));
            }
            assert forall|q: NodeRef| #[trigger] self.core.is_live(q) implies self.core.nd(q).children@.len() <= 2 by {
                if q != node && q != parent {
                    assert(self.core.slot_at(q) == s0.slot_at(q));
                }
            }
            assert forall|q: NodeRef| #[trigger] self.detached(q) implies s0.is_live(q) && s0.nd(q).parent is None || q == node by {
                if q != node && q != parent {
                    assert(self.core.slot_at(q) == s0.slot_at(q));
                }
            }
            assert forall|q: NodeRef| s0.is_live(q) && s0.nd(q).parent is None implies #[trigger] self.detached(q) by {
                if q != node && q != parent {
                    assert(self.core.slot_at(q) == s0.slot_at(q));
                }
            }
        }
    }

    /// Makes `merged` the left child of the detached, right-childless node
    /// `root`, and its former left child the right one.
    fn attach_pair(&mut self, root: NodeRef, merged: Option<NodeRef>)
        requires
            old(self).shaped(),
            old(self).detached(root),
            old(self).core.nd(root).children@.len() >= 2 ==> old(self).core.nd(root).children@[1] is None,
            merged matches Some(m) ==> {
                &&& old(self).detached(m)
                &&& m != root
                &&& old(self).core.nd(root).key.key_rank() <= old(self).core.nd(m).key.key_rank()
            },
        ensures
            final(self).shaped(),
            final(self).core.same_nodes(&old(self).core),
            final(self).detached(root),
            forall|q: NodeRef| #[trigger] final(self).detached(q) ==> old(self).detached(q) && merged != Some(q),
            forall|q: NodeRef|
                old(self).detached(q) && q != root && merged != Some(q) ==> #[trigger] final(self).core.slot_at(q)
                    == old(self).core.slot_at(q),
    {
        let ghost s0 = self.core;
        let left = self.core.take_child(root, 0);
        let ghost s1 = self.core;
        proof {
            if let Some(c) = left {
                assert(s0.node_linked(root));
                assert(s0.nd(c).parent == Some(root));
            }
            assert forall|q: NodeRef| #[trigger] self.core.is_live(q) && self.core.nd(q).parent is Some implies self.core.nd(q).parent
                == s0.nd(q).parent by {
                if q != root && left != Some(q) {
                    assert(self.core.slot_at(q) == s0.slot_at(q));
                }
            }
            self.core.lemma_ordered_frame(&s0, self.height@);
            // `root` is now isolated: no child and no parent.
            assert forall|q: NodeRef| #[trigger] self.core.is_live(q) && self.core.nd(q).parent is Some implies self.core.nd(q).parent
                != Some(root) by {
                assert(self.core.node_linked(q));
            }
            let h0 = self.height@;
            let lifted = 1 + weight(h0, merged) + weight(h0, left);
            self.height@ = |q: NodeRef| if q == root { lifted } else { h0(q) };
            assert(self.core.ordered_by(self.height@)) by {
                assert forall|q: NodeRef| #[trigger] self.core.is_live(q) && self.core.nd(q).parent is Some implies {
                    &&& self.core.nd(self.core.nd(q).parent->0).key.key_rank() <= self.core.nd(q).key.key_rank()
                    &&& self.height@(q) < self.height@(self.core.nd(q).parent->0)
                } by {
                    assert(self.core.nd(q).parent != Some(root));
                }
            }
        }
        let ghost s2 = self.core;
        if let Some(m) = merged {
            proof {
                assert(self.core.slot_at(m) == s0.slot_at(m)) by {
                    if left == Some(m) {
                        assert(s0.nd(m).parent == Some(root));
                    }
                }
            }
            self.core.set_child(root, 0, m);
            proof {
                assert forall|q: NodeRef| #[trigger] self.core.is_live(q) && self.core.nd(q).parent is Some implies self.core.nd(q).parent
                    == s2.nd(q).parent || {
                    &&& s2.nd(self.core.nd(q).parent->0).key.key_rank() <= s2.nd(q).key.key_rank()
                    &&& self.height@(q) < self.height@(self.core.nd(q).parent->0)
                } by {
                    if q != root && q != m {
                        assert(self.core.slot_at(q) == s2.slot_at(q));
                    }
                }
                self.core.lemma_ordered_frame(&s2, self.height@);
            }
        }
        let ghost s3 = self.core;
        if let Some(l) = left {
            proof {
                assert(self.core.slot_at(l) == s2.slot_at(l) || merged == Some(l));
            }
            self.core.set_child(root, 1, l);
            proof {
                assert forall|q: NodeRef| #[trigger] self.core.is_live(q) && self.core.nd(q).parent is Some implies self.core.nd(q).parent
                    == s3.nd(q).parent || {
                    &&& s3.nd(self.core.nd(q).parent->0).key.key_rank() <= s3.nd(q).key.key_rank()
                    &&& self.height@(q) < self.height@(self.core.nd(q).parent->0)
                } by {
                    if q != root && q != l {
                        assert(self.core.slot_at(q) == s3.slot_at(q));
                    }
                }
                self.core.lemma_ordered_frame(&s3, self.height@);
            }
        }
        proof {
            assert forall|q: NodeRef| #[trigger] self.core.is_live(q) implies self.core.nd(q).children@.len() <= 2 by {
                if q != root && merged != Some(q) && left != Some(q) {
                    assert(self.core.slot_at(q) == s0.slot_at(q));
                }
            }
            assert forall|q: NodeRef| #[trigger] self.detached(q) implies s0.is_live(q) && s0.nd(q).parent is None && merged
                != Some(q) by {
                if q != root && merged != Some(q) && left != Some(q) {
                    assert(self.core.slot_at(q) == s0.slot_at(q));
                }
            }
        }
    }
}

impl<K: HeapKey, V> SkewHeap<K, V> {
    /// Creates an empty heap.
    pub fn new() -> (heap: Self)
        ensures
            heap.is_well_formed(),
            !heap.consumed(),
            heap.live_entries() == Map::<TreeHandle, (K, V)>::empty(),
    {
        let heap = SkewHeap { core: TreeCore::new(), height: Ghost(|q: NodeRef| 0nat) };
        proof {
            assert forall|q: NodeRef| !heap.core.is_live(q) by {
                assert(!heap.core.live_nodes@.contains(q));
            }
        }
        heap
    }

    /// The invariant restored after the relinking of a heap-ordered
    /// forest, given its new root, the only parentless node.
    proof fn lemma_settled(&self, before: &TreeCore<K, V>, other: &TreeCore<K, V>)
        requires
            other.wf(),
            before.links_wf(),
            before.same_nodes(other),
            self.core == (TreeCore { root: self.core.root, ..*before }),
            self.core.ordered_by(self.height@) || before.ordered_by(self.height@),
            forall|q: NodeRef| #[trigger] before.is_live(q) ==> before.nd(q).children@.len() <= 2,
            forall|q: NodeRef| #[trigger] before.is_live(q) && before.nd(q).parent is None ==> self.core.root == Some(q),
            self.core.root matches Some(r) ==> before.is_live(r) && before.nd(r).parent is None,
            !self.core.active ==> self.core.len == 0,
        ensures
            self.is_well_formed(),
            self.core.live() == other.live(),
            self.core.same_entries(other),
    {
        assert(self.core.arenas == before.arenas);
        assert forall|q: NodeRef| #[trigger] self.core.slot_at(q) == before.slot_at(q) by {}
        self.core.lemma_rerooted(before, other);
        assert(self.core.ordered_by(self.height@)) by {
            assert forall|q: NodeRef| #[trigger] self.core.is_live(q) && self.core.nd(q).parent is Some implies {
                &&& self.core.nd(self.core.nd(q).parent->0).key.key_rank() <= self.core.nd(q).key.key_rank()
                &&& self.height@(q) < self.height@(self.core.nd(q).parent->0)
            } by {
                assert(before.is_live(q));
                if before.ordered_by(self.height@) {
                    assert(self.core.slot_at(self.core.nd(q).parent->0) == before.slot_at(self.core.nd(q).parent->0));
                }
            }
        }
        assert forall|q: NodeRef| #[trigger] self.core.is_live(q) implies self.core.nd(q).children@.len() <= 2 by {
            assert(before.is_live(q));
        }
        assert forall|q: NodeRef| #[trigger] self.detached(q) implies self.core.root == Some(q) by {
            assert(before.is_live(q));
        }
    }

    /// Inserts an entry unless this heap was consumed as a meld donor.
    pub fn try_insert(&mut self, key: K, value: V) -> (result: Result<TreeHandle, MeldError>)
        requires
            old(self).is_well_formed(),
            old(self).live_entries().len() < usize::MAX,
        ensures
            final(self).is_well_formed(),
            final(self).consumed() == old(self).consumed(),
            forall|h: TreeHandle| final(self).issued(h) == old(self).issued(h),
            result is Err <==> old(self).consumed(),
            result matches Err(e) ==> e == MeldError::ReceiverConsumed && final(self).live_entries() == old(self).live_entries(),
            result matches Ok(handle) ==> {
                &&& final(self).issued(handle)
                &&& !old(self).live_entries().contains_key(handle)
                &&& final(self).live_entries() == old(self).live_entries().insert(handle, (key, value))
            },
    {
        if !self.core.active {
            return Err(MeldError::ReceiverConsumed);
        }
        Ok(self.insert(key, value))
    }

    /// Inserts an entry and returns its checked handle; the heap must
    /// accept entries.
    pub fn insert(&mut self, key: K, value: V) -> (handle: TreeHandle)
        requires
            old(self).is_well_formed(),
            !old(self).consumed(),
            old(self).live_entries().len() < usize::MAX,
        ensures
            final(self).is_well_formed(),
            !final(self).consumed(),
            forall|h: TreeHandle| final(self).issued(h) == old(self).issued(h),
            final(self).issued(handle),
            !old(self).live_entries().contains_key(handle),
            final(self).live_entries() == old(self).live_entries().insert(handle, (key, value)),
    {
        proof {
            self.core.lemma_live_len();
        }
        let ghost s0 = self.core;
        let node = self.core.insert_node(key, value);
        let ghost s1 = self.core;
        proof {
            assert(self.core.ordered_by(self.height@)) by {
                assert forall|q: NodeRef| #[trigger] self.core.is_live(q) && self.core.nd(q).parent is Some implies {
                    &&& self.core.nd(self.core.nd(q).parent->0).key.key_rank() <= self.core.nd(q).key.key_rank()
                    &&& self.height@(q) < self.height@(self.core.nd(q).parent->0)
                } by {
                    assert(q != node);
                    assert(self.core.slot_at(q) == s0.slot_at(q));
                    assert(s0.is_live(q));
                    assert(s0.node_linked(q));
                    let p = s0.nd(q).parent->0;
                    assert(s0.is_live(p));
                    assert(p != node);
                    assert(self.core.slot_at(p) == s0.slot_at(p));
                }
            }
            assert forall|q: NodeRef| #[trigger] self.core.is_live(q) implies self.core.nd(q).children@.len() <= 2 by {
                if q != node {
                    assert(self.core.slot_at(q) == s0.slot_at(q));
                    assert(s0.is_live(q));
                }
            }
            assert forall|q: NodeRef| #[trigger] self.detached(q) implies self.core.root == Some(q) || q == node by {
                if q != node {
                    assert(self.core.slot_at(q) == s0.slot_at(q));
                    assert(old(self).detached(q));
                }
            }
            if let Some(r) = self.core.root {
                assert(r != node);
            }
        }
        let root = self.core.root;
        let ghost pre = *self;
        let merged = self.union(root, Some(node), Ghost(weight(self.height@, root) + weight(self.height@, Some(node))));
        let ghost post = *self;
        let ghost s2 = self.core;
        self.core.root = merged;
        proof {
            assert forall|q: NodeRef| #[trigger] s2.is_live(q) && s2.nd(q).parent is None implies self.core.root == Some(q) by {
                assert(post.detached(q));
            }
            self.lemma_settled(&s2, &s1);
            assert(self.core.is_live(node));
        }
        self.core.handle(node)
    }
}

impl<K: HeapKey, V> SkewHeap<K, V> {
    /// The recorded root is present exactly when the heap has entries, and
    /// it holds a least entry.
    proof fn lemma_root_least(&self)
        requires
            self.is_well_formed(),
        ensures
            self.core.root is Some <==> self.live_entries().len() > 0,
            forall|q: NodeRef| #[trigger] self.core.is_live(q) ==> self.core.root is Some,
            self.core.root matches Some(r) ==> {
                &&& self.core.is_live(r)
                &&& self.core.active
                &&& least_entry(self.live_entries(), self.core.handle_of(r), |key: K| key.key_rank())
                &&& self.live_entries()[self.core.handle_of(r)] == (self.core.nd(r).key, self.core.nd(r).value)
            },
    {
        self.core.lemma_live_len();
        assert forall|x: NodeRef| #[trigger] self.core.is_live(x) && self.core.nd(x).parent is None implies self.core.root
            == Some(x) by {
            assert(self.detached(x));
        }
        self.core.lemma_top_least(self.height@, self.core.root);
        if let Some(r) = self.core.root {
            assert(self.core.live_nodes@.contains(r));
            assert(self.core.live_nodes@.len() > 0);
            self.core.lemma_handle_of(r);
            let live = self.live_entries();
            let h = self.core.handle_of(r);
            assert forall|other: TreeHandle| live.contains_key(other) implies (|key: K| key.key_rank())(live[h].0) <= (|key: K|
                key.key_rank())(live[other].0) by {
                let q = TreeCore::<K, V>::ref_of(other);
                assert(self.core.is_live(q));
            }
        } else {
            assert forall|q: NodeRef| !self.core.live_nodes@.contains(q) by {
                if self.core.live_nodes@.contains(q) {
                    assert(self.core.is_live(q));
                }
            }
            assert(self.core.live_nodes@ =~= Set::empty());
        }
    }

    /// Returns the handle, key, and value of a minimum entry.
    pub fn peek_entry(&self) -> (result: Option<(TreeHandle, &K, &V)>)
        requires
            self.is_well_formed(),
        ensures
            result is None <==> self.live_entries().len() == 0,
            result matches Some((h, k, v)) ==> {
                &&& least_entry(self.live_entries(), h, |key: K| key.key_rank())
                &&& self.live_entries()[h] == (*k, *v)
            },
    {
        proof {
            self.lemma_root_least();
        }
        if !self.core.active {
            return None;
        }
        match self.core.root {
            None => None,
            Some(root) => {
                let node = self.core.node(root);
                Some((self.core.handle(root), &node.key, &node.value))
            },
        }
    }

    /// Removes the entry at the root.
    fn pop_root(&mut self) -> (entry: (K, V))
        requires
            old(self).is_well_formed(),
            old(self).core.root is Some,
        ensures
            final(self).is_well_formed(),
            final(self).consumed() == old(self).consumed(),
            forall|h: TreeHandle| final(self).issued(h) == old(self).issued(h),
            least_entry(old(self).live_entries(), old(self).core.handle_of(old(self).core.root->0), |key: K| key.key_rank()),
            entry == old(self).live_entries()[old(self).core.handle_of(old(self).core.root->0)],
            final(self).live_entries() == old(self).live_entries().remove(old(self).core.handle_of(old(self).core.root->0)),
    {
        proof {
            self.lemma_root_least();
        }
        let ghost s0 = self.core;
        let root = self.core.root.unwrap();
        let left = self.detach_child(root, 0);
        let ghost s1 = self.core;
        let right = self.detach_child(root, 1);
        let ghost s2 = self.core;
        proof {
            s2.lemma_same_nodes_trans(&s1, &s0);
            assert forall|q: NodeRef| #[trigger] s2.is_live(q) && s2.nd(q).parent is None implies q == root || left == Some(q)
                || right == Some(q) by {
                assert(self.detached(q));
                if !(left == Some(q) || right == Some(q)) {
                    assert(old(self).detached(q));
                }
            }
        }
        let ghost pre = *self;
        let merged = self.union(left, right, Ghost(weight(self.height@, left) + weight(self.height@, right)));
        let ghost post = *self;
        let ghost s3 = self.core;
        proof {
            s3.lemma_same_nodes_trans(&s2, &s0);
            assert(pre.detached(root));
            assert(s3.slot_at(root) == s2.slot_at(root));
        }
        self.core.root = merged;
        proof {
            self.core.lemma_rerooted(&s3, &s0);
            assert forall|q: NodeRef| #[trigger] self.core.slot_at(q) == s3.slot_at(q) by {}
            self.core.lemma_ordered_same_slots(&s3, self.height@);
        }
        let ghost s4 = self.core;
        let entry = self.core.remove_node(root);
        proof {
            self.core.lemma_ordered_removed(&s4, self.height@, root);
            assert forall|q: NodeRef| #[trigger] self.core.is_live(q) implies self.core.nd(q).children@.len() <= 2 by {
                assert(self.core.slot_at(q) == s3.slot_at(q));
                assert(s3.is_live(q));
            }
            assert forall|q: NodeRef| #[trigger] self.detached(q) implies self.core.root == Some(q) by {
                assert(self.core.slot_at(q) == s3.slot_at(q));
                assert(post.detached(q));
                if merged != Some(q) {
                    assert(pre.detached(q));
                }
            }
        }
        entry
    }

    /// Removes and returns a minimum entry.
    pub fn pop_entry(&mut self) -> (result: Option<(K, V)>)
        requires
            old(self).is_well_formed(),
        ensures
            final(self).is_well_formed(),
            final(self).consumed() == old(self).consumed(),
            forall|h: TreeHandle| final(self).issued(h) == old(self).issued(h),
            result is None <==> old(self).live_entries().len() == 0,
            result is None ==> final(self).live_entries() == old(self).live_entries(),
            result matches Some(e) ==> exists|h: TreeHandle| {
                &&& least_entry(old(self).live_entries(), h, |key: K| key.key_rank())
                &&& old(self).live_entries()[h] == e
                &&& final(self).live_entries() == old(self).live_entries().remove(h)
            },
    {
        proof {
            self.lemma_root_least();
        }
        if !self.core.active || self.core.root.is_none() {
            return None;
        }
        let entry = self.pop_root();
        proof {
            let h = old(self).core.handle_of(old(self).core.root->0);
            assert(least_entry(old(self).live_entries(), h, |key: K| key.key_rank()));
        }
        Some(entry)
    }

    /// Returns the key identified by `handle`.
    pub fn key(&self, handle: TreeHandle) -> (result: Result<&K, InvalidHandle>)
        requires
            self.is_well_formed(),
        ensures
            checked(self.issued(handle), self.live_entries().contains_key(handle), result),
            result matches Ok(k) ==> *k == self.live_entries()[handle].0,
    {
        self.core.key(handle)
    }

    /// Returns the value identified by `handle`.
    pub fn value(&self, handle: TreeHandle) -> (result: Result<&V, InvalidHandle>)
        requires
            self.is_well_formed(),
        ensures
            checked(self.issued(handle), self.live_entries().contains_key(handle), result),
            result matches Ok(v) ==> *v == self.live_entries()[handle].1,
    {
        self.core.value(handle)
    }

    /// Every state that changes values alone keeps the invariant.
    proof fn lemma_values_changed(&self)
        requires
            self.is_well_formed(),
        ensures
            forall|after: TreeCore<K, V>|
                #[trigger] after.same_shape(&self.core) && after.wf() && after.active == self.core.active && after.len
                    == self.core.len && after.root == self.core.root ==> (SkewHeap { core: after, height: self.height }).is_well_formed(),
    {
        assert forall|after: TreeCore<K, V>|
            #[trigger] after.same_shape(&self.core) && after.wf() && after.active == self.core.active && after.len
                == self.core.len && after.root == self.core.root implies (SkewHeap { core: after, height: self.height }).is_well_formed() by {
            let next = SkewHeap { core: after, height: self.height };
            after.lemma_ordered_same_shape(&self.core, self.height@);
            assert forall|q: NodeRef| #[trigger] after.is_live(q) implies after.nd(q).children@.len() <= 2 by {
                assert(self.core.is_live(q));
            }
            assert forall|q: NodeRef| #[trigger] next.detached(q) implies after.root == Some(q) by {
                assert(self.core.is_live(q));
                assert(self.detached(q));
            }
        }
    }

    /// Returns mutable access to the value identified by `handle`.
    pub fn value_mut(&mut self, handle: TreeHandle) -> (result: Result<&mut V, InvalidHandle>)
        requires
            old(self).is_well_formed(),
        ensures
            checked(old(self).issued(handle), old(self).live_entries().contains_key(handle), result),
            result matches Ok(v) ==> {
                &&& *v == old(self).live_entries()[handle].1
                &&& final(self).live_entries() == old(self).live_entries().insert(
                    handle,
                    (old(self).live_entries()[handle].0, *final(v)),
                )
                &&& final(self).is_well_formed()
                &&& final(self).consumed() == old(self).consumed()
                &&& forall|h: TreeHandle| final(self).issued(h) == old(self).issued(h)
            },
            result is Err ==> *final(self) == *old(self),
    {
        proof {
            self.lemma_values_changed();
        }
        self.core.value_mut(handle)
    }

    /// Returns the number of live entries.
    pub fn len(&self) -> (result: usize)
        requires
            self.is_well_formed(),
        ensures
            result == self.live_entries().len(),
    {
        proof {
            self.core.lemma_live_len();
        }
        self.core.len
    }

    /// Returns whether the heap has no entries.
    pub fn is_empty(&self) -> (result: bool)
        requires
            self.is_well_formed(),
        ensures
            result == (self.live_entries().len() == 0),
    {
        proof {
            self.core.lemma_live_len();
        }
        self.core.len == 0
    }
}

impl<K: HeapKey, V> SkewHeap<K, V> {
    /// Decreases an entry's key and restores heap order.
    pub fn decrease_key(&mut self, handle: TreeHandle, key: K) -> (result: Result<(), DecreaseKeyError>)
        requires
            old(self).is_well_formed(),
        ensures
            final(self).is_well_formed(),
            final(self).consumed() == old(self).consumed(),
            forall|h: TreeHandle| final(self).issued(h) == old(self).issued(h),
            match result {
                Ok(()) => {
                    &&& old(self).issued(handle)
                    &&& old(self).live_entries().contains_key(handle)
                    &&& key.key_rank() <= old(self).live_entries()[handle].0.key_rank()
                    &&& final(self).live_entries() == old(self).live_entries().insert(
                        handle,
                        (key, old(self).live_entries()[handle].1),
                    )
                },
                Err(DecreaseKeyError::InvalidHandle(e)) => {
                    &&& checked(
                        old(self).issued(handle),
                        old(self).live_entries().contains_key(handle),
                        Err::<(), InvalidHandle>(e),
                    )
                    &&& final(self).live_entries() == old(self).live_entries()
                },
                Err(DecreaseKeyError::NotDecreased) => {
                    &&& old(self).issued(handle)
                    &&& old(self).live_entries().contains_key(handle)
                    &&& key.key_rank() > old(self).live_entries()[handle].0.key_rank()
                    &&& final(self).live_entries() == old(self).live_entries()
                },
                Err(DecreaseKeyError::InvalidKey) => false,
            },
    {
        proof {
            self.lemma_root_least();
        }
        let ghost s0 = self.core;
        let (node, equal) = match self.core.set_key(handle, key) {
            Ok(found) => found,
            Err(error) => return Err(error),
        };
        let ghost s1 = self.core;
        proof {
            assert forall|q: NodeRef|
                #[trigger] self.core.is_live(q) && self.core.nd(q).parent is Some && (q != node || equal) implies {
                    &&& self.core.nd(self.core.nd(q).parent->0).key.key_rank() <= self.core.nd(q).key.key_rank()
                    &&& self.height@(q) < self.height@(self.core.nd(q).parent->0)
                } by {
                if q != node {
                    assert(self.core.slot_at(q) == s0.slot_at(q));
                }
                assert(s0.is_live(q));
                assert(s0.node_linked(q));
                let p = self.core.nd(q).parent->0;
                if p != node {
                    assert(self.core.slot_at(p) == s0.slot_at(p));
                }
            }
            assert forall|q: NodeRef| #[trigger] self.core.is_live(q) implies self.core.nd(q).children@.len() <= 2 by {
                if q != node {
                    assert(self.core.slot_at(q) == s0.slot_at(q));
                }
                assert(s0.is_live(q));
            }
            assert forall|q: NodeRef| #[trigger] self.detached(q) implies self.core.root == Some(q) by {
                if q != node {
                    assert(self.core.slot_at(q) == s0.slot_at(q));
                }
                assert(old(self).detached(q));
            }
        }
        if equal || self.core.root == Some(node) {
            proof {
                assert forall|q: NodeRef| #[trigger] self.core.is_live(q) && self.core.nd(q).parent is Some implies {
                    &&& self.core.nd(self.core.nd(q).parent->0).key.key_rank() <= self.core.nd(q).key.key_rank()
                    &&& self.height@(q) < self.height@(self.core.nd(q).parent->0)
                } by {
                    if q == node && !equal {
                        assert(s0.nd(node).parent is None);
                    }
                }
            }
            return Ok(());
        }
        proof {
            if old(self).detached(node) {
                assert(old(self).core.root == Some(node));
            }
            assert(self.core.is_live(node));
            assert(old(self).core.is_live(node));
            assert(old(self).detached(self.core.root->0));
            assert(self.core.slot_at(self.core.root->0) == s0.slot_at(self.core.root->0));
            assert(self.detached(self.core.root->0));
        }
        self.cut(node);
        let root = self.core.root;
        let ghost pre = *self;
        let merged = self.union(root, Some(node), Ghost(weight(self.height@, root) + weight(self.height@, Some(node))));
        let ghost post = *self;
        let ghost s3 = self.core;
        self.core.root = merged;
        proof {
            assert forall|q: NodeRef| #[trigger] s3.is_live(q) && s3.nd(q).parent is None implies self.core.root == Some(q) by {
                assert(post.detached(q));
                if merged != Some(q) {
                    assert(pre.detached(q));
                }
            }
            self.lemma_settled(&s3, &s1);
        }
        Ok(())
    }

    /// Removes the detached node `node`, other than the root, melding its
    /// children back into the heap.
    fn remove_detached(&mut self, node: NodeRef) -> (entry: (K, V))
        requires
            old(self).core.wf(),
            old(self).shaped(),
            old(self).core.active,
            old(self).detached(node),
            old(self).core.root matches Some(r) && r != node,
            forall|q: NodeRef| #[trigger] old(self).detached(q) ==> old(self).core.root == Some(q) || q == node,
        ensures
            final(self).is_well_formed(),
            final(self).core.active,
            forall|h: TreeHandle| final(self).issued(h) == old(self).issued(h),
            entry == old(self).live_entries()[old(self).core.handle_of(node)],
            final(self).live_entries() == old(self).live_entries().remove(old(self).core.handle_of(node)),
    {
        let ghost s0 = self.core;
        let ghost pre0 = *self;
        let left = self.detach_child(node, 0);
        let right = self.detach_child(node, 1);
        let ghost s1 = self.core;
        let ghost pre1 = *self;
        proof {
            s1.lemma_same_nodes_trans(&pre0.core, &s0);
            assert(s1.same_nodes(&s0)) by {
                assert(s1.same_nodes(&pre1.core));
            }
        }
        let merged = self.union(left, right, Ghost(weight(self.height@, left) + weight(self.height@, right)));
        let ghost post1 = *self;
        let root = self.core.root;
        proof {
            assert(pre1.detached(root->0));
            assert(self.core.slot_at(root->0) == s1.slot_at(root->0));
            assert(pre1.detached(node));
            assert(self.core.slot_at(node) == s1.slot_at(node));
            self.core.lemma_same_nodes_trans(&s1, &s0);
        }
        let ghost pre2 = *self;
        let top = self.union(root, merged, Ghost(weight(self.height@, root) + weight(self.height@, merged)));
        let ghost post2 = *self;
        let ghost s2 = self.core;
        proof {
            assert(pre2.detached(node));
            assert(s2.slot_at(node) == pre2.core.slot_at(node));
            s2.lemma_same_nodes_trans(&pre2.core, &s0);
        }
        self.core.root = top;
        proof {
            self.core.lemma_rerooted(&s2, &s0);
            assert forall|q: NodeRef| #[trigger] self.core.slot_at(q) == s2.slot_at(q) by {}
            self.core.lemma_ordered_same_slots(&s2, self.height@);
        }
        let ghost s3 = self.core;
        let entry = self.core.remove_node(node);
        proof {
            self.core.lemma_ordered_removed(&s3, self.height@, node);
            assert forall|q: NodeRef| #[trigger] self.core.is_live(q) implies self.core.nd(q).children@.len() <= 2 by {
                assert(self.core.slot_at(q) == s2.slot_at(q));
                assert(s2.is_live(q));
            }
            assert forall|q: NodeRef| #[trigger] self.detached(q) implies self.core.root == Some(q) by {
                assert(self.core.slot_at(q) == s2.slot_at(q));
                assert(post2.detached(q));
                if top != Some(q) {
                    assert(pre2.detached(q));
                    assert(post1.detached(q));
                    if merged != Some(q) {
                        assert(pre1.detached(q));
                    }
                }
            }
        }
        entry
    }

    /// Removes and returns the entry identified by `handle`.
    pub fn delete(&mut self, handle: TreeHandle) -> (result: Result<(K, V), InvalidHandle>)
        requires
            old(self).is_well_formed(),
        ensures
            final(self).is_well_formed(),
            final(self).consumed() == old(self).consumed(),
            forall|h: TreeHandle| final(self).issued(h) == old(self).issued(h),
            checked(old(self).issued(handle), old(self).live_entries().contains_key(handle), result),
            result matches Ok(e) ==> {
                &&& e == old(self).live_entries()[handle]
                &&& final(self).live_entries() == old(self).live_entries().remove(handle)
            },
            result is Err ==> *final(self) == *old(self),
    {
        proof {
            self.lemma_root_least();
        }
        let node = self.core.validate(handle)?;
        if self.core.root == Some(node) {
            return Ok(self.pop_root());
        }
        proof {
            if old(self).detached(node) {
                assert(old(self).core.root == Some(node));
            }
            assert(self.core.is_live(node));
            assert(old(self).core.is_live(node));
            assert(old(self).detached(self.core.root->0));
        }
        let ghost s0 = self.core;
        self.cut(node);
        proof {
            self.core.lemma_same_nodes_wf(&s0);
        }
        Ok(self.remove_detached(node))
    }
}

impl<K: HeapKey, V> SkewHeap<K, V> {
    /// Removes every entry and invalidates outstanding handles; a heap
    /// consumed by a meld is left as it is.
    pub fn clear(&mut self)
        requires
            old(self).is_well_formed(),
        ensures
            final(self).is_well_formed(),
            final(self).consumed() == old(self).consumed(),
            forall|h: TreeHandle| final(self).issued(h) == old(self).issued(h),
            old(self).consumed() ==> final(self).live_entries() == old(self).live_entries(),
            !old(self).consumed() ==> final(self).live_entries() == Map::<TreeHandle, (K, V)>::empty(),
    {
        if self.core.active {
            self.core.clear();
        }
    }

    /// Melds `other` into this heap.
    ///
    /// The donor is consumed on success: it keeps no entries and accepts
    /// none, while its handles stay valid through this heap.
    pub fn meld(&mut self, other: &mut Self) -> (result: Result<(), MeldError>)
        requires
            old(self).is_well_formed(),
            old(other).is_well_formed(),
            old(self).live_entries().len() + old(other).live_entries().len() <= usize::MAX,
        ensures
            final(self).is_well_formed(),
            final(other).is_well_formed(),
            match result {
                Ok(()) => {
                    &&& !old(self).consumed()
                    &&& !old(other).consumed()
                    &&& forall|h: TreeHandle| !(old(self).issued(h) && old(other).issued(h))
                    &&& old(self).live_entries().dom().disjoint(old(other).live_entries().dom())
                    &&& final(self).live_entries() == old(self).live_entries().union_prefer_right(old(other).live_entries())
                    &&& forall|h: TreeHandle| final(self).issued(h) == (old(self).issued(h) || old(other).issued(h))
                    &&& final(other).live_entries() == Map::<TreeHandle, (K, V)>::empty()
                    &&& final(other).consumed()
                    &&& forall|h: TreeHandle| !final(other).issued(h)
                    &&& !final(self).consumed()
                },
                Err(MeldError::ReceiverConsumed) => old(self).consumed(),
                Err(MeldError::DonorConsumed) => !old(self).consumed() && old(other).consumed(),
                Err(MeldError::DomainClash) => {
                    &&& !old(self).consumed()
                    &&& !old(other).consumed()
                    &&& exists|h: TreeHandle| old(self).issued(h) && old(other).issued(h)
                },
            },
            result is Err ==> *final(self) == *old(self) && *final(other) == *old(other),
    {
        if !self.core.active {
            return Err(MeldError::ReceiverConsumed);
        }
        if !other.core.active {
            return Err(MeldError::DonorConsumed);
        }
        if self.core.shares_domain(&other.core) {
            proof {
                let d = choose|d: u64| self.core.has_domain(d) && other.core.has_domain(d);
                let h = TreeHandle { domain: d, slot: 0, generation: 0 };
                assert(self.issued(h) && other.issued(h));
            }
            return Err(MeldError::DomainClash);
        }
        proof {
            self.core.lemma_live_len();
            other.core.lemma_live_len();
            self.lemma_root_least();
            other.lemma_root_least();
        }
        let ghost s0 = self.core;
        let ghost o0 = other.core;
        let ghost h_self = self.height@;
        let ghost h_other = other.height@;
        let other_root = other.core.root;
        self.core.take_arenas_from(&mut other.core);
        let ghost s1 = self.core;
        proof {
            self.height@ = |q: NodeRef| if s0.is_live(q) { h_self(q) } else { h_other(q) };
            assert forall|q: NodeRef| #[trigger] o0.is_live(q) implies !s0.is_live(q) by {
                assert(!s0.has_domain(q.domain));
            }
            assert(self.core.ordered_by(self.height@)) by {
                assert forall|q: NodeRef| #[trigger] self.core.is_live(q) && self.core.nd(q).parent is Some implies {
                    &&& self.core.nd(self.core.nd(q).parent->0).key.key_rank() <= self.core.nd(q).key.key_rank()
                    &&& self.height@(q) < self.height@(self.core.nd(q).parent->0)
                } by {
                    if s0.is_live(q) {
                        assert(s0.node_linked(q));
                        let p = s0.nd(q).parent->0;
                        assert(s0.is_live(p));
                    } else {
                        assert(o0.is_live(q));
                        assert(o0.node_linked(q));
                        let p = o0.nd(q).parent->0;
                        assert(o0.is_live(p));
                        assert(!s0.is_live(p));
                    }
                }
            }
            assert forall|q: NodeRef| #[trigger] self.core.is_live(q) implies self.core.nd(q).children@.len() <= 2 by {
                if s0.is_live(q) {
                } else {
                    assert(o0.is_live(q));
                }
            }
            assert forall|q: NodeRef| #[trigger] self.detached(q) implies self.core.root == Some(q) || other_root == Some(q) by {
                if s0.is_live(q) {
                    assert(old(self).detached(q));
                } else {
                    assert(o0.is_live(q));
                    assert(old(other).detached(q));
                }
            }
            if let Some(r) = self.core.root {
                if let Some(t) = other_root {
                    assert(s0.is_live(r));
                    assert(o0.is_live(t));
                }
            }
        }
        let root = self.core.root;
        let ghost pre = *self;
        let merged = self.union(root, other_root, Ghost(weight(self.height@, root) + weight(self.height@, other_root)));
        let ghost post = *self;
        let ghost s2 = self.core;
        self.core.root = merged;
        proof {
            assert forall|q: NodeRef| #[trigger] s2.is_live(q) && s2.nd(q).parent is None implies self.core.root == Some(q) by {
                assert(post.detached(q));
                if merged != Some(q) {
                    assert(pre.detached(q));
                }
            }
            self.lemma_settled(&s2, &s1);
            assert forall|q: NodeRef| #[trigger] other.core.is_live(q) && other.core.nd(q).parent is Some implies {
                &&& other.core.nd(other.core.nd(q).parent->0).key.key_rank() <= other.core.nd(q).key.key_rank()
                &&& other.height@(q) < other.height@(other.core.nd(q).parent->0)
            } by {}
        }
        Ok(())
    }
}

impl<K: HeapKey> SkewHeap<K, ()> {
    /// Inserts a key into this value-less heap, which must accept entries.
    pub fn push(&mut self, key: K)
        requires
            old(self).is_well_formed(),
            !old(self).consumed(),
            old(self).live_entries().len() < usize::MAX,
        ensures
            final(self).is_well_formed(),
            !final(self).consumed(),
            forall|h: TreeHandle| final(self).issued(h) == old(self).issued(h),
            exists|h: TreeHandle| {
                &&& final(self).issued(h)
                &&& !old(self).live_entries().contains_key(h)
                &&& final(self).live_entries() == old(self).live_entries().insert(h, (key, ()))
            },
    {
        let handle = self.insert(key, ());
        proof {
            assert(final(self).issued(handle));
        }
    }

    /// Returns the minimum key, if present.
    pub fn peek(&self) -> (result: Option<&K>)
        requires
            self.is_well_formed(),
        ensures
            result is None <==> self.live_entries().len() == 0,
            result matches Some(k) ==> exists|h: TreeHandle| {
                &&& least_entry(self.live_entries(), h, |key: K| key.key_rank())
                &&& self.live_entries()[h].0 == *k
            },
    {
        match self.peek_entry() {
            Some((handle, key, _)) => {
                proof {
                    assert(least_entry(self.live_entries(), handle, |key: K| key.key_rank()));
                }
                Some(key)
            },
            None => None,
        }
    }

    /// Removes and returns the minimum key, if present.
    pub fn pop(&mut self) -> (result: Option<K>)
        requires
            old(self).is_well_formed(),
        ensures
            final(self).is_well_formed(),
            final(self).consumed() == old(self).consumed(),
            forall|h: TreeHandle| final(self).issued(h) == old(self).issued(h),
            result is None <==> old(self).live_entries().len() == 0,
            result is None ==> final(self).live_entries() == old(self).live_entries(),
            result matches Some(k) ==> exists|h: TreeHandle| {
                &&& least_entry(old(self).live_entries(), h, |key: K| key.key_rank())
                &&& old(self).live_entries()[h].0 == k
                &&& final(self).live_entries() == old(self).live_entries().remove(h)
            },
    {
        match self.pop_entry() {
            Some((key, _)) => Some(key),
            None => None,
        }
    }
}

impl<K: HeapKey, V> Default for SkewHeap<K, V> {
    fn default() -> (heap: Self)
        ensures
            heap.is_well_formed(),
            !heap.consumed(),
            heap.live_entries() == Map::<TreeHandle, (K, V)>::empty(),
    {
        Self::new()
    }
}

impl<K: HeapKey, V> AddressableHeap<K, V> for SkewHeap<K, V> {
    type Handle = TreeHandle;

    open spec fn well_formed(&self) -> bool {
        self.is_well_formed()
    }

    open spec fn live(&self) -> Map<TreeHandle, (K, V)> {
        self.live_entries()
    }

    open spec fn owns(&self, handle: TreeHandle) -> bool {
        self.issued(handle)
    }

    open spec fn is_consumed(&self) -> bool {
        self.consumed()
    }

    open spec fn priority(&self, key: K) -> int {
        key.key_rank()
    }

    fn insert(&mut self, key: K, value: V) -> (handle: TreeHandle) {
        proof {
            self.core.lemma_live_len();
        }
        SkewHeap::insert(self, key, value)
    }

    fn peek(&self) -> (result: Option<(TreeHandle, &K, &V)>) {
        self.peek_entry()
    }

    fn pop(&mut self) -> (result: Option<(K, V)>) {
        let result = self.pop_entry();
        proof {
            if result is Some {
                let e = result->0;
                let h = choose|h: TreeHandle| {
                    &&& least_entry(old(self).live_entries(), h, |key: K| key.key_rank())
                    &&& old(self).live_entries()[h] == e
                    &&& self.live_entries() == old(self).live_entries().remove(h)
                };
                assert(least_entry(old(self).live(), h, |key: K| old(self).priority(key)));
            }
        }
        result
    }

    fn key(&self, handle: TreeHandle) -> (result: Result<&K, InvalidHandle>) {
        SkewHeap::key(self, handle)
    }

    fn value(&self, handle: TreeHandle) -> (result: Result<&V, InvalidHandle>) {
        SkewHeap::value(self, handle)
    }

    fn value_mut(&mut self, handle: TreeHandle) -> (result: Result<&mut V, InvalidHandle>) {
        SkewHeap::value_mut(self, handle)
    }

    fn delete(&mut self, handle: TreeHandle) -> (result: Result<(K, V), InvalidHandle>) {
        proof {
            self.core.lemma_live_len();
        }
        SkewHeap::delete(self, handle)
    }

    fn len(&self) -> (result: usize) {
        SkewHeap::len(self)
    }

    fn clear(&mut self) {
        SkewHeap::clear(self)
    }
}

impl<K: HeapKey, V> DecreaseKeyHeap<K, V> for SkewHeap<K, V> {
    fn decrease_key(&mut self, handle: TreeHandle, key: K) -> (result: Result<(), DecreaseKeyError>) {
        SkewHeap::decrease_key(self, handle, key)
    }
}

impl<K: HeapKey, V> MeldableAddressableHeap<K, V> for SkewHeap<K, V> {
    type MeldError = MeldError;

    fn meld(&mut self, other: &mut Self) -> (result: Result<(), MeldError>) {
        let result = SkewHeap::meld(self, other);
        proof {
            if result == Err::<(), MeldError>(MeldError::DomainClash) {
                let h = choose|h: TreeHandle| old(self).issued(h) && old(other).issued(h);
                assert(old(self).owns(h) && old(other).owns(h));
            }
        }
        result
    }
}

impl<K: HeapKey> Heap<K> for SkewHeap<K, ()> {
    open spec fn well_formed(&self) -> bool {
        &&& self.is_well_formed()
        &&& self.live_entries().dom().finite()
        &&& self.consumed() ==> self.live_entries().dom().len() == 0
    }

    open spec fn items(&self) -> Multiset<K> {
        keys_of(self.live_entries())
    }

    open spec fn priority(&self, value: K) -> int {
        value.key_rank()
    }

    open spec fn accepts_push(&self) -> bool {
        !self.consumed()
    }

    fn push(&mut self, value: K) {
        proof {
            lemma_keys_len(self.live_entries());
        }
        SkewHeap::push(self, value);
        proof {
            let h = choose|h: TreeHandle| {
                &&& self.issued(h)
                &&& !old(self).live_entries().contains_key(h)
                &&& self.live_entries() == old(self).live_entries().insert(h, (value, ()))
            };
            lemma_keys_insert(old(self).live_entries(), h, (value, ()));
        }
    }

    fn peek(&self) -> (result: Option<&K>) {
        proof {
            lemma_keys_len(self.live_entries());
        }
        let result = SkewHeap::peek(self);
        proof {
            if let Some(k) = result {
                let h = choose|h: TreeHandle| {
                    &&& least_entry(self.live_entries(), h, |key: K| key.key_rank())
                    &&& self.live_entries()[h].0 == *k
                };
                lemma_keys_remove(self.live_entries(), h);
                assert forall|other: K| self.items().contains(other) implies k.key_rank() <= other.key_rank() by {
                    lemma_keys_contains(self.live_entries(), other);
                    let g = choose|g: TreeHandle| self.live_entries().dom().contains(g) && self.live_entries()[g].0 == other;
                    assert(self.live_entries().contains_key(g));
                }
            }
        }
        result
    }

    fn pop(&mut self) -> (result: Option<K>) {
        proof {
            lemma_keys_len(self.live_entries());
        }
        let result = SkewHeap::pop(self);
        proof {
            if result is Some {
                let k = result->0;
                let h = choose|h: TreeHandle| {
                    &&& least_entry(old(self).live_entries(), h, |key: K| key.key_rank())
                    &&& old(self).live_entries()[h].0 == k
                    &&& self.live_entries() == old(self).live_entries().remove(h)
                };
                lemma_keys_remove(old(self).live_entries(), h);
                assert forall|other: K| old(self).items().contains(other) implies k.key_rank() <= other.key_rank() by {
                    lemma_keys_contains(old(self).live_entries(), other);
                    let g = choose|g: TreeHandle| old(self).live_entries().dom().contains(g) && old(self).live_entries()[g].0
                        == other;
                    assert(old(self).live_entries().contains_key(g));
                }
            }
        }
        result
    }

    fn len(&self) -> (result: usize) {
        proof {
            lemma_keys_len(self.live_entries());
        }
        SkewHeap::len(self)
    }

    fn clear(&mut self) {
        SkewHeap::clear(self);
        proof {
            assert(self.live_entries().dom() =~= Set::<TreeHandle>::empty()) by {
                if old(self).consumed() {
                    assert(old(self).live_entries().dom() =~= Set::<TreeHandle>::empty());
                }
            }
            lemma_keys_empty(self.live_entries());
        }
    }
}

impl<K: HeapKey> MeldableHeap<K> for SkewHeap<K, ()> {
    type MeldError = MeldError;

    open spec fn is_consumed(&self) -> bool {
        self.consumed()
    }

    open spec fn meld_compatible(&self, other: &Self) -> bool {
        forall|h: TreeHandle| !(self.issued(h) && other.issued(h))
    }

    fn meld(&mut self, other: &mut Self) -> (result: Result<(), MeldError>) {
        proof {
            lemma_keys_len(self.live_entries());
            lemma_keys_len(other.live_entries());
        }
        let result = SkewHeap::meld(self, other);
        proof {
            if result is Ok {
                lemma_keys_union(old(self).live_entries(), old(other).live_entries());
                assert(self.live_entries().dom() =~= old(self).live_entries().dom().union(old(other).live_entries().dom()));
                lemma_keys_empty(other.live_entries());
            }
        }
        result
    }
}

} // verus!
