//! An addressable simple Fibonacci heap.
use vstd::multiset::Multiset;
use vstd::prelude::*;

use crate::error::{DecreaseKeyError, InvalidHandle};
use crate::key_multiset::{keys_of, lemma_keys_contains, lemma_keys_empty, lemma_keys_insert, lemma_keys_len, lemma_keys_remove, lemma_keys_union};
use crate::order::HeapKey;
use crate::tree::forest::{NodeRef, TreeCore};
use crate::tree::forest_ranks::{ranks_ok, RankedForest};
use crate::tree::handles::{MeldError, TreeHandle};
use crate::{checked, least_entry, AddressableHeap, DecreaseKeyHeap, Heap, MeldableAddressableHeap, MeldableHeap};

verus! {

broadcast use {vstd::set::group_set_axioms, vstd::map::group_map_axioms};

/// An addressable simple Fibonacci heap.
///
/// Unlike a classic Fibonacci heap, this heap maintains one heap-ordered
/// tree.  Root removal rank-consolidates the root's children; a decreased
/// node that precedes its parent is cut and linked directly with the root.
pub struct SimpleFibonacciHeap<K, V = ()> {
    forest: RankedForest<K, V>,
}

impl<K: HeapKey, V> SimpleFibonacciHeap<K, V> {
    /// The heap's internal invariant: a single heap-ordered tree under the
    /// recorded root, whose ranks count children, and nothing left in a
    /// heap consumed by a meld.
    pub closed spec fn is_well_formed(&self) -> bool {
        &&& self.forest.core.single_tree(self.forest.height@)
        &&& ranks_ok(self.forest.core, None)
    }

    /// Whether this heap was consumed as a meld donor.
    pub closed spec fn consumed(&self) -> bool {
        !self.forest.core.active
    }

    /// The live handles and the entries they identify.
    pub closed spec fn live_entries(&self) -> Map<TreeHandle, (K, V)> {
        self.forest.core.live()
    }

    /// Whether `handle` was issued by this heap or a heap melded into it.
    pub closed spec fn issued(&self, handle: TreeHandle) -> bool {
        self.forest.core.owns(handle)
    }

    /// Every live handle was issued by this heap.
    pub proof fn lemma_live_issued(&self)
        requires
            self.is_well_formed(),
        ensures
            forall|h: TreeHandle| #[trigger] self.live_entries().contains_key(h) ==> self.issued(h),
    {
        self.forest.core.lemma_live_len();
        assert forall|h: TreeHandle| #[trigger] self.live_entries().contains_key(h) implies self.issued(h) by {
            let r = TreeCore::<K, V>::ref_of(h);
            assert(self.forest.core.is_live(r));
            assert(self.forest.core.arenas@[self.forest.core.arena_index(h.domain)].domain == h.domain);
        }
    }
}


impl<K: HeapKey, V> SimpleFibonacciHeap<K, V> {
    /// Creates an empty heap.
    pub fn new() -> (heap: Self)
        ensures
            heap.is_well_formed(),
            !heap.consumed(),
            heap.live_entries() == Map::<TreeHandle, (K, V)>::empty(),
    {
        let heap = SimpleFibonacciHeap { forest: RankedForest { core: TreeCore::new(), height: Ghost(|q: NodeRef| 0nat) } };
        proof {
            assert forall|q: NodeRef| !heap.forest.core.is_live(q) by {
                assert(!heap.forest.core.live_nodes@.contains(q));
            }
        }
        heap
    }

    /// Inserts an entry unless this heap was consumed as a meld donor.
    pub fn try_insert(&mut self, key: K, value: V) -> (result: Result<TreeHandle, MeldError>)
        requires
            old(self).is_well_formed(),
            old(self).live_entries().len() < usize::MAX,
        ensures
            final(self).is_well_formed(),
            final(self).consumed() == old(self).consumed(),
            forall|h: TreeHandle| final(self).issued(h) == old(self).issued(h),
            result is Err <==> old(self).consumed(),
            result matches Err(e) ==> e == MeldError::ReceiverConsumed && final(self).live_entries() == old(self).live_entries(),
            result matches Ok(handle) ==> {
                &&& final(self).issued(handle)
                &&& !old(self).live_entries().contains_key(handle)
                &&& final(self).live_entries() == old(self).live_entries().insert(handle, (key, value))
            },
    {
        if !self.forest.core.active {
            return Err(MeldError::ReceiverConsumed);
        }
        Ok(self.insert(key, value))
    }

    /// Inserts an entry, linking its node with the root, and returns its
    /// checked handle; the heap must accept entries.
    pub fn insert(&mut self, key: K, value: V) -> (handle: TreeHandle)
        requires
            old(self).is_well_formed(),
            !old(self).consumed(),
            old(self).live_entries().len() < usize::MAX,
        ensures
            final(self).is_well_formed(),
            !final(self).consumed(),
            forall|h: TreeHandle| final(self).issued(h) == old(self).issued(h),
            final(self).issued(handle),
            !old(self).live_entries().contains_key(handle),
            final(self).live_entries() == old(self).live_entries().insert(handle, (key, value)),
    {
        proof {
            self.forest.core.lemma_live_len();
            self.forest.core.lemma_tree_shaped(self.forest.height@);
        }
        let ghost s0 = self.forest.core;
        let node = self.forest.core.insert_detached(Ghost(self.forest.height@), key, value);
        let ghost s1 = self.forest.core;
        proof {
            assert forall|q: NodeRef| #[trigger] s1.is_live(q) && None::<NodeRef> != Some(q) implies s1.nd(q).rank == s1.nd(
                q,
            ).children@.len() by {
                if q != node {
                    assert(s1.slot_at(q) == s0.slot_at(q));
                    assert(s0.is_live(q));
                }
            }
        }
        let merged = match self.forest.core.root {
            None => node,
            Some(root) => {
                proof {
                    assert(s0.detached(root));
                    assert(root != node);
                }
                self.forest.link(root, node, Ghost(None))
            },
        };
        let ghost s2 = self.forest.core;
        self.forest.core.root = Some(merged);
        proof {
            assert forall|q: NodeRef| #[trigger] s2.detached(q) implies self.forest.core.root == Some(q) by {
                if merged != q {
                    assert(s1.detached(q));
                    assert(q != node);
                    assert(s0.detached(q));
                }
            }
            self.forest.core.lemma_settled_tree(&s2, &s1, self.forest.height@);
            assert(self.forest.core.is_live(node));
            assert forall|q: NodeRef| #[trigger] self.forest.core.is_live(q) && None::<NodeRef> != Some(q) implies self.forest.core.nd(q).rank
                == self.forest.core.nd(q).children@.len() by {
                assert(self.forest.core.slot_at(q) == s2.slot_at(q));
                assert(s2.is_live(q));
            }
        }
        self.forest.core.handle(node)
    }

    /// Returns the handle, key, and value of a minimum entry.
    pub fn peek_entry(&self) -> (result: Option<(TreeHandle, &K, &V)>)
        requires
            self.is_well_formed(),
        ensures
            result is None <==> self.live_entries().len() == 0,
            result matches Some((h, k, v)) ==> {
                &&& least_entry(self.live_entries(), h, |key: K| key.key_rank())
                &&& self.live_entries()[h] == (*k, *v)
            },
    {
        proof {
            self.forest.core.lemma_single_tree_least(self.forest.height@);
        }
        if !self.forest.core.active {
            return None;
        }
        match self.forest.core.root {
            None => None,
            Some(root) => {
                let node = self.forest.core.node(root);
                Some((self.forest.core.handle(root), &node.key, &node.value))
            },
        }
    }
}

impl<K: HeapKey, V> SimpleFibonacciHeap<K, V> {
    /// Removes the entry at the root, rank-consolidating its children into
    /// the new tree.
    fn pop_root(&mut self) -> (entry: (K, V))
        requires
            old(self).is_well_formed(),
            old(self).forest.core.root is Some,
        ensures
            final(self).is_well_formed(),
            final(self).consumed() == old(self).consumed(),
            forall|h: TreeHandle| final(self).issued(h) == old(self).issued(h),
            least_entry(old(self).live_entries(), old(self).forest.core.handle_of(old(self).forest.core.root->0), |key: K| key.key_rank()),
            entry == old(self).live_entries()[old(self).forest.core.handle_of(old(self).forest.core.root->0)],
            final(self).live_entries() == old(self).live_entries().remove(old(self).forest.core.handle_of(old(self).forest.core.root->0)),
    {
        proof {
            self.forest.core.lemma_single_tree_least(self.forest.height@);
            self.forest.core.lemma_tree_shaped(self.forest.height@);
        }
        let ghost s0 = self.forest.core;
        let root = self.forest.core.root.unwrap();
        let children = self.forest.core.detach_all(Ghost(self.forest.height@), root);
        let ghost s1 = self.forest.core;
        proof {
            assert forall|q: NodeRef| #[trigger] s1.is_live(q) && Some(root) != Some(q) implies s1.nd(q).rank == s1.nd(
                q,
            ).children@.len() by {
                assert(s0.is_live(q));
                if children@.contains(q) {
                    let k = choose|k: int| 0 <= k < children@.len() && children@[k] == q;
                    assert(s1.nd(children@[k]).children == s0.nd(children@[k]).children);
                } else {
                    assert(s1.slot_at(q) == s0.slot_at(q));
                }
            }
            assert forall|k: int| 0 <= k < children@.len() implies Some(root) != Some(#[trigger] children@[k]) by {}
        }
        let merged = self.forest.consolidate(&children, Ghost(Some(root)));
        let ghost s2 = self.forest.core;
        proof {
            s2.lemma_same_nodes_trans(&s1, &s0);
            assert(s1.detached(root));
            assert(!children@.contains(root)) by {
                if children@.contains(root) {
                    let k = choose|k: int| 0 <= k < children@.len() && children@[k] == root;
                    assert(children@[k] != root);
                }
            }
            assert(s2.slot_at(root) == s1.slot_at(root));
            reveal(TreeCore::shaped_by);
        }
        self.forest.core.root = merged;
        proof {
            self.forest.core.lemma_rerooted(&s2, &s0);
            assert forall|q: NodeRef| #[trigger] self.forest.core.slot_at(q) == s2.slot_at(q) by {}
            self.forest.core.lemma_ordered_same_slots(&s2, self.forest.height@);
            reveal(TreeCore::shaped_by);
            assert forall|q: NodeRef| #[trigger] self.forest.core.detached(q) implies s2.detached(q) by {}
        }
        let ghost s3 = self.forest.core;
        let entry = self.forest.core.remove_detached(Ghost(self.forest.height@), root);
        proof {
            assert forall|q: NodeRef| #[trigger] self.forest.core.detached(q) implies self.forest.core.root == Some(q) by {
                assert(s3.detached(q));
                assert(s2.detached(q));
                if merged != Some(q) {
                    assert(s1.detached(q));
                    if !children@.contains(q) {
                        assert(s0.detached(q));
                    }
                }
            }
            assert forall|q: NodeRef| #[trigger] self.forest.core.is_live(q) && None::<NodeRef> != Some(q) implies self.forest.core.nd(q).rank
                == self.forest.core.nd(q).children@.len() by {
                assert(q != root);
                assert(self.forest.core.slot_at(q) == s3.slot_at(q));
                assert(s3.slot_at(q) == s2.slot_at(q));
                assert(s2.is_live(q));
            }
            reveal(TreeCore::shaped_by);
        }
        entry
    }

    /// Removes and returns a minimum entry.
    pub fn pop_entry(&mut self) -> (result: Option<(K, V)>)
        requires
            old(self).is_well_formed(),
        ensures
            final(self).is_well_formed(),
            final(self).consumed() == old(self).consumed(),
            forall|h: TreeHandle| final(self).issued(h) == old(self).issued(h),
            result is None <==> old(self).live_entries().len() == 0,
            result is None ==> final(self).live_entries() == old(self).live_entries(),
            result matches Some(e) ==> exists|h: TreeHandle| {
                &&& least_entry(old(self).live_entries(), h, |key: K| key.key_rank())
                &&& old(self).live_entries()[h] == e
                &&& final(self).live_entries() == old(self).live_entries().remove(h)
            },
    {
        proof {
            self.forest.core.lemma_single_tree_least(self.forest.height@);
        }
        if !self.forest.core.active || self.forest.core.root.is_none() {
            return None;
        }
        let entry = self.pop_root();
        proof {
            let h = old(self).forest.core.handle_of(old(self).forest.core.root->0);
            assert(least_entry(old(self).live_entries(), h, |key: K| key.key_rank()));
        }
        Some(entry)
    }
}

/// Changing values alone keeps every rank counting its children.
proof fn lemma_ranks_values_changed<K, V>(core: TreeCore<K, V>)
    requires
        ranks_ok(core, None),
    ensures
        forall|after: TreeCore<K, V>| #[trigger] after.same_shape(&core) ==> ranks_ok(after, None),
{
    assert forall|after: TreeCore<K, V>| #[trigger] after.same_shape(&core) implies ranks_ok(after, None) by {
        assert forall|q: NodeRef| #[trigger] after.is_live(q) && None::<NodeRef> != Some(q) implies after.nd(q).rank
            == after.nd(q).children@.len() by {
            assert(core.is_live(q));
            assert(after.nd(q) == TreeCore::<K, V>::with_value(core.nd(q), after.nd(q).value));
        }
    }
}

impl<K: HeapKey, V> SimpleFibonacciHeap<K, V> {
    /// Returns the key identified by `handle`.
    pub fn key(&self, handle: TreeHandle) -> (result: Result<&K, InvalidHandle>)
        requires
            self.is_well_formed(),
        ensures
            checked(self.issued(handle), self.live_entries().contains_key(handle), result),
            result matches Ok(k) ==> *k == self.live_entries()[handle].0,
    {
        self.forest.core.key(handle)
    }

    /// Returns the value identified by `handle`.
    pub fn value(&self, handle: TreeHandle) -> (result: Result<&V, InvalidHandle>)
        requires
            self.is_well_formed(),
        ensures
            checked(self.issued(handle), self.live_entries().contains_key(handle), result),
            result matches Ok(v) ==> *v == self.live_entries()[handle].1,
    {
        self.forest.core.value(handle)
    }

    /// Returns mutable access to the value identified by `handle`.
    pub fn value_mut(&mut self, handle: TreeHandle) -> (result: Result<&mut V, InvalidHandle>)
        requires
            old(self).is_well_formed(),
        ensures
            checked(old(self).issued(handle), old(self).live_entries().contains_key(handle), result),
            result matches Ok(v) ==> {
                &&& *v == old(self).live_entries()[handle].1
                &&& final(self).live_entries() == old(self).live_entries().insert(
                    handle,
                    (old(self).live_entries()[handle].0, *final(v)),
                )
                &&& final(self).is_well_formed()
                &&& final(self).consumed() == old(self).consumed()
                &&& forall|h: TreeHandle| final(self).issued(h) == old(self).issued(h)
            },
            result is Err ==> *final(self) == *old(self),
    {
        proof {
            self.forest.core.lemma_values_changed_tree(self.forest.height@);
            lemma_ranks_values_changed(self.forest.core);
        }
        self.forest.core.value_mut(handle)
    }

    /// Returns the number of live entries.
    pub fn len(&self) -> (result: usize)
        requires
            self.is_well_formed(),
        ensures
            result == self.live_entries().len(),
    {
        proof {
            self.forest.core.lemma_live_len();
        }
        self.forest.core.len
    }

    /// Returns whether the heap has no entries.
    pub fn is_empty(&self) -> (result: bool)
        requires
            self.is_well_formed(),
        ensures
            result == (self.live_entries().len() == 0),
    {
        proof {
            self.forest.core.lemma_live_len();
        }
        self.forest.core.len == 0
    }

    /// Removes every entry and invalidates outstanding handles.
    pub fn clear(&mut self)
        requires
            old(self).is_well_formed(),
        ensures
            final(self).is_well_formed(),
            final(self).consumed() == old(self).consumed(),
            forall|h: TreeHandle| final(self).issued(h) == old(self).issued(h),
            final(self).live_entries() == Map::<TreeHandle, (K, V)>::empty(),
            old(self).consumed() ==> old(self).live_entries() == Map::<TreeHandle, (K, V)>::empty(),
    {
        proof {
            self.forest.core.lemma_live_len();
            if !self.forest.core.active {
                assert(self.forest.core.live().dom() =~= Set::empty());
                assert(self.forest.core.live() =~= Map::<TreeHandle, (K, V)>::empty());
            }
        }
        self.forest.core.clear();
    }
}

impl<K: HeapKey, V> SimpleFibonacciHeap<K, V> {
    /// Decreases an entry's key; a node that now precedes its parent is
    /// cut, with its subtree, and linked with the root.
    pub fn decrease_key(&mut self, handle: TreeHandle, key: K) -> (result: Result<(), DecreaseKeyError>)
        requires
            old(self).is_well_formed(),
        ensures
            final(self).is_well_formed(),
            final(self).consumed() == old(self).consumed(),
            forall|h: TreeHandle| final(self).issued(h) == old(self).issued(h),
            match result {
                Ok(()) => {
                    &&& old(self).issued(handle)
                    &&& old(self).live_entries().contains_key(handle)
                    &&& key.key_rank() <= old(self).live_entries()[handle].0.key_rank()
                    &&& final(self).live_entries() == old(self).live_entries().insert(
                        handle,
                        (key, old(self).live_entries()[handle].1),
                    )
                },
                Err(DecreaseKeyError::InvalidHandle(e)) => {
                    &&& checked(
                        old(self).issued(handle),
                        old(self).live_entries().contains_key(handle),
                        Err::<(), InvalidHandle>(e),
                    )
                    &&& final(self).live_entries() == old(self).live_entries()
                },
                Err(DecreaseKeyError::NotDecreased) => {
                    &&& old(self).issued(handle)
                    &&& old(self).live_entries().contains_key(handle)
                    &&& key.key_rank() > old(self).live_entries()[handle].0.key_rank()
                    &&& final(self).live_entries() == old(self).live_entries()
                },
                Err(DecreaseKeyError::InvalidKey) => false,
            },
    {
        proof {
            self.forest.core.lemma_single_tree_least(self.forest.height@);
            self.forest.core.lemma_tree_shaped(self.forest.height@);
        }
        let ghost s0 = self.forest.core;
        let (node, equal) = match self.forest.core.set_key(handle, key) {
            Ok(found) => found,
            Err(error) => return Err(error),
        };
        let ghost s1 = self.forest.core;
        proof {
            assert forall|q: NodeRef| #[trigger] self.forest.core.is_live(q) && (q != node || equal) implies self.forest.core.edge_ordered(
                self.forest.height@,
                q,
            ) by {
                if q != node {
                    assert(self.forest.core.slot_at(q) == s0.slot_at(q));
                }
                assert(s0.is_live(q));
                assert(s0.node_linked(q));
                if let Some(p) = self.forest.core.nd(q).parent {
                    if p != node {
                        assert(self.forest.core.slot_at(p) == s0.slot_at(p));
                    }
                }
            }
            assert forall|q: NodeRef| #[trigger] self.forest.core.detached(q) == s0.detached(q) by {
                if q != node {
                    assert(self.forest.core.slot_at(q) == s0.slot_at(q));
                }
            }
            assert forall|q: NodeRef| #[trigger] self.forest.core.is_live(q) && None::<NodeRef> != Some(q) implies self.forest.core.nd(q).rank
                == self.forest.core.nd(q).children@.len() by {
                if q != node {
                    assert(self.forest.core.slot_at(q) == s0.slot_at(q));
                }
                assert(s0.is_live(q));
            }
        }
        if equal || self.forest.core.root == Some(node) {
            proof {
                assert forall|q: NodeRef| #[trigger] self.forest.core.is_live(q) && self.forest.core.nd(q).parent is Some implies {
                    &&& self.forest.core.nd(self.forest.core.nd(q).parent->0).key.key_rank() <= self.forest.core.nd(q).key.key_rank()
                    &&& self.forest.height@(q) < self.forest.height@(self.forest.core.nd(q).parent->0)
                } by {
                    if q == node && !equal {
                        assert(s0.detached(node));
                    }
                    assert(self.forest.core.edge_ordered(self.forest.height@, q));
                }
            }
            return Ok(());
        }
        proof {
            assert(!s0.detached(node));
            assert(s0.detached(s0.root->0));
            assert(self.forest.core.node_linked(node));
        }
        let parent = self.forest.core.node(node).parent.unwrap();
        if !self.forest.core.precedes(node, parent) {
            proof {
                assert forall|q: NodeRef| #[trigger] self.forest.core.is_live(q) && self.forest.core.nd(q).parent is Some implies {
                    &&& self.forest.core.nd(self.forest.core.nd(q).parent->0).key.key_rank() <= self.forest.core.nd(q).key.key_rank()
                    &&& self.forest.height@(q) < self.forest.height@(self.forest.core.nd(q).parent->0)
                } by {
                    if q == node {
                        assert(self.forest.core.nd(parent).key.key_rank() <= self.forest.core.nd(node).key.key_rank());
                        assert(s0.is_live(node));
                        assert(s0.node_linked(node));
                        assert(s0.nd(node).parent == Some(parent));
                        assert(s0.is_live(parent));
                        assert(s0.edge_ordered(self.forest.height@, node));
                    } else {
                        assert(self.forest.core.edge_ordered(self.forest.height@, q));
                    }
                }
            }
            return Ok(());
        }
        self.forest.cut_and_cascade(node);
        let ghost s2 = self.forest.core;
        let root = self.forest.core.root.unwrap();
        proof {
            assert(s1.detached(root));
            assert(root != node);
        }
        let merged = self.forest.link(root, node, Ghost(None));
        let ghost s3 = self.forest.core;
        self.forest.core.root = Some(merged);
        proof {
            s3.lemma_same_nodes_trans(&s2, &s1);
            assert forall|q: NodeRef| #[trigger] s3.detached(q) implies self.forest.core.root == Some(q) by {
                if merged != q {
                    assert(s2.detached(q));
                    assert(s1.detached(q));
                }
            }
            self.forest.core.lemma_settled_tree(&s3, &s1, self.forest.height@);
            assert forall|q: NodeRef| #[trigger] self.forest.core.is_live(q) && None::<NodeRef> != Some(q) implies self.forest.core.nd(q).rank
                == self.forest.core.nd(q).children@.len() by {
                assert(self.forest.core.slot_at(q) == s3.slot_at(q));
                assert(s3.is_live(q));
            }
        }
        Ok(())
    }
}

impl<K: HeapKey, V> SimpleFibonacciHeap<K, V> {
    /// Removes and returns the entry identified by `handle`: a non-root
    /// node is cut from its parent, its children are linked one by one
    /// with the root, and it is removed.
    pub fn delete(&mut self, handle: TreeHandle) -> (result: Result<(K, V), InvalidHandle>)
        requires
            old(self).is_well_formed(),
        ensures
            final(self).is_well_formed(),
            final(self).consumed() == old(self).consumed(),
            forall|h: TreeHandle| final(self).issued(h) == old(self).issued(h),
            checked(old(self).issued(handle), old(self).live_entries().contains_key(handle), result),
            result matches Ok(e) ==> {
                &&& e == old(self).live_entries()[handle]
                &&& final(self).live_entries() == old(self).live_entries().remove(handle)
            },
            result is Err ==> *final(self) == *old(self),
    {
        proof {
            self.forest.core.lemma_single_tree_least(self.forest.height@);
            self.forest.core.lemma_tree_shaped(self.forest.height@);
        }
        let node = self.forest.core.validate(handle)?;
        if self.forest.core.root == Some(node) {
            return Ok(self.pop_root());
        }
        let ghost s0 = self.forest.core;
        proof {
            reveal(TreeCore::shaped_by);
            assert(self.forest.core.is_live(node));
            assert(!s0.detached(node));
            assert(s0.detached(s0.root->0));
            assert forall|q: NodeRef| #[trigger] s0.is_live(q) && q != node implies s0.edge_ordered(self.forest.height@, q) by {}
        }
        self.forest.cut_and_cascade(node);
        let ghost s1 = self.forest.core;
        let children = self.forest.core.detach_all(Ghost(self.forest.height@), node);
        let ghost s2 = self.forest.core;
        let root = self.forest.core.root.unwrap();
        proof {
            assert(s1.detached(root));
            assert(s2.detached(root));
            assert(root != node);
            assert(s2.detached(node));
            assert(!children@.contains(node)) by {
                if children@.contains(node) {
                    let k = choose|k: int| 0 <= k < children@.len() && children@[k] == node;
                    assert(children@[k] != node);
                }
            }
            assert(!children@.contains(root)) by {
                if children@.contains(root) {
                    let k = choose|k: int| 0 <= k < children@.len() && children@[k] == root;
                    assert(!s1.detached(children@[k]));
                }
            }
            assert forall|q: NodeRef| #[trigger] s2.is_live(q) && Some(node) != Some(q) implies s2.nd(q).rank == s2.nd(q).children@.len() by {
                assert(s1.is_live(q));
                if children@.contains(q) {
                    let k = choose|k: int| 0 <= k < children@.len() && children@[k] == q;
                    assert(s2.nd(children@[k]).children == s1.nd(children@[k]).children);
                } else {
                    assert(s2.slot_at(q) == s1.slot_at(q));
                }
            }
            assert forall|k: int| 0 <= k < children@.len() implies Some(node) != Some(#[trigger] children@[k]) by {}
        }
        let top = self.forest.link_all(root, &children, Ghost(Some(node)));
        let ghost s3 = self.forest.core;
        proof {
            s3.lemma_same_nodes_trans(&s2, &s1);
            s3.lemma_same_nodes_trans(&s1, &s0);
            reveal(TreeCore::shaped_by);
        }
        self.forest.core.root = Some(top);
        proof {
            self.forest.core.lemma_rerooted(&s3, &s0);
            assert forall|q: NodeRef| #[trigger] self.forest.core.slot_at(q) == s3.slot_at(q) by {}
            self.forest.core.lemma_ordered_same_slots(&s3, self.forest.height@);
            assert forall|q: NodeRef| #[trigger] self.forest.core.detached(q) == s3.detached(q) by {}
            assert(s3.slot_at(node) == s2.slot_at(node));
            assert(s3.detached(node));
            assert(s3.nd(node).children@.len() == 0);
            assert(top != node);
        }
        let ghost s4 = self.forest.core;
        let entry = self.forest.core.remove_detached(Ghost(self.forest.height@), node);
        proof {
            assert forall|q: NodeRef| #[trigger] self.forest.core.detached(q) implies self.forest.core.root == Some(q) by {
                assert(s4.detached(q));
                assert(s3.detached(q));
                if top != q {
                    assert(s2.detached(q));
                    assert(q != root);
                    if !children@.contains(q) {
                        assert(s1.detached(q));
                        assert(s0.detached(q));
                    }
                }
            }
            assert forall|q: NodeRef| #[trigger] self.forest.core.is_live(q) && None::<NodeRef> != Some(q) implies self.forest.core.nd(q).rank
                == self.forest.core.nd(q).children@.len() by {
                assert(q != node);
                assert(self.forest.core.slot_at(q) == s4.slot_at(q));
                assert(s4.slot_at(q) == s3.slot_at(q));
                assert(s3.is_live(q));
            }
            reveal(TreeCore::shaped_by);
        }
        Ok(entry)
    }
}

impl<K: HeapKey, V> SimpleFibonacciHeap<K, V> {
    /// Melds `other` into this heap.
    ///
    /// The donor is consumed on success: it keeps no entries and accepts
    /// none, while its handles stay valid through this heap.
    pub fn meld(&mut self, other: &mut Self) -> (result: Result<(), MeldError>)
        requires
            old(self).is_well_formed(),
            old(other).is_well_formed(),
            old(self).live_entries().len() + old(other).live_entries().len() <= usize::MAX,
        ensures
            final(self).is_well_formed(),
            final(other).is_well_formed(),
            match result {
                Ok(()) => {
                    &&& !old(self).consumed()
                    &&& !old(other).consumed()
                    &&& forall|h: TreeHandle| !(old(self).issued(h) && old(other).issued(h))
                    &&& old(self).live_entries().dom().disjoint(old(other).live_entries().dom())
                    &&& final(self).live_entries() == old(self).live_entries().union_prefer_right(old(other).live_entries())
                    &&& forall|h: TreeHandle| final(self).issued(h) == (old(self).issued(h) || old(other).issued(h))
                    &&& final(other).live_entries() == Map::<TreeHandle, (K, V)>::empty()
                    &&& final(other).consumed()
                    &&& forall|h: TreeHandle| !final(other).issued(h)
                    &&& !final(self).consumed()
                },
                Err(MeldError::ReceiverConsumed) => old(self).consumed(),
                Err(MeldError::DonorConsumed) => !old(self).consumed() && old(other).consumed(),
                Err(MeldError::DomainClash) => {
                    &&& !old(self).consumed()
                    &&& !old(other).consumed()
                    &&& exists|h: TreeHandle| old(self).issued(h) && old(other).issued(h)
                },
            },
            result is Err ==> *final(self) == *old(self) && *final(other) == *old(other),
    {
        if !self.forest.core.active {
            return Err(MeldError::ReceiverConsumed);
        }
        if !other.forest.core.active {
            return Err(MeldError::DonorConsumed);
        }
        if self.forest.core.shares_domain(&other.forest.core) {
            proof {
                let d = choose|d: u64| self.forest.core.has_domain(d) && other.forest.core.has_domain(d);
                let h = TreeHandle { domain: d, slot: 0, generation: 0 };
                assert(self.issued(h) && other.issued(h));
            }
            return Err(MeldError::DomainClash);
        }
        proof {
            self.forest.core.lemma_live_len();
            other.forest.core.lemma_live_len();
        }
        let other_root = other.forest.core.root;
        let ghost s0 = self.forest.core;
        let ghost o0 = other.forest.core;
        proof {
            self.forest.core.lemma_tree_shaped(self.forest.height@);
            other.forest.core.lemma_tree_shaped(other.forest.height@);
        }
        let joined = self.forest.core.absorb(Ghost(self.forest.height@), &mut other.forest.core, Ghost(other.forest.height@));
        proof {
            self.forest.height@ = joined@;
        }
        let ghost s1 = self.forest.core;
        let root = self.forest.core.root;
        proof {
            if let Some(r) = s0.root {
                assert(s0.detached(r));
                assert(s1.detached(r));
                if let Some(t) = o0.root {
                    assert(o0.detached(t));
                    assert(s0.is_live(r));
                    assert(!o0.is_live(r));
                }
            }
            if let Some(t) = o0.root {
                assert(o0.detached(t));
                assert(s1.detached(t));
            }
            assert forall|q: NodeRef| #[trigger] s1.detached(q) implies s0.root == Some(q) || o0.root == Some(q) by {
                if s0.detached(q) {
                } else {
                    assert(o0.detached(q));
                }
            }
            assert(other.forest.core.single_tree(other.forest.height@));
        }
        proof {
            assert forall|q: NodeRef| #[trigger] s1.is_live(q) && None::<NodeRef> != Some(q) implies s1.nd(q).rank == s1.nd(
                q,
            ).children@.len() by {
                if s0.is_live(q) {
                    assert(s1.slot_at(q) == s0.slot_at(q));
                } else {
                    assert(o0.is_live(q));
                    assert(s1.slot_at(q) == o0.slot_at(q));
                }
            }
        }
        let merged = match (root, other_root) {
            (None, other) => other,
            (mine, None) => mine,
            (Some(r), Some(t)) => Some(self.forest.link(r, t, Ghost(None))),
        };
        let ghost s2 = self.forest.core;
        self.forest.core.root = merged;
        proof {
            assert forall|q: NodeRef| #[trigger] s2.detached(q) implies self.forest.core.root == Some(q) by {
                if merged != Some(q) {
                    assert(s1.detached(q));
                }
            }
            self.forest.core.lemma_settled_tree(&s2, &s1, self.forest.height@);
            assert forall|q: NodeRef| #[trigger] self.forest.core.is_live(q) && None::<NodeRef> != Some(q) implies self.forest.core.nd(q).rank
                == self.forest.core.nd(q).children@.len() by {
                assert(self.forest.core.slot_at(q) == s2.slot_at(q));
                assert(s2.is_live(q));
            }
            assert forall|q: NodeRef| #[trigger] other.forest.core.is_live(q) && None::<NodeRef> != Some(q) implies other.forest.core.nd(q).rank
                == other.forest.core.nd(q).children@.len() by {}
        }
        Ok(())
    }
}

impl<K: HeapKey> SimpleFibonacciHeap<K, ()> {
    /// Inserts a key into this value-less heap, which must accept entries.
    pub fn push(&mut self, key: K)
        requires
            old(self).is_well_formed(),
            !old(self).consumed(),
            old(self).live_entries().len() < usize::MAX,
        ensures
            final(self).is_well_formed(),
            !final(self).consumed(),
            forall|h: TreeHandle| final(self).issued(h) == old(self).issued(h),
            exists|h: TreeHandle| {
                &&& final(self).issued(h)
                &&& !old(self).live_entries().contains_key(h)
                &&& final(self).live_entries() == old(self).live_entries().insert(h, (key, ()))
            },
    {
        let handle = self.insert(key, ());
        proof {
            assert(final(self).issued(handle));
        }
    }

    /// Returns the minimum key, if present.
    pub fn peek(&self) -> (result: Option<&K>)
        requires
            self.is_well_formed(),
        ensures
            result is None <==> self.live_entries().len() == 0,
            result matches Some(k) ==> exists|h: TreeHandle| {
                &&& least_entry(self.live_entries(), h, |key: K| key.key_rank())
                &&& self.live_entries()[h].0 == *k
            },
    {
        match self.peek_entry() {
            Some((handle, key, _)) => {
                proof {
                    assert(least_entry(self.live_entries(), handle, |key: K| key.key_rank()));
                }
                Some(key)
            },
            None => None,
        }
    }

    /// Removes and returns the minimum key, if present.
    pub fn pop(&mut self) -> (result: Option<K>)
        requires
            old(self).is_well_formed(),
        ensures
            final(self).is_well_formed(),
            final(self).consumed() == old(self).consumed(),
            forall|h: TreeHandle| final(self).issued(h) == old(self).issued(h),
            result is None <==> old(self).live_entries().len() == 0,
            result is None ==> final(self).live_entries() == old(self).live_entries(),
            result matches Some(k) ==> exists|h: TreeHandle| {
                &&& least_entry(old(self).live_entries(), h, |key: K| key.key_rank())
                &&& old(self).live_entries()[h].0 == k
                &&& final(self).live_entries() == old(self).live_entries().remove(h)
            },
    {
        match self.pop_entry() {
            Some((key, _)) => Some(key),
            None => None,
        }
    }
}

impl<K: HeapKey, V> Default for SimpleFibonacciHeap<K, V> {
    fn default() -> (heap: Self)
        ensures
            heap.is_well_formed(),
            !heap.consumed(),
            heap.live_entries() == Map::<TreeHandle, (K, V)>::empty(),
    {
        Self::new()
    }
}

impl<K: HeapKey, V> AddressableHeap<K, V> for SimpleFibonacciHeap<K, V> {
    type Handle = TreeHandle;

    open spec fn well_formed(&self) -> bool {
        self.is_well_formed()
    }

    open spec fn live(&self) -> Map<TreeHandle, (K, V)> {
        self.live_entries()
    }

    open spec fn owns(&self, handle: TreeHandle) -> bool {
        self.issued(handle)
    }

    open spec fn is_consumed(&self) -> bool {
        self.consumed()
    }

    open spec fn priority(&self, key: K) -> int {
        key.key_rank()
    }

    fn insert(&mut self, key: K, value: V) -> (handle: TreeHandle) {
        proof {
            self.forest.core.lemma_live_len();
        }
        SimpleFibonacciHeap::insert(self, key, value)
    }

    fn peek(&self) -> (result: Option<(TreeHandle, &K, &V)>) {
        self.peek_entry()
    }

    fn pop(&mut self) -> (result: Option<(K, V)>) {
        let result = self.pop_entry();
        proof {
            if result is Some {
                let e = result->0;
                let h = choose|h: TreeHandle| {
                    &&& least_entry(old(self).live_entries(), h, |key: K| key.key_rank())
                    &&& old(self).live_entries()[h] == e
                    &&& self.live_entries() == old(self).live_entries().remove(h)
                };
                assert(least_entry(old(self).live(), h, |key: K| old(self).priority(key)));
            }
        }
        result
    }

    fn key(&self, handle: TreeHandle) -> (result: Result<&K, InvalidHandle>) {
        SimpleFibonacciHeap::key(self, handle)
    }

    fn value(&self, handle: TreeHandle) -> (result: Result<&V, InvalidHandle>) {
        SimpleFibonacciHeap::value(self, handle)
    }

    fn value_mut(&mut self, handle: TreeHandle) -> (result: Result<&mut V, InvalidHandle>) {
        SimpleFibonacciHeap::value_mut(self, handle)
    }

    fn delete(&mut self, handle: TreeHandle) -> (result: Result<(K, V), InvalidHandle>) {
        proof {
            self.forest.core.lemma_live_len();
        }
        SimpleFibonacciHeap::delete(self, handle)
    }

    fn len(&self) -> (result: usize) {
        SimpleFibonacciHeap::len(self)
    }

    fn clear(&mut self) {
        SimpleFibonacciHeap::clear(self)
    }
}

impl<K: HeapKey, V> DecreaseKeyHeap<K, V> for SimpleFibonacciHeap<K, V> {
    fn decrease_key(&mut self, handle: TreeHandle, key: K) -> (result: Result<(), DecreaseKeyError>) {
        SimpleFibonacciHeap::decrease_key(self, handle, key)
    }
}

impl<K: HeapKey, V> MeldableAddressableHeap<K, V> for SimpleFibonacciHeap<K, V> {
    type MeldError = MeldError;

    fn meld(&mut self, other: &mut Self) -> (result: Result<(), MeldError>) {
        let result = SimpleFibonacciHeap::meld(self, other);
        proof {
            if result == Err::<(), MeldError>(MeldError::DomainClash) {
                let h = choose|h: TreeHandle| old(self).issued(h) && old(other).issued(h);
                assert(old(self).owns(h) && old(other).owns(h));
            }
        }
        result
    }
}

impl<K: HeapKey> Heap<K> for SimpleFibonacciHeap<K, ()> {
    open spec fn well_formed(&self) -> bool {
        &&& self.is_well_formed()
        &&& self.live_entries().dom().finite()
        &&& self.consumed() ==> self.live_entries().dom().len() == 0
    }

    open spec fn items(&self) -> Multiset<K> {
        keys_of(self.live_entries())
    }

    open spec fn priority(&self, value: K) -> int {
        value.key_rank()
    }

    open spec fn accepts_push(&self) -> bool {
        !self.consumed()
    }

    fn push(&mut self, value: K) {
        proof {
            lemma_keys_len(self.live_entries());
        }
        SimpleFibonacciHeap::push(self, value);
        proof {
            let h = choose|h: TreeHandle| {
                &&& self.issued(h)
                &&& !old(self).live_entries().contains_key(h)
                &&& self.live_entries() == old(self).live_entries().insert(h, (value, ()))
            };
            lemma_keys_insert(old(self).live_entries(), h, (value, ()));
        }
    }

    fn peek(&self) -> (result: Option<&K>) {
        proof {
            lemma_keys_len(self.live_entries());
        }
        let result = SimpleFibonacciHeap::peek(self);
        proof {
            if let Some(k) = result {
                let h = choose|h: TreeHandle| {
                    &&& least_entry(self.live_entries(), h, |key: K| key.key_rank())
                    &&& self.live_entries()[h].0 == *k
                };
                lemma_keys_remove(self.live_entries(), h);
                assert forall|other: K| self.items().contains(other) implies k.key_rank() <= other.key_rank() by {
                    lemma_keys_contains(self.live_entries(), other);
                    let g = choose|g: TreeHandle| self.live_entries().dom().contains(g) && self.live_entries()[g].0 == other;
                    assert(self.live_entries().contains_key(g));
                }
            }
        }
        result
    }

    fn pop(&mut self) -> (result: Option<K>) {
        proof {
            lemma_keys_len(self.live_entries());
        }
        let result = SimpleFibonacciHeap::pop(self);
        proof {
            if result is Some {
                let k = result->0;
                let h = choose|h: TreeHandle| {
                    &&& least_entry(old(self).live_entries(), h, |key: K| key.key_rank())
                    &&& old(self).live_entries()[h].0 == k
                    &&& self.live_entries() == old(self).live_entries().remove(h)
                };
                lemma_keys_remove(old(self).live_entries(), h);
                assert forall|other: K| old(self).items().contains(other) implies k.key_rank() <= other.key_rank() by {
                    lemma_keys_contains(old(self).live_entries(), other);
                    let g = choose|g: TreeHandle| old(self).live_entries().dom().contains(g) && old(self).live_entries()[g].0
                        == other;
                    assert(old(self).live_entries().contains_key(g));
                }
            }
        }
        result
    }

    fn len(&self) -> (result: usize) {
        proof {
            lemma_keys_len(self.live_entries());
        }
        SimpleFibonacciHeap::len(self)
    }

    fn clear(&mut self) {
        SimpleFibonacciHeap::clear(self);
        proof {
            assert(self.live_entries().dom() =~= Set::<TreeHandle>::empty()) by {
                if old(self).consumed() {
                    assert(old(self).live_entries().dom() =~= Set::<TreeHandle>::empty());
                }
            }
            lemma_keys_empty(self.live_entries());
        }
    }
}

impl<K: HeapKey> MeldableHeap<K> for SimpleFibonacciHeap<K, ()> {
    type MeldError = MeldError;

    open spec fn is_consumed(&self) -> bool {
        self.consumed()
    }

    open spec fn meld_compatible(&self, other: &Self) -> bool {
        forall|h: TreeHandle| !(self.issued(h) && other.issued(h))
    }

    fn meld(&mut self, other: &mut Self) -> (result: Result<(), MeldError>) {
        proof {
            lemma_keys_len(self.live_entries());
            lemma_keys_len(other.live_entries());
        }
        let result = SimpleFibonacciHeap::meld(self, other);
        proof {
            if result is Ok {
                lemma_keys_union(old(self).live_entries(), old(other).live_entries());
                assert(self.live_entries().dom() =~= old(self).live_entries().dom().union(old(other).live_entries().dom()));
                lemma_keys_empty(other.live_entries());
            }
        }
        result
    }
}

} // verus!
