//! An addressable pure pairing heap.
use vstd::multiset::Multiset;
use vstd::prelude::*;

use crate::error::{DecreaseKeyError, InvalidHandle};
use crate::key_multiset::{keys_of, lemma_keys_contains, lemma_keys_empty, lemma_keys_insert, lemma_keys_len, lemma_keys_remove, lemma_keys_union};
use crate::order::HeapKey;
use crate::tree::forest::{NodeRef, TreeCore};
use crate::tree::handles::{MeldError, TreeHandle};
use crate::{checked, least_entry, AddressableHeap, DecreaseKeyHeap, Heap, MeldableAddressableHeap, MeldableHeap};

verus! {

broadcast use {vstd::set::group_set_axioms, vstd::map::group_map_axioms};

/// An addressable pure pairing heap.
///
/// This variant uses the Tarjan--Xu single pairing pass: after pairing the
/// children of a deleted root, the least winner becomes the new root and all
/// remaining winners become its children.
pub struct PurePairingHeap<K, V = ()> {
    core: TreeCore<K, V>,
    height: Ghost<spec_fn(NodeRef) -> nat>,
}

impl<K: HeapKey, V> PurePairingHeap<K, V> {
    /// The heap's internal invariant: a single heap-ordered tree under the
    /// recorded root, and nothing left in a heap consumed by a meld.
    pub closed spec fn is_well_formed(&self) -> bool {
        self.core.single_tree(self.height@)
    }

    /// The live handles and the entries they identify.
    pub closed spec fn live_entries(&self) -> Map<TreeHandle, (K, V)> {
        self.core.live()
    }

    /// Whether `handle` was issued by this heap or a heap melded into it,
    /// while this heap still accepts handles.
    pub closed spec fn issued(&self, handle: TreeHandle) -> bool {
        self.core.owns(handle)
    }

    /// Every live handle was issued by this heap.
    pub proof fn lemma_live_issued(&self)
        requires
            self.is_well_formed(),
        ensures
            forall|h: TreeHandle| #[trigger] self.live_entries().contains_key(h) ==> self.issued(h),
    {
        self.core.lemma_live_len();
        assert forall|h: TreeHandle| #[trigger] self.live_entries().contains_key(h) implies self.issued(h) by {
            let r = TreeCore::<K, V>::ref_of(h);
            assert(self.core.is_live(r));
            assert(self.core.arenas@[self.core.arena_index(h.domain)].domain == h.domain);
        }
    }

    /// Whether this heap was consumed as a meld donor.
    pub closed spec fn consumed(&self) -> bool {
        !self.core.active
    }

    /// The first of `winners`, all live, whose key ranks least.
    fn least_of(&self, winners: &Vec<NodeRef>) -> (best: NodeRef)
        requires
            self.core.distinct_domains(),
            winners@.len() > 0,
            forall|w: int| 0 <= w < winners@.len() ==> self.core.is_live(#[trigger] winners@[w]),
        ensures
            winners@.contains(best),
            forall|w: int| 0 <= w < winners@.len() ==> self.core.nd(best).key.key_rank() <= self.core.nd(#[trigger] winners@[w]).key.key_rank(),
    {
        let mut best = winners[0];
        let mut j: usize = 1;
        while j < winners.len()
            invariant
                1 <= j <= winners@.len(),
                self.core.distinct_domains(),
                forall|w: int| 0 <= w < winners@.len() ==> self.core.is_live(#[trigger] winners@[w]),
                winners@.contains(best),
                forall|w: int| 0 <= w < j ==> self.core.nd(best).key.key_rank() <= self.core.nd(#[trigger] winners@[w]).key.key_rank(),
            decreases winners@.len() - j,
        {
            proof {
                let k = choose|k: int| 0 <= k < winners@.len() && winners@[k] == best;
                assert(self.core.is_live(winners@[k]));
                assert(self.core.is_live(winners@[j as int]));
            }
            if self.core.precedes(winners[j], best) {
                best = winners[j];
            }
            j = j + 1;
        }
        best
    }

    /// Links every one of `winners`, all detached, other than `best` under
    /// `best`.
    fn gather(&mut self, winners: &Vec<NodeRef>, best: NodeRef)
        requires
            old(self).core.shaped_by(old(self).height@),
            winners@.no_duplicates(),
            winners@.contains(best),
            forall|w: int| 0 <= w < winners@.len() ==> old(self).core.detached(#[trigger] winners@[w]),
            forall|w: int|
                0 <= w < winners@.len() ==> old(self).core.nd(best).key.key_rank() <= old(self).core.nd(
                    #[trigger] winners@[w],
                ).key.key_rank(),
        ensures
            final(self).core.shaped_by(final(self).height@),
            final(self).core.same_nodes(&old(self).core),
            final(self).core.detached(best),
            forall|q: NodeRef| #[trigger]
                final(self).core.detached(q) ==> (old(self).core.detached(q) && !winners@.contains(q)) || q == best,
            forall|q: NodeRef|
                old(self).core.detached(q) && !winners@.contains(q) ==> #[trigger] final(self).core.slot_at(q)
                    == old(self).core.slot_at(q) && final(self).core.detached(q),
    {
        let ghost s0 = self.core;
        proof {
            let k = choose|k: int| 0 <= k < winners@.len() && winners@[k] == best;
            assert(s0.detached(winners@[k]));
        }
        let mut j: usize = 0;
        while j < winners.len()
            invariant
                winners@.no_duplicates(),
                j <= winners@.len(),
                winners@.contains(best),
                forall|w: int|
                    0 <= w < winners@.len() ==> s0.nd(best).key.key_rank() <= s0.nd(#[trigger] winners@[w]).key.key_rank(),
                self.core.shaped_by(self.height@),
                self.core.same_nodes(&s0),
                self.core.detached(best),
                forall|w: int| j <= w < winners@.len() ==> self.core.detached(#[trigger] winners@[w]),
                forall|q: NodeRef| #[trigger]
                    self.core.detached(q) ==> (s0.detached(q) && !winners@.contains(q)) || q == best || exists|w: int|
                        j <= w < winners@.len() && winners@[w] == q,
                forall|q: NodeRef|
                    s0.detached(q) && !winners@.contains(q) ==> #[trigger] self.core.slot_at(q) == s0.slot_at(q)
                        && self.core.detached(q),
            decreases winners@.len() - j,
        {
            let winner = winners[j];
            let ghost c0 = self.core;
            if winner != best {
                let lifted = self.core.attach(Ghost(self.height@), best, winner);
                proof {
                    self.height@ = lifted@;
                    self.core.lemma_same_nodes_trans(&c0, &s0);
                    assert forall|w: int| j + 1 <= w < winners@.len() implies self.core.detached(#[trigger] winners@[w]) by {
                        assert(c0.detached(winners@[w]));
                        assert(winners@[w] != winners@[j as int]);
                    }
                    assert forall|q: NodeRef| #[trigger] self.core.detached(q) implies (s0.detached(q) && !winners@.contains(q))
                        || q == best || exists|w: int| j + 1 <= w < winners@.len() && winners@[w] == q by {
                        assert(c0.detached(q));
                        assert(q != winner);
                    }
                    assert forall|q: NodeRef| s0.detached(q) && !winners@.contains(q) implies #[trigger] self.core.slot_at(q)
                        == s0.slot_at(q) && self.core.detached(q) by {
                        assert(c0.slot_at(q) == s0.slot_at(q));
                        assert(q != winner) by {
                            assert(winners@[j as int] == winner);
                        }
                    }
                }
            } else {
                proof {
                    assert forall|q: NodeRef| #[trigger] self.core.detached(q) implies (s0.detached(q) && !winners@.contains(q))
                        || q == best || exists|w: int| j + 1 <= w < winners@.len() && winners@[w] == q by {
                        if q != best && exists|w: int| j <= w < winners@.len() && winners@[w] == q {
                            let w = choose|w: int| j <= w < winners@.len() && winners@[w] == q;
                            assert(w != j);
                        }
                    }
                }
            }
            j = j + 1;
        }
    }

    /// Pairs neighbouring trees of `children`, all detached, and links every
    /// winner under the least one, which it returns.
    fn combine(&mut self, children: &Vec<NodeRef>) -> (result: Option<NodeRef>)
        requires
            old(self).core.shaped_by(old(self).height@),
            children@.no_duplicates(),
            forall|k: int| 0 <= k < children@.len() ==> old(self).core.detached(#[trigger] children@[k]),
        ensures
            final(self).core.shaped_by(final(self).height@),
            final(self).core.same_nodes(&old(self).core),
            result is None <==> children@.len() == 0,
            result matches Some(m) ==> {
                &&& children@.contains(m)
                &&& final(self).core.detached(m)
                &&& forall|k: int|
                    0 <= k < children@.len() ==> old(self).core.nd(m).key.key_rank() <= old(self).core.nd(
                        #[trigger] children@[k],
                    ).key.key_rank()
            },
            forall|q: NodeRef| #[trigger]
                final(self).core.detached(q) ==> (old(self).core.detached(q) && !children@.contains(q)) || result == Some(q),
            forall|q: NodeRef|
                old(self).core.detached(q) && !children@.contains(q) ==> #[trigger] final(self).core.slot_at(q)
                    == old(self).core.slot_at(q) && final(self).core.detached(q),
    {
        let ghost s0 = self.core;
        let (winners, lifted) = self.core.pair_up(Ghost(self.height@), children);
        proof {
            self.height@ = lifted@;
        }
        if winners.len() == 0 {
            return None;
        }
        let ghost s1 = self.core;
        proof {
            reveal(TreeCore::shaped_by);
        }
        let best = self.least_of(&winners);
        proof {
            assert forall|w: int| 0 <= w < winners@.len() implies s1.nd(best).key.key_rank() <= s1.nd(#[trigger] winners@[w]).key.key_rank() by {}
        }
        self.gather(&winners, best);
        proof {
            self.core.lemma_same_nodes_trans(&s1, &s0);
            assert(children@.contains(best)) by {
                let k = choose|k: int| 0 <= k < winners@.len() && winners@[k] == best;
                assert(children@.contains(winners@[k]));
            }
            assert forall|k: int| 0 <= k < children@.len() implies s0.nd(best).key.key_rank() <= s0.nd(
                #[trigger] children@[k],
            ).key.key_rank() by {
                let x = choose|x: int| 0 <= x < winners@.len() && s0.nd(#[trigger] winners@[x]).key.key_rank() <= s0.nd(children@[k]).key.key_rank();
                assert(s1.nd(best).key.key_rank() <= s1.nd(winners@[x]).key.key_rank());
            }
            assert forall|q: NodeRef| #[trigger] self.core.detached(q) implies (s0.detached(q) && !children@.contains(q)) || q
                == best by {
                if q != best {
                    assert(s1.detached(q));
                    if winners@.contains(q) {
                    }
                }
            }
            assert forall|q: NodeRef| s0.detached(q) && !children@.contains(q) implies #[trigger] self.core.slot_at(q)
                == s0.slot_at(q) && self.core.detached(q) by {
                assert(s1.slot_at(q) == s0.slot_at(q));
                assert(!winners@.contains(q)) by {
                    if winners@.contains(q) {
                        let k = choose|k: int| 0 <= k < winners@.len() && winners@[k] == q;
                        assert(children@.contains(winners@[k]));
                    }
                }
            }
        }
        Some(best)
    }
}

impl<K: HeapKey, V> PurePairingHeap<K, V> {
    /// Creates an empty heap.
    pub fn new() -> (heap: Self)
        ensures
            heap.is_well_formed(),
            !heap.consumed(),
            heap.live_entries() == Map::<TreeHandle, (K, V)>::empty(),
    {
        let heap = PurePairingHeap { core: TreeCore::new(), height: Ghost(|q: NodeRef| 0nat) };
        proof {
            assert forall|q: NodeRef| !heap.core.is_live(q) by {
                assert(!heap.core.live_nodes@.contains(q));
            }
        }
        heap
    }

    /// Inserts an entry unless this heap was consumed as a meld donor.
    pub fn try_insert(&mut self, key: K, value: V) -> (result: Result<TreeHandle, MeldError>)
        requires
            old(self).is_well_formed(),
            old(self).live_entries().len() < usize::MAX,
        ensures
            final(self).is_well_formed(),
            final(self).consumed() == old(self).consumed(),
            forall|h: TreeHandle| final(self).issued(h) == old(self).issued(h),
            result is Err <==> old(self).consumed(),
            result matches Err(e) ==> e == MeldError::ReceiverConsumed && final(self).live_entries() == old(self).live_entries(),
            result matches Ok(handle) ==> {
                &&& final(self).issued(handle)
                &&& !old(self).live_entries().contains_key(handle)
                &&& final(self).live_entries() == old(self).live_entries().insert(handle, (key, value))
            },
    {
        if !self.core.active {
            return Err(MeldError::ReceiverConsumed);
        }
        Ok(self.insert(key, value))
    }

    /// Inserts an entry and returns its checked handle; the heap must
    /// accept entries.
    pub fn insert(&mut self, key: K, value: V) -> (handle: TreeHandle)
        requires
            old(self).is_well_formed(),
            !old(self).consumed(),
            old(self).live_entries().len() < usize::MAX,
        ensures
            final(self).is_well_formed(),
            !final(self).consumed(),
            forall|h: TreeHandle| final(self).issued(h) == old(self).issued(h),
            final(self).issued(handle),
            !old(self).live_entries().contains_key(handle),
            final(self).live_entries() == old(self).live_entries().insert(handle, (key, value)),
    {
        proof {
            self.core.lemma_live_len();
            self.core.lemma_tree_shaped(self.height@);
        }
        let node = self.core.insert_detached(Ghost(self.height@), key, value);
        let ghost s1 = self.core;
        let root = self.core.root;
        let (merged, lifted) = self.core.link(Ghost(self.height@), root, Some(node));
        proof {
            self.height@ = lifted@;
        }
        let ghost s2 = self.core;
        self.core.root = merged;
        proof {
            assert forall|q: NodeRef| #[trigger] s2.detached(q) implies self.core.root == Some(q) by {
                if merged != Some(q) {
                    assert(s1.detached(q));
                }
            }
            self.core.lemma_settled_tree(&s2, &s1, self.height@);
            assert(self.core.is_live(node));
        }
        self.core.handle(node)
    }

    /// Returns the handle, key, and value of a minimum entry.
    pub fn peek_entry(&self) -> (result: Option<(TreeHandle, &K, &V)>)
        requires
            self.is_well_formed(),
        ensures
            result is None <==> self.live_entries().len() == 0,
            result matches Some((h, k, v)) ==> {
                &&& least_entry(self.live_entries(), h, |key: K| key.key_rank())
                &&& self.live_entries()[h] == (*k, *v)
            },
    {
        proof {
            self.core.lemma_single_tree_least(self.height@);
        }
        if !self.core.active {
            return None;
        }
        match self.core.root {
            None => None,
            Some(root) => {
                let node = self.core.node(root);
                Some((self.core.handle(root), &node.key, &node.value))
            },
        }
    }

    /// Removes the entry at the root.
    fn pop_root(&mut self) -> (entry: (K, V))
        requires
            old(self).is_well_formed(),
            old(self).core.root is Some,
        ensures
            final(self).is_well_formed(),
            final(self).consumed() == old(self).consumed(),
            forall|h: TreeHandle| final(self).issued(h) == old(self).issued(h),
            least_entry(old(self).live_entries(), old(self).core.handle_of(old(self).core.root->0), |key: K| key.key_rank()),
            entry == old(self).live_entries()[old(self).core.handle_of(old(self).core.root->0)],
            final(self).live_entries() == old(self).live_entries().remove(old(self).core.handle_of(old(self).core.root->0)),
    {
        proof {
            self.core.lemma_single_tree_least(self.height@);
            self.core.lemma_tree_shaped(self.height@);
        }
        let ghost s0 = self.core;
        let root = self.core.root.unwrap();
        let children = self.core.detach_all(Ghost(self.height@), root);
        let ghost s1 = self.core;
        let merged = self.combine(&children);
        let ghost s2 = self.core;
        proof {
            s2.lemma_same_nodes_trans(&s1, &s0);
            assert(s1.detached(root));
            assert(s2.slot_at(root) == s1.slot_at(root));
            reveal(TreeCore::shaped_by);
        }
        self.core.root = merged;
        proof {
            self.core.lemma_rerooted(&s2, &s0);
            assert forall|q: NodeRef| #[trigger] self.core.slot_at(q) == s2.slot_at(q) by {}
            self.core.lemma_ordered_same_slots(&s2, self.height@);
            reveal(TreeCore::shaped_by);
            assert forall|q: NodeRef| #[trigger] self.core.detached(q) implies s2.detached(q) by {}
        }
        let ghost s3 = self.core;
        let entry = self.core.remove_detached(Ghost(self.height@), root);
        proof {
            assert forall|q: NodeRef| #[trigger] self.core.detached(q) implies self.core.root == Some(q) by {
                assert(s3.detached(q));
                assert(s2.detached(q));
                if merged != Some(q) {
                    assert(s1.detached(q));
                    if !children@.contains(q) {
                        assert(s0.detached(q));
                    }
                }
            }
            reveal(TreeCore::shaped_by);
        }
        entry
    }

    /// Removes and returns a minimum entry.
    pub fn pop_entry(&mut self) -> (result: Option<(K, V)>)
        requires
            old(self).is_well_formed(),
        ensures
            final(self).is_well_formed(),
            final(self).consumed() == old(self).consumed(),
            forall|h: TreeHandle| final(self).issued(h) == old(self).issued(h),
            result is None <==> old(self).live_entries().len() == 0,
            result is None ==> final(self).live_entries() == old(self).live_entries(),
            result matches Some(e) ==> exists|h: TreeHandle| {
                &&& least_entry(old(self).live_entries(), h, |key: K| key.key_rank())
                &&& old(self).live_entries()[h] == e
                &&& final(self).live_entries() == old(self).live_entries().remove(h)
            },
    {
        proof {
            self.core.lemma_single_tree_least(self.height@);
        }
        if !self.core.active || self.core.root.is_none() {
            return None;
        }
        let entry = self.pop_root();
        proof {
            let h = old(self).core.handle_of(old(self).core.root->0);
            assert(least_entry(old(self).live_entries(), h, |key: K| key.key_rank()));
        }
        Some(entry)
    }

    /// Returns the key identified by `handle`.
    pub fn key(&self, handle: TreeHandle) -> (result: Result<&K, InvalidHandle>)
        requires
            self.is_well_formed(),
        ensures
            checked(self.issued(handle), self.live_entries().contains_key(handle), result),
            result matches Ok(k) ==> *k == self.live_entries()[handle].0,
    {
        self.core.key(handle)
    }

    /// Returns the value identified by `handle`.
    pub fn value(&self, handle: TreeHandle) -> (result: Result<&V, InvalidHandle>)
        requires
            self.is_well_formed(),
        ensures
            checked(self.issued(handle), self.live_entries().contains_key(handle), result),
            result matches Ok(v) ==> *v == self.live_entries()[handle].1,
    {
        self.core.value(handle)
    }

    /// Replaces the value identified by `handle`.
    pub fn set_value(&mut self, handle: TreeHandle, value: V) -> (result: Result<(), InvalidHandle>)
        requires
            old(self).is_well_formed(),
        ensures
            final(self).is_well_formed(),
            final(self).consumed() == old(self).consumed(),
            forall|h: TreeHandle| final(self).issued(h) == old(self).issued(h),
            checked(old(self).issued(handle), old(self).live_entries().contains_key(handle), result),
            result is Ok ==> final(self).live_entries() == old(self).live_entries().insert(
                handle,
                (old(self).live_entries()[handle].0, value),
            ),
            result is Err ==> *final(self) == *old(self),
    {
        proof {
            self.core.lemma_values_changed_tree(self.height@);
        }
        self.core.set_value(handle, value)
    }

    /// Returns mutable access to the value identified by `handle`.
    pub fn value_mut(&mut self, handle: TreeHandle) -> (result: Result<&mut V, InvalidHandle>)
        requires
            old(self).is_well_formed(),
        ensures
            checked(old(self).issued(handle), old(self).live_entries().contains_key(handle), result),
            result matches Ok(v) ==> {
                &&& *v == old(self).live_entries()[handle].1
                &&& final(self).live_entries() == old(self).live_entries().insert(
                    handle,
                    (old(self).live_entries()[handle].0, *final(v)),
                )
                &&& final(self).is_well_formed()
                &&& final(self).consumed() == old(self).consumed()
                &&& forall|h: TreeHandle| final(self).issued(h) == old(self).issued(h)
            },
            result is Err ==> *final(self) == *old(self),
    {
        proof {
            self.core.lemma_values_changed_tree(self.height@);
        }
        self.core.value_mut(handle)
    }

    /// Returns the number of live entries.
    pub fn len(&self) -> (result: usize)
        requires
            self.is_well_formed(),
        ensures
            result == self.live_entries().len(),
    {
        proof {
            self.core.lemma_live_len();
        }
        self.core.len
    }

    /// Returns whether the heap has no entries.
    pub fn is_empty(&self) -> (result: bool)
        requires
            self.is_well_formed(),
        ensures
            result == (self.live_entries().len() == 0),
    {
        proof {
            self.core.lemma_live_len();
        }
        self.core.len == 0
    }

    /// Removes every entry and invalidates outstanding handles; a heap
    /// consumed by a meld is left as it is.
    pub fn clear(&mut self)
        requires
            old(self).is_well_formed(),
        ensures
            final(self).is_well_formed(),
            final(self).consumed() == old(self).consumed(),
            forall|h: TreeHandle| final(self).issued(h) == old(self).issued(h),
            old(self).consumed() ==> final(self).live_entries() == old(self).live_entries(),
            !old(self).consumed() ==> final(self).live_entries() == Map::<TreeHandle, (K, V)>::empty(),
    {
        if self.core.active {
            self.core.clear();
        }
    }
}

impl<K: HeapKey, V> PurePairingHeap<K, V> {
    /// Decreases an entry's key and restores heap order.
    pub fn decrease_key(&mut self, handle: TreeHandle, key: K) -> (result: Result<(), DecreaseKeyError>)
        requires
            old(self).is_well_formed(),
        ensures
            final(self).is_well_formed(),
            final(self).consumed() == old(self).consumed(),
            forall|h: TreeHandle| final(self).issued(h) == old(self).issued(h),
            match result {
                Ok(()) => {
                    &&& old(self).issued(handle)
                    &&& old(self).live_entries().contains_key(handle)
                    &&& key.key_rank() <= old(self).live_entries()[handle].0.key_rank()
                    &&& final(self).live_entries() == old(self).live_entries().insert(
                        handle,
                        (key, old(self).live_entries()[handle].1),
                    )
                },
                Err(DecreaseKeyError::InvalidHandle(e)) => {
                    &&& checked(
                        old(self).issued(handle),
                        old(self).live_entries().contains_key(handle),
                        Err::<(), InvalidHandle>(e),
                    )
                    &&& final(self).live_entries() == old(self).live_entries()
                },
                Err(DecreaseKeyError::NotDecreased) => {
                    &&& old(self).issued(handle)
                    &&& old(self).live_entries().contains_key(handle)
                    &&& key.key_rank() > old(self).live_entries()[handle].0.key_rank()
                    &&& final(self).live_entries() == old(self).live_entries()
                },
                Err(DecreaseKeyError::InvalidKey) => false,
            },
    {
        proof {
            self.core.lemma_single_tree_least(self.height@);
            self.core.lemma_tree_shaped(self.height@);
        }
        let ghost s0 = self.core;
        let (node, equal) = match self.core.set_key(handle, key) {
            Ok(found) => found,
            Err(error) => return Err(error),
        };
        let ghost s1 = self.core;
        proof {
            assert forall|q: NodeRef| #[trigger] self.core.is_live(q) && (q != node || equal) implies self.core.edge_ordered(
                self.height@,
                q,
            ) by {
                if q != node {
                    assert(self.core.slot_at(q) == s0.slot_at(q));
                }
                assert(s0.is_live(q));
                assert(s0.node_linked(q));
                if let Some(p) = self.core.nd(q).parent {
                    if p != node {
                        assert(self.core.slot_at(p) == s0.slot_at(p));
                    }
                }
            }
            assert forall|q: NodeRef| #[trigger] self.core.detached(q) == s0.detached(q) by {
                if q != node {
                    assert(self.core.slot_at(q) == s0.slot_at(q));
                }
            }
        }
        if equal || self.core.root == Some(node) {
            proof {
                assert forall|q: NodeRef| #[trigger] self.core.is_live(q) && self.core.nd(q).parent is Some implies {
                    &&& self.core.nd(self.core.nd(q).parent->0).key.key_rank() <= self.core.nd(q).key.key_rank()
                    &&& self.height@(q) < self.height@(self.core.nd(q).parent->0)
                } by {
                    if q == node && !equal {
                        assert(s0.detached(node));
                    }
                    assert(self.core.edge_ordered(self.height@, q));
                }
            }
            return Ok(());
        }
        proof {
            assert(!s0.detached(node));
            assert(s0.detached(s0.root->0));
        }
        self.core.cut_out(Ghost(self.height@), node);
        let ghost s2 = self.core;
        let root = self.core.root;
        let (merged, lifted) = self.core.link(Ghost(self.height@), root, Some(node));
        proof {
            self.height@ = lifted@;
        }
        let ghost s3 = self.core;
        self.core.root = merged;
        proof {
            s3.lemma_same_nodes_trans(&s2, &s1);
            assert forall|q: NodeRef| #[trigger] s3.detached(q) implies self.core.root == Some(q) by {
                if merged != Some(q) {
                    assert(s2.detached(q));
                    assert(s1.detached(q));
                }
            }
            self.core.lemma_settled_tree(&s3, &s1, self.height@);
        }
        Ok(())
    }

    /// Removes and returns the entry identified by `handle`.
    pub fn delete(&mut self, handle: TreeHandle) -> (result: Result<(K, V), InvalidHandle>)
        requires
            old(self).is_well_formed(),
        ensures
            final(self).is_well_formed(),
            final(self).consumed() == old(self).consumed(),
            forall|h: TreeHandle| final(self).issued(h) == old(self).issued(h),
            checked(old(self).issued(handle), old(self).live_entries().contains_key(handle), result),
            result matches Ok(e) ==> {
                &&& e == old(self).live_entries()[handle]
                &&& final(self).live_entries() == old(self).live_entries().remove(handle)
            },
            result is Err ==> *final(self) == *old(self),
    {
        proof {
            self.core.lemma_single_tree_least(self.height@);
            self.core.lemma_tree_shaped(self.height@);
        }
        let node = self.core.validate(handle)?;
        if self.core.root == Some(node) {
            return Ok(self.pop_root());
        }
        let ghost s0 = self.core;
        proof {
            assert(self.core.is_live(node));
            assert(!s0.detached(node));
            assert(s0.detached(s0.root->0));
            assert forall|q: NodeRef| #[trigger] s0.is_live(q) && q != node implies s0.edge_ordered(self.height@, q) by {}
        }
        self.core.cut_out(Ghost(self.height@), node);
        let ghost s1 = self.core;
        let children = self.core.detach_all(Ghost(self.height@), node);
        let ghost s2 = self.core;
        let replacement = self.combine(&children);
        let ghost s3 = self.core;
        let root = self.core.root;
        proof {
            assert(s0.root is Some);
            assert(s1.detached(s0.root->0));
            assert(s2.detached(root->0));
            assert(!children@.contains(root->0));
            assert(s2.detached(node));
            assert(!children@.contains(node));
        }
        let (top, lifted) = self.core.link(Ghost(self.height@), root, replacement);
        proof {
            self.height@ = lifted@;
        }
        let ghost s4 = self.core;
        proof {
            s3.lemma_same_nodes_trans(&s2, &s1);
            s3.lemma_same_nodes_trans(&s1, &s0);
            s4.lemma_same_nodes_trans(&s3, &s0);
            reveal(TreeCore::shaped_by);
        }
        self.core.root = top;
        proof {
            self.core.lemma_rerooted(&s4, &s0);
            assert forall|q: NodeRef| #[trigger] self.core.slot_at(q) == s4.slot_at(q) by {}
            self.core.lemma_ordered_same_slots(&s4, self.height@);
            assert forall|q: NodeRef| #[trigger] self.core.detached(q) == s4.detached(q) by {}
            assert(s4.detached(node)) by {
                assert(s3.detached(node));
            }
            assert(s4.nd(node).children@.len() == 0) by {
                assert(s3.slot_at(node) == s2.slot_at(node));
                assert(s4.slot_at(node) == s3.slot_at(node));
            }
        }
        let ghost s5 = self.core;
        let entry = self.core.remove_detached(Ghost(self.height@), node);
        proof {
            assert forall|q: NodeRef| #[trigger] self.core.detached(q) implies self.core.root == Some(q) by {
                assert(s5.detached(q));
                assert(s4.detached(q));
                if top != Some(q) {
                    assert(s3.detached(q));
                    if replacement != Some(q) {
                        assert(s2.detached(q));
                        if !children@.contains(q) {
                            assert(s1.detached(q));
                            assert(s0.detached(q));
                        }
                    }
                }
            }
            reveal(TreeCore::shaped_by);
        }
        Ok(entry)
    }

    /// Melds `other` into this heap.
    ///
    /// The donor is consumed on success: it keeps no entries and accepts
    /// none, while its handles stay valid through this heap.
    pub fn meld(&mut self, other: &mut Self) -> (result: Result<(), MeldError>)
        requires
            old(self).is_well_formed(),
            old(other).is_well_formed(),
            old(self).live_entries().len() + old(other).live_entries().len() <= usize::MAX,
        ensures
            final(self).is_well_formed(),
            final(other).is_well_formed(),
            match result {
                Ok(()) => {
                    &&& !old(self).consumed()
                    &&& !old(other).consumed()
                    &&& forall|h: TreeHandle| !(old(self).issued(h) && old(other).issued(h))
                    &&& old(self).live_entries().dom().disjoint(old(other).live_entries().dom())
                    &&& final(self).live_entries() == old(self).live_entries().union_prefer_right(old(other).live_entries())
                    &&& forall|h: TreeHandle| final(self).issued(h) == (old(self).issued(h) || old(other).issued(h))
                    &&& final(other).live_entries() == Map::<TreeHandle, (K, V)>::empty()
                    &&& final(other).consumed()
                    &&& forall|h: TreeHandle| !final(other).issued(h)
                    &&& !final(self).consumed()
                },
                Err(MeldError::ReceiverConsumed) => old(self).consumed(),
                Err(MeldError::DonorConsumed) => !old(self).consumed() && old(other).consumed(),
                Err(MeldError::DomainClash) => {
                    &&& !old(self).consumed()
                    &&& !old(other).consumed()
                    &&& exists|h: TreeHandle| old(self).issued(h) && old(other).issued(h)
                },
            },
            result is Err ==> *final(self) == *old(self) && *final(other) == *old(other),
    {
        if !self.core.active {
            return Err(MeldError::ReceiverConsumed);
        }
        if !other.core.active {
            return Err(MeldError::DonorConsumed);
        }
        if self.core.shares_domain(&other.core) {
            proof {
                let d = choose|d: u64| self.core.has_domain(d) && other.core.has_domain(d);
                let h = TreeHandle { domain: d, slot: 0, generation: 0 };
                assert(self.issued(h) && other.issued(h));
            }
            return Err(MeldError::DomainClash);
        }
        proof {
            self.core.lemma_live_len();
            other.core.lemma_live_len();
        }
        let other_root = other.core.root;
        let ghost s0 = self.core;
        let ghost o0 = other.core;
        proof {
            self.core.lemma_tree_shaped(self.height@);
            other.core.lemma_tree_shaped(other.height@);
        }
        let joined = self.core.absorb(Ghost(self.height@), &mut other.core, Ghost(other.height@));
        proof {
            self.height@ = joined@;
        }
        let ghost s1 = self.core;
        let root = self.core.root;
        proof {
            if let Some(r) = s0.root {
                assert(s0.detached(r));
                assert(s1.detached(r));
                if let Some(t) = o0.root {
                    assert(o0.detached(t));
                    assert(s0.is_live(r));
                    assert(!o0.is_live(r));
                }
            }
            if let Some(t) = o0.root {
                assert(o0.detached(t));
                assert(s1.detached(t));
            }
            assert forall|q: NodeRef| #[trigger] s1.detached(q) implies s0.root == Some(q) || o0.root == Some(q) by {
                if s0.detached(q) {
                } else {
                    assert(o0.detached(q));
                }
            }
            assert(other.core.single_tree(other.height@));
        }
        let (merged, lifted) = self.core.link(Ghost(self.height@), root, other_root);
        proof {
            self.height@ = lifted@;
        }
        let ghost s2 = self.core;
        self.core.root = merged;
        proof {
            assert forall|q: NodeRef| #[trigger] s2.detached(q) implies self.core.root == Some(q) by {
                if merged != Some(q) {
                    assert(s1.detached(q));
                }
            }
            self.core.lemma_settled_tree(&s2, &s1, self.height@);
        }
        Ok(())
    }
}

impl<K: HeapKey> PurePairingHeap<K, ()> {
    /// Inserts a key into this value-less heap, which must accept entries.
    pub fn push(&mut self, key: K)
        requires
            old(self).is_well_formed(),
            !old(self).consumed(),
            old(self).live_entries().len() < usize::MAX,
        ensures
            final(self).is_well_formed(),
            !final(self).consumed(),
            forall|h: TreeHandle| final(self).issued(h) == old(self).issued(h),
            exists|h: TreeHandle| {
                &&& final(self).issued(h)
                &&& !old(self).live_entries().contains_key(h)
                &&& final(self).live_entries() == old(self).live_entries().insert(h, (key, ()))
            },
    {
        let handle = self.insert(key, ());
        proof {
            assert(final(self).issued(handle));
        }
    }

    /// Returns the minimum key, if present.
    pub fn peek(&self) -> (result: Option<&K>)
        requires
            self.is_well_formed(),
        ensures
            result is None <==> self.live_entries().len() == 0,
            result matches Some(k) ==> exists|h: TreeHandle| {
                &&& least_entry(self.live_entries(), h, |key: K| key.key_rank())
                &&& self.live_entries()[h].0 == *k
            },
    {
        match self.peek_entry() {
            Some((handle, key, _)) => {
                proof {
                    assert(least_entry(self.live_entries(), handle, |key: K| key.key_rank()));
                }
                Some(key)
            },
            None => None,
        }
    }

    /// Removes and returns the minimum key, if present.
    pub fn pop(&mut self) -> (result: Option<K>)
        requires
            old(self).is_well_formed(),
        ensures
            final(self).is_well_formed(),
            final(self).consumed() == old(self).consumed(),
            forall|h: TreeHandle| final(self).issued(h) == old(self).issued(h),
            result is None <==> old(self).live_entries().len() == 0,
            result is None ==> final(self).live_entries() == old(self).live_entries(),
            result matches Some(k) ==> exists|h: TreeHandle| {
                &&& least_entry(old(self).live_entries(), h, |key: K| key.key_rank())
                &&& old(self).live_entries()[h].0 == k
                &&& final(self).live_entries() == old(self).live_entries().remove(h)
            },
    {
        match self.pop_entry() {
            Some((key, _)) => Some(key),
            None => None,
        }
    }
}

impl<K: HeapKey, V> Default for PurePairingHeap<K, V> {
    fn default() -> (heap: Self)
        ensures
            heap.is_well_formed(),
            !heap.consumed(),
            heap.live_entries() == Map::<TreeHandle, (K, V)>::empty(),
    {
        Self::new()
    }
}

impl<K: HeapKey, V> AddressableHeap<K, V> for PurePairingHeap<K, V> {
    type Handle = TreeHandle;

    open spec fn well_formed(&self) -> bool {
        self.is_well_formed()
    }

    open spec fn live(&self) -> Map<TreeHandle, (K, V)> {
        self.live_entries()
    }

    open spec fn owns(&self, handle: TreeHandle) -> bool {
        self.issued(handle)
    }

    open spec fn is_consumed(&self) -> bool {
        self.consumed()
    }

    open spec fn priority(&self, key: K) -> int {
        key.key_rank()
    }

    fn insert(&mut self, key: K, value: V) -> (handle: TreeHandle) {
        proof {
            self.core.lemma_live_len();
        }
        PurePairingHeap::insert(self, key, value)
    }

    fn peek(&self) -> (result: Option<(TreeHandle, &K, &V)>) {
        self.peek_entry()
    }

    fn pop(&mut self) -> (result: Option<(K, V)>) {
        let result = self.pop_entry();
        proof {
            if result is Some {
                let e = result->0;
                let h = choose|h: TreeHandle| {
                    &&& least_entry(old(self).live_entries(), h, |key: K| key.key_rank())
                    &&& old(self).live_entries()[h] == e
                    &&& self.live_entries() == old(self).live_entries().remove(h)
                };
                assert(least_entry(old(self).live(), h, |key: K| old(self).priority(key)));
            }
        }
        result
    }

    fn key(&self, handle: TreeHandle) -> (result: Result<&K, InvalidHandle>) {
        PurePairingHeap::key(self, handle)
    }

    fn value(&self, handle: TreeHandle) -> (result: Result<&V, InvalidHandle>) {
        PurePairingHeap::value(self, handle)
    }

    fn value_mut(&mut self, handle: TreeHandle) -> (result: Result<&mut V, InvalidHandle>) {
        PurePairingHeap::value_mut(self, handle)
    }

    fn delete(&mut self, handle: TreeHandle) -> (result: Result<(K, V), InvalidHandle>) {
        proof {
            self.core.lemma_live_len();
        }
        PurePairingHeap::delete(self, handle)
    }

    fn len(&self) -> (result: usize) {
        PurePairingHeap::len(self)
    }

    fn clear(&mut self) {
        PurePairingHeap::clear(self)
    }
}

impl<K: HeapKey, V> DecreaseKeyHeap<K, V> for PurePairingHeap<K, V> {
    fn decrease_key(&mut self, handle: TreeHandle, key: K) -> (result: Result<(), DecreaseKeyError>) {
        PurePairingHeap::decrease_key(self, handle, key)
    }
}

impl<K: HeapKey, V> MeldableAddressableHeap<K, V> for PurePairingHeap<K, V> {
    type MeldError = MeldError;

    fn meld(&mut self, other: &mut Self) -> (result: Result<(), MeldError>) {
        let result = PurePairingHeap::meld(self, other);
        proof {
            if result == Err::<(), MeldError>(MeldError::DomainClash) {
                let h = choose|h: TreeHandle| old(self).issued(h) && old(other).issued(h);
                assert(old(self).owns(h) && old(other).owns(h));
            }
        }
        result
    }
}

impl<K: HeapKey> Heap<K> for PurePairingHeap<K, ()> {
    open spec fn well_formed(&self) -> bool {
        &&& self.is_well_formed()
        &&& self.live_entries().dom().finite()
        &&& self.consumed() ==> self.live_entries().dom().len() == 0
    }

    open spec fn items(&self) -> Multiset<K> {
        keys_of(self.live_entries())
    }

    open spec fn priority(&self, value: K) -> int {
        value.key_rank()
    }

    open spec fn accepts_push(&self) -> bool {
        !self.consumed()
    }

    fn push(&mut self, value: K) {
        proof {
            lemma_keys_len(self.live_entries());
        }
        PurePairingHeap::push(self, value);
        proof {
            let h = choose|h: TreeHandle| {
                &&& self.issued(h)
                &&& !old(self).live_entries().contains_key(h)
                &&& self.live_entries() == old(self).live_entries().insert(h, (value, ()))
            };
            lemma_keys_insert(old(self).live_entries(), h, (value, ()));
        }
    }

    fn peek(&self) -> (result: Option<&K>) {
        proof {
            lemma_keys_len(self.live_entries());
        }
        let result = PurePairingHeap::peek(self);
        proof {
            if let Some(k) = result {
                let h = choose|h: TreeHandle| {
                    &&& least_entry(self.live_entries(), h, |key: K| key.key_rank())
                    &&& self.live_entries()[h].0 == *k
                };
                lemma_keys_remove(self.live_entries(), h);
                assert forall|other: K| self.items().contains(other) implies k.key_rank() <= other.key_rank() by {
                    lemma_keys_contains(self.live_entries(), other);
                    let g = choose|g: TreeHandle| self.live_entries().dom().contains(g) && self.live_entries()[g].0 == other;
                    assert(self.live_entries().contains_key(g));
                }
            }
        }
        result
    }

    fn pop(&mut self) -> (result: Option<K>) {
        proof {
            lemma_keys_len(self.live_entries());
        }
        let result = PurePairingHeap::pop(self);
        proof {
            if result is Some {
                let k = result->0;
                let h = choose|h: TreeHandle| {
                    &&& least_entry(old(self).live_entries(), h, |key: K| key.key_rank())
                    &&& old(self).live_entries()[h].0 == k
                    &&& self.live_entries() == old(self).live_entries().remove(h)
                };
                lemma_keys_remove(old(self).live_entries(), h);
                assert forall|other: K| old(self).items().contains(other) implies k.key_rank() <= other.key_rank() by {
                    lemma_keys_contains(old(self).live_entries(), other);
                    let g = choose|g: TreeHandle| old(self).live_entries().dom().contains(g) && old(self).live_entries()[g].0
                        == other;
                    assert(old(self).live_entries().contains_key(g));
                }
            }
        }
        result
    }

    fn len(&self) -> (result: usize) {
        proof {
            lemma_keys_len(self.live_entries());
        }
        PurePairingHeap::len(self)
    }

    fn clear(&mut self) {
        PurePairingHeap::clear(self);
        proof {
            assert(self.live_entries().dom() =~= Set::<TreeHandle>::empty()) by {
                if old(self).consumed() {
                    assert(old(self).live_entries().dom() =~= Set::<TreeHandle>::empty());
                }
            }
            lemma_keys_empty(self.live_entries());
        }
    }
}

impl<K: HeapKey> MeldableHeap<K> for PurePairingHeap<K, ()> {
    type MeldError = MeldError;

    open spec fn is_consumed(&self) -> bool {
        self.consumed()
    }

    open spec fn meld_compatible(&self, other: &Self) -> bool {
        forall|h: TreeHandle| !(self.issued(h) && other.issued(h))
    }

    fn meld(&mut self, other: &mut Self) -> (result: Result<(), MeldError>) {
        proof {
            lemma_keys_len(self.live_entries());
            lemma_keys_len(other.live_entries());
        }
        let result = PurePairingHeap::meld(self, other);
        proof {
            if result is Ok {
                lemma_keys_union(old(self).live_entries(), old(other).live_entries());
                assert(self.live_entries().dom() =~= old(self).live_entries().dom().union(old(other).live_entries().dom()));
                lemma_keys_empty(other.live_entries());
            }
        }
        result
    }
}

} // verus!
