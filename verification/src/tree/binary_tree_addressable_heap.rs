//! An explicit complete binary-tree addressable heap.
use vstd::multiset::Multiset;
use vstd::prelude::*;

use crate::error::{DecreaseKeyError, InvalidHandle};
use crate::key_multiset::{keys_of, lemma_keys_contains, lemma_keys_empty, lemma_keys_insert, lemma_keys_len, lemma_keys_remove};
use crate::order::HeapKey;
use crate::tree::explicit_tree::{key_order, ExplicitTreeCore};
use crate::tree::handles::TreeHandle;
use crate::{checked, least_entry, AddressableHeap, DecreaseKeyHeap, Heap};

verus! {

broadcast use crate::tree::handles::lemma_issuer;

/// An explicit complete binary-tree addressable heap.
///
/// Insert, minimum removal, deletion, and key decreases are `O(log n)`;
/// looking up the minimum is `O(1)`. Nodes form an explicit binary tree while
/// entries are moved between nodes, preserving the identity of their handles.
pub struct BinaryTreeAddressableHeap<K, V = ()> {
    core: ExplicitTreeCore<K, V>,
    releases: Ghost<nat>,
}

impl<K: HeapKey, V> BinaryTreeAddressableHeap<K, V> {
    /// The identity shared by this heap and the handles it issues.
    pub closed spec fn id(&self) -> u64 {
        self.core.domain_id()
    }

    /// Whether this heap has handed out `handle` at some time.  A handle
    /// that it issued and that no longer names an entry is never handed out
    /// again, unless its slot's generation counter wraps around.
    pub closed spec fn handed_out(&self, handle: TreeHandle) -> bool {
        self.core.handed_out(handle)
    }

    /// Whether the generation counter of `handle`'s slot is at its last
    /// value, so that freeing the slot once more wraps it around to zero.
    pub closed spec fn spent(&self, handle: TreeHandle) -> bool {
        self.core.spent(handle)
    }

    /// How many times entries have been released: each `pop` or `delete`
    /// that removes an entry, and each `clear`, counts once.
    pub closed spec fn releases(&self) -> nat {
        self.releases@
    }

    /// No slot is spent while fewer than `u64::MAX` releases have happened,
    /// so until then a handle that no longer names an entry is never handed
    /// out again.
    pub proof fn lemma_unspent(&self)
        requires
            self.is_well_formed(),
            self.releases() < u64::MAX,
        ensures
            forall|h: TreeHandle| !#[trigger] self.spent(h),
    {
        self.core.lemma_unspent(self.releases@);
    }

    /// Every live handle was handed out by this heap and carries its
    /// identity.
    pub proof fn lemma_live_handed_out(&self)
        ensures
            forall|h: TreeHandle| #[trigger] self.live_entries().contains_key(h) ==> self.handed_out(h) && h.issuer()
                == self.id(),
    {
        self.core.lemma_live_handed_out();
    }

    /// The heap's internal invariant.
    pub closed spec fn is_well_formed(&self) -> bool {
        self.core.wf() && self.core.arity() == 2 && self.core.gens_within(self.releases@)
    }

    /// The live handles and the entries they identify.
    pub closed spec fn live_entries(&self) -> Map<TreeHandle, (K, V)> {
        self.core.live()
    }

    /// Creates an empty heap.
    pub fn new() -> (heap: Self)
        ensures
            heap.is_well_formed(),
            heap.live_entries() == Map::<TreeHandle, (K, V)>::empty(),
            heap.releases() == 0,
    {
        BinaryTreeAddressableHeap { core: ExplicitTreeCore::new(2), releases: Ghost(0) }
    }

    /// Inserts an entry and returns its checked handle.
    pub fn push(&mut self, key: K, value: V) -> (handle: TreeHandle)
        requires
            old(self).is_well_formed(),
        ensures
            final(self).is_well_formed(),
            final(self).id() == old(self).id(),
            handle.issuer() == old(self).id(),
            !old(self).live_entries().contains_key(handle),
            final(self).live_entries() == old(self).live_entries().insert(handle, (key, value)),
            final(self).live_entries().len() == old(self).live_entries().len() + 1,
            !old(self).handed_out(handle),
            final(self).handed_out(handle),
            forall|h: TreeHandle| #[trigger] old(self).handed_out(h) ==> final(self).handed_out(h),
            final(self).releases() == old(self).releases(),
    {
        proof {
            self.core.lemma_live_finite();
        }
        let handle = self.core.insert(key, value);
        proof {
            self.core.lemma_gens_kept(&old(self).core, self.releases@);
        }
        handle
    }

    /// Alias for [`Self::push`].
    pub fn insert(&mut self, key: K, value: V) -> (handle: TreeHandle)
        requires
            old(self).is_well_formed(),
        ensures
            final(self).is_well_formed(),
            final(self).id() == old(self).id(),
            handle.issuer() == old(self).id(),
            !old(self).live_entries().contains_key(handle),
            final(self).live_entries() == old(self).live_entries().insert(handle, (key, value)),
            final(self).live_entries().len() == old(self).live_entries().len() + 1,
            !old(self).handed_out(handle),
            final(self).handed_out(handle),
            forall|h: TreeHandle| #[trigger] old(self).handed_out(h) ==> final(self).handed_out(h),
            final(self).releases() == old(self).releases(),
    {
        self.push(key, value)
    }

    /// Replaces the value identified by `handle`.
    pub fn set_value(&mut self, handle: TreeHandle, value: V) -> (result: Result<(), InvalidHandle>)
        requires
            old(self).is_well_formed(),
        ensures
            final(self).is_well_formed(),
            final(self).id() == old(self).id(),
            checked(handle.issuer() == old(self).id(), old(self).live_entries().contains_key(handle), result),
            result is Ok ==> final(self).live_entries() == old(self).live_entries().insert(
                handle,
                (old(self).live_entries()[handle].0, value),
            ),
            result is Err ==> final(self).live_entries() == old(self).live_entries(),
            forall|h: TreeHandle| #[trigger] final(self).handed_out(h) == old(self).handed_out(h),
            final(self).releases() == old(self).releases(),
    {
        self.core.set_value(handle, value)
    }

    /// Returns the handle, key, and value of a minimum entry.
    pub fn peek(&self) -> (result: Option<(TreeHandle, &K, &V)>)
        requires
            self.is_well_formed(),
        ensures
            result is None <==> self.live_entries().len() == 0,
            result matches Some((h, k, v)) ==> {
                &&& least_entry(self.live_entries(), h, |key: K| key.key_rank())
                &&& self.live_entries()[h] == (*k, *v)
            },
    {
        proof {
            assert(key_order::<K>() =~= |key: K| key.key_rank());
        }
        self.core.peek()
    }

    /// Removes and returns a minimum entry.
    pub fn pop(&mut self) -> (result: Option<(K, V)>)
        requires
            old(self).is_well_formed(),
        ensures
            final(self).is_well_formed(),
            final(self).id() == old(self).id(),
            result is None <==> old(self).live_entries().len() == 0,
            result is None ==> final(self).live_entries() == old(self).live_entries(),
            result matches Some(e) ==> exists|h: TreeHandle| {
                &&& least_entry(old(self).live_entries(), h, |key: K| key.key_rank())
                &&& old(self).live_entries()[h] == e
                &&& final(self).live_entries() == old(self).live_entries().remove(h)
            },
            forall|h: TreeHandle| #[trigger] old(self).handed_out(h) && !old(self).spent(h) ==> final(self).handed_out(h),
            final(self).releases() == old(self).releases() + if result is Some { 1nat } else { 0nat },
    {
        proof {
            assert(key_order::<K>() =~= |key: K| key.key_rank());
        }
        let result = self.core.pop();
        proof {
            if result is Some {
                let h = choose|h: TreeHandle| {
                    &&& least_entry(old(self).core.live(), h, key_order::<K>())
                    &&& old(self).core.live()[h] == result->0
                    &&& self.core.live() == old(self).core.live().remove(h)
                };
                assert(least_entry(old(self).live_entries(), h, |key: K| key.key_rank()));
            }
        }
        if result.is_some() {
            proof {
                self.core.lemma_release_bound(&old(self).core, self.releases@);
            }
            self.releases = Ghost(self.releases@ + 1);
        }
        proof {
            self.core.lemma_advanced_keeps(&old(self).core);
        }
        result
    }

    /// Returns the key identified by `handle`.
    pub fn key(&self, handle: TreeHandle) -> (result: Result<&K, InvalidHandle>)
        ensures
            checked(handle.issuer() == self.id(), self.live_entries().contains_key(handle), result),
            result matches Ok(k) ==> *k == self.live_entries()[handle].0,
    {
        self.core.key(handle)
    }

    /// Returns the value identified by `handle`.
    pub fn value(&self, handle: TreeHandle) -> (result: Result<&V, InvalidHandle>)
        ensures
            checked(handle.issuer() == self.id(), self.live_entries().contains_key(handle), result),
            result matches Ok(v) ==> *v == self.live_entries()[handle].1,
    {
        self.core.value(handle)
    }

    /// Decreases the key identified by `handle` and restores heap order.
    pub fn decrease_key(&mut self, handle: TreeHandle, key: K) -> (result: Result<(), DecreaseKeyError>)
        requires
            old(self).is_well_formed(),
        ensures
            final(self).is_well_formed(),
            final(self).id() == old(self).id(),
            match result {
                Ok(()) => {
                    &&& handle.issuer() == old(self).id()
                    &&& old(self).live_entries().contains_key(handle)
                    &&& key.key_rank() <= old(self).live_entries()[handle].0.key_rank()
                    &&& final(self).live_entries() == old(self).live_entries().insert(
                        handle,
                        (key, old(self).live_entries()[handle].1),
                    )
                },
                Err(DecreaseKeyError::InvalidHandle(e)) => {
                    &&& checked(
                        handle.issuer() == old(self).id(),
                        old(self).live_entries().contains_key(handle),
                        Err::<(), InvalidHandle>(e),
                    )
                    &&& final(self).live_entries() == old(self).live_entries()
                },
                Err(DecreaseKeyError::NotDecreased) => {
                    &&& handle.issuer() == old(self).id()
                    &&& old(self).live_entries().contains_key(handle)
                    &&& key.key_rank() > old(self).live_entries()[handle].0.key_rank()
                    &&& final(self).live_entries() == old(self).live_entries()
                },
                Err(DecreaseKeyError::InvalidKey) => false,
            },
            forall|h: TreeHandle| #[trigger] final(self).handed_out(h) == old(self).handed_out(h),
            final(self).releases() == old(self).releases(),
    {
        let result = self.core.decrease_key(handle, key);
        proof {
            self.core.lemma_gens_kept(&old(self).core, self.releases@);
        }
        result
    }

    /// Removes and returns the entry identified by `handle`.
    pub fn delete(&mut self, handle: TreeHandle) -> (result: Result<(K, V), InvalidHandle>)
        requires
            old(self).is_well_formed(),
        ensures
            final(self).is_well_formed(),
            final(self).id() == old(self).id(),
            checked(handle.issuer() == old(self).id(), old(self).live_entries().contains_key(handle), result),
            result matches Ok(e) ==> {
                &&& e == old(self).live_entries()[handle]
                &&& final(self).live_entries() == old(self).live_entries().remove(handle)
            },
            result is Err ==> final(self).live_entries() == old(self).live_entries(),
            forall|h: TreeHandle| #[trigger] old(self).handed_out(h) && !old(self).spent(h) ==> final(self).handed_out(h),
            final(self).releases() == old(self).releases() + if result is Ok { 1nat } else { 0nat },
    {
        let result = self.core.delete(handle);
        if result.is_ok() {
            proof {
                self.core.lemma_release_bound(&old(self).core, self.releases@);
            }
            self.releases = Ghost(self.releases@ + 1);
        }
        proof {
            self.core.lemma_advanced_keeps(&old(self).core);
        }
        result
    }

    /// Returns the number of live entries.
    pub fn len(&self) -> (result: usize)
        requires
            self.is_well_formed(),
        ensures
            result == self.live_entries().len(),
    {
        self.core.len()
    }

    /// Returns whether the heap contains no entries.
    pub fn is_empty(&self) -> (result: bool)
        requires
            self.is_well_formed(),
        ensures
            result == (self.live_entries().len() == 0),
    {
        self.core.len() == 0
    }

    /// Removes every entry and invalidates every outstanding handle.
    pub fn clear(&mut self)
        requires
            old(self).is_well_formed(),
        ensures
            final(self).is_well_formed(),
            final(self).id() == old(self).id(),
            final(self).live_entries() == Map::<TreeHandle, (K, V)>::empty(),
            forall|h: TreeHandle| #[trigger] old(self).handed_out(h) && !old(self).spent(h) ==> final(self).handed_out(h),
            final(self).releases() == old(self).releases() + 1,
    {
        self.core.clear();
        proof {
            self.core.lemma_release_bound(&old(self).core, self.releases@);
        }
        self.releases = Ghost(self.releases@ + 1);
        proof {
            self.core.lemma_advanced_keeps(&old(self).core);
        }
    }
}

impl<K: HeapKey, V> Default for BinaryTreeAddressableHeap<K, V> {
    fn default() -> (heap: Self)
        ensures
            heap.is_well_formed(),
            heap.live_entries() == Map::<TreeHandle, (K, V)>::empty(),
    {
        Self::new()
    }
}

impl<K: HeapKey, V> AddressableHeap<K, V> for BinaryTreeAddressableHeap<K, V> {
    type Handle = TreeHandle;

    open spec fn well_formed(&self) -> bool {
        self.is_well_formed()
    }

    open spec fn live(&self) -> Map<TreeHandle, (K, V)> {
        self.live_entries()
    }

    open spec fn owns(&self, handle: TreeHandle) -> bool {
        handle.issuer() == self.id()
    }

    open spec fn is_consumed(&self) -> bool {
        false
    }

    open spec fn priority(&self, key: K) -> int {
        key.key_rank()
    }

    fn insert(&mut self, key: K, value: V) -> (handle: TreeHandle) {
        proof {
            self.core.lemma_live_finite();
        }
        BinaryTreeAddressableHeap::push(self, key, value)
    }

    fn peek(&self) -> (result: Option<(TreeHandle, &K, &V)>) {
        BinaryTreeAddressableHeap::peek(self)
    }

    fn pop(&mut self) -> (result: Option<(K, V)>) {
        let result = BinaryTreeAddressableHeap::pop(self);
        proof {
            if result is Some {
                let e = result->0;
                let h = choose|h: TreeHandle| {
                    &&& least_entry(old(self).live_entries(), h, |key: K| key.key_rank())
                    &&& old(self).live_entries()[h] == e
                    &&& self.live_entries() == old(self).live_entries().remove(h)
                };
                assert(least_entry(old(self).live(), h, |key: K| old(self).priority(key)));
            }
        }
        result
    }

    fn key(&self, handle: TreeHandle) -> (result: Result<&K, InvalidHandle>) {
        BinaryTreeAddressableHeap::key(self, handle)
    }

    fn value(&self, handle: TreeHandle) -> (result: Result<&V, InvalidHandle>) {
        BinaryTreeAddressableHeap::value(self, handle)
    }

    fn value_mut(&mut self, handle: TreeHandle) -> (result: Result<&mut V, InvalidHandle>) {
        self.core.value_mut(handle)
    }

    fn delete(&mut self, handle: TreeHandle) -> (result: Result<(K, V), InvalidHandle>) {
        proof {
            self.core.lemma_live_finite();
        }
        BinaryTreeAddressableHeap::delete(self, handle)
    }

    fn len(&self) -> (result: usize) {
        BinaryTreeAddressableHeap::len(self)
    }

    fn clear(&mut self) {
        BinaryTreeAddressableHeap::clear(self)
    }
}

impl<K: HeapKey, V> DecreaseKeyHeap<K, V> for BinaryTreeAddressableHeap<K, V> {
    fn decrease_key(&mut self, handle: TreeHandle, key: K) -> (result: Result<(), DecreaseKeyError>) {
        BinaryTreeAddressableHeap::decrease_key(self, handle, key)
    }
}

impl<K: HeapKey> Heap<K> for BinaryTreeAddressableHeap<K, ()> {
    open spec fn well_formed(&self) -> bool {
        &&& self.is_well_formed()
        &&& self.live_entries().dom().finite()
    }

    open spec fn items(&self) -> Multiset<K> {
        keys_of(self.live_entries())
    }

    open spec fn priority(&self, value: K) -> int {
        value.key_rank()
    }

    open spec fn accepts_push(&self) -> bool {
        true
    }

    fn push(&mut self, value: K) {
        let handle = BinaryTreeAddressableHeap::insert(self, value, ());
        proof {
            lemma_keys_insert(old(self).live_entries(), handle, (value, ()));
        }
    }

    fn peek(&self) -> (result: Option<&K>) {
        proof {
            lemma_keys_len(self.live_entries());
        }
        match BinaryTreeAddressableHeap::peek(self) {
            Some((h, k, _)) => {
                proof {
                    lemma_keys_remove(self.live_entries(), h);
                    assert forall|other: K| self.items().contains(other) implies k.key_rank() <= other.key_rank() by {
                        lemma_keys_contains(self.live_entries(), other);
                        let g = choose|g: TreeHandle| self.live_entries().dom().contains(g) && self.live_entries()[g].0 == other;
                        assert(self.live_entries().contains_key(g));
                    }
                }
                Some(k)
            },
            None => None,
        }
    }

    fn pop(&mut self) -> (result: Option<K>) {
        proof {
            lemma_keys_len(self.live_entries());
        }
        let popped = BinaryTreeAddressableHeap::pop(self);
        proof {
            if popped is Some {
                let e = popped->0;
                let h = choose|h: TreeHandle| {
                    &&& least_entry(old(self).live_entries(), h, |key: K| key.key_rank())
                    &&& old(self).live_entries()[h] == e
                    &&& self.live_entries() == old(self).live_entries().remove(h)
                };
                lemma_keys_remove(old(self).live_entries(), h);
                assert forall|other: K| old(self).items().contains(other) implies e.0.key_rank() <= other.key_rank() by {
                    lemma_keys_contains(old(self).live_entries(), other);
                    let g = choose|g: TreeHandle| old(self).live_entries().dom().contains(g)
                        && old(self).live_entries()[g].0 == other;
                    assert(old(self).live_entries().contains_key(g));
                }
            }
        }
        match popped {
            Some((k, _)) => Some(k),
            None => None,
        }
    }

    fn len(&self) -> (result: usize) {
        proof {
            lemma_keys_len(self.live_entries());
        }
        BinaryTreeAddressableHeap::len(self)
    }

    fn clear(&mut self) {
        BinaryTreeAddressableHeap::clear(self);
        proof {
            lemma_keys_empty(self.live_entries());
        }
    }
}

} // verus!
