//! An explicit power-of-two d-ary tree addressable heap.
use vstd::multiset::Multiset;
use vstd::prelude::*;

use crate::error::{DecreaseKeyError, InvalidHandle};
use crate::key_multiset::{keys_of, lemma_keys_contains, lemma_keys_empty, lemma_keys_insert, lemma_keys_len, lemma_keys_remove};
use crate::order::HeapKey;
use crate::tree::explicit_tree::{key_order, ExplicitTreeCore};
use crate::tree::handles::TreeHandle;
use crate::{checked, least_entry, AddressableHeap, DecreaseKeyHeap, Heap};

verus! {

broadcast use crate::tree::handles::lemma_issuer;

/// The invalid branching factor supplied to [`DaryTreeAddressableHeap`].
#[derive(Clone, Copy, Debug, PartialEq, Eq)]
pub struct InvalidBranchingFactor(pub usize);

impl InvalidBranchingFactor {
    /// A human-readable description of the error.
    pub fn message(&self) -> (text: &'static str)
        ensures
            text@ == "branching factor must be a power of two and at least two"@,
    {
        "branching factor must be a power of two and at least two"
    }
}

/// Whether `n` is a power of two.
pub open spec fn is_power_of_two(n: nat) -> bool
    decreases n,
{
    if n <= 1 {
        n == 1
    } else {
        n % 2 == 0 && is_power_of_two(n / 2)
    }
}

/// Checks that `degree` is a power of two no smaller than two.
pub fn valid_branching_factor(degree: usize) -> (valid: bool)
    ensures
        valid == (degree >= 2 && is_power_of_two(degree as nat)),
{
    if degree < 2 {
        return false;
    }
    let mut m = degree;
    while m > 1 && m % 2 == 0
        invariant
            m >= 1,
            is_power_of_two(m as nat) == is_power_of_two(degree as nat),
        decreases m,
    {
        m = m / 2;
    }
    m == 1
}

/// An explicit power-of-two d-ary tree addressable heap.
///
/// Entries reside in nodes of a complete d-ary tree. Entry handles remain
/// stable while entries move between tree nodes to restore heap order.
pub struct DaryTreeAddressableHeap<K, V = ()> {
    core: ExplicitTreeCore<K, V>,
    releases: Ghost<nat>,
}

impl<K: HeapKey, V> DaryTreeAddressableHeap<K, V> {
    /// The identity shared by this heap and the handles it issues.
    pub closed spec fn id(&self) -> u64 {
        self.core.domain_id()
    }

    /// Whether this heap has handed out `handle` at some time.  A handle
    /// that it issued and that no longer names an entry is never handed out
    /// again, unless its slot's generation counter wraps around.
    pub closed spec fn handed_out(&self, handle: TreeHandle) -> bool {
        self.core.handed_out(handle)
    }

    /// Whether the generation counter of `handle`'s slot is at its last
    /// value, so that freeing the slot once more wraps it around to zero.
    pub closed spec fn spent(&self, handle: TreeHandle) -> bool {
        self.core.spent(handle)
    }

    /// How many times entries have been released: each `pop` or `delete`
    /// that removes an entry, and each `clear`, counts once.
    pub closed spec fn releases(&self) -> nat {
        self.releases@
    }

    /// No slot is spent while fewer than `u64::MAX` releases have happened,
    /// so until then a handle that no longer names an entry is never handed
    /// out again.
    pub proof fn lemma_unspent(&self)
        requires
            self.is_well_formed(),
            self.releases() < u64::MAX,
        ensures
            forall|h: TreeHandle| !#[trigger] self.spent(h),
    {
        self.core.lemma_unspent(self.releases@);
    }

    /// Every live handle was handed out by this heap and carries its
    /// identity.
    pub proof fn lemma_live_handed_out(&self)
        ensures
            forall|h: TreeHandle| #[trigger] self.live_entries().contains_key(h) ==> self.handed_out(h) && h.issuer()
                == self.id(),
    {
        self.core.lemma_live_handed_out();
    }

    /// The number of children per tree node.
    pub closed spec fn arity(&self) -> int {
        self.core.arity()
    }

    /// The heap's internal invariant.
    pub closed spec fn is_well_formed(&self) -> bool {
        self.core.wf() && self.core.gens_within(self.releases@)
    }

    /// The live handles and the entries they identify.
    pub closed spec fn live_entries(&self) -> Map<TreeHandle, (K, V)> {
        self.core.live()
    }

    /// Creates an empty heap whose nodes have `degree` children, which must
    /// be a power of two and at least two.
    pub fn new(degree: usize) -> (result: Result<Self, InvalidBranchingFactor>)
        ensures
            result is Ok <==> degree >= 2 && is_power_of_two(degree as nat),
            result matches Err(e) ==> e == InvalidBranchingFactor(degree),
            result matches Ok(heap) ==> {
                &&& heap.is_well_formed()
                &&& heap.arity() == degree
                &&& heap.live_entries() == Map::<TreeHandle, (K, V)>::empty()
                &&& heap.releases() == 0
            },
    {
        if !valid_branching_factor(degree) {
            return Err(InvalidBranchingFactor(degree));
        }
        Ok(DaryTreeAddressableHeap { core: ExplicitTreeCore::new(degree), releases: Ghost(0) })
    }

    /// Returns the number of children per tree node.
    pub fn degree(&self) -> (result: usize)
        ensures
            result == self.arity(),
    {
        self.core.degree()
    }

    /// Inserts an entry and returns its checked handle.
    pub fn insert(&mut self, key: K, value: V) -> (handle: TreeHandle)
        requires
            old(self).is_well_formed(),
        ensures
            final(self).is_well_formed(),
            final(self).id() == old(self).id(),
            final(self).arity() == old(self).arity(),
            handle.issuer() == old(self).id(),
            !old(self).live_entries().contains_key(handle),
            final(self).live_entries() == old(self).live_entries().insert(handle, (key, value)),
            final(self).live_entries().len() == old(self).live_entries().len() + 1,
            !old(self).handed_out(handle),
            final(self).handed_out(handle),
            forall|h: TreeHandle| #[trigger] old(self).handed_out(h) ==> final(self).handed_out(h),
            final(self).releases() == old(self).releases(),
    {
        proof {
            self.core.lemma_live_finite();
        }
        let handle = self.core.insert(key, value);
        proof {
            self.core.lemma_gens_kept(&old(self).core, self.releases@);
        }
        handle
    }

    /// Returns mutable access to the value identified by `handle`.
    pub fn value_mut(&mut self, handle: TreeHandle) -> (result: Result<&mut V, InvalidHandle>)
        requires
            old(self).is_well_formed(),
        ensures
            checked(handle.issuer() == old(self).id(), old(self).live_entries().contains_key(handle), result),
            result matches Ok(v) ==> {
                &&& *v == old(self).live_entries()[handle].1
                &&& final(self).live_entries() == old(self).live_entries().insert(
                    handle,
                    (old(self).live_entries()[handle].0, *final(v)),
                )
                &&& final(self).is_well_formed()
                &&& final(self).id() == old(self).id()
                &&& final(self).arity() == old(self).arity()
            },
            result is Err ==> *final(self) == *old(self),
            final(self).releases() == old(self).releases(),
    {
        self.core.value_mut(handle)
    }

    /// Returns the handle, key, and value of a minimum entry.
    pub fn peek_entry(&self) -> (result: Option<(TreeHandle, &K, &V)>)
        requires
            self.is_well_formed(),
        ensures
            result is None <==> self.live_entries().len() == 0,
            result matches Some((h, k, v)) ==> {
                &&& least_entry(self.live_entries(), h, |key: K| key.key_rank())
                &&& self.live_entries()[h] == (*k, *v)
            },
    {
        proof {
            assert(key_order::<K>() =~= |key: K| key.key_rank());
        }
        self.core.peek()
    }

    /// Removes and returns a minimum entry.
    pub fn pop_entry(&mut self) -> (result: Option<(K, V)>)
        requires
            old(self).is_well_formed(),
        ensures
            final(self).is_well_formed(),
            final(self).id() == old(self).id(),
            final(self).arity() == old(self).arity(),
            result is None <==> old(self).live_entries().len() == 0,
            result is None ==> final(self).live_entries() == old(self).live_entries(),
            result matches Some(e) ==> exists|h: TreeHandle| {
                &&& least_entry(old(self).live_entries(), h, |key: K| key.key_rank())
                &&& old(self).live_entries()[h] == e
                &&& final(self).live_entries() == old(self).live_entries().remove(h)
            },
            forall|h: TreeHandle| #[trigger] old(self).handed_out(h) && !old(self).spent(h) ==> final(self).handed_out(h),
            final(self).releases() == old(self).releases() + if result is Some { 1nat } else { 0nat },
    {
        proof {
            assert(key_order::<K>() =~= |key: K| key.key_rank());
        }
        let result = self.core.pop();
        proof {
            if result is Some {
                let h = choose|h: TreeHandle| {
                    &&& least_entry(old(self).core.live(), h, key_order::<K>())
                    &&& old(self).core.live()[h] == result->0
                    &&& self.core.live() == old(self).core.live().remove(h)
                };
                assert(least_entry(old(self).live_entries(), h, |key: K| key.key_rank()));
            }
        }
        if result.is_some() {
            proof {
                self.core.lemma_release_bound(&old(self).core, self.releases@);
            }
            self.releases = Ghost(self.releases@ + 1);
        }
        proof {
            self.core.lemma_advanced_keeps(&old(self).core);
        }
        result
    }

    /// Returns the key identified by `handle`.
    pub fn key(&self, handle: TreeHandle) -> (result: Result<&K, InvalidHandle>)
        ensures
            checked(handle.issuer() == self.id(), self.live_entries().contains_key(handle), result),
            result matches Ok(k) ==> *k == self.live_entries()[handle].0,
    {
        self.core.key(handle)
    }

    /// Returns the value identified by `handle`.
    pub fn value(&self, handle: TreeHandle) -> (result: Result<&V, InvalidHandle>)
        ensures
            checked(handle.issuer() == self.id(), self.live_entries().contains_key(handle), result),
            result matches Ok(v) ==> *v == self.live_entries()[handle].1,
    {
        self.core.value(handle)
    }

    /// Decreases the key identified by `handle` and restores heap order.
    pub fn decrease_key(&mut self, handle: TreeHandle, key: K) -> (result: Result<(), DecreaseKeyError>)
        requires
            old(self).is_well_formed(),
        ensures
            final(self).is_well_formed(),
            final(self).id() == old(self).id(),
            final(self).arity() == old(self).arity(),
            match result {
                Ok(()) => {
                    &&& handle.issuer() == old(self).id()
                    &&& old(self).live_entries().contains_key(handle)
                    &&& key.key_rank() <= old(self).live_entries()[handle].0.key_rank()
                    &&& final(self).live_entries() == old(self).live_entries().insert(
                        handle,
                        (key, old(self).live_entries()[handle].1),
                    )
                },
                Err(DecreaseKeyError::InvalidHandle(e)) => {
                    &&& checked(
                        handle.issuer() == old(self).id(),
                        old(self).live_entries().contains_key(handle),
                        Err::<(), InvalidHandle>(e),
                    )
                    &&& final(self).live_entries() == old(self).live_entries()
                },
                Err(DecreaseKeyError::NotDecreased) => {
                    &&& handle.issuer() == old(self).id()
                    &&& old(self).live_entries().contains_key(handle)
                    &&& key.key_rank() > old(self).live_entries()[handle].0.key_rank()
                    &&& final(self).live_entries() == old(self).live_entries()
                },
                Err(DecreaseKeyError::InvalidKey) => false,
            },
            forall|h: TreeHandle| #[trigger] final(self).handed_out(h) == old(self).handed_out(h),
            final(self).releases() == old(self).releases(),
    {
        let result = self.core.decrease_key(handle, key);
        proof {
            self.core.lemma_gens_kept(&old(self).core, self.releases@);
        }
        result
    }

    /// Removes and returns the entry identified by `handle`.
    pub fn delete(&mut self, handle: TreeHandle) -> (result: Result<(K, V), InvalidHandle>)
        requires
            old(self).is_well_formed(),
        ensures
            final(self).is_well_formed(),
            final(self).id() == old(self).id(),
            final(self).arity() == old(self).arity(),
            checked(handle.issuer() == old(self).id(), old(self).live_entries().contains_key(handle), result),
            result matches Ok(e) ==> {
                &&& e == old(self).live_entries()[handle]
                &&& final(self).live_entries() == old(self).live_entries().remove(handle)
            },
            result is Err ==> final(self).live_entries() == old(self).live_entries(),
            forall|h: TreeHandle| #[trigger] old(self).handed_out(h) && !old(self).spent(h) ==> final(self).handed_out(h),
            final(self).releases() == old(self).releases() + if result is Ok { 1nat } else { 0nat },
    {
        let result = self.core.delete(handle);
        if result.is_ok() {
            proof {
                self.core.lemma_release_bound(&old(self).core, self.releases@);
            }
            self.releases = Ghost(self.releases@ + 1);
        }
        proof {
            self.core.lemma_advanced_keeps(&old(self).core);
        }
        result
    }

    /// Returns the number of live entries.
    pub fn len(&self) -> (result: usize)
        requires
            self.is_well_formed(),
        ensures
            result == self.live_entries().len(),
    {
        self.core.len()
    }

    /// Returns whether the heap contains no entries.
    pub fn is_empty(&self) -> (result: bool)
        requires
            self.is_well_formed(),
        ensures
            result == (self.live_entries().len() == 0),
    {
        self.core.len() == 0
    }

    /// Removes every entry and invalidates every outstanding handle.
    pub fn clear(&mut self)
        requires
            old(self).is_well_formed(),
        ensures
            final(self).is_well_formed(),
            final(self).id() == old(self).id(),
            final(self).arity() == old(self).arity(),
            final(self).live_entries() == Map::<TreeHandle, (K, V)>::empty(),
            forall|h: TreeHandle| #[trigger] old(self).handed_out(h) && !old(self).spent(h) ==> final(self).handed_out(h),
            final(self).releases() == old(self).releases() + 1,
    {
        self.core.clear();
        proof {
            self.core.lemma_release_bound(&old(self).core, self.releases@);
        }
        self.releases = Ghost(self.releases@ + 1);
        proof {
            self.core.lemma_advanced_keeps(&old(self).core);
        }
    }
}

impl<K: HeapKey> DaryTreeAddressableHeap<K, ()> {
    /// Inserts a key into this value-less heap and returns a checked handle.
    pub fn push(&mut self, key: K) -> (handle: TreeHandle)
        requires
            old(self).is_well_formed(),
        ensures
            final(self).is_well_formed(),
            final(self).id() == old(self).id(),
            final(self).arity() == old(self).arity(),
            handle.issuer() == old(self).id(),
            !old(self).live_entries().contains_key(handle),
            final(self).live_entries() == old(self).live_entries().insert(handle, (key, ())),
            !old(self).handed_out(handle),
            final(self).handed_out(handle),
            forall|h: TreeHandle| #[trigger] old(self).handed_out(h) ==> final(self).handed_out(h),
            final(self).releases() == old(self).releases(),
    {
        self.insert(key, ())
    }

    /// Returns a minimum key, if present.
    pub fn peek(&self) -> (result: Option<&K>)
        requires
            self.is_well_formed(),
        ensures
            result is None <==> self.live_entries().len() == 0,
            result matches Some(k) ==> exists|h: TreeHandle| {
                &&& least_entry(self.live_entries(), h, |key: K| key.key_rank())
                &&& self.live_entries()[h].0 == *k
            },
    {
        match self.peek_entry() {
            Some((_, key, _)) => Some(key),
            None => None,
        }
    }

    /// Removes and returns a minimum key, if present.
    pub fn pop(&mut self) -> (result: Option<K>)
        requires
            old(self).is_well_formed(),
        ensures
            final(self).is_well_formed(),
            final(self).id() == old(self).id(),
            final(self).arity() == old(self).arity(),
            result is None <==> old(self).live_entries().len() == 0,
            result is None ==> final(self).live_entries() == old(self).live_entries(),
            result matches Some(k) ==> exists|h: TreeHandle| {
                &&& least_entry(old(self).live_entries(), h, |key: K| key.key_rank())
                &&& old(self).live_entries()[h].0 == k
                &&& final(self).live_entries() == old(self).live_entries().remove(h)
            },
    {
        match self.pop_entry() {
            Some((key, _)) => Some(key),
            None => None,
        }
    }
}

impl<K: HeapKey, V> AddressableHeap<K, V> for DaryTreeAddressableHeap<K, V> {
    type Handle = TreeHandle;

    open spec fn well_formed(&self) -> bool {
        self.is_well_formed()
    }

    open spec fn live(&self) -> Map<TreeHandle, (K, V)> {
        self.live_entries()
    }

    open spec fn owns(&self, handle: TreeHandle) -> bool {
        handle.issuer() == self.id()
    }

    open spec fn is_consumed(&self) -> bool {
        false
    }

    open spec fn priority(&self, key: K) -> int {
        key.key_rank()
    }

    fn insert(&mut self, key: K, value: V) -> (handle: TreeHandle) {
        proof {
            self.core.lemma_live_finite();
        }
        DaryTreeAddressableHeap::insert(self, key, value)
    }

    fn peek(&self) -> (result: Option<(TreeHandle, &K, &V)>) {
        DaryTreeAddressableHeap::peek_entry(self)
    }

    fn pop(&mut self) -> (result: Option<(K, V)>) {
        let result = DaryTreeAddressableHeap::pop_entry(self);
        proof {
            if result is Some {
                let e = result->0;
                let h = choose|h: TreeHandle| {
                    &&& least_entry(old(self).live_entries(), h, |key: K| key.key_rank())
                    &&& old(self).live_entries()[h] == e
                    &&& self.live_entries() == old(self).live_entries().remove(h)
                };
                assert(least_entry(old(self).live(), h, |key: K| old(self).priority(key)));
            }
        }
        result
    }

    fn key(&self, handle: TreeHandle) -> (result: Result<&K, InvalidHandle>) {
        DaryTreeAddressableHeap::key(self, handle)
    }

    fn value(&self, handle: TreeHandle) -> (result: Result<&V, InvalidHandle>) {
        DaryTreeAddressableHeap::value(self, handle)
    }

    fn value_mut(&mut self, handle: TreeHandle) -> (result: Result<&mut V, InvalidHandle>) {
        self.core.value_mut(handle)
    }

    fn delete(&mut self, handle: TreeHandle) -> (result: Result<(K, V), InvalidHandle>) {
        proof {
            self.core.lemma_live_finite();
        }
        DaryTreeAddressableHeap::delete(self, handle)
    }

    fn len(&self) -> (result: usize) {
        DaryTreeAddressableHeap::len(self)
    }

    fn clear(&mut self) {
        DaryTreeAddressableHeap::clear(self)
    }
}

impl<K: HeapKey, V> DecreaseKeyHeap<K, V> for DaryTreeAddressableHeap<K, V> {
    fn decrease_key(&mut self, handle: TreeHandle, key: K) -> (result: Result<(), DecreaseKeyError>) {
        DaryTreeAddressableHeap::decrease_key(self, handle, key)
    }
}

impl<K: HeapKey> Heap<K> for DaryTreeAddressableHeap<K, ()> {
    open spec fn well_formed(&self) -> bool {
        &&& self.is_well_formed()
        &&& self.live_entries().dom().finite()
    }

    open spec fn items(&self) -> Multiset<K> {
        keys_of(self.live_entries())
    }

    open spec fn priority(&self, value: K) -> int {
        value.key_rank()
    }

    open spec fn accepts_push(&self) -> bool {
        true
    }

    fn push(&mut self, value: K) {
        let handle = DaryTreeAddressableHeap::insert(self, value, ());
        proof {
            lemma_keys_insert(old(self).live_entries(), handle, (value, ()));
        }
    }

    fn peek(&self) -> (result: Option<&K>) {
        proof {
            lemma_keys_len(self.live_entries());
        }
        match DaryTreeAddressableHeap::peek_entry(self) {
            Some((h, k, _)) => {
                proof {
                    lemma_keys_remove(self.live_entries(), h);
                    assert forall|other: K| self.items().contains(other) implies k.key_rank() <= other.key_rank() by {
                        lemma_keys_contains(self.live_entries(), other);
                        let g = choose|g: TreeHandle| self.live_entries().dom().contains(g) && self.live_entries()[g].0 == other;
                        assert(self.live_entries().contains_key(g));
                    }
                }
                Some(k)
            },
            None => None,
        }
    }

    fn pop(&mut self) -> (result: Option<K>) {
        proof {
            lemma_keys_len(self.live_entries());
        }
        let popped = DaryTreeAddressableHeap::pop_entry(self);
        proof {
            if popped is Some {
                let e = popped->0;
                let h = choose|h: TreeHandle| {
                    &&& least_entry(old(self).live_entries(), h, |key: K| key.key_rank())
                    &&& old(self).live_entries()[h] == e
                    &&& self.live_entries() == old(self).live_entries().remove(h)
                };
                lemma_keys_remove(old(self).live_entries(), h);
                assert forall|other: K| old(self).items().contains(other) implies e.0.key_rank() <= other.key_rank() by {
                    lemma_keys_contains(old(self).live_entries(), other);
                    let g = choose|g: TreeHandle| old(self).live_entries().dom().contains(g)
                        && old(self).live_entries()[g].0 == other;
                    assert(old(self).live_entries().contains_key(g));
                }
            }
        }
        match popped {
            Some((k, _)) => Some(k),
            None => None,
        }
    }

    fn len(&self) -> (result: usize) {
        proof {
            lemma_keys_len(self.live_entries());
        }
        DaryTreeAddressableHeap::len(self)
    }

    fn clear(&mut self) {
        DaryTreeAddressableHeap::clear(self);
        proof {
            lemma_keys_empty(self.live_entries());
        }
    }
}

} // verus!
