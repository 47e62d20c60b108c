//! An addressable costless-meld pairing heap.
use vstd::multiset::Multiset;
use vstd::prelude::*;

use crate::array::{exp2, floor_log2};
use crate::error::{DecreaseKeyError, InvalidHandle};
use crate::key_multiset::{keys_of, lemma_keys_contains, lemma_keys_empty, lemma_keys_insert, lemma_keys_len, lemma_keys_remove, lemma_keys_union};
use crate::order::HeapKey;
use crate::tree::forest::{NodeRef, TreeCore};
use crate::tree::handles::{MeldError, TreeHandle};
use crate::{checked, least_entry, AddressableHeap, DecreaseKeyHeap, Heap, MeldableAddressableHeap, MeldableHeap};

verus! {

broadcast use {vstd::set::group_set_axioms, vstd::map::group_map_axioms};

/// An addressable costless-meld pairing heap.
///
/// Decreased subtrees are held in a separate decrease pool instead of being
/// immediately linked into the main pairing tree.  The pool has a cached
/// minimum and is consolidated into the main tree once it reaches a size
/// logarithmic in the number of entries.
pub struct CostlessMeldPairingHeap<K, V = ()> {
    core: TreeCore<K, V>,
    decrease_pool: Vec<NodeRef>,
    pool_minimum: Option<NodeRef>,
    height: Ghost<spec_fn(NodeRef) -> nat>,
}

impl<K: HeapKey, V> CostlessMeldPairingHeap<K, V> {
    /// The trees of the heap are the main tree and the pooled trees; the
    /// cached minimum is a least pooled root.
    spec fn pool_ok(&self) -> bool {
        &&& self.decrease_pool@.no_duplicates()
        &&& forall|k: int| 0 <= k < self.decrease_pool@.len() ==> self.core.detached(#[trigger] self.decrease_pool@[k])
        &&& self.core.root matches Some(r) ==> !self.decrease_pool@.contains(r)
        &&& forall|q: NodeRef| #[trigger] self.core.detached(q) ==> self.core.root == Some(q) || self.decrease_pool@.contains(q)
        &&& self.pool_minimum is None <==> self.decrease_pool@.len() == 0
        &&& self.pool_minimum matches Some(m) ==> {
            &&& self.decrease_pool@.contains(m)
            &&& forall|k: int|
                0 <= k < self.decrease_pool@.len() ==> self.core.nd(m).key.key_rank() <= self.core.nd(
                    #[trigger] self.decrease_pool@[k],
                ).key.key_rank()
        }
    }

    /// The heap's internal invariant: a heap-ordered forest made of the main
    /// tree and the pooled trees, and nothing left in a heap consumed by a
    /// meld.
    pub closed spec fn is_well_formed(&self) -> bool {
        &&& self.core.wf()
        &&& self.core.ordered_by(self.height@)
        &&& self.pool_ok()
        &&& !self.core.active ==> self.core.len == 0 && self.decrease_pool@.len() == 0
    }

    /// The live handles and the entries they identify.
    pub closed spec fn live_entries(&self) -> Map<TreeHandle, (K, V)> {
        self.core.live()
    }

    /// Whether `handle` was issued by this heap or a heap melded into it,
    /// while this heap still accepts handles.
    pub closed spec fn issued(&self, handle: TreeHandle) -> bool {
        self.core.owns(handle)
    }

    /// Every live handle was issued by this heap.
    pub proof fn lemma_live_issued(&self)
        requires
            self.is_well_formed(),
        ensures
            forall|h: TreeHandle| #[trigger] self.live_entries().contains_key(h) ==> self.issued(h),
    {
        self.core.lemma_live_len();
        assert forall|h: TreeHandle| #[trigger] self.live_entries().contains_key(h) implies self.issued(h) by {
            let r = TreeCore::<K, V>::ref_of(h);
            assert(self.core.is_live(r));
            assert(self.core.arenas@[self.core.arena_index(h.domain)].domain == h.domain);
        }
    }

    /// Whether this heap was consumed as a meld donor.
    pub closed spec fn consumed(&self) -> bool {
        !self.core.active
    }

    /// The least of the main root and the pooled minimum.
    fn minimum_node(&self) -> (result: Option<NodeRef>)
        requires
            self.is_well_formed(),
        ensures
            result is None <==> self.core.root is None && self.decrease_pool@.len() == 0,
            result matches Some(m) ==> {
                &&& self.core.detached(m)
                &&& forall|q: NodeRef| #[trigger]
                    self.core.detached(q) ==> self.core.nd(m).key.key_rank() <= self.core.nd(q).key.key_rank()
            },
    {
        match (self.core.root, self.pool_minimum) {
            (None, other) => other,
            (other, None) => other,
            (Some(root), Some(pool)) => {
                if self.core.precedes(pool, root) {
                    Some(pool)
                } else {
                    Some(root)
                }
            },
        }
    }

    /// Recomputes the cached minimum of the pool: its first least root.
    fn refresh_pool_minimum(&mut self)
        requires
            old(self).core.distinct_domains(),
            forall|k: int| 0 <= k < old(self).decrease_pool@.len() ==> old(self).core.is_live(#[trigger] old(self).decrease_pool@[k]),
        ensures
            final(self).core == old(self).core,
            final(self).decrease_pool == old(self).decrease_pool,
            final(self).height == old(self).height,
            final(self).pool_minimum is None <==> final(self).decrease_pool@.len() == 0,
            final(self).pool_minimum matches Some(m) ==> {
                &&& final(self).decrease_pool@.contains(m)
                &&& forall|k: int|
                    0 <= k < final(self).decrease_pool@.len() ==> final(self).core.nd(m).key.key_rank() <= final(self).core.nd(
                        #[trigger] final(self).decrease_pool@[k],
                    ).key.key_rank()
            },
    {
        let count = self.decrease_pool.len();
        if count == 0 {
            self.pool_minimum = None;
            return;
        }
        let mut best = self.decrease_pool[0];
        let mut j: usize = 1;
        while j < count
            invariant
                count == self.decrease_pool@.len(),
                1 <= j <= count,
                self.core.distinct_domains(),
                forall|k: int| 0 <= k < count ==> self.core.is_live(#[trigger] self.decrease_pool@[k]),
                self.decrease_pool@.contains(best),
                forall|k: int|
                    0 <= k < j ==> self.core.nd(best).key.key_rank() <= self.core.nd(#[trigger] self.decrease_pool@[k]).key.key_rank(),
            decreases count - j,
        {
            proof {
                let k = choose|k: int| 0 <= k < count && self.decrease_pool@[k] == best;
                assert(self.core.is_live(self.decrease_pool@[k]));
                assert(self.core.is_live(self.decrease_pool@[j as int]));
            }
            if self.core.precedes(self.decrease_pool[j], best) {
                best = self.decrease_pool[j];
            }
            j = j + 1;
        }
        self.pool_minimum = Some(best);
    }

    /// Pairs neighbouring trees of `children`, all detached, then links the
    /// winners from the last to the first; returns the resulting root.
    fn combine(&mut self, children: &Vec<NodeRef>) -> (result: Option<NodeRef>)
        requires
            old(self).core.shaped_by(old(self).height@),
            children@.no_duplicates(),
            forall|k: int| 0 <= k < children@.len() ==> old(self).core.detached(#[trigger] children@[k]),
        ensures
            final(self).core.shaped_by(final(self).height@),
            final(self).core.same_nodes(&old(self).core),
            final(self).decrease_pool == old(self).decrease_pool,
            final(self).pool_minimum == old(self).pool_minimum,
            result is None <==> children@.len() == 0,
            result matches Some(m) ==> {
                &&& children@.contains(m)
                &&& final(self).core.detached(m)
                &&& forall|k: int|
                    0 <= k < children@.len() ==> old(self).core.nd(m).key.key_rank() <= old(self).core.nd(
                        #[trigger] children@[k],
                    ).key.key_rank()
            },
            forall|q: NodeRef| #[trigger]
                final(self).core.detached(q) ==> (old(self).core.detached(q) && !children@.contains(q)) || result == Some(q),
            forall|q: NodeRef|
                old(self).core.detached(q) && !children@.contains(q) ==> #[trigger] final(self).core.slot_at(q)
                    == old(self).core.slot_at(q) && final(self).core.detached(q),
    {
        let ghost s0 = self.core;
        let (pairs, lifted) = self.core.pair_up(Ghost(self.height@), children);
        proof {
            self.height@ = lifted@;
        }
        let ghost s1 = self.core;
        let count = pairs.len();
        let mut root: Option<NodeRef> = None;
        let mut k = count;
        while k > 0
            invariant
                count == pairs@.len(),
                k <= count,
                pairs@.no_duplicates(),
                forall|x: int| 0 <= x < count ==> children@.contains(#[trigger] pairs@[x]),
                self.core.shaped_by(self.height@),
                self.core.same_nodes(&s1),
                self.decrease_pool == old(self).decrease_pool,
                self.pool_minimum == old(self).pool_minimum,
                root is None <==> k == count,
                root matches Some(r) ==> {
                    &&& self.core.detached(r)
                    &&& exists|x: int| k <= x < count && pairs@[x] == r
                    &&& forall|x: int| k <= x < count ==> s1.nd(r).key.key_rank() <= s1.nd(#[trigger] pairs@[x]).key.key_rank()
                },
                forall|x: int| 0 <= x < k ==> self.core.detached(#[trigger] pairs@[x]),
                forall|q: NodeRef| #[trigger]
                    self.core.detached(q) ==> (s1.detached(q) && !pairs@.contains(q)) || root == Some(q) || exists|x: int|
                        0 <= x < k && pairs@[x] == q,
                forall|q: NodeRef|
                    s1.detached(q) && !pairs@.contains(q) ==> #[trigger] self.core.slot_at(q) == s1.slot_at(q)
                        && self.core.detached(q),
            decreases k,
        {
            let ghost c0 = self.core;
            let ghost r0 = root;
            k = k - 1;
            let pair = pairs[k];
            proof {
                assert(self.core.detached(pair));
                if let Some(r) = root {
                    let x = choose|x: int| k + 1 <= x < count && pairs@[x] == r;
                    assert(pairs@[x] != pairs@[k as int]);
                }
            }
            let (merged, lifted) = self.core.link(Ghost(self.height@), root, Some(pair));
            proof {
                self.height@ = lifted@;
                self.core.lemma_same_nodes_trans(&c0, &s1);
            }
            root = merged;
            proof {
                let r = root->0;
                assert(self.core.detached(r));
                assert(exists|x: int| k <= x < count && pairs@[x] == r) by {
                    if r == pair {
                        assert(pairs@[k as int] == r);
                    } else {
                        let x = choose|x: int| k + 1 <= x < count && pairs@[x] == r;
                    }
                }
                assert forall|x: int| k <= x < count implies s1.nd(r).key.key_rank() <= s1.nd(#[trigger] pairs@[x]).key.key_rank() by {
                    if x > k {
                        assert(r0 is Some);
                    }
                }
                assert forall|x: int| 0 <= x < k implies self.core.detached(#[trigger] pairs@[x]) by {
                    assert(c0.detached(pairs@[x]));
                    assert(pairs@[x] != pair);
                    if let Some(r) = r0 {
                        let y = choose|y: int| k + 1 <= y < count && pairs@[y] == r;
                        assert(pairs@[x] != pairs@[y]);
                    }
                }
                assert forall|q: NodeRef| #[trigger] self.core.detached(q) implies (s1.detached(q) && !pairs@.contains(q)) || root
                    == Some(q) || exists|x: int| 0 <= x < k && pairs@[x] == q by {
                    if root != Some(q) {
                        assert(c0.detached(q));
                        assert(q != pair);
                        assert(r0 != Some(q));
                        if exists|x: int| 0 <= x < k + 1 && pairs@[x] == q {
                            let x = choose|x: int| 0 <= x < k + 1 && pairs@[x] == q;
                            assert(x != k);
                        }
                    }
                }
                assert forall|q: NodeRef| s1.detached(q) && !pairs@.contains(q) implies #[trigger] self.core.slot_at(q)
                    == s1.slot_at(q) && self.core.detached(q) by {
                    assert(c0.slot_at(q) == s1.slot_at(q));
                    assert(q != pair) by {
                        assert(pairs@[k as int] == pair);
                    }
                    if let Some(r) = r0 {
                        let y = choose|y: int| k + 1 <= y < count && pairs@[y] == r;
                        assert(pairs@[y] == r);
                    }
                }
            }
        }
        proof {
            s1.lemma_same_nodes_trans(&s1, &s0);
            self.core.lemma_same_nodes_trans(&s1, &s0);
            if let Some(r) = root {
                let x = choose|x: int| 0 <= x < count && pairs@[x] == r;
                assert(children@.contains(pairs@[x]));
                assert forall|k2: int| 0 <= k2 < children@.len() implies s0.nd(r).key.key_rank() <= s0.nd(
                    #[trigger] children@[k2],
                ).key.key_rank() by {
                    let y = choose|y: int|
                        0 <= y < pairs@.len() && s0.nd(#[trigger] pairs@[y]).key.key_rank() <= s0.nd(children@[k2]).key.key_rank();
                    assert(s1.nd(r).key.key_rank() <= s1.nd(pairs@[y]).key.key_rank());
                }
            }
            assert forall|q: NodeRef| #[trigger] self.core.detached(q) implies (s0.detached(q) && !children@.contains(q)) || root
                == Some(q) by {
                if root != Some(q) {
                    assert(s1.detached(q));
                    assert(!pairs@.contains(q));
                }
            }
            assert forall|q: NodeRef| s0.detached(q) && !children@.contains(q) implies #[trigger] self.core.slot_at(q)
                == s0.slot_at(q) && self.core.detached(q) by {
                assert(!pairs@.contains(q)) by {
                    if pairs@.contains(q) {
                        let x = choose|x: int| 0 <= x < count && pairs@[x] == q;
                        assert(children@.contains(pairs@[x]));
                    }
                }
            }
            if children@.len() > 0 {
                assert(count > 0);
            }
        }
        root
    }
}

impl<K: HeapKey, V> CostlessMeldPairingHeap<K, V> {
    /// Whether `node` is in the pool.
    fn pool_position(&self, node: NodeRef) -> (result: Option<usize>)
        ensures
            result is None <==> !self.decrease_pool@.contains(node),
            result matches Some(i) ==> i < self.decrease_pool@.len() && self.decrease_pool@[i as int] == node,
    {
        let mut i: usize = 0;
        while i < self.decrease_pool.len()
            invariant
                i <= self.decrease_pool@.len(),
                forall|k: int| 0 <= k < i ==> self.decrease_pool@[k] != node,
            decreases self.decrease_pool@.len() - i,
        {
            if self.decrease_pool[i] == node {
                return Some(i);
            }
            i = i + 1;
        }
        None
    }

    /// The pool size at which the pool is consolidated: two more than the
    /// binary logarithm of the number of entries, counted as at least two.
    fn pool_limit(&self) -> (limit: usize)
        ensures
            exp2((limit - 2) as nat) <= (if self.core.len < 2 {
                2
            } else {
                self.core.len as int
            }) < exp2((limit - 1) as nat),
            limit >= 2,
    {
        let count = if self.core.len < 2 {
            2
        } else {
            self.core.len
        };
        floor_log2(count) as usize + 2
    }

    /// Links every pooled tree into the main tree, leaving a single tree.
    fn consolidate_pool(&mut self)
        requires
            old(self).is_well_formed(),
        ensures
            final(self).is_well_formed(),
            final(self).decrease_pool@.len() == 0,
            final(self).core.single_tree(final(self).height@),
            final(self).core.same_entries(&old(self).core),
            final(self).core.live() == old(self).core.live(),
            final(self).core.len == old(self).core.len,
            final(self).core.active == old(self).core.active,
            forall|h: TreeHandle| final(self).issued(h) == old(self).issued(h),
    {
        if self.decrease_pool.len() == 0 {
            proof {
                assert forall|q: NodeRef| #[trigger] self.core.detached(q) implies self.core.root == Some(q) by {}
                self.core.lemma_same_entries(&self.core);
            }
            return;
        }
        let ghost s0 = self.core;
        let mut pool: Vec<NodeRef> = Vec::new();
        std::mem::swap(&mut pool, &mut self.decrease_pool);
        self.pool_minimum = None;
        proof {
            reveal(TreeCore::shaped_by);
        }
        let pooled = self.combine(&pool);
        let ghost s1 = self.core;
        let root = self.core.root;
        proof {
            if let Some(r) = root {
                assert(s0.detached(r));
                assert(!pool@.contains(r));
                assert(s1.detached(r));
            }
        }
        let (merged, lifted) = self.core.link(Ghost(self.height@), root, pooled);
        proof {
            self.height@ = lifted@;
        }
        let ghost s2 = self.core;
        self.core.root = merged;
        proof {
            s2.lemma_same_nodes_trans(&s1, &s0);
            assert forall|q: NodeRef| #[trigger] s2.detached(q) implies self.core.root == Some(q) by {
                if merged != Some(q) {
                    assert(s1.detached(q));
                    if pooled != Some(q) {
                        assert(s0.detached(q));
                    }
                }
            }
            self.core.lemma_settled_tree(&s2, &s0, self.height@);
            assert forall|q: NodeRef| #[trigger] self.core.detached(q) implies self.core.root == Some(q) || self.decrease_pool@.contains(q) by {}
        }
    }

    /// Adds the detached node `node`, outside the pool and not the root, to
    /// the pool, consolidating the pool when it reaches its limit.
    fn add_to_pool(&mut self, node: NodeRef)
        requires
            old(self).core.wf(),
            old(self).core.ordered_by(old(self).height@),
            old(self).core.active,
            old(self).core.detached(node),
            old(self).core.root != Some(node),
            !old(self).decrease_pool@.contains(node),
            old(self).decrease_pool@.no_duplicates(),
            forall|k: int|
                0 <= k < old(self).decrease_pool@.len() ==> old(self).core.detached(#[trigger] old(self).decrease_pool@[k]),
            old(self).core.root matches Some(r) ==> !old(self).decrease_pool@.contains(r),
            forall|q: NodeRef| #[trigger]
                old(self).core.detached(q) ==> old(self).core.root == Some(q) || old(self).decrease_pool@.contains(q) || q == node,
            old(self).pool_minimum is None <==> old(self).decrease_pool@.len() == 0,
            old(self).pool_minimum matches Some(m) ==> {
                &&& old(self).decrease_pool@.contains(m)
                &&& forall|k: int|
                    0 <= k < old(self).decrease_pool@.len() ==> old(self).core.nd(m).key.key_rank() <= old(self).core.nd(
                        #[trigger] old(self).decrease_pool@[k],
                    ).key.key_rank()
            },
        ensures
            final(self).is_well_formed(),
            final(self).core.same_entries(&old(self).core),
            final(self).core.live() == old(self).core.live(),
            final(self).core.active == old(self).core.active,
            forall|h: TreeHandle| final(self).issued(h) == old(self).issued(h),
    {
        let ghost p0 = self.decrease_pool@;
        self.decrease_pool.push(node);
        let update = match self.pool_minimum {
            None => true,
            Some(minimum) => {
                proof {
                    assert(self.core.detached(minimum));
                }
                self.core.precedes(node, minimum)
            },
        };
        if update {
            self.pool_minimum = Some(node);
        }
        proof {
            assert(self.decrease_pool@ == p0.push(node));
            assert(self.decrease_pool@[p0.len() as int] == node);
            assert forall|k: int| 0 <= k < self.decrease_pool@.len() implies self.core.detached(#[trigger] self.decrease_pool@[k]) by {
                if k < p0.len() {
                    assert(self.decrease_pool@[k] == p0[k]);
                }
            }
            assert forall|q: NodeRef| #[trigger] self.core.detached(q) implies self.core.root == Some(q) || self.decrease_pool@.contains(q) by {
                if p0.contains(q) {
                    let k = choose|k: int| 0 <= k < p0.len() && p0[k] == q;
                    assert(self.decrease_pool@[k] == q);
                }
            }
            if let Some(r) = self.core.root {
                assert(!self.decrease_pool@.contains(r)) by {
                    if self.decrease_pool@.contains(r) {
                        let k = choose|k: int| 0 <= k < self.decrease_pool@.len() && self.decrease_pool@[k] == r;
                        if k < p0.len() {
                            assert(p0[k] == r);
                        }
                    }
                }
            }
            let m = self.pool_minimum->0;
            assert(self.decrease_pool@.contains(m)) by {
                if m == node {
                } else {
                    let k = choose|k: int| 0 <= k < p0.len() && p0[k] == m;
                    assert(self.decrease_pool@[k] == m);
                }
            }
            assert forall|k: int| 0 <= k < self.decrease_pool@.len() implies self.core.nd(m).key.key_rank() <= self.core.nd(
                #[trigger] self.decrease_pool@[k],
            ).key.key_rank() by {
                if k < p0.len() {
                    assert(self.decrease_pool@[k] == p0[k]);
                }
            }
            self.core.lemma_same_entries(&self.core);
        }
        if self.decrease_pool.len() >= self.pool_limit() {
            self.consolidate_pool();
        }
    }
}

impl<K: HeapKey, V> CostlessMeldPairingHeap<K, V> {
    /// The heap is empty exactly when it has no trees.
    proof fn lemma_empty_iff(&self)
        requires
            self.is_well_formed(),
        ensures
            (self.core.root is None && self.decrease_pool@.len() == 0) <==> self.live_entries().len() == 0,
    {
        self.core.lemma_live_len();
        self.core.lemma_forest_least(self.height@);
        if self.core.root is None && self.decrease_pool@.len() == 0 {
            assert forall|q: NodeRef| !self.core.live_nodes@.contains(q) by {
                if self.core.live_nodes@.contains(q) {
                    assert(self.core.is_live(q));
                    let t = choose|t: NodeRef|
                        self.core.is_live(t) && self.core.nd(t).parent is None && self.core.nd(t).key.key_rank()
                            <= self.core.nd(q).key.key_rank();
                    assert(self.core.detached(t));
                }
            }
            assert(self.core.live_nodes@ =~= Set::empty());
        } else {
            let r = if let Some(r) = self.core.root {
                r
            } else {
                self.decrease_pool@[0]
            };
            assert(self.core.detached(r));
            assert(self.core.live_nodes@.contains(r));
            assert(self.core.live_nodes@.len() > 0);
        }
    }

    /// A detached node ranking no later than every detached node holds a
    /// least entry.
    proof fn lemma_least_at(&self, m: NodeRef)
        requires
            self.is_well_formed(),
            self.core.detached(m),
            forall|q: NodeRef| #[trigger] self.core.detached(q) ==> self.core.nd(m).key.key_rank() <= self.core.nd(q).key.key_rank(),
        ensures
            least_entry(self.live_entries(), self.core.handle_of(m), |key: K| key.key_rank()),
            self.live_entries()[self.core.handle_of(m)] == (self.core.nd(m).key, self.core.nd(m).value),
    {
        self.core.lemma_forest_least(self.height@);
        self.core.lemma_handle_of(m);
        let live = self.live_entries();
        let h = self.core.handle_of(m);
        assert forall|other: TreeHandle| live.contains_key(other) implies (|key: K| key.key_rank())(live[h].0) <= (|key: K|
            key.key_rank())(live[other].0) by {
            let q = TreeCore::<K, V>::ref_of(other);
            assert(self.core.is_live(q));
            let t = choose|t: NodeRef|
                self.core.is_live(t) && self.core.nd(t).parent is None && self.core.nd(t).key.key_rank()
                    <= self.core.nd(q).key.key_rank();
            assert(self.core.detached(t));
        }
    }

    /// Creates an empty heap.
    pub fn new() -> (heap: Self)
        ensures
            heap.is_well_formed(),
            !heap.consumed(),
            heap.live_entries() == Map::<TreeHandle, (K, V)>::empty(),
    {
        let heap = CostlessMeldPairingHeap {
            core: TreeCore::new(),
            decrease_pool: Vec::new(),
            pool_minimum: None,
            height: Ghost(|q: NodeRef| 0nat),
        };
        proof {
            assert forall|q: NodeRef| !heap.core.is_live(q) by {
                assert(!heap.core.live_nodes@.contains(q));
            }
        }
        heap
    }

    /// Inserts an entry unless this heap was consumed as a meld donor.
    pub fn try_insert(&mut self, key: K, value: V) -> (result: Result<TreeHandle, MeldError>)
        requires
            old(self).is_well_formed(),
            old(self).live_entries().len() < usize::MAX,
        ensures
            final(self).is_well_formed(),
            final(self).consumed() == old(self).consumed(),
            forall|h: TreeHandle| final(self).issued(h) == old(self).issued(h),
            result is Err <==> old(self).consumed(),
            result matches Err(e) ==> e == MeldError::ReceiverConsumed && final(self).live_entries() == old(self).live_entries(),
            result matches Ok(handle) ==> {
                &&& final(self).issued(handle)
                &&& !old(self).live_entries().contains_key(handle)
                &&& final(self).live_entries() == old(self).live_entries().insert(handle, (key, value))
            },
    {
        if !self.core.active {
            return Err(MeldError::ReceiverConsumed);
        }
        Ok(self.insert(key, value))
    }

    /// Inserts an entry and returns its checked handle; the heap must
    /// accept entries.
    pub fn insert(&mut self, key: K, value: V) -> (handle: TreeHandle)
        requires
            old(self).is_well_formed(),
            !old(self).consumed(),
            old(self).live_entries().len() < usize::MAX,
        ensures
            final(self).is_well_formed(),
            !final(self).consumed(),
            forall|h: TreeHandle| final(self).issued(h) == old(self).issued(h),
            final(self).issued(handle),
            !old(self).live_entries().contains_key(handle),
            final(self).live_entries() == old(self).live_entries().insert(handle, (key, value)),
    {
        proof {
            self.core.lemma_live_len();
            reveal(TreeCore::shaped_by);
        }
        let ghost s0 = self.core;
        let node = self.core.insert_detached(Ghost(self.height@), key, value);
        let ghost s1 = self.core;
        let root = self.core.root;
        proof {
            if let Some(r) = root {
                assert(s0.detached(r));
            }
        }
        let (merged, lifted) = self.core.link(Ghost(self.height@), root, Some(node));
        proof {
            self.height@ = lifted@;
        }
        let ghost s2 = self.core;
        self.core.root = merged;
        proof {
            reveal(TreeCore::shaped_by);
            self.core.lemma_rerooted(&s2, &s1);
            assert forall|q: NodeRef| #[trigger] self.core.slot_at(q) == s2.slot_at(q) by {}
            self.core.lemma_ordered_same_slots(&s2, self.height@);
            assert forall|k: int| 0 <= k < self.decrease_pool@.len() implies self.core.detached(#[trigger] self.decrease_pool@[k]) by {
                let p = self.decrease_pool@[k];
                assert(s0.detached(p));
                assert(s1.detached(p));
                assert(p != node);
                assert(Some(p) != root);
                assert(s2.detached(p));
            }
            assert forall|q: NodeRef| #[trigger] self.core.detached(q) implies self.core.root == Some(q) || self.decrease_pool@.contains(q) by {
                assert(s2.detached(q));
                if merged != Some(q) {
                    assert(s1.detached(q));
                    assert(s0.detached(q));
                }
            }
            if let Some(m) = self.pool_minimum {
                assert forall|k: int| 0 <= k < self.decrease_pool@.len() implies self.core.nd(m).key.key_rank() <= self.core.nd(
                    #[trigger] self.decrease_pool@[k],
                ).key.key_rank() by {
                    let p = self.decrease_pool@[k];
                    assert(s0.detached(p));
                    assert(s0.nd(m).key.key_rank() <= s0.nd(p).key.key_rank());
                    assert(s0.detached(m));
                    assert(s1.slot_at(m) == s0.slot_at(m));
                    assert(s1.slot_at(p) == s0.slot_at(p));
                }
            }
            assert(self.core.is_live(node));
        }
        self.core.handle(node)
    }

    /// Returns the handle, key, and value of a minimum entry.
    pub fn peek_entry(&self) -> (result: Option<(TreeHandle, &K, &V)>)
        requires
            self.is_well_formed(),
        ensures
            result is None <==> self.live_entries().len() == 0,
            result matches Some((h, k, v)) ==> {
                &&& least_entry(self.live_entries(), h, |key: K| key.key_rank())
                &&& self.live_entries()[h] == (*k, *v)
            },
    {
        proof {
            self.lemma_empty_iff();
            if let Some(r) = self.core.root {
                assert(self.core.is_live(r));
                assert(self.core.live_nodes@.contains(r));
            }
        }
        if !self.core.active {
            return None;
        }
        match self.minimum_node() {
            None => None,
            Some(root) => {
                proof {
                    self.lemma_least_at(root);
                }
                let node = self.core.node(root);
                Some((self.core.handle(root), &node.key, &node.value))
            },
        }
    }
}

impl<K: HeapKey, V> CostlessMeldPairingHeap<K, V> {
    /// Removes the entry at the root of a heap whose pool is empty.
    fn pop_root(&mut self) -> (entry: (K, V))
        requires
            old(self).is_well_formed(),
            old(self).decrease_pool@.len() == 0,
            old(self).core.root is Some,
        ensures
            final(self).is_well_formed(),
            final(self).consumed() == old(self).consumed(),
            forall|h: TreeHandle| final(self).issued(h) == old(self).issued(h),
            least_entry(old(self).live_entries(), old(self).core.handle_of(old(self).core.root->0), |key: K| key.key_rank()),
            entry == old(self).live_entries()[old(self).core.handle_of(old(self).core.root->0)],
            final(self).live_entries() == old(self).live_entries().remove(old(self).core.handle_of(old(self).core.root->0)),
    {
        proof {
            assert forall|q: NodeRef| #[trigger] self.core.detached(q) implies self.core.root == Some(q) by {}
            self.core.lemma_single_tree_least(self.height@);
            self.core.lemma_tree_shaped(self.height@);
        }
        let ghost s0 = self.core;
        let root = self.core.root.unwrap();
        let children = self.core.detach_all(Ghost(self.height@), root);
        let ghost s1 = self.core;
        let merged = self.combine(&children);
        let ghost s2 = self.core;
        proof {
            s2.lemma_same_nodes_trans(&s1, &s0);
            assert(s1.detached(root));
            assert(s2.slot_at(root) == s1.slot_at(root));
            reveal(TreeCore::shaped_by);
        }
        self.core.root = merged;
        proof {
            self.core.lemma_rerooted(&s2, &s0);
            assert forall|q: NodeRef| #[trigger] self.core.slot_at(q) == s2.slot_at(q) by {}
            self.core.lemma_ordered_same_slots(&s2, self.height@);
            reveal(TreeCore::shaped_by);
            assert forall|q: NodeRef| #[trigger] self.core.detached(q) implies s2.detached(q) by {}
        }
        let ghost s3 = self.core;
        let entry = self.core.remove_detached(Ghost(self.height@), root);
        proof {
            assert forall|q: NodeRef| #[trigger] self.core.detached(q) implies self.core.root == Some(q) by {
                assert(s3.detached(q));
                assert(s2.detached(q));
                if merged != Some(q) {
                    assert(s1.detached(q));
                    if !children@.contains(q) {
                        assert(s0.detached(q));
                    }
                }
            }
            reveal(TreeCore::shaped_by);
        }
        entry
    }

    /// Removes and returns a minimum entry.
    pub fn pop_entry(&mut self) -> (result: Option<(K, V)>)
        requires
            old(self).is_well_formed(),
        ensures
            final(self).is_well_formed(),
            final(self).consumed() == old(self).consumed(),
            forall|h: TreeHandle| final(self).issued(h) == old(self).issued(h),
            result is None <==> old(self).live_entries().len() == 0,
            result is None ==> final(self).live_entries() == old(self).live_entries(),
            result matches Some(e) ==> exists|h: TreeHandle| {
                &&& least_entry(old(self).live_entries(), h, |key: K| key.key_rank())
                &&& old(self).live_entries()[h] == e
                &&& final(self).live_entries() == old(self).live_entries().remove(h)
            },
    {
        proof {
            self.core.lemma_live_len();
        }
        if !self.core.active || self.core.len == 0 {
            return None;
        }
        self.consolidate_pool();
        proof {
            self.core.lemma_single_tree_least(self.height@);
            self.core.lemma_live_len();
        }
        let entry = self.pop_root();
        proof {
            let h = self.core.handle_of(self.core.root->0);
        }
        Some(entry)
    }

    /// Returns the key identified by `handle`.
    pub fn key(&self, handle: TreeHandle) -> (result: Result<&K, InvalidHandle>)
        requires
            self.is_well_formed(),
        ensures
            checked(self.issued(handle), self.live_entries().contains_key(handle), result),
            result matches Ok(k) ==> *k == self.live_entries()[handle].0,
    {
        self.core.key(handle)
    }

    /// Returns the value identified by `handle`.
    pub fn value(&self, handle: TreeHandle) -> (result: Result<&V, InvalidHandle>)
        requires
            self.is_well_formed(),
        ensures
            checked(self.issued(handle), self.live_entries().contains_key(handle), result),
            result matches Ok(v) ==> *v == self.live_entries()[handle].1,
    {
        self.core.value(handle)
    }

    /// Every state that changes values alone keeps the invariant.
    proof fn lemma_values_changed(&self)
        requires
            self.is_well_formed(),
        ensures
            forall|after: TreeCore<K, V>|
                #[trigger] after.same_shape(&self.core) && after.wf() && after.active == self.core.active && after.len
                    == self.core.len && after.root == self.core.root ==> (CostlessMeldPairingHeap {
                    core: after,
                    decrease_pool: self.decrease_pool,
                    pool_minimum: self.pool_minimum,
                    height: self.height,
                }).is_well_formed(),
    {
        assert forall|after: TreeCore<K, V>|
            #[trigger] after.same_shape(&self.core) && after.wf() && after.active == self.core.active && after.len
                == self.core.len && after.root == self.core.root implies (CostlessMeldPairingHeap {
                core: after,
                decrease_pool: self.decrease_pool,
                pool_minimum: self.pool_minimum,
                height: self.height,
            }).is_well_formed() by {
            after.lemma_ordered_same_shape(&self.core, self.height@);
            assert forall|q: NodeRef| #[trigger] after.detached(q) == self.core.detached(q) by {
                if self.core.is_live(q) {
                    assert(after.is_live(q));
                    assert(after.nd(q) == TreeCore::<K, V>::with_value(self.core.nd(q), after.nd(q).value));
                }
            }
            assert forall|q: NodeRef| #[trigger] self.core.is_live(q) implies after.nd(q).key == self.core.nd(q).key by {
                assert(after.is_live(q));
                assert(after.nd(q) == TreeCore::<K, V>::with_value(self.core.nd(q), after.nd(q).value));
            }
            if let Some(m) = self.pool_minimum {
                assert(self.core.detached(m));
                assert forall|k: int| 0 <= k < self.decrease_pool@.len() implies after.nd(m).key.key_rank() <= after.nd(
                    #[trigger] self.decrease_pool@[k],
                ).key.key_rank() by {
                    assert(self.core.detached(self.decrease_pool@[k]));
                }
            }
        }
    }

    /// Returns mutable access to the value identified by `handle`.
    pub fn value_mut(&mut self, handle: TreeHandle) -> (result: Result<&mut V, InvalidHandle>)
        requires
            old(self).is_well_formed(),
        ensures
            checked(old(self).issued(handle), old(self).live_entries().contains_key(handle), result),
            result matches Ok(v) ==> {
                &&& *v == old(self).live_entries()[handle].1
                &&& final(self).live_entries() == old(self).live_entries().insert(
                    handle,
                    (old(self).live_entries()[handle].0, *final(v)),
                )
                &&& final(self).is_well_formed()
                &&& final(self).consumed() == old(self).consumed()
                &&& forall|h: TreeHandle| final(self).issued(h) == old(self).issued(h)
            },
            result is Err ==> *final(self) == *old(self),
    {
        proof {
            self.lemma_values_changed();
        }
        self.core.value_mut(handle)
    }

    /// Returns the number of live entries.
    pub fn len(&self) -> (result: usize)
        requires
            self.is_well_formed(),
        ensures
            result == self.live_entries().len(),
    {
        proof {
            self.core.lemma_live_len();
        }
        self.core.len
    }

    /// Returns whether the heap has no entries.
    pub fn is_empty(&self) -> (result: bool)
        requires
            self.is_well_formed(),
        ensures
            result == (self.live_entries().len() == 0),
    {
        proof {
            self.core.lemma_live_len();
        }
        self.core.len == 0
    }

    /// Removes every entry and invalidates outstanding handles; a heap
    /// consumed by a meld is left as it is.
    pub fn clear(&mut self)
        requires
            old(self).is_well_formed(),
        ensures
            final(self).is_well_formed(),
            final(self).consumed() == old(self).consumed(),
            forall|h: TreeHandle| final(self).issued(h) == old(self).issued(h),
            old(self).consumed() ==> final(self).live_entries() == old(self).live_entries(),
            !old(self).consumed() ==> final(self).live_entries() == Map::<TreeHandle, (K, V)>::empty(),
    {
        if self.core.active {
            self.core.clear();
            self.decrease_pool.clear();
            self.pool_minimum = None;
        }
    }
}

impl<K: HeapKey, V> CostlessMeldPairingHeap<K, V> {
    /// Decreases an entry's key; an entry that then precedes its parent is
    /// cut and deferred to the pool.
    pub fn decrease_key(&mut self, handle: TreeHandle, key: K) -> (result: Result<(), DecreaseKeyError>)
        requires
            old(self).is_well_formed(),
        ensures
            final(self).is_well_formed(),
            final(self).consumed() == old(self).consumed(),
            forall|h: TreeHandle| final(self).issued(h) == old(self).issued(h),
            match result {
                Ok(()) => {
                    &&& old(self).issued(handle)
                    &&& old(self).live_entries().contains_key(handle)
                    &&& key.key_rank() <= old(self).live_entries()[handle].0.key_rank()
                    &&& final(self).live_entries() == old(self).live_entries().insert(
                        handle,
                        (key, old(self).live_entries()[handle].1),
                    )
                },
                Err(DecreaseKeyError::InvalidHandle(e)) => {
                    &&& checked(
                        old(self).issued(handle),
                        old(self).live_entries().contains_key(handle),
                        Err::<(), InvalidHandle>(e),
                    )
                    &&& final(self).live_entries() == old(self).live_entries()
                },
                Err(DecreaseKeyError::NotDecreased) => {
                    &&& old(self).issued(handle)
                    &&& old(self).live_entries().contains_key(handle)
                    &&& key.key_rank() > old(self).live_entries()[handle].0.key_rank()
                    &&& final(self).live_entries() == old(self).live_entries()
                },
                Err(DecreaseKeyError::InvalidKey) => false,
            },
    {
        let ghost s0 = self.core;
        let (node, equal) = match self.core.set_key(handle, key) {
            Ok(found) => found,
            Err(error) => return Err(error),
        };
        let ghost s1 = self.core;
        proof {
            assert forall|q: NodeRef| #[trigger] self.core.is_live(q) && (q != node || equal || s0.detached(node)) implies self.core.edge_ordered(
                self.height@,
                q,
            ) by {
                if q != node {
                    assert(self.core.slot_at(q) == s0.slot_at(q));
                }
                assert(s0.is_live(q));
                assert(s0.node_linked(q));
                if let Some(p) = self.core.nd(q).parent {
                    if p != node {
                        assert(self.core.slot_at(p) == s0.slot_at(p));
                    }
                }
            }
            assert forall|q: NodeRef| #[trigger] self.core.detached(q) == s0.detached(q) by {
                if q != node {
                    assert(self.core.slot_at(q) == s0.slot_at(q));
                }
            }
            assert forall|q: NodeRef| q != node && #[trigger] s0.is_live(q) implies self.core.nd(q).key == s0.nd(q).key by {
                assert(self.core.slot_at(q) == s0.slot_at(q));
            }
        }
        if equal {
            proof {
                assert(self.core.ordered_by(self.height@)) by {
                    assert forall|q: NodeRef| #[trigger] self.core.is_live(q) && self.core.nd(q).parent is Some implies {
                        &&& self.core.nd(self.core.nd(q).parent->0).key.key_rank() <= self.core.nd(q).key.key_rank()
                        &&& self.height@(q) < self.height@(self.core.nd(q).parent->0)
                    } by {
                        assert(self.core.edge_ordered(self.height@, q));
                    }
                }
                if let Some(m) = self.pool_minimum {
                    assert forall|k: int| 0 <= k < self.decrease_pool@.len() implies self.core.nd(m).key.key_rank() <= self.core.nd(
                        #[trigger] self.decrease_pool@[k],
                    ).key.key_rank() by {
                        assert(s0.detached(self.decrease_pool@[k]));
                        assert(s0.detached(m));
                    }
                }
            }
            return Ok(());
        }
        if self.pool_position(node).is_some() {
            proof {
                assert(s0.detached(node)) by {
                    let k = choose|k: int| 0 <= k < self.decrease_pool@.len() && self.decrease_pool@[k] == node;
                }
                assert(self.core.ordered_by(self.height@)) by {
                    assert forall|q: NodeRef| #[trigger] self.core.is_live(q) && self.core.nd(q).parent is Some implies {
                        &&& self.core.nd(self.core.nd(q).parent->0).key.key_rank() <= self.core.nd(q).key.key_rank()
                        &&& self.height@(q) < self.height@(self.core.nd(q).parent->0)
                    } by {
                        assert(self.core.edge_ordered(self.height@, q));
                    }
                }
                assert forall|k: int| 0 <= k < self.decrease_pool@.len() implies self.core.is_live(#[trigger] self.decrease_pool@[k]) by {
                    assert(s0.detached(self.decrease_pool@[k]));
                }
            }
            self.refresh_pool_minimum();
            return Ok(());
        }
        if self.core.root == Some(node) {
            proof {
                assert(s0.detached(node));
                assert(self.core.ordered_by(self.height@)) by {
                    assert forall|q: NodeRef| #[trigger] self.core.is_live(q) && self.core.nd(q).parent is Some implies {
                        &&& self.core.nd(self.core.nd(q).parent->0).key.key_rank() <= self.core.nd(q).key.key_rank()
                        &&& self.height@(q) < self.height@(self.core.nd(q).parent->0)
                    } by {
                        assert(self.core.edge_ordered(self.height@, q));
                    }
                }
                if let Some(m) = self.pool_minimum {
                    assert forall|k: int| 0 <= k < self.decrease_pool@.len() implies self.core.nd(m).key.key_rank() <= self.core.nd(
                        #[trigger] self.decrease_pool@[k],
                    ).key.key_rank() by {
                        assert(s0.detached(self.decrease_pool@[k]));
                        assert(s0.detached(m));
                    }
                }
            }
            return Ok(());
        }
        proof {
            assert(!s0.detached(node));
            assert(s0.node_linked(node));
        }
        let parent = self.core.node(node).parent.unwrap();
        proof {
            assert(self.core.is_live(parent)) by {
                assert(self.core.node_linked(node));
            }
            if let Some(m) = self.pool_minimum {
                assert(s0.detached(m));
                assert forall|k: int| 0 <= k < self.decrease_pool@.len() implies self.core.nd(m).key.key_rank() <= self.core.nd(
                    #[trigger] self.decrease_pool@[k],
                ).key.key_rank() by {
                    assert(s0.detached(self.decrease_pool@[k]));
                }
            }
        }
        if self.core.precedes(node, parent) {
            self.core.cut_out(Ghost(self.height@), node);
            proof {
                reveal(TreeCore::shaped_by);
                assert forall|k: int| 0 <= k < self.decrease_pool@.len() implies self.core.detached(#[trigger] self.decrease_pool@[k]) by {
                    assert(s0.detached(self.decrease_pool@[k]));
                }
                if let Some(r) = self.core.root {
                    assert(s0.detached(r));
                    assert(self.core.detached(r));
                }
                self.core.lemma_same_nodes_wf(&s1);
            }
            self.add_to_pool(node);
        } else {
            proof {
                assert(self.core.ordered_by(self.height@)) by {
                    assert forall|q: NodeRef| #[trigger] self.core.is_live(q) && self.core.nd(q).parent is Some implies {
                        &&& self.core.nd(self.core.nd(q).parent->0).key.key_rank() <= self.core.nd(q).key.key_rank()
                        &&& self.height@(q) < self.height@(self.core.nd(q).parent->0)
                    } by {
                        if q != node {
                            assert(self.core.edge_ordered(self.height@, q));
                        } else {
                            assert(s0.is_live(node));
                        }
                    }
                }
            }
        }
        Ok(())
    }
}

impl<K: HeapKey, V> CostlessMeldPairingHeap<K, V> {
    /// Removes the pooled root at position `index` of the pool, melding its
    /// children into the main tree.
    fn delete_pooled(&mut self, index: usize) -> (entry: (K, V))
        requires
            old(self).is_well_formed(),
            index < old(self).decrease_pool@.len(),
        ensures
            final(self).is_well_formed(),
            final(self).core.active == old(self).core.active,
            forall|h: TreeHandle| final(self).issued(h) == old(self).issued(h),
            entry == old(self).live_entries()[old(self).core.handle_of(old(self).decrease_pool@[index as int])],
            final(self).live_entries() == old(self).live_entries().remove(
                old(self).core.handle_of(old(self).decrease_pool@[index as int]),
            ),
    {
        let ghost s0 = self.core;
        let ghost p0 = self.decrease_pool@;
        let node = self.decrease_pool.swap_remove(index);
        let ghost p1 = self.decrease_pool@;
        proof {
            reveal(TreeCore::shaped_by);
            assert(p1 == p0.update(index as int, p0.last()).drop_last());
            assert forall|q: NodeRef| #[trigger] p1.contains(q) <==> (p0.contains(q) && q != node) by {
                if p1.contains(q) {
                    let k = choose|k: int| 0 <= k < p1.len() && p1[k] == q;
                    if k == index {
                        assert(q == p0[p0.len() - 1]);
                        assert(p0.len() - 1 != index);
                    } else {
                        assert(q == p0[k]);
                    }
                }
                if p0.contains(q) && q != node {
                    let k = choose|k: int| 0 <= k < p0.len() && p0[k] == q;
                    if k == p0.len() - 1 {
                        assert(p1[index as int] == q);
                    } else {
                        assert(k != index);
                        assert(p1[k] == q);
                    }
                }
            }
            assert(p1.no_duplicates()) by {
                assert forall|a: int, b: int| 0 <= a < p1.len() && 0 <= b < p1.len() && a != b implies p1[a] != p1[b] by {
                    let ia = if a == index { p0.len() - 1 } else { a };
                    let ib = if b == index { p0.len() - 1 } else { b };
                    assert(p1[a] == p0[ia]);
                    assert(p1[b] == p0[ib]);
                }
            }
            assert(s0.detached(node));
        }
        let children = self.core.detach_all(Ghost(self.height@), node);
        let ghost s1 = self.core;
        let replacement = self.combine(&children);
        let ghost s2 = self.core;
        let root = self.core.root;
        proof {
            if let Some(r) = root {
                assert(s0.detached(r));
                assert(r != node);
                assert(s1.detached(r));
                assert(!children@.contains(r));
                assert(s2.detached(r));
            }
            if let Some(m) = replacement {
                assert(children@.contains(m));
            }
        }
        let (top, lifted) = self.core.link(Ghost(self.height@), root, replacement);
        proof {
            self.height@ = lifted@;
        }
        let ghost s3 = self.core;
        proof {
            s2.lemma_same_nodes_trans(&s1, &s0);
            s3.lemma_same_nodes_trans(&s2, &s0);
            assert(s1.detached(node));
            assert(s2.detached(node));
            assert(s3.detached(node));
        }
        self.core.root = top;
        proof {
            self.core.lemma_rerooted(&s3, &s0);
            assert forall|q: NodeRef| #[trigger] self.core.slot_at(q) == s3.slot_at(q) by {}
            self.core.lemma_ordered_same_slots(&s3, self.height@);
            reveal(TreeCore::shaped_by);
            assert forall|q: NodeRef| #[trigger] self.core.detached(q) == s3.detached(q) by {}
            assert(self.core.nd(node).children@.len() == 0) by {
                assert(s2.slot_at(node) == s1.slot_at(node));
                assert(s3.slot_at(node) == s2.slot_at(node));
            }
            assert(top != Some(node));
        }
        let ghost s4 = self.core;
        let entry = self.core.remove_detached(Ghost(self.height@), node);
        proof {
            reveal(TreeCore::shaped_by);
            assert forall|k: int| 0 <= k < p1.len() implies self.core.detached(#[trigger] p1[k]) && self.core.is_live(p1[k]) by {
                let q = p1[k];
                assert(p1.contains(q));
                assert(p0.contains(q));
                let k2 = choose|k2: int| 0 <= k2 < p0.len() && p0[k2] == q;
                assert(old(self).decrease_pool@[k2] == q);
                assert(old(self).core.detached(old(self).decrease_pool@[k2]));
                assert(s0.detached(q));
                assert(q != node);
                assert(!children@.contains(q)) by {
                    if children@.contains(q) {
                        let i = choose|i: int| 0 <= i < children@.len() && children@[i] == q;
                    }
                }
                assert(s1.detached(q));
                assert(s2.detached(q));
                assert(Some(q) != root);
                assert(Some(q) != replacement);
                assert(s3.detached(q));
                assert(s4.detached(q));
                assert(self.core.detached(q));
                assert(self.core.detached(p1[k]));
            }
            if let Some(t) = self.core.root {
                assert(!p1.contains(t)) by {
                    if p1.contains(t) {
                        assert(p0.contains(t));
                        if Some(t) == root {
                        } else {
                            assert(children@.contains(t));
                            let i = choose|i: int| 0 <= i < children@.len() && children@[i] == t;
                            assert(!s0.detached(children@[i]));
                        }
                    }
                }
            }
            assert forall|q: NodeRef| #[trigger] self.core.detached(q) implies self.core.root == Some(q) || p1.contains(q) by {
                assert(s4.detached(q));
                assert(s3.detached(q));
                if top != Some(q) {
                    assert(s2.detached(q));
                    if replacement != Some(q) {
                        assert(s1.detached(q));
                        if !children@.contains(q) {
                            assert(s0.detached(q));
                        }
                    }
                }
            }
        }
        self.refresh_pool_minimum();
        entry
    }

    /// Removes and returns the entry identified by `handle`.
    pub fn delete(&mut self, handle: TreeHandle) -> (result: Result<(K, V), InvalidHandle>)
        requires
            old(self).is_well_formed(),
        ensures
            final(self).is_well_formed(),
            final(self).consumed() == old(self).consumed(),
            forall|h: TreeHandle| final(self).issued(h) == old(self).issued(h),
            checked(old(self).issued(handle), old(self).live_entries().contains_key(handle), result),
            result matches Ok(e) ==> {
                &&& e == old(self).live_entries()[handle]
                &&& final(self).live_entries() == old(self).live_entries().remove(handle)
            },
            result is Err ==> *final(self) == *old(self),
    {
        let node = self.core.validate(handle)?;
        if let Some(index) = self.pool_position(node) {
            return Ok(self.delete_pooled(index));
        }
        self.consolidate_pool();
        proof {
            self.core.lemma_single_tree_least(self.height@);
            self.core.lemma_tree_shaped(self.height@);
        }
        if self.core.root == Some(node) {
            return Ok(self.pop_root());
        }
        let ghost s0 = self.core;
        proof {
            assert(self.core.is_live(node));
            assert(!s0.detached(node));
            assert(s0.detached(s0.root->0));
            assert forall|q: NodeRef| #[trigger] s0.is_live(q) && q != node implies s0.edge_ordered(self.height@, q) by {}
        }
        self.core.cut_out(Ghost(self.height@), node);
        let ghost s1 = self.core;
        let children = self.core.detach_all(Ghost(self.height@), node);
        let ghost s2 = self.core;
        let replacement = self.combine(&children);
        let ghost s3 = self.core;
        let root = self.core.root;
        proof {
            assert(s0.root is Some);
            assert(s1.detached(s0.root->0));
            assert(s2.detached(root->0));
            assert(!children@.contains(root->0));
            assert(s2.detached(node));
            assert(!children@.contains(node));
        }
        let (top, lifted) = self.core.link(Ghost(self.height@), root, replacement);
        proof {
            self.height@ = lifted@;
        }
        let ghost s4 = self.core;
        proof {
            s3.lemma_same_nodes_trans(&s2, &s1);
            s3.lemma_same_nodes_trans(&s1, &s0);
            s4.lemma_same_nodes_trans(&s3, &s0);
            reveal(TreeCore::shaped_by);
        }
        self.core.root = top;
        proof {
            self.core.lemma_rerooted(&s4, &s0);
            assert forall|q: NodeRef| #[trigger] self.core.slot_at(q) == s4.slot_at(q) by {}
            self.core.lemma_ordered_same_slots(&s4, self.height@);
            assert forall|q: NodeRef| #[trigger] self.core.detached(q) == s4.detached(q) by {}
            assert(s4.detached(node)) by {
                assert(s3.detached(node));
            }
            assert(s4.nd(node).children@.len() == 0) by {
                assert(s3.slot_at(node) == s2.slot_at(node));
                assert(s4.slot_at(node) == s3.slot_at(node));
            }
        }
        let ghost s5 = self.core;
        let entry = self.core.remove_detached(Ghost(self.height@), node);
        proof {
            assert forall|q: NodeRef| #[trigger] self.core.detached(q) implies self.core.root == Some(q) by {
                assert(s5.detached(q));
                assert(s4.detached(q));
                if top != Some(q) {
                    assert(s3.detached(q));
                    if replacement != Some(q) {
                        assert(s2.detached(q));
                        if !children@.contains(q) {
                            assert(s1.detached(q));
                            assert(s0.detached(q));
                        }
                    }
                }
            }
            reveal(TreeCore::shaped_by);
        }
        Ok(entry)
    }
}

impl<K: HeapKey, V> CostlessMeldPairingHeap<K, V> {
    /// Melds `other` into this heap.
    ///
    /// The donor is consumed on success: it keeps no entries and accepts
    /// none, while its handles stay valid through this heap.
    pub fn meld(&mut self, other: &mut Self) -> (result: Result<(), MeldError>)
        requires
            old(self).is_well_formed(),
            old(other).is_well_formed(),
            old(self).live_entries().len() + old(other).live_entries().len() <= usize::MAX,
        ensures
            final(self).is_well_formed(),
            final(other).is_well_formed(),
            match result {
                Ok(()) => {
                    &&& !old(self).consumed()
                    &&& !old(other).consumed()
                    &&& forall|h: TreeHandle| !(old(self).issued(h) && old(other).issued(h))
                    &&& old(self).live_entries().dom().disjoint(old(other).live_entries().dom())
                    &&& final(self).live_entries() == old(self).live_entries().union_prefer_right(old(other).live_entries())
                    &&& forall|h: TreeHandle| final(self).issued(h) == (old(self).issued(h) || old(other).issued(h))
                    &&& final(other).live_entries() == Map::<TreeHandle, (K, V)>::empty()
                    &&& final(other).consumed()
                    &&& forall|h: TreeHandle| !final(other).issued(h)
                    &&& !final(self).consumed()
                },
                Err(MeldError::ReceiverConsumed) => old(self).consumed(),
                Err(MeldError::DonorConsumed) => !old(self).consumed() && old(other).consumed(),
                Err(MeldError::DomainClash) => {
                    &&& !old(self).consumed()
                    &&& !old(other).consumed()
                    &&& exists|h: TreeHandle| old(self).issued(h) && old(other).issued(h)
                },
            },
            result is Err ==> *final(self) == *old(self) && *final(other) == *old(other),
    {
        if !self.core.active {
            return Err(MeldError::ReceiverConsumed);
        }
        if !other.core.active {
            return Err(MeldError::DonorConsumed);
        }
        if self.core.shares_domain(&other.core) {
            proof {
                let d = choose|d: u64| self.core.has_domain(d) && other.core.has_domain(d);
                let h = TreeHandle { domain: d, slot: 0, generation: 0 };
                assert(self.issued(h) && other.issued(h));
            }
            return Err(MeldError::DomainClash);
        }
        proof {
            self.core.lemma_live_len();
            other.core.lemma_live_len();
        }
        let other_root = other.core.root;
        let ghost s0 = self.core;
        let ghost o0 = other.core;
        let ghost ps = self.decrease_pool@;
        let ghost po = other.decrease_pool@;
        let joined = self.core.absorb(Ghost(self.height@), &mut other.core, Ghost(other.height@));
        proof {
            self.height@ = joined@;
        }
        let ghost s1 = self.core;
        let root = self.core.root;
        proof {
            reveal(TreeCore::shaped_by);
            if let Some(r) = s0.root {
                assert(s0.detached(r));
                assert(s1.detached(r));
                if let Some(t) = o0.root {
                    assert(o0.detached(t));
                    assert(s0.is_live(r));
                    assert(!o0.is_live(r));
                }
            }
            if let Some(t) = o0.root {
                assert(o0.detached(t));
                assert(s1.detached(t));
            }
        }
        let (merged, lifted) = self.core.link(Ghost(self.height@), root, other_root);
        proof {
            self.height@ = lifted@;
        }
        let ghost s2 = self.core;
        self.core.root = merged;
        self.decrease_pool.append(&mut other.decrease_pool);
        other.pool_minimum = None;
        proof {
            reveal(TreeCore::shaped_by);
            self.core.lemma_rerooted(&s2, &s1);
            assert forall|q: NodeRef| #[trigger] self.core.slot_at(q) == s2.slot_at(q) by {}
            self.core.lemma_ordered_same_slots(&s2, self.height@);
            let pool = self.decrease_pool@;
            assert(pool == ps + po);
            assert forall|k: int| 0 <= k < pool.len() implies self.core.detached(#[trigger] pool[k]) && self.core.is_live(pool[k]) by {
                let q = pool[k];
                if k < ps.len() {
                    assert(pool[k] == ps[k]);
                    assert(old(self).decrease_pool@[k] == q);
                    assert(s0.detached(q));
                    assert(s0.root != Some(q));
                    assert(!o0.is_live(q));
                } else {
                    assert(pool[k] == po[k - ps.len()]);
                    assert(old(other).decrease_pool@[k - ps.len()] == q);
                    assert(o0.detached(q));
                    assert(o0.root != Some(q));
                    assert(!s0.is_live(q));
                }
                assert(s1.detached(q));
                assert(s2.detached(q));
            }
            assert(pool.no_duplicates()) by {
                assert forall|a: int, b: int| 0 <= a < pool.len() && 0 <= b < pool.len() && a != b implies pool[a] != pool[b] by {
                    if a < ps.len() && b >= ps.len() {
                        assert(old(self).decrease_pool@[a] == pool[a]);
                        assert(s0.detached(pool[a]));
                        assert(old(other).decrease_pool@[b - ps.len()] == pool[b]);
                        assert(o0.detached(pool[b]));
                        assert(!o0.is_live(pool[a]));
                    } else if a >= ps.len() && b < ps.len() {
                        assert(old(self).decrease_pool@[b] == pool[b]);
                        assert(s0.detached(pool[b]));
                        assert(old(other).decrease_pool@[a - ps.len()] == pool[a]);
                        assert(o0.detached(pool[a]));
                        assert(!o0.is_live(pool[b]));
                    } else if a < ps.len() {
                        assert(pool[a] == ps[a]);
                        assert(pool[b] == ps[b]);
                    } else {
                        assert(pool[a] == po[a - ps.len()]);
                        assert(pool[b] == po[b - ps.len()]);
                    }
                }
            }
            assert forall|q: NodeRef| #[trigger] self.core.detached(q) implies self.core.root == Some(q) || pool.contains(q) by {
                assert(s2.detached(q));
                if merged != Some(q) {
                    assert(s1.detached(q));
                    if s0.detached(q) {
                        assert(s0.root != Some(q));
                        assert(old(self).core.detached(q));
                        let k = choose|k: int| 0 <= k < ps.len() && ps[k] == q;
                        assert(pool[k] == q);
                    } else {
                        assert(o0.detached(q));
                        assert(o0.root != Some(q));
                        assert(old(other).core.detached(q));
                        let k = choose|k: int| 0 <= k < po.len() && po[k] == q;
                        assert(pool[k + ps.len()] == q);
                    }
                }
            }
            if let Some(t) = merged {
                assert(!pool.contains(t)) by {
                    if pool.contains(t) {
                        let k = choose|k: int| 0 <= k < pool.len() && pool[k] == t;
                        if k < ps.len() {
                            assert(old(self).decrease_pool@[k] == t);
                            assert(s0.root != Some(t));
                            assert(!o0.is_live(t));
                        } else {
                            assert(old(other).decrease_pool@[k - ps.len()] == t);
                            assert(o0.root != Some(t));
                            assert(!s0.is_live(t));
                        }
                    }
                }
            }
            assert forall|q: NodeRef| !#[trigger] other.core.detached(q) by {}
        }
        self.refresh_pool_minimum();
        Ok(())
    }
}

impl<K: HeapKey> CostlessMeldPairingHeap<K, ()> {
    /// Inserts a key into this value-less heap, which must accept entries.
    pub fn push(&mut self, key: K)
        requires
            old(self).is_well_formed(),
            !old(self).consumed(),
            old(self).live_entries().len() < usize::MAX,
        ensures
            final(self).is_well_formed(),
            !final(self).consumed(),
            forall|h: TreeHandle| final(self).issued(h) == old(self).issued(h),
            exists|h: TreeHandle| {
                &&& final(self).issued(h)
                &&& !old(self).live_entries().contains_key(h)
                &&& final(self).live_entries() == old(self).live_entries().insert(h, (key, ()))
            },
    {
        let handle = self.insert(key, ());
        proof {
            assert(final(self).issued(handle));
        }
    }

    /// Returns the minimum key, if present.
    pub fn peek(&self) -> (result: Option<&K>)
        requires
            self.is_well_formed(),
        ensures
            result is None <==> self.live_entries().len() == 0,
            result matches Some(k) ==> exists|h: TreeHandle| {
                &&& least_entry(self.live_entries(), h, |key: K| key.key_rank())
                &&& self.live_entries()[h].0 == *k
            },
    {
        match self.peek_entry() {
            Some((handle, key, _)) => {
                proof {
                    assert(least_entry(self.live_entries(), handle, |key: K| key.key_rank()));
                }
                Some(key)
            },
            None => None,
        }
    }

    /// Removes and returns the minimum key, if present.
    pub fn pop(&mut self) -> (result: Option<K>)
        requires
            old(self).is_well_formed(),
        ensures
            final(self).is_well_formed(),
            final(self).consumed() == old(self).consumed(),
            forall|h: TreeHandle| final(self).issued(h) == old(self).issued(h),
            result is None <==> old(self).live_entries().len() == 0,
            result is None ==> final(self).live_entries() == old(self).live_entries(),
            result matches Some(k) ==> exists|h: TreeHandle| {
                &&& least_entry(old(self).live_entries(), h, |key: K| key.key_rank())
                &&& old(self).live_entries()[h].0 == k
                &&& final(self).live_entries() == old(self).live_entries().remove(h)
            },
    {
        match self.pop_entry() {
            Some((key, _)) => Some(key),
            None => None,
        }
    }
}

impl<K: HeapKey, V> Default for CostlessMeldPairingHeap<K, V> {
    fn default() -> (heap: Self)
        ensures
            heap.is_well_formed(),
            !heap.consumed(),
            heap.live_entries() == Map::<TreeHandle, (K, V)>::empty(),
    {
        Self::new()
    }
}

impl<K: HeapKey, V> AddressableHeap<K, V> for CostlessMeldPairingHeap<K, V> {
    type Handle = TreeHandle;

    open spec fn well_formed(&self) -> bool {
        self.is_well_formed()
    }

    open spec fn live(&self) -> Map<TreeHandle, (K, V)> {
        self.live_entries()
    }

    open spec fn owns(&self, handle: TreeHandle) -> bool {
        self.issued(handle)
    }

    open spec fn is_consumed(&self) -> bool {
        self.consumed()
    }

    open spec fn priority(&self, key: K) -> int {
        key.key_rank()
    }

    fn insert(&mut self, key: K, value: V) -> (handle: TreeHandle) {
        proof {
            self.core.lemma_live_len();
        }
        CostlessMeldPairingHeap::insert(self, key, value)
    }

    fn peek(&self) -> (result: Option<(TreeHandle, &K, &V)>) {
        self.peek_entry()
    }

    fn pop(&mut self) -> (result: Option<(K, V)>) {
        let result = self.pop_entry();
        proof {
            if result is Some {
                let e = result->0;
                let h = choose|h: TreeHandle| {
                    &&& least_entry(old(self).live_entries(), h, |key: K| key.key_rank())
                    &&& old(self).live_entries()[h] == e
                    &&& self.live_entries() == old(self).live_entries().remove(h)
                };
                assert(least_entry(old(self).live(), h, |key: K| old(self).priority(key)));
            }
        }
        result
    }

    fn key(&self, handle: TreeHandle) -> (result: Result<&K, InvalidHandle>) {
        CostlessMeldPairingHeap::key(self, handle)
    }

    fn value(&self, handle: TreeHandle) -> (result: Result<&V, InvalidHandle>) {
        CostlessMeldPairingHeap::value(self, handle)
    }

    fn value_mut(&mut self, handle: TreeHandle) -> (result: Result<&mut V, InvalidHandle>) {
        CostlessMeldPairingHeap::value_mut(self, handle)
    }

    fn delete(&mut self, handle: TreeHandle) -> (result: Result<(K, V), InvalidHandle>) {
        proof {
            self.core.lemma_live_len();
        }
        CostlessMeldPairingHeap::delete(self, handle)
    }

    fn len(&self) -> (result: usize) {
        CostlessMeldPairingHeap::len(self)
    }

    fn clear(&mut self) {
        CostlessMeldPairingHeap::clear(self)
    }
}

impl<K: HeapKey, V> DecreaseKeyHeap<K, V> for CostlessMeldPairingHeap<K, V> {
    fn decrease_key(&mut self, handle: TreeHandle, key: K) -> (result: Result<(), DecreaseKeyError>) {
        CostlessMeldPairingHeap::decrease_key(self, handle, key)
    }
}

impl<K: HeapKey, V> MeldableAddressableHeap<K, V> for CostlessMeldPairingHeap<K, V> {
    type MeldError = MeldError;

    fn meld(&mut self, other: &mut Self) -> (result: Result<(), MeldError>) {
        let result = CostlessMeldPairingHeap::meld(self, other);
        proof {
            if result == Err::<(), MeldError>(MeldError::DomainClash) {
                let h = choose|h: TreeHandle| old(self).issued(h) && old(other).issued(h);
                assert(old(self).owns(h) && old(other).owns(h));
            }
        }
        result
    }
}

impl<K: HeapKey> Heap<K> for CostlessMeldPairingHeap<K, ()> {
    open spec fn well_formed(&self) -> bool {
        &&& self.is_well_formed()
        &&& self.live_entries().dom().finite()
        &&& self.consumed() ==> self.live_entries().dom().len() == 0
    }

    open spec fn items(&self) -> Multiset<K> {
        keys_of(self.live_entries())
    }

    open spec fn priority(&self, value: K) -> int {
        value.key_rank()
    }

    open spec fn accepts_push(&self) -> bool {
        !self.consumed()
    }

    fn push(&mut self, value: K) {
        proof {
            lemma_keys_len(self.live_entries());
        }
        CostlessMeldPairingHeap::push(self, value);
        proof {
            let h = choose|h: TreeHandle| {
                &&& self.issued(h)
                &&& !old(self).live_entries().contains_key(h)
                &&& self.live_entries() == old(self).live_entries().insert(h, (value, ()))
            };
            lemma_keys_insert(old(self).live_entries(), h, (value, ()));
        }
    }

    fn peek(&self) -> (result: Option<&K>) {
        proof {
            lemma_keys_len(self.live_entries());
        }
        let result = CostlessMeldPairingHeap::peek(self);
        proof {
            if let Some(k) = result {
                let h = choose|h: TreeHandle| {
                    &&& least_entry(self.live_entries(), h, |key: K| key.key_rank())
                    &&& self.live_entries()[h].0 == *k
                };
                lemma_keys_remove(self.live_entries(), h);
                assert forall|other: K| self.items().contains(other) implies k.key_rank() <= other.key_rank() by {
                    lemma_keys_contains(self.live_entries(), other);
                    let g = choose|g: TreeHandle| self.live_entries().dom().contains(g) && self.live_entries()[g].0 == other;
                    assert(self.live_entries().contains_key(g));
                }
            }
        }
        result
    }

    fn pop(&mut self) -> (result: Option<K>) {
        proof {
            lemma_keys_len(self.live_entries());
        }
        let result = CostlessMeldPairingHeap::pop(self);
        proof {
            if result is Some {
                let k = result->0;
                let h = choose|h: TreeHandle| {
                    &&& least_entry(old(self).live_entries(), h, |key: K| key.key_rank())
                    &&& old(self).live_entries()[h].0 == k
                    &&& self.live_entries() == old(self).live_entries().remove(h)
                };
                lemma_keys_remove(old(self).live_entries(), h);
                assert forall|other: K| old(self).items().contains(other) implies k.key_rank() <= other.key_rank() by {
                    lemma_keys_contains(old(self).live_entries(), other);
                    let g = choose|g: TreeHandle| old(self).live_entries().dom().contains(g) && old(self).live_entries()[g].0
                        == other;
                    assert(old(self).live_entries().contains_key(g));
                }
            }
        }
        result
    }

    fn len(&self) -> (result: usize) {
        proof {
            lemma_keys_len(self.live_entries());
        }
        CostlessMeldPairingHeap::len(self)
    }

    fn clear(&mut self) {
        CostlessMeldPairingHeap::clear(self);
        proof {
            assert(self.live_entries().dom() =~= Set::<TreeHandle>::empty()) by {
                if old(self).consumed() {
                    assert(old(self).live_entries().dom() =~= Set::<TreeHandle>::empty());
                }
            }
            lemma_keys_empty(self.live_entries());
        }
    }
}

impl<K: HeapKey> MeldableHeap<K> for CostlessMeldPairingHeap<K, ()> {
    type MeldError = MeldError;

    open spec fn is_consumed(&self) -> bool {
        self.consumed()
    }

    open spec fn meld_compatible(&self, other: &Self) -> bool {
        forall|h: TreeHandle| !(self.issued(h) && other.issued(h))
    }

    fn meld(&mut self, other: &mut Self) -> (result: Result<(), MeldError>) {
        proof {
            lemma_keys_len(self.live_entries());
            lemma_keys_len(other.live_entries());
        }
        let result = CostlessMeldPairingHeap::meld(self, other);
        proof {
            if result is Ok {
                lemma_keys_union(old(self).live_entries(), old(other).live_entries());
                assert(self.live_entries().dom() =~= old(self).live_entries().dom().union(old(other).live_entries().dom()));
                lemma_keys_empty(other.live_entries());
            }
        }
        result
    }
}

} // verus!
