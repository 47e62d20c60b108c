//! An addressable Fibonacci heap.
use vstd::multiset::Multiset;
use vstd::prelude::*;

use crate::error::{DecreaseKeyError, InvalidHandle};
use crate::key_multiset::{keys_of, lemma_keys_contains, lemma_keys_empty, lemma_keys_insert, lemma_keys_len, lemma_keys_remove, lemma_keys_union};
use crate::order::HeapKey;
use crate::tree::forest::{NodeRef, TreeCore};
use crate::tree::forest_order::lemma_height_bound;
use crate::tree::forest_ranks::{held, ranks_ok, RankedForest};
use crate::tree::handles::{MeldError, TreeHandle};
use crate::{checked, least_entry, AddressableHeap, DecreaseKeyHeap, Heap, MeldableAddressableHeap, MeldableHeap};

verus! {

broadcast use {vstd::set::group_set_axioms, vstd::map::group_map_axioms};

/// The root list holds each detached live node exactly once.
pub(crate) open spec fn roots_ok<K: HeapKey, V>(core: TreeCore<K, V>, roots: Seq<NodeRef>) -> bool {
    &&& roots.no_duplicates()
    &&& forall|k: int| 0 <= k < roots.len() ==> core.detached(#[trigger] roots[k])
    &&& forall|q: NodeRef| #[trigger] core.detached(q) ==> roots.contains(q)
}

/// The recorded minimum is present exactly when there are roots, and it is
/// a root whose key ranks no later than any root's.
pub(crate) open spec fn min_ok<K: HeapKey, V>(core: TreeCore<K, V>, roots: Seq<NodeRef>) -> bool {
    &&& core.root is None <==> roots.len() == 0
    &&& core.root matches Some(r) ==> {
        &&& roots.contains(r)
        &&& forall|k: int| 0 <= k < roots.len() ==> core.nd(r).key.key_rank() <= core.nd(#[trigger] roots[k]).key.key_rank()
    }
}

/// A heap-ordered forest whose ranks count children, whose roots are the
/// root list, with the minimum recorded, and with nothing left in a heap
/// consumed by a meld.
pub(crate) open spec fn fib_ok<K: HeapKey, V>(core: TreeCore<K, V>, height: spec_fn(NodeRef) -> nat, roots: Seq<NodeRef>) -> bool {
    &&& core.wf()
    &&& core.ordered_by(height)
    &&& ranks_ok(core, None)
    &&& roots_ok(core, roots)
    &&& min_ok(core, roots)
    &&& !core.active ==> core.len == 0
}

/// Whether the cascading cut that starts at `node` cuts `q` from its parent,
/// following at most `steps` parent links: the walk cuts each marked node
/// that has a parent, and stops at the first node that is unmarked or has
/// no parent.
pub(crate) open spec fn cut_in_cascade<K, V>(core: TreeCore<K, V>, node: NodeRef, q: NodeRef, steps: nat) -> bool
    decreases steps,
{
    match core.nd(node).parent {
        None => false,
        Some(p) => core.nd(node).marked && (q == node || (steps > 0 && cut_in_cascade(core, p, q, (steps - 1) as nat))),
    }
}

/// Whether that walk marks `q`: the node where it stops, when that node has
/// a parent.
pub(crate) open spec fn marked_in_cascade<K, V>(core: TreeCore<K, V>, node: NodeRef, q: NodeRef, steps: nat) -> bool
    decreases steps,
{
    match core.nd(node).parent {
        None => false,
        Some(p) => if core.nd(node).marked {
            steps > 0 && marked_in_cascade(core, p, q, (steps - 1) as nat)
        } else {
            q == node
        },
    }
}

/// A state that differs from `before` in its recorded root alone, which is
/// detached, keeps the structure, the order and the entries.
proof fn lemma_reroot<K: HeapKey, V>(after: TreeCore<K, V>, before: TreeCore<K, V>, height: spec_fn(NodeRef) -> nat)
    requires
        before.wf(),
        before.ordered_by(height),
        after == (TreeCore { root: after.root, ..before }),
        after.root matches Some(r) ==> before.detached(r),
    ensures
        after.wf(),
        after.ordered_by(height),
        after.live() == before.live(),
        forall|h: TreeHandle| after.owns(h) == before.owns(h),
        forall|q: NodeRef| #[trigger] after.slot_at(q) == before.slot_at(q),
        forall|q: NodeRef| #[trigger] after.detached(q) == before.detached(q),
        ranks_ok(before, None) ==> ranks_ok(after, None),
{
    assert(after.arenas == before.arenas);
    assert forall|q: NodeRef| #[trigger] after.slot_at(q) == before.slot_at(q) by {}
    after.lemma_rerooted(&before, &before);
    after.lemma_ordered_same_slots(&before, height);
    assert forall|h: TreeHandle| after.owns(h) == before.owns(h) by {
        assert(after.has_domain(h.domain) == before.has_domain(h.domain));
    }
}

/// In a well-formed heap the recorded minimum is present exactly when there
/// are entries, and it holds a least entry.
proof fn lemma_fib_least<K: HeapKey, V>(core: TreeCore<K, V>, height: spec_fn(NodeRef) -> nat, roots: Seq<NodeRef>)
    requires
        fib_ok(core, height, roots),
    ensures
        core.root is Some <==> core.live().len() > 0,
        forall|q: NodeRef| #[trigger] core.is_live(q) ==> core.root is Some && core.nd(core.root->0).key.key_rank()
            <= core.nd(q).key.key_rank(),
        core.root matches Some(r) ==> {
            &&& core.is_live(r)
            &&& core.active
            &&& least_entry(core.live(), core.handle_of(r), |key: K| key.key_rank())
            &&& core.live()[core.handle_of(r)] == (core.nd(r).key, core.nd(r).value)
        },
{
    core.lemma_live_len();
    core.lemma_forest_least(height);
    assert forall|q: NodeRef| #[trigger] core.is_live(q) implies core.root is Some && core.nd(core.root->0).key.key_rank()
        <= core.nd(q).key.key_rank() by {
        let t = choose|t: NodeRef| core.is_live(t) && core.nd(t).parent is None && core.nd(t).key.key_rank() <= core.nd(q).key.key_rank();
        assert(core.detached(t));
        assert(roots.contains(t));
        let k = choose|k: int| 0 <= k < roots.len() && roots[k] == t;
        assert(core.nd(core.root->0).key.key_rank() <= core.nd(roots[k]).key.key_rank());
    }
    if let Some(r) = core.root {
        assert(core.live_nodes@.contains(r));
        assert(core.live_nodes@.len() > 0);
        core.lemma_handle_of(r);
        let live = core.live();
        let h = core.handle_of(r);
        assert forall|other: TreeHandle| live.contains_key(other) implies (|key: K| key.key_rank())(live[h].0) <= (|key: K|
            key.key_rank())(live[other].0) by {
            let q = TreeCore::<K, V>::ref_of(other);
            assert(core.is_live(q));
        }
    } else {
        assert forall|q: NodeRef| !core.live_nodes@.contains(q) by {
            if core.live_nodes@.contains(q) {
                assert(core.is_live(q));
            }
        }
        assert(core.live_nodes@ =~= Set::empty());
    }
}

/// An addressable Fibonacci heap.
///
/// Trees are kept in a root list with the minimum root recorded.  Removal
/// adds the removed node's children to the root list and consolidates the
/// roots by rank; a decreased node that precedes its parent is cut into
/// the root list, and marked ancestors are cut in cascade.
pub struct FibonacciHeap<K, V = ()> {
    forest: RankedForest<K, V>,
    roots: Vec<NodeRef>,
}

impl<K: HeapKey, V> FibonacciHeap<K, V> {
    /// The heap's internal invariant.
    pub closed spec fn is_well_formed(&self) -> bool {
        fib_ok(self.forest.core, self.forest.height@, self.roots@)
    }

    /// The live handles and the entries they identify.
    pub closed spec fn live_entries(&self) -> Map<TreeHandle, (K, V)> {
        self.forest.core.live()
    }

    /// Whether `handle` was issued by this heap or a heap melded into it,
    /// while this heap still accepts handles.
    pub closed spec fn issued(&self, handle: TreeHandle) -> bool {
        self.forest.core.owns(handle)
    }

    /// Every live handle was issued by this heap.
    pub proof fn lemma_live_issued(&self)
        requires
            self.is_well_formed(),
        ensures
            forall|h: TreeHandle| #[trigger] self.live_entries().contains_key(h) ==> self.issued(h),
    {
        self.forest.core.lemma_live_len();
        assert forall|h: TreeHandle| #[trigger] self.live_entries().contains_key(h) implies self.issued(h) by {
            let r = TreeCore::<K, V>::ref_of(h);
            assert(self.forest.core.is_live(r));
            assert(self.forest.core.arenas@[self.forest.core.arena_index(h.domain)].domain == h.domain);
        }
    }

    /// The live map is finite.
    pub proof fn lemma_live_finite(&self)
        requires
            self.is_well_formed(),
        ensures
            self.live_entries().dom().finite(),
    {
        self.forest.core.lemma_live_len();
    }

    /// Whether this heap was consumed as a meld donor.
    pub closed spec fn consumed(&self) -> bool {
        !self.forest.core.active
    }

    /// Adds the detached node `node`, unmarked, to the root list, recording
    /// it as the minimum when it precedes the recorded one.
    fn add_root(&mut self, node: NodeRef)
        requires
            old(self).forest.core.wf(),
            old(self).forest.core.shaped_by(old(self).forest.height@),
            ranks_ok(old(self).forest.core, None),
            old(self).forest.core.detached(node),
            !old(self).roots@.contains(node),
            old(self).roots@.no_duplicates(),
            forall|k: int| 0 <= k < old(self).roots@.len() ==> old(self).forest.core.detached(#[trigger] old(self).roots@[k]),
            min_ok(old(self).forest.core, old(self).roots@),
        ensures
            final(self).forest.core.wf(),
            final(self).forest.core.shaped_by(final(self).forest.height@),
            final(self).forest.height == old(self).forest.height,
            ranks_ok(final(self).forest.core, None),
            final(self).roots@ == old(self).roots@.push(node),
            final(self).roots@.no_duplicates(),
            forall|k: int| 0 <= k < final(self).roots@.len() ==> final(self).forest.core.detached(#[trigger] final(self).roots@[k]),
            min_ok(final(self).forest.core, final(self).roots@),
            forall|q: NodeRef| #[trigger] final(self).forest.core.detached(q) == old(self).forest.core.detached(q),
            forall|q: NodeRef| q != node ==> #[trigger] final(self).forest.core.slot_at(q) == old(self).forest.core.slot_at(q),
            final(self).forest.core.nd(node) == (crate::tree::forest::Node { marked: false, ..old(self).forest.core.nd(node) }),
            final(self).forest.core.live() == old(self).forest.core.live(),
            forall|h: TreeHandle| final(self).forest.core.owns(h) == old(self).forest.core.owns(h),
            final(self).forest.core.active == old(self).forest.core.active,
            final(self).forest.core.len == old(self).forest.core.len,
            final(self).forest.core.live_nodes == old(self).forest.core.live_nodes,
    {
        let ghost s0 = self.forest.core;
        self.forest.set_mark(node, false, Ghost(None));
        let ghost s1 = self.forest.core;
        proof {
            reveal(TreeCore::shaped_by);
            s1.lemma_same_nodes_wf(&s0);
            assert forall|k: int| 0 <= k < old(self).roots@.len() implies s1.detached(#[trigger] old(self).roots@[k]) by {}
        }
        self.roots.push(node);
        let replace = match self.forest.core.root {
            None => true,
            Some(minimum) => {
                proof {
                    assert(old(self).roots@.contains(minimum));
                    let k = choose|k: int| 0 <= k < old(self).roots@.len() && old(self).roots@[k] == minimum;
                    assert(s1.detached(old(self).roots@[k]));
                }
                self.forest.core.precedes(node, minimum)
            },
        };
        if replace {
            self.forest.core.root = Some(node);
        }
        proof {
            lemma_reroot(self.forest.core, s1, self.forest.height@);
            reveal(TreeCore::shaped_by);
            assert(self.roots@.contains(node)) by {
                assert(self.roots@[old(self).roots@.len() as int] == node);
            }
            if let Some(r) = s0.root {
                assert(old(self).roots@.contains(r));
                let j = choose|j: int| 0 <= j < old(self).roots@.len() && old(self).roots@[j] == r;
                assert(self.roots@[j] == r);
            }
            assert forall|k: int| 0 <= k < self.roots@.len() implies self.forest.core.detached(#[trigger] self.roots@[k]) by {
                if k < old(self).roots@.len() {
                    assert(self.roots@[k] == old(self).roots@[k]);
                }
            }
            assert forall|k: int| 0 <= k < self.roots@.len() implies self.forest.core.nd(self.forest.core.root->0).key.key_rank()
                <= self.forest.core.nd(#[trigger] self.roots@[k]).key.key_rank() by {
                if k < old(self).roots@.len() {
                    assert(self.roots@[k] == old(self).roots@[k]);
                }
            }
        }
    }
}

impl<K: HeapKey, V> FibonacciHeap<K, V> {
    /// Creates an empty heap.
    pub fn new() -> (heap: Self)
        ensures
            heap.is_well_formed(),
            !heap.consumed(),
            heap.live_entries() == Map::<TreeHandle, (K, V)>::empty(),
    {
        let heap = FibonacciHeap {
            forest: RankedForest { core: TreeCore::new(), height: Ghost(|q: NodeRef| 0nat) },
            roots: Vec::new(),
        };
        proof {
            assert forall|q: NodeRef| !heap.forest.core.is_live(q) by {
                assert(!heap.forest.core.live_nodes@.contains(q));
            }
        }
        heap
    }

    /// Inserts an entry unless this heap was consumed as a meld donor.
    pub fn try_insert(&mut self, key: K, value: V) -> (result: Result<TreeHandle, MeldError>)
        requires
            old(self).is_well_formed(),
            old(self).live_entries().len() < usize::MAX,
        ensures
            final(self).is_well_formed(),
            final(self).consumed() == old(self).consumed(),
            forall|h: TreeHandle| final(self).issued(h) == old(self).issued(h),
            result is Err <==> old(self).consumed(),
            result matches Err(e) ==> e == MeldError::ReceiverConsumed && final(self).live_entries() == old(self).live_entries(),
            result matches Ok(handle) ==> {
                &&& final(self).issued(handle)
                &&& !old(self).live_entries().contains_key(handle)
                &&& final(self).live_entries() == old(self).live_entries().insert(handle, (key, value))
            },
    {
        if !self.forest.core.active {
            return Err(MeldError::ReceiverConsumed);
        }
        Ok(self.insert(key, value))
    }

    /// Inserts an entry as a new root and returns its checked handle; the
    /// heap must accept entries.
    pub fn insert(&mut self, key: K, value: V) -> (handle: TreeHandle)
        requires
            old(self).is_well_formed(),
            !old(self).consumed(),
            old(self).live_entries().len() < usize::MAX,
        ensures
            final(self).is_well_formed(),
            !final(self).consumed(),
            forall|h: TreeHandle| final(self).issued(h) == old(self).issued(h),
            final(self).issued(handle),
            !old(self).live_entries().contains_key(handle),
            final(self).live_entries() == old(self).live_entries().insert(handle, (key, value)),
    {
        proof {
            self.forest.core.lemma_live_len();
            reveal(TreeCore::shaped_by);
        }
        let ghost s0 = self.forest.core;
        let node = self.forest.core.insert_detached(Ghost(self.forest.height@), key, value);
        let ghost s1 = self.forest.core;
        proof {
            assert forall|q: NodeRef| #[trigger] s1.is_live(q) && None::<NodeRef> != Some(q) implies s1.nd(q).rank == s1.nd(
                q,
            ).children@.len() by {
                if q != node {
                    assert(s1.slot_at(q) == s0.slot_at(q));
                    assert(s0.is_live(q));
                }
            }
            assert(!self.roots@.contains(node)) by {
                if self.roots@.contains(node) {
                    let k = choose|k: int| 0 <= k < self.roots@.len() && self.roots@[k] == node;
                    assert(s0.detached(self.roots@[k]));
                }
            }
            assert forall|k: int| 0 <= k < self.roots@.len() implies s1.detached(#[trigger] self.roots@[k]) by {
                assert(s0.detached(self.roots@[k]));
            }
            if let Some(r) = s1.root {
                assert forall|k: int| 0 <= k < self.roots@.len() implies s1.nd(r).key.key_rank() <= s1.nd(
                    #[trigger] self.roots@[k],
                ).key.key_rank() by {
                    assert(s0.detached(self.roots@[k]));
                    assert(s0.detached(r)) by {
                        let j = choose|j: int| 0 <= j < self.roots@.len() && self.roots@[j] == r;
                        assert(s0.detached(self.roots@[j]));
                    }
                    assert(s1.slot_at(r) == s0.slot_at(r));
                    assert(s1.slot_at(self.roots@[k]) == s0.slot_at(self.roots@[k]));
                }
            }
        }
        self.add_root(node);
        proof {
            assert forall|q: NodeRef| #[trigger] self.forest.core.detached(q) implies self.roots@.contains(q) by {
                if q != node {
                    assert(s0.detached(q));
                    assert(old(self).roots@.contains(q));
                    let k = choose|k: int| 0 <= k < old(self).roots@.len() && old(self).roots@[k] == q;
                    assert(self.roots@[k] == q);
                } else {
                    assert(self.roots@[old(self).roots@.len() as int] == node);
                }
            }
            assert(s1.detached(node));
            assert(self.forest.core.detached(node));
            assert(self.forest.core.is_live(node));
        }
        self.forest.core.handle(node)
    }

    /// Returns the handle, key, and value of a minimum entry.
    pub fn peek_entry(&self) -> (result: Option<(TreeHandle, &K, &V)>)
        requires
            self.is_well_formed(),
        ensures
            result is None <==> self.live_entries().len() == 0,
            result matches Some((h, k, v)) ==> {
                &&& least_entry(self.live_entries(), h, |key: K| key.key_rank())
                &&& self.live_entries()[h] == (*k, *v)
            },
    {
        proof {
            lemma_fib_least(self.forest.core, self.forest.height@, self.roots@);
        }
        if !self.forest.core.active {
            return None;
        }
        match self.forest.core.root {
            None => None,
            Some(root) => {
                let node = self.forest.core.node(root);
                Some((self.forest.core.handle(root), &node.key, &node.value))
            },
        }
    }
}

/// The trees held in `buckets`, in bucket order.
fn collect_roots(buckets: &Vec<Option<NodeRef>>) -> (roots: Vec<NodeRef>)
    requires
        forall|a: int, b: int|
            #![trigger buckets@[a], buckets@[b]]
            0 <= a < buckets@.len() && 0 <= b < buckets@.len() && buckets@[a] is Some && buckets@[a] == buckets@[b] ==> a == b,
    ensures
        roots@.no_duplicates(),
        forall|q: NodeRef| #[trigger] roots@.contains(q) <==> held(buckets@, q),
{
    let mut roots: Vec<NodeRef> = Vec::new();
    let mut b: usize = 0;
    while b < buckets.len()
        invariant
            b <= buckets@.len(),
            forall|x: int, y: int|
                #![trigger buckets@[x], buckets@[y]]
                0 <= x < buckets@.len() && 0 <= y < buckets@.len() && buckets@[x] is Some && buckets@[x] == buckets@[y] ==> x == y,
            roots@.no_duplicates(),
            forall|q: NodeRef| #[trigger] roots@.contains(q) <==> exists|x: int| 0 <= x < b && buckets@[x] == Some(q),
        decreases buckets@.len() - b,
    {
        if let Some(t) = buckets[b] {
            proof {
                assert(!roots@.contains(t)) by {
                    if roots@.contains(t) {
                        let x = choose|x: int| 0 <= x < b && buckets@[x] == Some(t);
                        assert(buckets@[x] == buckets@[b as int]);
                    }
                }
            }
            let ghost r0 = roots@;
            roots.push(t);
            proof {
                assert forall|q: NodeRef| #[trigger] roots@.contains(q) <==> exists|x: int| 0 <= x < b + 1 && buckets@[x] == Some(q) by {
                    if roots@.contains(q) {
                        if q != t {
                            assert(r0.contains(q)) by {
                                let i = choose|i: int| 0 <= i < roots@.len() && roots@[i] == q;
                                assert(i < r0.len());
                                assert(r0[i] == q);
                            }
                        } else {
                            assert(buckets@[b as int] == Some(q));
                        }
                    }
                    if exists|x: int| 0 <= x < b + 1 && buckets@[x] == Some(q) {
                        let x = choose|x: int| 0 <= x < b + 1 && buckets@[x] == Some(q);
                        if x < b {
                            assert(r0.contains(q));
                            let i = choose|i: int| 0 <= i < r0.len() && r0[i] == q;
                            assert(roots@[i] == q);
                        } else {
                            assert(roots@[r0.len() as int] == q);
                        }
                    }
                }
            }
        } else {
            proof {
                assert forall|q: NodeRef| #[trigger] roots@.contains(q) <==> exists|x: int| 0 <= x < b + 1 && buckets@[x] == Some(q) by {
                    if exists|x: int| 0 <= x < b + 1 && buckets@[x] == Some(q) {
                        let x = choose|x: int| 0 <= x < b + 1 && buckets@[x] == Some(q);
                        assert(x != b);
                    }
                }
            }
        }
        b = b + 1;
    }
    roots
}

impl<K: HeapKey, V> FibonacciHeap<K, V> {
    /// Records as the minimum the first root whose key ranks least.
    fn refresh_minimum(&mut self)
        requires
            old(self).forest.core.wf(),
            old(self).forest.core.ordered_by(old(self).forest.height@),
            forall|k: int| 0 <= k < old(self).roots@.len() ==> old(self).forest.core.detached(#[trigger] old(self).roots@[k]),
        ensures
            final(self).roots == old(self).roots,
            final(self).forest.height == old(self).forest.height,
            final(self).forest.core == (TreeCore { root: final(self).forest.core.root, ..old(self).forest.core }),
            min_ok(final(self).forest.core, final(self).roots@),
            final(self).forest.core.root matches Some(r) ==> old(self).forest.core.detached(r),
    {
        proof {
            reveal(TreeCore::shaped_by);
        }
        let mut best: Option<NodeRef> = None;
        let mut k: usize = 0;
        while k < self.roots.len()
            invariant
                k <= self.roots@.len(),
                self.forest.core.wf(),
                forall|j: int| 0 <= j < self.roots@.len() ==> self.forest.core.detached(#[trigger] self.roots@[j]),
                best is None <==> k == 0,
                best matches Some(b) ==> {
                    &&& exists|j: int| 0 <= j < k && self.roots@[j] == b
                    &&& forall|j: int|
                        0 <= j < k ==> self.forest.core.nd(b).key.key_rank() <= self.forest.core.nd(#[trigger] self.roots@[j]).key.key_rank()
                },
            decreases self.roots@.len() - k,
        {
            let candidate = self.roots[k];
            proof {
                assert(self.forest.core.detached(self.roots@[k as int]));
            }
            let replace = match best {
                None => true,
                Some(b) => {
                    proof {
                        let j = choose|j: int| 0 <= j < k && self.roots@[j] == b;
                        assert(self.forest.core.detached(self.roots@[j]));
                    }
                    self.forest.core.precedes(candidate, b)
                },
            };
            if replace {
                best = Some(candidate);
            }
            proof {
                let b = best->0;
                assert(exists|j: int| 0 <= j < k + 1 && self.roots@[j] == b) by {
                    if replace {
                        assert(self.roots@[k as int] == b);
                    } else {
                        let j = choose|j: int| 0 <= j < k && self.roots@[j] == b;
                        assert(self.roots@[j] == b);
                    }
                }
            }
            k = k + 1;
        }
        self.forest.core.root = best;
        proof {
            if let Some(b) = best {
                let j = choose|j: int| 0 <= j < k && self.roots@[j] == b;
                assert(old(self).forest.core.detached(old(self).roots@[j]));
                assert(self.roots@.contains(b));
                assert forall|i: int| 0 <= i < self.roots@.len() implies self.forest.core.nd(b).key.key_rank() <= self.forest.core.nd(
                    #[trigger] self.roots@[i],
                ).key.key_rank() by {
                    assert(old(self).forest.core.nd(b).key.key_rank() <= old(self).forest.core.nd(old(self).roots@[i]).key.key_rank());
                    assert(self.forest.core.arenas == old(self).forest.core.arenas);
                }
            }
        }
    }

    /// Rebuilds the root list by rank: every root, unmarked, is linked with
    /// the root of equal rank until its rank is free; the surviving roots
    /// form the new list in rank order and the minimum is recomputed.
    fn consolidate(&mut self)
        requires
            old(self).forest.core.wf(),
            old(self).forest.core.shaped_by(old(self).forest.height@),
            ranks_ok(old(self).forest.core, None),
            old(self).roots@.no_duplicates(),
            forall|k: int| 0 <= k < old(self).roots@.len() ==> old(self).forest.core.detached(#[trigger] old(self).roots@[k]),
            forall|q: NodeRef| #[trigger] old(self).forest.core.detached(q) ==> old(self).roots@.contains(q),
            !old(self).forest.core.active ==> old(self).forest.core.len == 0,
        ensures
            final(self).is_well_formed(),
            final(self).forest.core.live() == old(self).forest.core.live(),
            forall|h: TreeHandle| final(self).forest.core.owns(h) == old(self).forest.core.owns(h),
            final(self).forest.core.active == old(self).forest.core.active,
            final(self).forest.core.len == old(self).forest.core.len,
    {
        let ghost s0 = self.forest.core;
        self.forest.core.root = None;
        proof {
            reveal(TreeCore::shaped_by);
            lemma_reroot(self.forest.core, s0, self.forest.height@);
        }
        let ghost s1 = self.forest.core;
        let mut roots: Vec<NodeRef> = Vec::new();
        core::mem::swap(&mut self.roots, &mut roots);
        proof {
            reveal(TreeCore::shaped_by);
        }
        let buckets = self.forest.file_trees(&roots, Ghost(None));
        let ghost s2 = self.forest.core;
        proof {
            s2.lemma_same_nodes_wf(&s1);
            reveal(TreeCore::shaped_by);
        }
        self.roots = collect_roots(&buckets);
        proof {
            assert forall|k: int| 0 <= k < self.roots@.len() implies s2.detached(#[trigger] self.roots@[k]) by {
                assert(self.roots@.contains(self.roots@[k]));
                let b = choose|b: int| 0 <= b < buckets@.len() && buckets@[b] == Some(self.roots@[k]);
                assert(buckets@[b] is Some);
            }
        }
        self.refresh_minimum();
        proof {
            let c = self.forest.core;
            lemma_reroot(c, s2, self.forest.height@);
            assert forall|q: NodeRef| #[trigger] c.detached(q) implies self.roots@.contains(q) by {
                assert(s2.detached(q));
                if !held(buckets@, q) {
                    assert(s1.detached(q));
                    assert(s0.detached(q));
                    assert(roots@.contains(q));
                }
            }
            assert forall|q: NodeRef| #[trigger] c.is_live(q) && None::<NodeRef> != Some(q) implies c.nd(q).rank == c.nd(q).children@.len() by {
                assert(c.slot_at(q) == s2.slot_at(q));
            }
            s2.lemma_same_entries(&s1);
            s1.lemma_same_entries(&s0);
        }
    }
}

/// The position of `root` in `roots`.
fn position(roots: &Vec<NodeRef>, root: NodeRef) -> (index: usize)
    requires
        roots@.contains(root),
    ensures
        index < roots@.len(),
        roots@[index as int] == root,
{
    let mut index: usize = 0;
    while index < roots.len()
        invariant
            index <= roots@.len(),
            roots@.contains(root),
            forall|j: int| 0 <= j < index ==> roots@[j] != root,
        decreases roots@.len() - index,
    {
        if roots[index] == root {
            return index;
        }
        index = index + 1;
    }
    proof {
        let j = choose|j: int| 0 <= j < roots@.len() && roots@[j] == root;
        assert(roots@[j] != root);
    }
    0
}

impl<K: HeapKey, V> FibonacciHeap<K, V> {
    /// Removes the root `root`: its children join the root list, the node
    /// is removed, and the roots are consolidated.
    fn remove_root(&mut self, root: NodeRef) -> (entry: (K, V))
        requires
            old(self).is_well_formed(),
            old(self).roots@.contains(root),
        ensures
            final(self).is_well_formed(),
            final(self).consumed() == old(self).consumed(),
            forall|h: TreeHandle| final(self).issued(h) == old(self).issued(h),
            entry == old(self).live_entries()[old(self).forest.core.handle_of(root)],
            final(self).live_entries() == old(self).live_entries().remove(old(self).forest.core.handle_of(root)),
    {
        proof {
            reveal(TreeCore::shaped_by);
        }
        let ghost s0 = self.forest.core;
        let ghost r0 = self.roots@;
        let index = position(&self.roots, root);
        proof {
            assert(s0.detached(r0[index as int]));
        }
        self.roots.swap_remove(index);
        let ghost r1 = self.roots@;
        proof {
            assert forall|q: NodeRef| #[trigger] r1.contains(q) <==> r0.contains(q) && q != root by {
                if r1.contains(q) {
                    let j = choose|j: int| 0 <= j < r1.len() && r1[j] == q;
                    if j == index {
                        assert(q == r0.last());
                        assert(r0[r0.len() - 1] == q);
                        assert(r0.len() - 1 != index as int);
                    } else {
                        assert(r0[j] == q);
                        assert(j != index as int);
                    }
                }
                if r0.contains(q) && q != root {
                    let j = choose|j: int| 0 <= j < r0.len() && r0[j] == q;
                    assert(j != index as int);
                    if j == r0.len() - 1 {
                        assert(r1[index as int] == q);
                    } else {
                        assert(r1[j] == q);
                    }
                }
            }
            assert(r1.no_duplicates()) by {
                assert forall|a: int, b: int| 0 <= a < r1.len() && 0 <= b < r1.len() && a != b implies r1[a] != r1[b] by {
                    let a0 = if a == index { r0.len() - 1 } else { a };
                    let b0 = if b == index { r0.len() - 1 } else { b };
                    assert(r1[a] == r0[a0]);
                    assert(r1[b] == r0[b0]);
                }
            }
        }
        let mut children = self.forest.core.detach_all(Ghost(self.forest.height@), root);
        let ghost s1 = self.forest.core;
        let ghost kids = children@;
        proof {
            assert forall|q: NodeRef| #[trigger] s1.is_live(q) && Some(root) != Some(q) implies s1.nd(q).rank == s1.nd(q).children@.len() by {
                assert(s0.is_live(q));
                if kids.contains(q) {
                    let k = choose|k: int| 0 <= k < kids.len() && kids[k] == q;
                    assert(s1.nd(kids[k]).children == s0.nd(kids[k]).children);
                } else {
                    assert(s1.slot_at(q) == s0.slot_at(q));
                }
            }
            assert forall|q: NodeRef| r1.contains(q) implies !kids.contains(q) by {
                if kids.contains(q) {
                    let k = choose|k: int| 0 <= k < kids.len() && kids[k] == q;
                    assert(!s0.detached(kids[k]));
                    let j = choose|j: int| 0 <= j < r0.len() && r0[j] == q;
                    assert(s0.detached(r0[j]));
                }
            }
        }
        self.roots.append(&mut children);
        let ghost r2 = self.roots@;
        proof {
            assert(r2 == r1 + kids);
            assert forall|q: NodeRef| #[trigger] r2.contains(q) <==> r1.contains(q) || kids.contains(q) by {
                if r2.contains(q) {
                    let j = choose|j: int| 0 <= j < r2.len() && r2[j] == q;
                    if j < r1.len() {
                        assert(r1[j] == q);
                    } else {
                        assert(kids[j - r1.len()] == q);
                    }
                }
                if r1.contains(q) {
                    let j = choose|j: int| 0 <= j < r1.len() && r1[j] == q;
                    assert(r2[j] == q);
                }
                if kids.contains(q) {
                    let j = choose|j: int| 0 <= j < kids.len() && kids[j] == q;
                    assert(r2[r1.len() + j] == q);
                }
            }
            assert(r2.no_duplicates()) by {
                assert forall|a: int, b: int| 0 <= a < r2.len() && 0 <= b < r2.len() && a != b implies r2[a] != r2[b] by {
                    if a < r1.len() && b >= r1.len() {
                        assert(r1.contains(r2[a]));
                        assert(kids.contains(r2[b])) by {
                            assert(kids[b - r1.len()] == r2[b]);
                        }
                    } else if a >= r1.len() && b < r1.len() {
                        assert(r1.contains(r2[b]));
                        assert(kids.contains(r2[a])) by {
                            assert(kids[a - r1.len()] == r2[a]);
                        }
                    } else if a >= r1.len() {
                        assert(r2[a] == kids[a - r1.len()]);
                        assert(r2[b] == kids[b - r1.len()]);
                    }
                }
            }
            s1.lemma_same_nodes_wf(&s0);
        }
        self.forest.core.root = None;
        proof {
            lemma_reroot(self.forest.core, s1, self.forest.height@);
            reveal(TreeCore::shaped_by);
            assert(!kids.contains(root)) by {
                if kids.contains(root) {
                    let k = choose|k: int| 0 <= k < kids.len() && kids[k] == root;
                    assert(kids[k] != root);
                }
            }
        }
        let ghost s2 = self.forest.core;
        let entry = self.forest.core.remove_detached(Ghost(self.forest.height@), root);
        let ghost s3 = self.forest.core;
        proof {
            reveal(TreeCore::shaped_by);
            assert forall|q: NodeRef| #[trigger] s3.is_live(q) && None::<NodeRef> != Some(q) implies s3.nd(q).rank == s3.nd(q).children@.len() by {
                assert(q != root);
                assert(s3.slot_at(q) == s2.slot_at(q));
                assert(s2.slot_at(q) == s1.slot_at(q));
                assert(s1.is_live(q));
            }
            assert forall|k: int| 0 <= k < r2.len() implies s3.detached(#[trigger] r2[k]) by {
                let q = r2[k];
                assert(r2.contains(q));
                if r1.contains(q) {
                    let j = choose|j: int| 0 <= j < r0.len() && r0[j] == q;
                    assert(s0.detached(r0[j]));
                    assert(s1.detached(q));
                } else {
                    let j = choose|j: int| 0 <= j < kids.len() && kids[j] == q;
                    assert(s1.detached(kids[j]));
                }
            }
            assert forall|q: NodeRef| #[trigger] s3.detached(q) implies r2.contains(q) by {
                assert(s1.detached(q));
                if !kids.contains(q) {
                    assert(s0.detached(q));
                    assert(r0.contains(q));
                }
            }
            assert(s0.active) by {
                assert(s0.is_live(root)) by {
                    let j = choose|j: int| 0 <= j < r0.len() && r0[j] == root;
                    assert(s0.detached(r0[j]));
                }
                assert(s0.live_nodes@.contains(root));
                assert(s0.live_nodes@.len() > 0);
            }
            s0.lemma_handle_of(root);
        }
        self.consolidate();
        entry
    }

    /// Removes and returns a minimum entry.
    pub fn pop_entry(&mut self) -> (result: Option<(K, V)>)
        requires
            old(self).is_well_formed(),
        ensures
            final(self).is_well_formed(),
            final(self).consumed() == old(self).consumed(),
            forall|h: TreeHandle| final(self).issued(h) == old(self).issued(h),
            result is None <==> old(self).live_entries().len() == 0,
            result is None ==> final(self).live_entries() == old(self).live_entries(),
            result matches Some(e) ==> exists|h: TreeHandle| {
                &&& least_entry(old(self).live_entries(), h, |key: K| key.key_rank())
                &&& old(self).live_entries()[h] == e
                &&& final(self).live_entries() == old(self).live_entries().remove(h)
            },
    {
        proof {
            lemma_fib_least(self.forest.core, self.forest.height@, self.roots@);
        }
        if !self.forest.core.active {
            return None;
        }
        match self.forest.core.root {
            None => None,
            Some(root) => {
                let entry = self.remove_root(root);
                proof {
                    let h = old(self).forest.core.handle_of(root);
                    assert(least_entry(old(self).live_entries(), h, |key: K| key.key_rank()));
                }
                Some(entry)
            },
        }
    }
}

/// Changing values alone keeps a well-formed heap well-formed.
proof fn lemma_fib_values_changed<K: HeapKey, V>(core: TreeCore<K, V>, height: spec_fn(NodeRef) -> nat, roots: Seq<NodeRef>)
    requires
        fib_ok(core, height, roots),
    ensures
        forall|after: TreeCore<K, V>|
            #[trigger] after.same_shape(&core) && after.wf() && after.root == core.root && after.active == core.active
                && after.len == core.len ==> fib_ok(after, height, roots),
{
    assert forall|after: TreeCore<K, V>|
        #[trigger] after.same_shape(&core) && after.wf() && after.root == core.root && after.active == core.active && after.len
            == core.len implies fib_ok(after, height, roots) by {
        after.lemma_ordered_same_shape(&core, height);
        assert forall|q: NodeRef| #[trigger] after.is_live(q) implies after.nd(q) == TreeCore::<K, V>::with_value(
            core.nd(q),
            after.nd(q).value,
        ) by {}
        assert forall|q: NodeRef| #[trigger] after.detached(q) == core.detached(q) by {
            if after.is_live(q) {
                assert(after.nd(q) == TreeCore::<K, V>::with_value(core.nd(q), after.nd(q).value));
            }
        }
        assert forall|q: NodeRef| #[trigger] after.is_live(q) && None::<NodeRef> != Some(q) implies after.nd(q).rank
            == after.nd(q).children@.len() by {
            assert(core.is_live(q));
        }
        assert forall|k: int| 0 <= k < roots.len() implies after.detached(#[trigger] roots[k]) by {
            assert(core.detached(roots[k]));
        }
        if let Some(r) = core.root {
            let j = choose|j: int| 0 <= j < roots.len() && roots[j] == r;
            assert(core.detached(roots[j]));
            assert forall|k: int| 0 <= k < roots.len() implies after.nd(r).key.key_rank() <= after.nd(#[trigger] roots[k]).key.key_rank() by {
                assert(core.detached(roots[k]));
                assert(core.nd(r).key.key_rank() <= core.nd(roots[k]).key.key_rank());
            }
        }
    }
}

impl<K: HeapKey, V> FibonacciHeap<K, V> {
    /// Returns the key identified by `handle`.
    pub fn key(&self, handle: TreeHandle) -> (result: Result<&K, InvalidHandle>)
        requires
            self.is_well_formed(),
        ensures
            checked(self.issued(handle), self.live_entries().contains_key(handle), result),
            result matches Ok(k) ==> *k == self.live_entries()[handle].0,
    {
        self.forest.core.key(handle)
    }

    /// Returns the value identified by `handle`.
    pub fn value(&self, handle: TreeHandle) -> (result: Result<&V, InvalidHandle>)
        requires
            self.is_well_formed(),
        ensures
            checked(self.issued(handle), self.live_entries().contains_key(handle), result),
            result matches Ok(v) ==> *v == self.live_entries()[handle].1,
    {
        self.forest.core.value(handle)
    }

    /// Returns mutable access to the value identified by `handle`.
    pub fn value_mut(&mut self, handle: TreeHandle) -> (result: Result<&mut V, InvalidHandle>)
        requires
            old(self).is_well_formed(),
        ensures
            checked(old(self).issued(handle), old(self).live_entries().contains_key(handle), result),
            result matches Ok(v) ==> {
                &&& *v == old(self).live_entries()[handle].1
                &&& final(self).live_entries() == old(self).live_entries().insert(
                    handle,
                    (old(self).live_entries()[handle].0, *final(v)),
                )
                &&& final(self).is_well_formed()
                &&& final(self).consumed() == old(self).consumed()
                &&& forall|h: TreeHandle| final(self).issued(h) == old(self).issued(h)
            },
            result is Err ==> *final(self) == *old(self),
    {
        proof {
            lemma_fib_values_changed(self.forest.core, self.forest.height@, self.roots@);
        }
        self.forest.core.value_mut(handle)
    }

    /// Returns the number of live entries.
    pub fn len(&self) -> (result: usize)
        requires
            self.is_well_formed(),
        ensures
            result == self.live_entries().len(),
    {
        proof {
            self.forest.core.lemma_live_len();
        }
        self.forest.core.len
    }

    /// Returns whether the heap has no entries.
    pub fn is_empty(&self) -> (result: bool)
        requires
            self.is_well_formed(),
        ensures
            result == (self.live_entries().len() == 0),
    {
        proof {
            self.forest.core.lemma_live_len();
        }
        self.forest.core.len == 0
    }

    /// Removes every entry and invalidates outstanding handles; a heap
    /// consumed by a meld is left as it is.
    pub fn clear(&mut self)
        requires
            old(self).is_well_formed(),
        ensures
            final(self).is_well_formed(),
            final(self).consumed() == old(self).consumed(),
            forall|h: TreeHandle| final(self).issued(h) == old(self).issued(h),
            old(self).consumed() ==> final(self).live_entries() == old(self).live_entries(),
            !old(self).consumed() ==> final(self).live_entries() == Map::<TreeHandle, (K, V)>::empty(),
    {
        if self.forest.core.active {
            self.forest.core.clear();
            self.roots.clear();
            proof {
                assert forall|q: NodeRef| !#[trigger] self.forest.core.detached(q) by {}
                assert(self.forest.core.ordered_by(self.forest.height@));
            }
        }
    }
}

impl<K: HeapKey, V> FibonacciHeap<K, V> {
    /// Cuts `node`, with its subtree, from its parent, recounts the
    /// parent's rank and adds `node` to the root list; only the edge into
    /// `node` may have been out of order.
    fn cut(&mut self, node: NodeRef)
        requires
            old(self).forest.core.wf(),
            forall|q: NodeRef| #[trigger]
                old(self).forest.core.is_live(q) && q != node ==> old(self).forest.core.edge_ordered(old(self).forest.height@, q),
            ranks_ok(old(self).forest.core, None),
            roots_ok(old(self).forest.core, old(self).roots@),
            min_ok(old(self).forest.core, old(self).roots@),
            !old(self).forest.core.active ==> old(self).forest.core.len == 0,
            old(self).forest.core.is_live(node),
            old(self).forest.core.nd(node).parent is Some,
        ensures
            final(self).is_well_formed(),
            final(self).forest.height == old(self).forest.height,
            final(self).forest.core.live() == old(self).forest.core.live(),
            forall|h: TreeHandle| final(self).forest.core.owns(h) == old(self).forest.core.owns(h),
            final(self).forest.core.active == old(self).forest.core.active,
            final(self).forest.core.len == old(self).forest.core.len,
            final(self).forest.core.live_nodes == old(self).forest.core.live_nodes,
            final(self).forest.core.detached(node),
            forall|q: NodeRef| #[trigger] final(self).forest.core.detached(q) == (old(self).forest.core.detached(q) || q == node),
            !final(self).forest.core.nd(node).marked,
            forall|q: NodeRef| #[trigger]
                final(self).forest.core.is_live(q) && q != node ==> final(self).forest.core.nd(q).parent == old(
                    self,
                ).forest.core.nd(q).parent && final(self).forest.core.nd(q).marked == old(self).forest.core.nd(q).marked,
    {
        let ghost s0 = self.forest.core;
        let parent = self.forest.core.node(node).parent.unwrap();
        proof {
            assert(s0.node_linked(node));
        }
        self.forest.core.cut_out(Ghost(self.forest.height@), node);
        let ghost s1 = self.forest.core;
        proof {
            assert forall|q: NodeRef| #[trigger] s1.is_live(q) && Some(parent) != Some(q) implies s1.nd(q).rank == s1.nd(
                q,
            ).children@.len() by {
                assert(s0.is_live(q));
            }
            assert(s1.is_live(parent));
        }
        self.forest.recount(parent);
        let ghost s2 = self.forest.core;
        proof {
            reveal(TreeCore::shaped_by);
            s2.lemma_same_nodes_trans(&s1, &s0);
            if let Some(r) = s0.root {
                assert(self.roots@.contains(r));
                let j = choose|j: int| 0 <= j < self.roots@.len() && self.roots@[j] == r;
                assert(s0.detached(self.roots@[j]));
                assert(s2.detached(r));
            }
            s2.lemma_same_nodes_wf(&s0);
            assert(!self.roots@.contains(node)) by {
                if self.roots@.contains(node) {
                    let j = choose|j: int| 0 <= j < self.roots@.len() && self.roots@[j] == node;
                    assert(s0.detached(self.roots@[j]));
                }
            }
            assert forall|k: int| 0 <= k < self.roots@.len() implies s2.detached(#[trigger] self.roots@[k]) by {
                assert(s0.detached(self.roots@[k]));
            }
            if let Some(r) = s2.root {
                assert forall|k: int| 0 <= k < self.roots@.len() implies s2.nd(r).key.key_rank() <= s2.nd(
                    #[trigger] self.roots@[k],
                ).key.key_rank() by {
                    assert(s0.nd(r).key.key_rank() <= s0.nd(self.roots@[k]).key.key_rank());
                    assert(s0.detached(self.roots@[k]));
                }
            }
        }
        self.add_root(node);
        proof {
            assert forall|q: NodeRef| #[trigger] self.forest.core.detached(q) implies self.roots@.contains(q) by {
                assert(s2.detached(q));
                if q != node {
                    assert(s0.detached(q));
                    assert(old(self).roots@.contains(q));
                    let k = choose|k: int| 0 <= k < old(self).roots@.len() && old(self).roots@[k] == q;
                    assert(self.roots@[k] == q);
                } else {
                    assert(self.roots@[old(self).roots@.len() as int] == node);
                }
            }
            reveal(TreeCore::shaped_by);
            s2.lemma_same_entries(&s0);
            assert(s2.detached(node));
            assert forall|q: NodeRef| #[trigger] self.forest.core.detached(q) == (s0.detached(q) || q == node) by {
                assert(s2.detached(q) == s1.detached(q));
            }
            assert forall|q: NodeRef| #[trigger]
                self.forest.core.is_live(q) && q != node implies self.forest.core.nd(q).parent == s0.nd(q).parent
                && self.forest.core.nd(q).marked == s0.nd(q).marked by {
                assert(self.forest.core.slot_at(q) == s2.slot_at(q));
                assert(s2.is_live(q));
                assert(s1.is_live(q));
                assert(s0.is_live(q));
                if q != parent {
                    assert(s2.slot_at(q) == s1.slot_at(q));
                }
            }
        }
    }

    /// Walks up from `node`: a marked node with a parent is cut into the
    /// root list and the walk continues with the parent; the first
    /// unmarked node with a parent is marked.
    fn cascading_cut(&mut self, node: NodeRef)
        requires
            old(self).is_well_formed(),
            old(self).forest.core.is_live(node),
        ensures
            final(self).is_well_formed(),
            final(self).forest.core.live() == old(self).forest.core.live(),
            forall|h: TreeHandle| final(self).forest.core.owns(h) == old(self).forest.core.owns(h),
            final(self).forest.core.active == old(self).forest.core.active,
            forall|q: NodeRef| #[trigger] old(self).forest.core.detached(q) ==> final(self).forest.core.detached(q),
            forall|q: NodeRef| #[trigger]
                final(self).forest.core.detached(q) == (old(self).forest.core.detached(q) || cut_in_cascade(
                    old(self).forest.core,
                    node,
                    q,
                    old(self).forest.core.live_nodes@.len(),
                )),
            forall|q: NodeRef| #[trigger]
                final(self).forest.core.is_live(q) ==> final(self).forest.core.nd(q).marked == (!cut_in_cascade(
                    old(self).forest.core,
                    node,
                    q,
                    old(self).forest.core.live_nodes@.len(),
                ) && (marked_in_cascade(old(self).forest.core, node, q, old(self).forest.core.live_nodes@.len())
                    || old(self).forest.core.nd(q).marked)),
    {
        let ghost bound = lemma_height_bound(self.forest.core.live_nodes@, self.forest.height@);
        let ghost s0 = self.forest.core;
        proof {
            assert forall|x: NodeRef| #[trigger] s0.is_live(x) implies (self.forest.height@)(x) <= bound by {
                assert(s0.live_nodes@.contains(x));
            }
        }
        let ghost total = s0.live_nodes@.len();
        let ghost mut visited: Set<NodeRef> = Set::empty();
        let ghost mut steps: nat = total;
        let mut cur = node;
        loop
            invariant_except_break
                forall|q: NodeRef| #[trigger]
                    self.forest.core.is_live(q) && !visited.contains(q) ==> self.forest.core.nd(q).parent == s0.nd(q).parent
                        && self.forest.core.nd(q).marked == s0.nd(q).marked,
                forall|q: NodeRef| #[trigger] visited.contains(q) ==> !self.forest.core.nd(q).marked,
            invariant
                s0.wf(),
                fib_ok(self.forest.core, self.forest.height@, self.roots@),
                self.forest.height == old(self).forest.height,
                s0 == old(self).forest.core,
                self.forest.core.is_live(cur),
                self.forest.core.live() == s0.live(),
                forall|h: TreeHandle| self.forest.core.owns(h) == s0.owns(h),
                self.forest.core.active == s0.active,
                self.forest.core.live_nodes == s0.live_nodes,
                forall|x: NodeRef| #[trigger] self.forest.core.is_live(x) ==> (self.forest.height@)(x) <= bound,
                forall|q: NodeRef| #[trigger] s0.detached(q) ==> self.forest.core.detached(q),
                total == s0.live_nodes@.len(),
                s0.live_nodes@.finite(),
                visited.finite(),
                forall|q: NodeRef| #[trigger] visited.contains(q) ==> s0.live_nodes@.contains(q),
                steps + visited.len() == total,
                forall|q: NodeRef| #[trigger] visited.contains(q) ==> (self.forest.height@)(q) < (self.forest.height@)(cur),
                forall|q: NodeRef| #[trigger] self.forest.core.detached(q) == (s0.detached(q) || visited.contains(q)),
                forall|q: NodeRef| #[trigger]
                    cut_in_cascade(s0, node, q, total) == (visited.contains(q) || cut_in_cascade(s0, cur, q, steps)),
                forall|q: NodeRef| #[trigger] marked_in_cascade(s0, node, q, total) == marked_in_cascade(s0, cur, q, steps),
            ensures
                fib_ok(self.forest.core, self.forest.height@, self.roots@),
                self.forest.height == old(self).forest.height,
                self.forest.core.live() == s0.live(),
                forall|h: TreeHandle| self.forest.core.owns(h) == s0.owns(h),
                self.forest.core.active == s0.active,
                forall|q: NodeRef| #[trigger] s0.detached(q) ==> self.forest.core.detached(q),
                forall|q: NodeRef| #[trigger]
                    self.forest.core.detached(q) == (s0.detached(q) || cut_in_cascade(s0, node, q, total)),
                forall|q: NodeRef| #[trigger]
                    self.forest.core.is_live(q) ==> self.forest.core.nd(q).marked == (!cut_in_cascade(s0, node, q, total)
                        && (marked_in_cascade(s0, node, q, total) || s0.nd(q).marked)),
            decreases bound - (self.forest.height@)(cur),
        {
            proof {
                assert(!visited.contains(cur));
                assert(self.forest.core.nd(cur).parent == s0.nd(cur).parent);
                assert(self.forest.core.nd(cur).marked == s0.nd(cur).marked);
                assert(self.forest.core.live_nodes@.contains(cur));
                assert(s0.is_live(cur));
            }
            let parent = match self.forest.core.node(cur).parent {
                None => {
                    proof {
                        assert forall|q: NodeRef| #[trigger] self.forest.core.is_live(q) implies self.forest.core.nd(q).marked
                            == (!cut_in_cascade(s0, node, q, total) && (marked_in_cascade(s0, node, q, total)
                            || s0.nd(q).marked)) by {
                            assert(!cut_in_cascade(s0, cur, q, steps));
                            assert(!marked_in_cascade(s0, cur, q, steps));
                        }
                        assert forall|q: NodeRef| #[trigger] self.forest.core.detached(q) == (s0.detached(q)
                            || cut_in_cascade(s0, node, q, total)) by {
                            assert(!cut_in_cascade(s0, cur, q, steps));
                        }
                    }
                    break;
                },
                Some(parent) => parent,
            };
            if !self.forest.core.node(cur).marked {
                let ghost c0 = self.forest.core;
                proof {
                    reveal(TreeCore::shaped_by);
                }
                self.forest.set_mark(cur, true, Ghost(None));
                proof {
                    reveal(TreeCore::shaped_by);
                    let c = self.forest.core;
                    c.lemma_same_nodes_wf(&c0);
                    c.lemma_same_entries(&c0);
                    assert forall|k: int| 0 <= k < self.roots@.len() implies c.detached(#[trigger] self.roots@[k]) by {
                        assert(c0.detached(self.roots@[k]));
                    }
                    if let Some(r) = c.root {
                        assert forall|k: int| 0 <= k < self.roots@.len() implies c.nd(r).key.key_rank() <= c.nd(
                            #[trigger] self.roots@[k],
                        ).key.key_rank() by {
                            assert(c0.nd(r).key.key_rank() <= c0.nd(self.roots@[k]).key.key_rank());
                            assert(c0.detached(self.roots@[k]));
                            assert(c0.is_live(r));
                        }
                    }
                    assert forall|q: NodeRef| #[trigger] c.is_live(q) implies c.nd(q).marked == (!cut_in_cascade(
                        s0,
                        node,
                        q,
                        total,
                    ) && (marked_in_cascade(s0, node, q, total) || s0.nd(q).marked)) by {
                        assert(!cut_in_cascade(s0, cur, q, steps));
                        assert(marked_in_cascade(s0, cur, q, steps) == (q == cur));
                        assert(c0.is_live(q));
                        if q != cur {
                            assert(c.slot_at(q) == c0.slot_at(q));
                        }
                    }
                    assert forall|q: NodeRef| #[trigger] c.detached(q) == (s0.detached(q) || cut_in_cascade(s0, node, q, total)) by {
                        assert(!cut_in_cascade(s0, cur, q, steps));
                    }
                }
                break;
            }
            proof {
                let c = self.forest.core;
                assert(c.node_linked(cur));
                assert(c.is_live(parent));
                assert((self.forest.height@)(cur) < (self.forest.height@)(parent));
                assert forall|q: NodeRef| #[trigger] c.is_live(q) && q != cur implies c.edge_ordered(self.forest.height@, q) by {}
            }
            let ghost c1 = self.forest.core;
            self.cut(cur);
            proof {
                let c = self.forest.core;
                assert forall|x: NodeRef| #[trigger] c.is_live(x) implies (self.forest.height@)(x) <= bound && c1.is_live(x) by {
                    assert(c.live_nodes@.contains(x));
                    assert(c1.live_nodes@.contains(x));
                }
                assert(c1.live_nodes@.contains(parent));
                assert(c.live_nodes@.contains(parent));
                assert(s0.nd(cur).parent == Some(parent));
                assert(s0.nd(cur).marked);
                assert(s0.live_nodes@.contains(cur));
                vstd::set_lib::lemma_len_subset(visited.insert(cur), s0.live_nodes@);
                assert(steps > 0);
                assert forall|q: NodeRef| #[trigger]
                    cut_in_cascade(s0, node, q, total) == (visited.insert(cur).contains(q) || cut_in_cascade(
                        s0,
                        parent,
                        q,
                        (steps - 1) as nat,
                    )) by {
                    assert(cut_in_cascade(s0, cur, q, steps) == (q == cur || cut_in_cascade(s0, parent, q, (steps - 1) as nat)));
                }
                assert forall|q: NodeRef| #[trigger]
                    marked_in_cascade(s0, node, q, total) == marked_in_cascade(s0, parent, q, (steps - 1) as nat) by {
                    assert(marked_in_cascade(s0, cur, q, steps) == marked_in_cascade(s0, parent, q, (steps - 1) as nat));
                }
                assert forall|q: NodeRef| #[trigger]
                    c.is_live(q) && !visited.insert(cur).contains(q) implies c.nd(q).parent == s0.nd(q).parent && c.nd(
                    q,
                ).marked == s0.nd(q).marked by {
                    assert(c1.is_live(q));
                }
                assert forall|q: NodeRef| #[trigger] visited.insert(cur).contains(q) implies !c.nd(q).marked by {
                    if q != cur {
                        assert(c1.is_live(q)) by {
                            assert(s0.live_nodes@.contains(q));
                        }
                        assert(c.is_live(q)) by {
                            assert(c.live_nodes@.contains(q));
                        }
                    }
                }
                assert forall|q: NodeRef| #[trigger] visited.insert(cur).contains(q) implies (self.forest.height@)(q) < (
                self.forest.height@)(parent) by {}
                assert forall|q: NodeRef| #[trigger] c.detached(q) == (s0.detached(q) || visited.insert(cur).contains(q)) by {
                    assert(c.detached(q) == (c1.detached(q) || q == cur));
                }
                visited = visited.insert(cur);
                steps = (steps - 1) as nat;
            }
            cur = parent;
        }
    }
}

impl<K: HeapKey, V> FibonacciHeap<K, V> {
    /// Decreases an entry's key; a node that now precedes its parent is cut
    /// into the root list with cascading cuts above it, and a root that now
    /// precedes the minimum becomes the minimum.
    pub fn decrease_key(&mut self, handle: TreeHandle, key: K) -> (result: Result<(), DecreaseKeyError>)
        requires
            old(self).is_well_formed(),
        ensures
            final(self).is_well_formed(),
            final(self).consumed() == old(self).consumed(),
            forall|h: TreeHandle| final(self).issued(h) == old(self).issued(h),
            match result {
                Ok(()) => {
                    &&& old(self).issued(handle)
                    &&& old(self).live_entries().contains_key(handle)
                    &&& key.key_rank() <= old(self).live_entries()[handle].0.key_rank()
                    &&& final(self).live_entries() == old(self).live_entries().insert(
                        handle,
                        (key, old(self).live_entries()[handle].1),
                    )
                },
                Err(DecreaseKeyError::InvalidHandle(e)) => {
                    &&& checked(
                        old(self).issued(handle),
                        old(self).live_entries().contains_key(handle),
                        Err::<(), InvalidHandle>(e),
                    )
                    &&& final(self).live_entries() == old(self).live_entries()
                },
                Err(DecreaseKeyError::NotDecreased) => {
                    &&& old(self).issued(handle)
                    &&& old(self).live_entries().contains_key(handle)
                    &&& key.key_rank() > old(self).live_entries()[handle].0.key_rank()
                    &&& final(self).live_entries() == old(self).live_entries()
                },
                Err(DecreaseKeyError::InvalidKey) => false,
            },
    {
        let ghost s0 = self.forest.core;
        let (node, equal) = match self.forest.core.set_key(handle, key) {
            Ok(found) => found,
            Err(error) => return Err(error),
        };
        let ghost s1 = self.forest.core;
        proof {
            assert forall|q: NodeRef| #[trigger] s1.is_live(q) && (q != node || equal || s1.nd(q).parent is None) implies s1.edge_ordered(
                self.forest.height@,
                q,
            ) by {
                if q != node {
                    assert(s1.slot_at(q) == s0.slot_at(q));
                }
                assert(s0.is_live(q));
                assert(s0.node_linked(q));
                if let Some(p) = s1.nd(q).parent {
                    if p != node {
                        assert(s1.slot_at(p) == s0.slot_at(p));
                    }
                }
            }
            assert forall|q: NodeRef| #[trigger] s1.detached(q) == s0.detached(q) by {
                if q != node {
                    assert(s1.slot_at(q) == s0.slot_at(q));
                }
            }
            assert forall|q: NodeRef| #[trigger] s1.is_live(q) && None::<NodeRef> != Some(q) implies s1.nd(q).rank == s1.nd(
                q,
            ).children@.len() by {
                if q != node {
                    assert(s1.slot_at(q) == s0.slot_at(q));
                }
                assert(s0.is_live(q));
            }
            assert forall|k: int| 0 <= k < self.roots@.len() implies s1.detached(#[trigger] self.roots@[k]) by {
                assert(s0.detached(self.roots@[k]));
            }
        }
        if equal {
            proof {
                assert forall|q: NodeRef| #[trigger] s1.is_live(q) && s1.nd(q).parent is Some implies {
                    &&& s1.nd(s1.nd(q).parent->0).key.key_rank() <= s1.nd(q).key.key_rank()
                    &&& (self.forest.height@)(q) < (self.forest.height@)(s1.nd(q).parent->0)
                } by {
                    assert(s1.edge_ordered(self.forest.height@, q));
                }
                if let Some(r) = s1.root {
                    assert forall|k: int| 0 <= k < self.roots@.len() implies s1.nd(r).key.key_rank() <= s1.nd(
                        #[trigger] self.roots@[k],
                    ).key.key_rank() by {
                        assert(s0.nd(r).key.key_rank() <= s0.nd(self.roots@[k]).key.key_rank());
                        assert(s0.detached(self.roots@[k]));
                        if r != node {
                            assert(s1.slot_at(r) == s0.slot_at(r));
                        }
                        if self.roots@[k] != node {
                            assert(s1.slot_at(self.roots@[k]) == s0.slot_at(self.roots@[k]));
                        }
                    }
                }
            }
            return Ok(());
        }
        match self.forest.core.node(node).parent {
            Some(parent) => {
                proof {
                    assert(s1.node_linked(node));
                    assert(!s1.detached(node));
                    assert(!s0.detached(node));
                    assert(!self.roots@.contains(node)) by {
                        if self.roots@.contains(node) {
                            let k = choose|k: int| 0 <= k < self.roots@.len() && self.roots@[k] == node;
                            assert(s0.detached(self.roots@[k]));
                        }
                    }
                    if let Some(r) = s1.root {
                        let j = choose|j: int| 0 <= j < self.roots@.len() && self.roots@[j] == r;
                        assert(s0.detached(self.roots@[j]));
                        assert forall|k: int| 0 <= k < self.roots@.len() implies s1.nd(r).key.key_rank() <= s1.nd(
                            #[trigger] self.roots@[k],
                        ).key.key_rank() by {
                            assert(s0.nd(r).key.key_rank() <= s0.nd(self.roots@[k]).key.key_rank());
                            assert(s0.detached(self.roots@[k]));
                            assert(s1.slot_at(r) == s0.slot_at(r));
                            assert(s1.slot_at(self.roots@[k]) == s0.slot_at(self.roots@[k]));
                        }
                    }
                }
                if self.forest.core.precedes(node, parent) {
                    self.cut(node);
                    proof {
                        assert(self.forest.core.live_nodes@.contains(parent)) by {
                            assert(s1.live_nodes@.contains(parent));
                        }
                    }
                    self.cascading_cut(parent);
                } else {
                    proof {
                        assert forall|q: NodeRef| #[trigger] s1.is_live(q) && s1.nd(q).parent is Some implies {
                            &&& s1.nd(s1.nd(q).parent->0).key.key_rank() <= s1.nd(q).key.key_rank()
                            &&& (self.forest.height@)(q) < (self.forest.height@)(s1.nd(q).parent->0)
                        } by {
                            if q == node {
                                assert(s0.is_live(node));
                                assert(s0.node_linked(node));
                                assert(s0.edge_ordered(self.forest.height@, node));
                            } else {
                                assert(s1.edge_ordered(self.forest.height@, q));
                            }
                        }
                    }
                }
            },
            None => {
                proof {
                    assert(s1.detached(node));
                    assert(self.roots@.contains(node));
                    assert forall|q: NodeRef| #[trigger] s1.is_live(q) && s1.nd(q).parent is Some implies {
                        &&& s1.nd(s1.nd(q).parent->0).key.key_rank() <= s1.nd(q).key.key_rank()
                        &&& (self.forest.height@)(q) < (self.forest.height@)(s1.nd(q).parent->0)
                    } by {
                        assert(s1.edge_ordered(self.forest.height@, q));
                    }
                }
                let minimum = self.forest.core.root.unwrap();
                proof {
                    let j = choose|j: int| 0 <= j < self.roots@.len() && self.roots@[j] == minimum;
                    assert(s0.detached(self.roots@[j]));
                }
                if self.forest.core.precedes(node, minimum) {
                    self.forest.core.root = Some(node);
                }
                proof {
                    let c = self.forest.core;
                    lemma_reroot(c, s1, self.forest.height@);
                    let r = c.root->0;
                    assert forall|k: int| 0 <= k < self.roots@.len() implies c.nd(r).key.key_rank() <= c.nd(
                        #[trigger] self.roots@[k],
                    ).key.key_rank() by {
                        let t = self.roots@[k];
                        assert(s0.detached(t));
                        assert(s0.nd(minimum).key.key_rank() <= s0.nd(t).key.key_rank());
                        if t != node {
                            assert(s1.slot_at(t) == s0.slot_at(t));
                        }
                        if minimum != node {
                            assert(s1.slot_at(minimum) == s0.slot_at(minimum));
                        }
                    }
                }
            },
        }
        Ok(())
    }

    /// Removes and returns the entry identified by `handle`: a node with a
    /// parent is first cut into the root list, with cascading cuts above
    /// it, and the root is then removed.
    pub fn delete(&mut self, handle: TreeHandle) -> (result: Result<(K, V), InvalidHandle>)
        requires
            old(self).is_well_formed(),
        ensures
            final(self).is_well_formed(),
            final(self).consumed() == old(self).consumed(),
            forall|h: TreeHandle| final(self).issued(h) == old(self).issued(h),
            checked(old(self).issued(handle), old(self).live_entries().contains_key(handle), result),
            result matches Ok(e) ==> {
                &&& e == old(self).live_entries()[handle]
                &&& final(self).live_entries() == old(self).live_entries().remove(handle)
            },
            result is Err ==> *final(self) == *old(self),
    {
        let node = self.forest.core.validate(handle)?;
        let ghost s0 = self.forest.core;
        proof {
            s0.lemma_handle_of(node);
            assert(s0.handle_of(node) == handle);
        }
        match self.forest.core.node(node).parent {
            Some(parent) => {
                proof {
                    assert(s0.node_linked(node));
                    assert forall|q: NodeRef| #[trigger] s0.is_live(q) && q != node implies s0.edge_ordered(self.forest.height@, q) by {}
                }
                self.cut(node);
                proof {
                    assert(self.forest.core.live_nodes@.contains(parent)) by {
                        assert(s0.live_nodes@.contains(parent));
                    }
                }
                self.cascading_cut(parent);
            },
            None => {},
        }
        proof {
            assert(self.forest.core.detached(node));
            assert(self.forest.core.is_live(node));
            assert(self.forest.core.live_nodes@.contains(node));
            assert(self.forest.core.handle_of(node) == handle) by {
                self.forest.core.lemma_handle_of(node);
                assert(self.forest.core.live().contains_key(handle));
            }
        }
        let entry = self.remove_root(node);
        Ok(entry)
    }
}

impl<K: HeapKey, V> FibonacciHeap<K, V> {
    /// Melds `other` into this heap.
    ///
    /// The donor is consumed on success: it keeps no entries and accepts
    /// none, while its handles stay valid through this heap.
    pub fn meld(&mut self, other: &mut Self) -> (result: Result<(), MeldError>)
        requires
            old(self).is_well_formed(),
            old(other).is_well_formed(),
            old(self).live_entries().len() + old(other).live_entries().len() <= usize::MAX,
        ensures
            final(self).is_well_formed(),
            final(other).is_well_formed(),
            match result {
                Ok(()) => {
                    &&& !old(self).consumed()
                    &&& !old(other).consumed()
                    &&& forall|h: TreeHandle| !(old(self).issued(h) && old(other).issued(h))
                    &&& old(self).live_entries().dom().disjoint(old(other).live_entries().dom())
                    &&& final(self).live_entries() == old(self).live_entries().union_prefer_right(old(other).live_entries())
                    &&& forall|h: TreeHandle| final(self).issued(h) == (old(self).issued(h) || old(other).issued(h))
                    &&& final(other).live_entries() == Map::<TreeHandle, (K, V)>::empty()
                    &&& final(other).consumed()
                    &&& forall|h: TreeHandle| !final(other).issued(h)
                    &&& !final(self).consumed()
                },
                Err(MeldError::ReceiverConsumed) => old(self).consumed(),
                Err(MeldError::DonorConsumed) => !old(self).consumed() && old(other).consumed(),
                Err(MeldError::DomainClash) => {
                    &&& !old(self).consumed()
                    &&& !old(other).consumed()
                    &&& exists|h: TreeHandle| old(self).issued(h) && old(other).issued(h)
                },
            },
            result is Err ==> *final(self) == *old(self) && *final(other) == *old(other),
    {
        if !self.forest.core.active {
            return Err(MeldError::ReceiverConsumed);
        }
        if !other.forest.core.active {
            return Err(MeldError::DonorConsumed);
        }
        if self.forest.core.shares_domain(&other.forest.core) {
            proof {
                let d = choose|d: u64| self.forest.core.has_domain(d) && other.forest.core.has_domain(d);
                let h = TreeHandle { domain: d, slot: 0, generation: 0 };
                assert(self.issued(h) && other.issued(h));
            }
            return Err(MeldError::DomainClash);
        }
        proof {
            self.forest.core.lemma_live_len();
            other.forest.core.lemma_live_len();
        }
        let ghost s0 = self.forest.core;
        let ghost o0 = other.forest.core;
        let ghost r0 = self.roots@;
        let ghost t0 = other.roots@;
        let joined = self.forest.core.absorb(Ghost(self.forest.height@), &mut other.forest.core, Ghost(other.forest.height@));
        proof {
            self.forest.height@ = joined@;
        }
        let ghost s1 = self.forest.core;
        self.roots.append(&mut other.roots);
        proof {
            reveal(TreeCore::shaped_by);
            let r1 = self.roots@;
            assert(r1 == r0 + t0);
            assert forall|q: NodeRef| #[trigger] r1.contains(q) <==> r0.contains(q) || t0.contains(q) by {
                if r1.contains(q) {
                    let j = choose|j: int| 0 <= j < r1.len() && r1[j] == q;
                    if j < r0.len() {
                        assert(r0[j] == q);
                    } else {
                        assert(t0[j - r0.len()] == q);
                    }
                }
                if r0.contains(q) {
                    let j = choose|j: int| 0 <= j < r0.len() && r0[j] == q;
                    assert(r1[j] == q);
                }
                if t0.contains(q) {
                    let j = choose|j: int| 0 <= j < t0.len() && t0[j] == q;
                    assert(r1[r0.len() + j] == q);
                }
            }
            assert forall|k: int| 0 <= k < r1.len() implies s1.detached(#[trigger] r1[k]) by {
                if k < r0.len() {
                    assert(r1[k] == r0[k]);
                    assert(s0.detached(r0[k]));
                } else {
                    assert(r1[k] == t0[k - r0.len()]);
                    assert(o0.detached(t0[k - r0.len()]));
                }
            }
            assert(r1.no_duplicates()) by {
                assert forall|a: int, b: int| 0 <= a < r1.len() && 0 <= b < r1.len() && a != b implies r1[a] != r1[b] by {
                    if a < r0.len() && b >= r0.len() {
                        assert(s0.detached(r0[a]));
                        assert(o0.detached(t0[b - r0.len()]));
                        assert(s0.is_live(r1[a]));
                        assert(!o0.is_live(r1[a]));
                    } else if a >= r0.len() && b < r0.len() {
                        assert(s0.detached(r0[b]));
                        assert(o0.detached(t0[a - r0.len()]));
                        assert(s0.is_live(r1[b]));
                        assert(!o0.is_live(r1[b]));
                    } else if a >= r0.len() {
                        assert(r1[a] == t0[a - r0.len()]);
                        assert(r1[b] == t0[b - r0.len()]);
                    }
                }
            }
            assert forall|q: NodeRef| #[trigger] s1.is_live(q) && None::<NodeRef> != Some(q) implies s1.nd(q).rank == s1.nd(
                q,
            ).children@.len() by {
                if s0.is_live(q) {
                    assert(s1.slot_at(q) == s0.slot_at(q));
                } else {
                    assert(o0.is_live(q));
                    assert(s1.slot_at(q) == o0.slot_at(q));
                }
            }
        }
        self.refresh_minimum();
        proof {
            let c = self.forest.core;
            lemma_reroot(c, s1, self.forest.height@);
            assert forall|q: NodeRef| #[trigger] c.detached(q) implies self.roots@.contains(q) by {
                assert(s1.detached(q));
                if s0.detached(q) {
                    assert(r0.contains(q));
                } else {
                    assert(t0.contains(q));
                }
            }
            assert forall|q: NodeRef| #[trigger] c.is_live(q) && None::<NodeRef> != Some(q) implies c.nd(q).rank == c.nd(q).children@.len() by {
                assert(c.slot_at(q) == s1.slot_at(q));
            }
            assert forall|q: NodeRef| !#[trigger] other.forest.core.detached(q) by {}
            assert forall|q: NodeRef| #[trigger] other.forest.core.is_live(q) && None::<NodeRef> != Some(q) implies other.forest.core.nd(q).rank
                == other.forest.core.nd(q).children@.len() by {}
        }
        Ok(())
    }
}

impl<K: HeapKey> FibonacciHeap<K, ()> {
    /// Inserts a key into this value-less heap, which must accept entries.
    pub fn push(&mut self, key: K)
        requires
            old(self).is_well_formed(),
            !old(self).consumed(),
            old(self).live_entries().len() < usize::MAX,
        ensures
            final(self).is_well_formed(),
            !final(self).consumed(),
            forall|h: TreeHandle| final(self).issued(h) == old(self).issued(h),
            exists|h: TreeHandle| {
                &&& final(self).issued(h)
                &&& !old(self).live_entries().contains_key(h)
                &&& final(self).live_entries() == old(self).live_entries().insert(h, (key, ()))
            },
    {
        let handle = self.insert(key, ());
        proof {
            assert(final(self).issued(handle));
        }
    }

    /// Returns the minimum key, if present.
    pub fn peek(&self) -> (result: Option<&K>)
        requires
            self.is_well_formed(),
        ensures
            result is None <==> self.live_entries().len() == 0,
            result matches Some(k) ==> exists|h: TreeHandle| {
                &&& least_entry(self.live_entries(), h, |key: K| key.key_rank())
                &&& self.live_entries()[h].0 == *k
            },
    {
        match self.peek_entry() {
            Some((handle, key, _)) => {
                proof {
                    assert(least_entry(self.live_entries(), handle, |key: K| key.key_rank()));
                }
                Some(key)
            },
            None => None,
        }
    }

    /// Removes and returns the minimum key, if present.
    pub fn pop(&mut self) -> (result: Option<K>)
        requires
            old(self).is_well_formed(),
        ensures
            final(self).is_well_formed(),
            final(self).consumed() == old(self).consumed(),
            forall|h: TreeHandle| final(self).issued(h) == old(self).issued(h),
            result is None <==> old(self).live_entries().len() == 0,
            result is None ==> final(self).live_entries() == old(self).live_entries(),
            result matches Some(k) ==> exists|h: TreeHandle| {
                &&& least_entry(old(self).live_entries(), h, |key: K| key.key_rank())
                &&& old(self).live_entries()[h].0 == k
                &&& final(self).live_entries() == old(self).live_entries().remove(h)
            },
    {
        match self.pop_entry() {
            Some((key, _)) => Some(key),
            None => None,
        }
    }
}

impl<K: HeapKey, V> Default for FibonacciHeap<K, V> {
    fn default() -> (heap: Self)
        ensures
            heap.is_well_formed(),
            !heap.consumed(),
            heap.live_entries() == Map::<TreeHandle, (K, V)>::empty(),
    {
        Self::new()
    }
}

impl<K: HeapKey, V> AddressableHeap<K, V> for FibonacciHeap<K, V> {
    type Handle = TreeHandle;

    open spec fn well_formed(&self) -> bool {
        self.is_well_formed()
    }

    open spec fn live(&self) -> Map<TreeHandle, (K, V)> {
        self.live_entries()
    }

    open spec fn owns(&self, handle: TreeHandle) -> bool {
        self.issued(handle)
    }

    open spec fn is_consumed(&self) -> bool {
        self.consumed()
    }

    open spec fn priority(&self, key: K) -> int {
        key.key_rank()
    }

    fn insert(&mut self, key: K, value: V) -> (handle: TreeHandle) {
        proof {
            self.forest.core.lemma_live_len();
        }
        FibonacciHeap::insert(self, key, value)
    }

    fn peek(&self) -> (result: Option<(TreeHandle, &K, &V)>) {
        self.peek_entry()
    }

    fn pop(&mut self) -> (result: Option<(K, V)>) {
        let result = self.pop_entry();
        proof {
            if result is Some {
                let e = result->0;
                let h = choose|h: TreeHandle| {
                    &&& least_entry(old(self).live_entries(), h, |key: K| key.key_rank())
                    &&& old(self).live_entries()[h] == e
                    &&& self.live_entries() == old(self).live_entries().remove(h)
                };
                assert(least_entry(old(self).live(), h, |key: K| old(self).priority(key)));
            }
        }
        result
    }

    fn key(&self, handle: TreeHandle) -> (result: Result<&K, InvalidHandle>) {
        FibonacciHeap::key(self, handle)
    }

    fn value(&self, handle: TreeHandle) -> (result: Result<&V, InvalidHandle>) {
        FibonacciHeap::value(self, handle)
    }

    fn value_mut(&mut self, handle: TreeHandle) -> (result: Result<&mut V, InvalidHandle>) {
        FibonacciHeap::value_mut(self, handle)
    }

    fn delete(&mut self, handle: TreeHandle) -> (result: Result<(K, V), InvalidHandle>) {
        proof {
            self.forest.core.lemma_live_len();
        }
        FibonacciHeap::delete(self, handle)
    }

    fn len(&self) -> (result: usize) {
        FibonacciHeap::len(self)
    }

    fn clear(&mut self) {
        FibonacciHeap::clear(self)
    }
}

impl<K: HeapKey, V> DecreaseKeyHeap<K, V> for FibonacciHeap<K, V> {
    fn decrease_key(&mut self, handle: TreeHandle, key: K) -> (result: Result<(), DecreaseKeyError>) {
        FibonacciHeap::decrease_key(self, handle, key)
    }
}

impl<K: HeapKey, V> MeldableAddressableHeap<K, V> for FibonacciHeap<K, V> {
    type MeldError = MeldError;

    fn meld(&mut self, other: &mut Self) -> (result: Result<(), MeldError>) {
        let result = FibonacciHeap::meld(self, other);
        proof {
            if result == Err::<(), MeldError>(MeldError::DomainClash) {
                let h = choose|h: TreeHandle| old(self).issued(h) && old(other).issued(h);
                assert(old(self).owns(h) && old(other).owns(h));
            }
        }
        result
    }
}

impl<K: HeapKey> Heap<K> for FibonacciHeap<K, ()> {
    open spec fn well_formed(&self) -> bool {
        &&& self.is_well_formed()
        &&& self.live_entries().dom().finite()
        &&& self.consumed() ==> self.live_entries().dom().len() == 0
    }

    open spec fn items(&self) -> Multiset<K> {
        keys_of(self.live_entries())
    }

    open spec fn priority(&self, value: K) -> int {
        value.key_rank()
    }

    open spec fn accepts_push(&self) -> bool {
        !self.consumed()
    }

    fn push(&mut self, value: K) {
        proof {
            lemma_keys_len(self.live_entries());
        }
        FibonacciHeap::push(self, value);
        proof {
            let h = choose|h: TreeHandle| {
                &&& self.issued(h)
                &&& !old(self).live_entries().contains_key(h)
                &&& self.live_entries() == old(self).live_entries().insert(h, (value, ()))
            };
            lemma_keys_insert(old(self).live_entries(), h, (value, ()));
        }
    }

    fn peek(&self) -> (result: Option<&K>) {
        proof {
            lemma_keys_len(self.live_entries());
        }
        let result = FibonacciHeap::peek(self);
        proof {
            if let Some(k) = result {
                let h = choose|h: TreeHandle| {
                    &&& least_entry(self.live_entries(), h, |key: K| key.key_rank())
                    &&& self.live_entries()[h].0 == *k
                };
                lemma_keys_remove(self.live_entries(), h);
                assert forall|other: K| self.items().contains(other) implies k.key_rank() <= other.key_rank() by {
                    lemma_keys_contains(self.live_entries(), other);
                    let g = choose|g: TreeHandle| self.live_entries().dom().contains(g) && self.live_entries()[g].0 == other;
                    assert(self.live_entries().contains_key(g));
                }
            }
        }
        result
    }

    fn pop(&mut self) -> (result: Option<K>) {
        proof {
            lemma_keys_len(self.live_entries());
        }
        let result = FibonacciHeap::pop(self);
        proof {
            if result is Some {
                let k = result->0;
                let h = choose|h: TreeHandle| {
                    &&& least_entry(old(self).live_entries(), h, |key: K| key.key_rank())
                    &&& old(self).live_entries()[h].0 == k
                    &&& self.live_entries() == old(self).live_entries().remove(h)
                };
                lemma_keys_remove(old(self).live_entries(), h);
                assert forall|other: K| old(self).items().contains(other) implies k.key_rank() <= other.key_rank() by {
                    lemma_keys_contains(old(self).live_entries(), other);
                    let g = choose|g: TreeHandle| old(self).live_entries().dom().contains(g) && old(self).live_entries()[g].0
                        == other;
                    assert(old(self).live_entries().contains_key(g));
                }
            }
        }
        result
    }

    fn len(&self) -> (result: usize) {
        proof {
            lemma_keys_len(self.live_entries());
        }
        FibonacciHeap::len(self)
    }

    fn clear(&mut self) {
        FibonacciHeap::clear(self);
        proof {
            assert(self.live_entries().dom() =~= Set::<TreeHandle>::empty()) by {
                if old(self).consumed() {
                    assert(old(self).live_entries().dom() =~= Set::<TreeHandle>::empty());
                }
            }
            lemma_keys_empty(self.live_entries());
        }
    }
}

impl<K: HeapKey> MeldableHeap<K> for FibonacciHeap<K, ()> {
    type MeldError = MeldError;

    open spec fn is_consumed(&self) -> bool {
        self.consumed()
    }

    open spec fn meld_compatible(&self, other: &Self) -> bool {
        forall|h: TreeHandle| !(self.issued(h) && other.issued(h))
    }

    fn meld(&mut self, other: &mut Self) -> (result: Result<(), MeldError>) {
        proof {
            lemma_keys_len(self.live_entries());
            lemma_keys_len(other.live_entries());
        }
        let result = FibonacciHeap::meld(self, other);
        proof {
            if result is Ok {
                lemma_keys_union(old(self).live_entries(), old(other).live_entries());
                assert(self.live_entries().dom() =~= old(self).live_entries().dom().union(old(other).live_entries().dom()));
                lemma_keys_empty(other.live_entries());
            }
        }
        result
    }
}

} // verus!
