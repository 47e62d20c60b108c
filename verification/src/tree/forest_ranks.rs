//! Rank bookkeeping shared by the Fibonacci-style heaps: a heap-ordered
//! forest whose ranks count children, with rank-linking and the
//! bucket-by-rank filing used to consolidate trees.
use vstd::prelude::*;

use crate::order::HeapKey;
use crate::tree::forest::{NodeRef, TreeCore};
use crate::tree::forest_order::lemma_height_bound;

verus! {

broadcast use {vstd::set::group_set_axioms, vstd::map::group_map_axioms};

/// Every live node other than `skip` has a rank equal to its number of
/// child positions.
pub(crate) open spec fn ranks_ok<K, V>(core: TreeCore<K, V>, skip: Option<NodeRef>) -> bool {
    forall|q: NodeRef| #[trigger] core.is_live(q) && skip != Some(q) ==> core.nd(q).rank == core.nd(q).children@.len()
}

/// What a cascade that starts at `node` does to the mark of `q`, following
/// at most `steps` parent links: `Some(m)` where it sets the mark to `m`,
/// `None` where it leaves the mark alone.  Marked nodes on the way up are
/// unmarked; the first unmarked node is marked when it has a parent.
pub(crate) open spec fn cascade_mark<K, V>(core: TreeCore<K, V>, node: NodeRef, q: NodeRef, steps: nat) -> Option<bool>
    decreases steps,
{
    if !core.nd(node).marked {
        if q == node {
            Some(core.nd(node).parent is Some)
        } else {
            None
        }
    } else if q == node {
        Some(false)
    } else if steps == 0 {
        None
    } else {
        match core.nd(node).parent {
            None => None,
            Some(p) => cascade_mark(core, p, q, (steps - 1) as nat),
        }
    }
}

/// A forest of trees held in a node store, with the height function that
/// witnesses its heap order.
pub(crate) struct RankedForest<K, V> {
    pub(crate) core: TreeCore<K, V>,
    pub(crate) height: Ghost<spec_fn(NodeRef) -> nat>,
}

impl<K: HeapKey, V> RankedForest<K, V> {
    /// Links the trees under the detached nodes `first` and `second`: the
    /// root with the larger key becomes the last child of the other, is
    /// unmarked, and the winner's rank grows by one.
    pub(crate) fn link(&mut self, first: NodeRef, second: NodeRef, Ghost(skip): Ghost<Option<NodeRef>>) -> (winner: NodeRef)
        requires
            old(self).core.shaped_by(old(self).height@),
            old(self).core.detached(first),
            old(self).core.detached(second),
            first != second,
            skip != Some(first) && skip != Some(second),
            ranks_ok(old(self).core, skip),
        ensures
            final(self).core.shaped_by(final(self).height@),
            final(self).core.same_nodes(&old(self).core),
            ranks_ok(final(self).core, skip),
            winner == first || winner == second,
            final(self).core.detached(winner),
            final(self).core.nd(winner).rank == old(self).core.nd(winner).rank + 1,
            old(self).core.nd(winner).key.key_rank() <= old(self).core.nd(first).key.key_rank(),
            old(self).core.nd(winner).key.key_rank() <= old(self).core.nd(second).key.key_rank(),
            forall|q: NodeRef| #[trigger]
                final(self).core.detached(q) == (old(self).core.detached(q) && (q == winner || (q != first && q != second))),
            forall|q: NodeRef| q != first && q != second ==> #[trigger] final(self).core.slot_at(q) == old(self).core.slot_at(q),
            forall|q: NodeRef| #[trigger]
                final(self).core.is_live(q) && q != first && q != second ==> final(self).core.nd(q).children
                    == old(self).core.nd(q).children,
            skip matches Some(x) ==> final(self).core.nd(x).children == old(self).core.nd(x).children,
    {
        proof {
            reveal(TreeCore::shaped_by);
        }
        let ghost s0 = self.core;
        let (parent, child) = if self.core.precedes(second, first) {
            (second, first)
        } else {
            (first, second)
        };
        let lifted = self.core.attach(Ghost(self.height@), parent, child);
        proof {
            self.height@ = lifted@;
        }
        let ghost s1 = self.core;
        proof {
            reveal(TreeCore::shaped_by);
        }
        self.core.set_marked(child, false);
        let ghost s2 = self.core;
        let rank = self.core.node(parent).rank;
        let count = self.core.node(parent).children.len();
        proof {
            assert(s1.slot_at(parent) == s2.slot_at(parent));
            assert(s0.nd(parent).rank == s0.nd(parent).children@.len());
            assert(s1.nd(parent).rank == s0.nd(parent).rank);
            assert(rank + 1 == count);
        }
        self.core.set_rank(parent, rank + 1);
        proof {
            reveal(TreeCore::shaped_by);
            self.core.lemma_same_nodes_trans(&s2, &s1);
            self.core.lemma_same_nodes_trans(&s1, &s0);
            assert forall|q: NodeRef| #[trigger] self.core.is_live(q) && self.core.nd(q).parent is Some implies self.core.nd(q).parent
                == s1.nd(q).parent by {
                if q != parent && q != child {
                    assert(self.core.slot_at(q) == s1.slot_at(q));
                }
            }
            self.core.lemma_ordered_frame(&s1, self.height@);
            assert forall|q: NodeRef| #[trigger] self.core.detached(q) == (s0.detached(q) && (q == parent || (q != first && q
                != second))) by {
                assert(s1.detached(q) == (s0.detached(q) && q != child));
                if q != parent && q != child {
                    assert(self.core.slot_at(q) == s1.slot_at(q));
                } else if q == parent {
                    assert(s2.slot_at(parent) == s1.slot_at(parent));
                    assert(self.core.nd(parent).parent == s1.nd(parent).parent);
                } else {
                    assert(self.core.slot_at(child) == s2.slot_at(child));
                    assert(self.core.nd(child).parent == s1.nd(child).parent);
                }
            }
            assert forall|q: NodeRef| q != first && q != second implies #[trigger] self.core.slot_at(q) == s0.slot_at(q) by {
                assert(self.core.slot_at(q) == s1.slot_at(q));
            }
            assert forall|q: NodeRef| #[trigger] self.core.is_live(q) && skip != Some(q) implies self.core.nd(q).rank
                == self.core.nd(q).children@.len() by {
                if q != parent && q != child {
                    assert(self.core.slot_at(q) == s0.slot_at(q));
                }
            }
        }
        parent
    }
}

/// `q` is held in one of the rank buckets.
pub(crate) open spec fn held(buckets: Seq<Option<NodeRef>>, q: NodeRef) -> bool {
    exists|b: int| 0 <= b < buckets.len() && buckets[b] == Some(q)
}

/// The rank buckets hold distinct detached trees drawn from `children`,
/// each in the bucket of its rank.
pub(crate) open spec fn pool_ok<K: HeapKey, V>(core: TreeCore<K, V>, buckets: Seq<Option<NodeRef>>, children: Seq<NodeRef>) -> bool {
    &&& forall|a: int, b: int|
        #![trigger buckets[a], buckets[b]]
        0 <= a < buckets.len() && 0 <= b < buckets.len() && buckets[a] is Some && buckets[a] == buckets[b] ==> a == b
    &&& forall|b: int|
        #![trigger buckets[b]]
        0 <= b < buckets.len() && buckets[b] is Some ==> {
            &&& core.detached(buckets[b]->0)
            &&& children.contains(buckets[b]->0)
            &&& core.nd(buckets[b]->0).rank == b
        }
}

/// Stores `tree` in bucket `rank`, which is empty or beyond the end,
/// growing the buckets with empty ones as needed.
pub(crate) fn place(buckets: &mut Vec<Option<NodeRef>>, rank: usize, tree: NodeRef)
    requires
        rank < old(buckets)@.len() ==> old(buckets)@[rank as int] is None,
    ensures
        final(buckets)@.len() == if rank < old(buckets)@.len() { old(buckets)@.len() as int } else { rank + 1 },
        forall|b: int|
            0 <= b < final(buckets)@.len() ==> #[trigger] final(buckets)@[b] == if b == rank {
                Some(tree)
            } else if b < old(buckets)@.len() {
                old(buckets)@[b]
            } else {
                None
            },
{
    let ghost b0 = buckets@;
    while buckets.len() <= rank
        invariant
            b0.len() <= buckets@.len(),
            buckets@.len() <= rank + 1 || buckets@.len() == b0.len(),
            forall|b: int| 0 <= b < buckets@.len() ==> #[trigger] buckets@[b] == if b < b0.len() { b0[b] } else { None },
        decreases rank + 1 - buckets@.len(),
    {
        buckets.push(None);
    }
    buckets.set(rank, Some(tree));
}

impl<K: HeapKey, V> RankedForest<K, V> {
    /// Sets the mark of the live node `node`.
    pub(crate) fn set_mark(&mut self, node: NodeRef, marked: bool, Ghost(skip): Ghost<Option<NodeRef>>)
        requires
            old(self).core.shaped_by(old(self).height@),
            old(self).core.is_live(node),
            ranks_ok(old(self).core, skip),
        ensures
            final(self).core.shaped_by(final(self).height@),
            final(self).height@ == old(self).height@,
            final(self).core.same_nodes(&old(self).core),
            ranks_ok(final(self).core, skip),
            final(self).core.nd(node) == (crate::tree::forest::Node { marked, ..old(self).core.nd(node) }),
            forall|q: NodeRef| q != node ==> #[trigger] final(self).core.slot_at(q) == old(self).core.slot_at(q),
            forall|q: NodeRef| #[trigger] final(self).core.detached(q) == old(self).core.detached(q),
    {
        proof {
            reveal(TreeCore::shaped_by);
        }
        let ghost s0 = self.core;
        self.core.set_marked(node, marked);
        proof {
            reveal(TreeCore::shaped_by);
            assert forall|q: NodeRef| #[trigger] self.core.is_live(q) && self.core.nd(q).parent is Some implies self.core.nd(q).parent
                == s0.nd(q).parent by {
                if q != node {
                    assert(self.core.slot_at(q) == s0.slot_at(q));
                }
            }
            self.core.lemma_ordered_frame(&s0, self.height@);
            assert forall|q: NodeRef| #[trigger] self.core.detached(q) == s0.detached(q) by {
                if q != node {
                    assert(self.core.slot_at(q) == s0.slot_at(q));
                }
            }
            assert forall|q: NodeRef| #[trigger] self.core.is_live(q) && skip != Some(q) implies self.core.nd(q).rank
                == self.core.nd(q).children@.len() by {
                if q != node {
                    assert(self.core.slot_at(q) == s0.slot_at(q));
                }
            }
        }
    }
}

impl<K: HeapKey, V> RankedForest<K, V> {
    /// Files the detached tree `tree` into the rank buckets, linking it with
    /// the tree of equal rank for as long as there is one.
    pub(crate) fn settle(
        &mut self,
        buckets: &mut Vec<Option<NodeRef>>,
        tree: NodeRef,
        Ghost(children): Ghost<Seq<NodeRef>>,
        Ghost(skip): Ghost<Option<NodeRef>>,
    )
        requires
            old(self).core.shaped_by(old(self).height@),
            ranks_ok(old(self).core, skip),
            pool_ok(old(self).core, old(buckets)@, children),
            forall|k: int| 0 <= k < children.len() ==> skip != Some(#[trigger] children[k]),
            old(self).core.detached(tree),
            children.contains(tree),
            !held(old(buckets)@, tree),
        ensures
            final(self).core.shaped_by(final(self).height@),
            final(self).core.same_nodes(&old(self).core),
            ranks_ok(final(self).core, skip),
            pool_ok(final(self).core, final(buckets)@, children),
            exists|b: int| 0 <= b < final(buckets)@.len() && #[trigger] final(buckets)@[b] is Some,
            forall|q: NodeRef| #[trigger] held(final(buckets)@, q) ==> held(old(buckets)@, q) || q == tree,
            forall|q: NodeRef| #[trigger]
                final(self).core.detached(q) ==> (old(self).core.detached(q) && q != tree && !held(old(buckets)@, q))
                    || held(final(buckets)@, q),
            forall|q: NodeRef|
                old(self).core.detached(q) && q != tree && !held(old(buckets)@, q) ==> #[trigger] final(self).core.slot_at(q)
                    == old(self).core.slot_at(q) && final(self).core.detached(q),
    {
        let ghost c0 = self.core;
        let ghost b0 = buckets@;
        let ghost t0 = tree;
        let mut tree = tree;
        proof {
            reveal(TreeCore::shaped_by);
        }
        while self.core.node(tree).rank < buckets.len() && buckets[self.core.node(tree).rank].is_some()
            invariant
                self.core.shaped_by(self.height@),
                self.core.distinct_domains(),
                self.core.same_nodes(&c0),
                ranks_ok(self.core, skip),
                pool_ok(self.core, buckets@, children),
                forall|k: int| 0 <= k < children.len() ==> skip != Some(#[trigger] children[k]),
                self.core.detached(tree),
                children.contains(tree),
                !held(buckets@, tree),
                tree == t0 || held(b0, tree),
                forall|q: NodeRef| #[trigger] held(buckets@, q) ==> held(b0, q),
                forall|q: NodeRef| #[trigger]
                    self.core.detached(q) ==> (c0.detached(q) && q != t0 && !held(b0, q)) || held(buckets@, q) || q == tree,
                forall|q: NodeRef|
                    c0.detached(q) && q != t0 && !held(b0, q) ==> #[trigger] self.core.slot_at(q) == c0.slot_at(q)
                        && self.core.detached(q),
            decreases buckets@.len() - self.core.nd(tree).rank,
        {
            let rank = self.core.node(tree).rank;
            let other = buckets[rank].unwrap();
            let ghost c1 = self.core;
            let ghost b1 = buckets@;
            proof {
                assert(b1[rank as int] == Some(other));
                assert(held(b1, other));
                assert(other != tree);
                let k = choose|k: int| 0 <= k < children.len() && children[k] == other;
                assert(skip != Some(children[k]));
                let j = choose|j: int| 0 <= j < children.len() && children[j] == tree;
                assert(skip != Some(children[j]));
            }
            buckets.set(rank, None);
            let winner = self.link(other, tree, Ghost(skip));
            proof {
                reveal(TreeCore::shaped_by);
                self.core.lemma_same_nodes_trans(&c1, &c0);
                assert(self.core.nd(winner).rank == rank + 1);
                assert forall|b: int| #![trigger buckets@[b]] 0 <= b < buckets@.len() && buckets@[b] is Some implies {
                    &&& self.core.detached(buckets@[b]->0)
                    &&& children.contains(buckets@[b]->0)
                    &&& self.core.nd(buckets@[b]->0).rank == b
                } by {
                    let t = buckets@[b]->0;
                    assert(b != rank);
                    assert(b1[b] == buckets@[b]);
                    assert(t != other);
                    assert(t != tree) by {
                        assert(held(b1, t));
                    }
                    assert(self.core.slot_at(t) == c1.slot_at(t));
                }
                assert forall|a: int, b: int|
                    #![trigger buckets@[a], buckets@[b]]
                    0 <= a < buckets@.len() && 0 <= b < buckets@.len() && buckets@[a] is Some && buckets@[a] == buckets@[b] implies a == b by {
                    assert(b1[a] == buckets@[a]);
                    assert(b1[b] == buckets@[b]);
                }
                assert forall|q: NodeRef| #[trigger] held(buckets@, q) implies held(b0, q) && held(b1, q) && q != other by {
                    let b = choose|b: int| 0 <= b < buckets@.len() && buckets@[b] == Some(q);
                    assert(b1[b] == buckets@[b]);
                    assert(held(b1, q));
                }
                assert(!held(buckets@, winner));
                assert(winner == t0 || held(b0, winner)) by {
                    if winner == other {
                        assert(held(b1, other));
                    }
                }
                assert forall|q: NodeRef| #[trigger] self.core.detached(q) implies (c0.detached(q) && q != t0 && !held(b0, q))
                    || held(buckets@, q) || q == winner by {
                    if q != winner {
                        assert(c1.detached(q));
                        assert(q != other && q != tree);
                        if held(b1, q) {
                            let b = choose|b: int| 0 <= b < b1.len() && b1[b] == Some(q);
                            assert(b != rank);
                            assert(buckets@[b] == Some(q));
                        }
                    }
                }
                assert forall|q: NodeRef| c0.detached(q) && q != t0 && !held(b0, q) implies #[trigger] self.core.slot_at(q)
                    == c0.slot_at(q) && self.core.detached(q) by {
                    assert(c1.slot_at(q) == c0.slot_at(q));
                    assert(q != other) by {
                        if q == other {
                            assert(held(b1, other));
                        }
                    }
                    assert(q != tree) by {
                        if q == tree {
                            assert(held(b0, tree) || tree == t0);
                        }
                    }
                }
            }
            tree = winner;
        }
        let ghost c2 = self.core;
        let ghost b2 = buckets@;
        let rank = self.core.node(tree).rank;
        place(buckets, rank, tree);
        proof {
            assert(buckets@[rank as int] == Some(tree));
            assert forall|q: NodeRef| #[trigger] held(buckets@, q) implies held(b2, q) || q == tree by {
                let b = choose|b: int| 0 <= b < buckets@.len() && buckets@[b] == Some(q);
                if b != rank {
                    assert(buckets@[b] == b2[b]);
                }
            }
            assert forall|q: NodeRef| held(b2, q) implies #[trigger] held(buckets@, q) by {
                let b = choose|b: int| 0 <= b < b2.len() && b2[b] == Some(q);
                assert(b != rank);
                assert(buckets@[b] == b2[b]);
            }
            assert forall|b: int| #![trigger buckets@[b]] 0 <= b < buckets@.len() && buckets@[b] is Some implies {
                &&& self.core.detached(buckets@[b]->0)
                &&& children.contains(buckets@[b]->0)
                &&& self.core.nd(buckets@[b]->0).rank == b
            } by {
                if b != rank {
                    assert(buckets@[b] == b2[b]);
                }
            }
            assert forall|a: int, b: int|
                #![trigger buckets@[a], buckets@[b]]
                0 <= a < buckets@.len() && 0 <= b < buckets@.len() && buckets@[a] is Some && buckets@[a] == buckets@[b] implies a == b by {
                if a != rank && b != rank {
                    assert(buckets@[a] == b2[a]);
                    assert(buckets@[b] == b2[b]);
                } else if a != rank {
                    assert(buckets@[a] == b2[a]);
                    assert(held(b2, tree));
                } else if b != rank {
                    assert(buckets@[b] == b2[b]);
                    assert(held(b2, tree));
                }
            }
            assert forall|q: NodeRef| #[trigger] held(buckets@, q) implies held(b0, q) || q == t0 by {
                if q != tree {
                    assert(held(b2, q));
                }
            }
            assert forall|q: NodeRef| #[trigger] self.core.detached(q) implies (c0.detached(q) && q != t0 && !held(b0, q))
                || held(buckets@, q) by {
                if held(b2, q) {
                    assert(held(buckets@, q));
                }
            }
        }
    }
}

impl<K: HeapKey, V> RankedForest<K, V> {
    /// Links the trees held in the buckets, in bucket order, into one tree
    /// and returns its root.
    pub(crate) fn fold_buckets(
        &mut self,
        buckets: &Vec<Option<NodeRef>>,
        Ghost(children): Ghost<Seq<NodeRef>>,
        Ghost(skip): Ghost<Option<NodeRef>>,
    ) -> (result: Option<NodeRef>)
        requires
            old(self).core.shaped_by(old(self).height@),
            ranks_ok(old(self).core, skip),
            pool_ok(old(self).core, buckets@, children),
            forall|k: int| 0 <= k < children.len() ==> skip != Some(#[trigger] children[k]),
        ensures
            final(self).core.shaped_by(final(self).height@),
            final(self).core.same_nodes(&old(self).core),
            ranks_ok(final(self).core, skip),
            result is None <==> forall|b: int| 0 <= b < buckets@.len() ==> #[trigger] buckets@[b] is None,
            result matches Some(m) ==> held(buckets@, m) && final(self).core.detached(m),
            forall|q: NodeRef| #[trigger]
                final(self).core.detached(q) ==> (old(self).core.detached(q) && !held(buckets@, q)) || result == Some(q),
            forall|q: NodeRef|
                old(self).core.detached(q) && !held(buckets@, q) ==> #[trigger] final(self).core.slot_at(q)
                    == old(self).core.slot_at(q) && final(self).core.detached(q),
    {
        let ghost c0 = self.core;
        let mut root: Option<NodeRef> = None;
        let mut b: usize = 0;
        proof {
            reveal(TreeCore::shaped_by);
        }
        while b < buckets.len()
            invariant
                b <= buckets@.len(),
                self.core.shaped_by(self.height@),
                self.core.distinct_domains(),
                self.core.same_nodes(&c0),
                ranks_ok(self.core, skip),
                pool_ok(c0, buckets@, children),
                forall|k: int| 0 <= k < children.len() ==> skip != Some(#[trigger] children[k]),
                forall|x: int| #![trigger buckets@[x]] b <= x < buckets@.len() && buckets@[x] is Some ==> self.core.detached(buckets@[x]->0),
                root matches Some(r) ==> self.core.detached(r) && exists|x: int| 0 <= x < b && buckets@[x] == Some(r),
                root is None ==> forall|x: int| 0 <= x < b ==> #[trigger] buckets@[x] is None,
                forall|q: NodeRef| #[trigger]
                    self.core.detached(q) ==> (c0.detached(q) && !held(buckets@, q)) || root == Some(q) || exists|x: int|
                        b <= x < buckets@.len() && buckets@[x] == Some(q),
                forall|q: NodeRef|
                    c0.detached(q) && !held(buckets@, q) ==> #[trigger] self.core.slot_at(q) == c0.slot_at(q) && self.core.detached(q),
            decreases buckets@.len() - b,
        {
            let ghost c1 = self.core;
            let ghost root1 = root;
            if let Some(t) = buckets[b] {
                proof {
                    assert(buckets@[b as int] == Some(t));
                    assert(children.contains(t));
                    let k = choose|k: int| 0 <= k < children.len() && children[k] == t;
                    assert(skip != Some(children[k]));
                }
                match root {
                    None => {
                        root = Some(t);
                    },
                    Some(r) => {
                        proof {
                            let x = choose|x: int| 0 <= x < b && buckets@[x] == Some(r);
                            assert(x != b);
                            assert(r != t);
                            assert(children.contains(r));
                            let k = choose|k: int| 0 <= k < children.len() && children[k] == r;
                            assert(skip != Some(children[k]));
                        }
                        let w = self.link(r, t, Ghost(skip));
                        proof {
                            reveal(TreeCore::shaped_by);
                            self.core.lemma_same_nodes_trans(&c1, &c0);
                        }
                        root = Some(w);
                    },
                }
                proof {
                    let w = root->0;
                    assert(exists|x: int| 0 <= x < b + 1 && buckets@[x] == Some(w)) by {
                        if w == t {
                            assert(buckets@[b as int] == Some(w));
                        } else {
                            let x = choose|x: int| 0 <= x < b && buckets@[x] == Some(w);
                            assert(buckets@[x] == Some(w));
                        }
                    }
                    assert forall|x: int| #![trigger buckets@[x]] b + 1 <= x < buckets@.len() && buckets@[x] is Some implies self.core.detached(
                        buckets@[x]->0,
                    ) by {
                        let u = buckets@[x]->0;
                        assert(c1.detached(u));
                        assert(u != t);
                        if let Some(r) = root1 {
                            let y = choose|y: int| 0 <= y < b && buckets@[y] == Some(r);
                            assert(u != r);
                        }
                    }
                    assert forall|q: NodeRef| #[trigger] self.core.detached(q) implies (c0.detached(q) && !held(buckets@, q)) || root
                        == Some(q) || exists|x: int| b + 1 <= x < buckets@.len() && buckets@[x] == Some(q) by {
                        if root != Some(q) {
                            assert(c1.detached(q));
                            assert(q != t);
                            if exists|x: int| b <= x < buckets@.len() && buckets@[x] == Some(q) {
                                let x = choose|x: int| b <= x < buckets@.len() && buckets@[x] == Some(q);
                                assert(x != b);
                            }
                        }
                    }
                    assert forall|q: NodeRef| c0.detached(q) && !held(buckets@, q) implies #[trigger] self.core.slot_at(q) == c0.slot_at(
                        q,
                    ) && self.core.detached(q) by {
                        assert(c1.slot_at(q) == c0.slot_at(q));
                        assert(q != t) by {
                            assert(buckets@[b as int] == Some(t));
                        }
                        if let Some(r) = root1 {
                            assert(q != r) by {
                                let y = choose|y: int| 0 <= y < b && buckets@[y] == Some(r);
                                assert(buckets@[y] == Some(r));
                            }
                        }
                    }
                }
            } else {
                proof {
                    assert forall|q: NodeRef| #[trigger] self.core.detached(q) implies (c0.detached(q) && !held(buckets@, q)) || root
                        == Some(q) || exists|x: int| b + 1 <= x < buckets@.len() && buckets@[x] == Some(q) by {
                        if root != Some(q) && !(c0.detached(q) && !held(buckets@, q)) {
                            let x = choose|x: int| b <= x < buckets@.len() && buckets@[x] == Some(q);
                            assert(x != b);
                        }
                    }
                }
            }
            b = b + 1;
        }
        proof {
            assert forall|q: NodeRef| #[trigger] self.core.detached(q) implies (c0.detached(q) && !held(buckets@, q)) || root == Some(q) by {}
            if let Some(m) = root {
                let x = choose|x: int| 0 <= x < b && buckets@[x] == Some(m);
                assert(held(buckets@, m));
                assert(buckets@[x] is Some);
            }
        }
        root
    }
}

impl<K: HeapKey, V> RankedForest<K, V> {
    /// Files the detached trees under `children`, in order and each
    /// unmarked, into rank buckets: a tree meeting one of equal rank is
    /// linked with it until its rank is free.
    pub(crate) fn file_trees(&mut self, children: &Vec<NodeRef>, Ghost(skip): Ghost<Option<NodeRef>>) -> (buckets: Vec<
        Option<NodeRef>,
    >)
        requires
            old(self).core.shaped_by(old(self).height@),
            ranks_ok(old(self).core, skip),
            children@.no_duplicates(),
            forall|k: int| 0 <= k < children@.len() ==> old(self).core.detached(#[trigger] children@[k]),
            forall|k: int| 0 <= k < children@.len() ==> skip != Some(#[trigger] children@[k]),
        ensures
            final(self).core.shaped_by(final(self).height@),
            final(self).core.same_nodes(&old(self).core),
            ranks_ok(final(self).core, skip),
            pool_ok(final(self).core, buckets@, children@),
            children@.len() == 0 ==> buckets@.len() == 0,
            children@.len() > 0 ==> exists|b: int| 0 <= b < buckets@.len() && #[trigger] buckets@[b] is Some,
            forall|q: NodeRef| #[trigger]
                final(self).core.detached(q) ==> (old(self).core.detached(q) && !children@.contains(q)) || held(buckets@, q),
            forall|q: NodeRef|
                old(self).core.detached(q) && !children@.contains(q) ==> #[trigger] final(self).core.slot_at(q)
                    == old(self).core.slot_at(q) && final(self).core.detached(q),
    {
        let ghost c0 = self.core;
        let mut buckets: Vec<Option<NodeRef>> = Vec::new();
        let mut i: usize = 0;
        while i < children.len()
            invariant
                i <= children@.len(),
                children@.no_duplicates(),
                forall|k: int| 0 <= k < children@.len() ==> skip != Some(#[trigger] children@[k]),
                self.core.shaped_by(self.height@),
                self.core.same_nodes(&c0),
                ranks_ok(self.core, skip),
                pool_ok(self.core, buckets@, children@),
                i == 0 ==> buckets@.len() == 0,
                i > 0 ==> exists|b: int| 0 <= b < buckets@.len() && #[trigger] buckets@[b] is Some,
                forall|k: int| i <= k < children@.len() ==> self.core.detached(#[trigger] children@[k]) && !held(buckets@, children@[k]),
                forall|q: NodeRef| #[trigger]
                    self.core.detached(q) ==> (c0.detached(q) && !children@.contains(q)) || held(buckets@, q) || exists|k: int|
                        i <= k < children@.len() && children@[k] == q,
                forall|q: NodeRef|
                    c0.detached(q) && !children@.contains(q) ==> #[trigger] self.core.slot_at(q) == c0.slot_at(q)
                        && self.core.detached(q),
            decreases children@.len() - i,
        {
            let child = children[i];
            let ghost c1 = self.core;
            let ghost b1 = buckets@;
            self.set_mark(child, false, Ghost(skip));
            proof {
                self.core.lemma_same_nodes_trans(&c1, &c0);
                assert(self.core.detached(child));
                assert(!held(b1, child));
                assert forall|b: int| #![trigger buckets@[b]] 0 <= b < buckets@.len() && buckets@[b] is Some implies {
                    &&& self.core.detached(buckets@[b]->0)
                    &&& children@.contains(buckets@[b]->0)
                    &&& self.core.nd(buckets@[b]->0).rank == b
                } by {
                    let t = buckets@[b]->0;
                    assert(held(b1, t));
                    assert(t != child);
                    assert(self.core.slot_at(t) == c1.slot_at(t));
                }
            }
            let ghost c2 = self.core;
            self.settle(&mut buckets, child, Ghost(children@), Ghost(skip));
            proof {
                self.core.lemma_same_nodes_trans(&c2, &c0);
                assert forall|k: int| i + 1 <= k < children@.len() implies self.core.detached(#[trigger] children@[k]) && !held(
                    buckets@,
                    children@[k],
                ) by {
                    assert(children@[k] != child);
                    assert(c1.detached(children@[k]));
                    assert(c2.detached(children@[k]));
                    assert(!held(b1, children@[k]));
                }
                assert forall|q: NodeRef| #[trigger] self.core.detached(q) implies (c0.detached(q) && !children@.contains(q)) || held(
                    buckets@,
                    q,
                ) || exists|k: int| i + 1 <= k < children@.len() && children@[k] == q by {
                    if !held(buckets@, q) {
                        assert(c2.detached(q));
                        assert(q != child);
                        assert(!held(b1, q));
                        assert(c1.detached(q));
                        if exists|k: int| i <= k < children@.len() && children@[k] == q {
                            let k = choose|k: int| i <= k < children@.len() && children@[k] == q;
                            assert(k != i);
                        }
                    }
                }
                assert forall|q: NodeRef| c0.detached(q) && !children@.contains(q) implies #[trigger] self.core.slot_at(q) == c0.slot_at(
                    q,
                ) && self.core.detached(q) by {
                    assert(c1.slot_at(q) == c0.slot_at(q));
                    assert(q != child);
                    assert(c2.slot_at(q) == c1.slot_at(q));
                    assert(c2.detached(q));
                    assert(!held(b1, q)) by {
                        if held(b1, q) {
                            let b = choose|b: int| 0 <= b < b1.len() && b1[b] == Some(q);
                            assert(b1[b] is Some);
                        }
                    }
                }
            }
            i = i + 1;
        }
        buckets
    }

    /// Rank-consolidates the detached trees under `children` into one tree
    /// and returns its root: each child, unmarked, is linked with the tree
    /// of its rank until its rank is free, and the trees left are then
    /// linked in rank order.
    pub(crate) fn consolidate(&mut self, children: &Vec<NodeRef>, Ghost(skip): Ghost<Option<NodeRef>>) -> (result: Option<NodeRef>)
        requires
            old(self).core.shaped_by(old(self).height@),
            ranks_ok(old(self).core, skip),
            children@.no_duplicates(),
            forall|k: int| 0 <= k < children@.len() ==> old(self).core.detached(#[trigger] children@[k]),
            forall|k: int| 0 <= k < children@.len() ==> skip != Some(#[trigger] children@[k]),
        ensures
            final(self).core.shaped_by(final(self).height@),
            final(self).core.same_nodes(&old(self).core),
            ranks_ok(final(self).core, skip),
            result is None <==> children@.len() == 0,
            result matches Some(m) ==> children@.contains(m) && final(self).core.detached(m),
            forall|q: NodeRef| #[trigger]
                final(self).core.detached(q) ==> (old(self).core.detached(q) && !children@.contains(q)) || result == Some(q),
            forall|q: NodeRef|
                old(self).core.detached(q) && !children@.contains(q) ==> #[trigger] final(self).core.slot_at(q)
                    == old(self).core.slot_at(q) && final(self).core.detached(q),
    {
        let ghost c0 = self.core;
        let buckets = self.file_trees(children, Ghost(skip));
        let ghost c3 = self.core;
        let result = self.fold_buckets(&buckets, Ghost(children@), Ghost(skip));
        proof {
            self.core.lemma_same_nodes_trans(&c3, &c0);
            if children@.len() > 0 {
                let b = choose|b: int| 0 <= b < buckets@.len() && #[trigger] buckets@[b] is Some;
                assert(buckets@[b] is Some);
            }
            if let Some(m) = result {
                let b = choose|b: int| 0 <= b < buckets@.len() && buckets@[b] == Some(m);
                assert(buckets@[b] is Some);
            }
            assert forall|q: NodeRef| #[trigger] self.core.detached(q) implies (c0.detached(q) && !children@.contains(q)) || result
                == Some(q) by {
                if result != Some(q) {
                    assert(c3.detached(q));
                    assert(!held(buckets@, q));
                }
            }
            assert forall|q: NodeRef| c0.detached(q) && !children@.contains(q) implies #[trigger] self.core.slot_at(q) == c0.slot_at(q)
                && self.core.detached(q) by {
                assert(c3.slot_at(q) == c0.slot_at(q));
                assert(!held(buckets@, q)) by {
                    if held(buckets@, q) {
                        let b = choose|b: int| 0 <= b < buckets@.len() && buckets@[b] == Some(q);
                        assert(buckets@[b] is Some);
                    }
                }
            }
        }
        result
    }
}

impl<K: HeapKey, V> RankedForest<K, V> {
    /// Sets the rank of `node` to its number of child positions.
    pub(crate) fn recount(&mut self, node: NodeRef)
        requires
            old(self).core.shaped_by(old(self).height@),
            old(self).core.is_live(node),
            ranks_ok(old(self).core, Some(node)),
        ensures
            final(self).core.shaped_by(final(self).height@),
            final(self).height@ == old(self).height@,
            final(self).core.same_nodes(&old(self).core),
            ranks_ok(final(self).core, None),
            final(self).core.nd(node) == (crate::tree::forest::Node {
                rank: final(self).core.nd(node).rank,
                ..old(self).core.nd(node)
            }),
            forall|q: NodeRef| q != node ==> #[trigger] final(self).core.slot_at(q) == old(self).core.slot_at(q),
            forall|q: NodeRef| #[trigger] final(self).core.detached(q) == old(self).core.detached(q),
    {
        proof {
            reveal(TreeCore::shaped_by);
        }
        let ghost s0 = self.core;
        let count = self.core.node(node).children.len();
        self.core.set_rank(node, count);
        proof {
            reveal(TreeCore::shaped_by);
            assert forall|q: NodeRef| #[trigger] self.core.is_live(q) && self.core.nd(q).parent is Some implies self.core.nd(q).parent
                == s0.nd(q).parent by {
                if q != node {
                    assert(self.core.slot_at(q) == s0.slot_at(q));
                }
            }
            self.core.lemma_ordered_frame(&s0, self.height@);
            assert forall|q: NodeRef| #[trigger] self.core.detached(q) == s0.detached(q) by {
                if q != node {
                    assert(self.core.slot_at(q) == s0.slot_at(q));
                }
            }
            assert forall|q: NodeRef| #[trigger] self.core.is_live(q) && None::<NodeRef> != Some(q) implies self.core.nd(q).rank
                == self.core.nd(q).children@.len() by {
                if q != node {
                    assert(self.core.slot_at(q) == s0.slot_at(q));
                    assert(s0.is_live(q));
                }
            }
        }
    }

    /// Unmarks the marked ancestors of `node`, starting at `node` itself,
    /// and marks the first unmarked one unless it is the root.
    pub(crate) fn cascade(&mut self, node: NodeRef, Ghost(bound): Ghost<nat>)
        requires
            old(self).core.shaped_by(old(self).height@),
            old(self).core.is_live(node),
            ranks_ok(old(self).core, None),
            forall|x: NodeRef| #[trigger] old(self).core.is_live(x) ==> (old(self).height@)(x) <= bound,
        ensures
            final(self).core.shaped_by(final(self).height@),
            final(self).height@ == old(self).height@,
            final(self).core.same_nodes(&old(self).core),
            ranks_ok(final(self).core, None),
            forall|q: NodeRef| #[trigger]
                final(self).core.is_live(q) ==> final(self).core.nd(q) == (crate::tree::forest::Node {
                    marked: final(self).core.nd(q).marked,
                    ..old(self).core.nd(q)
                }),
            forall|q: NodeRef| #[trigger] final(self).core.detached(q) == old(self).core.detached(q),
            forall|q: NodeRef| #[trigger]
                final(self).core.is_live(q) ==> final(self).core.nd(q).marked == match cascade_mark(
                    old(self).core,
                    node,
                    q,
                    bound,
                ) {
                    Some(m) => m,
                    None => old(self).core.nd(q).marked,
                },
    {
        let ghost c0 = self.core;
        let ghost mut visited: Set<NodeRef> = Set::empty();
        let ghost mut steps: nat = bound;
        let mut cur = node;
        proof {
            reveal(TreeCore::shaped_by);
        }
        while self.core.node(cur).marked
            invariant
                steps >= bound - (self.height@)(cur),
                forall|q: NodeRef| #[trigger] visited.contains(q) ==> (self.height@)(q) < (self.height@)(cur),
                forall|q: NodeRef| #[trigger]
                    self.core.is_live(q) ==> self.core.nd(q).marked == (!visited.contains(q) && c0.nd(q).marked),
                forall|q: NodeRef| #[trigger]
                    cascade_mark(c0, node, q, bound) == if visited.contains(q) {
                        Some(false)
                    } else {
                        cascade_mark(c0, cur, q, steps)
                    },
                self.core.shaped_by(self.height@),
                self.height@ == old(self).height@,
                c0 == old(self).core,
                self.core.distinct_domains(),
                self.core.is_live(cur),
                self.core.same_nodes(&c0),
                ranks_ok(self.core, None),
                forall|x: NodeRef| #[trigger] self.core.is_live(x) ==> (self.height@)(x) <= bound,
                forall|q: NodeRef| #[trigger]
                    self.core.is_live(q) ==> self.core.nd(q) == (crate::tree::forest::Node {
                        marked: self.core.nd(q).marked,
                        ..c0.nd(q)
                    }),
                forall|q: NodeRef| #[trigger] self.core.detached(q) == c0.detached(q),
            decreases bound - (self.height@)(cur),
        {
            let ghost c1 = self.core;
            self.set_mark(cur, false, Ghost(None));
            proof {
                reveal(TreeCore::shaped_by);
                self.core.lemma_same_nodes_trans(&c1, &c0);
                assert forall|q: NodeRef| #[trigger] self.core.is_live(q) implies self.core.nd(q) == (crate::tree::forest::Node {
                    marked: self.core.nd(q).marked,
                    ..c0.nd(q)
                }) by {
                    assert(c1.is_live(q));
                    if q != cur {
                        assert(self.core.slot_at(q) == c1.slot_at(q));
                    }
                }
                assert(self.core.is_live(cur));
                assert(c1.nd(cur).marked);
                assert(!visited.contains(cur));
                assert(c0.nd(cur).marked);
                visited = visited.insert(cur);
                assert forall|q: NodeRef| #[trigger] self.core.is_live(q) implies self.core.nd(q).marked == (!visited.contains(q)
                    && c0.nd(q).marked) by {
                    if q != cur {
                        assert(self.core.slot_at(q) == c1.slot_at(q));
                    }
                }
            }
            match self.core.node(cur).parent {
                None => {
                    proof {
                        assert forall|q: NodeRef| #[trigger] self.core.is_live(q) implies self.core.nd(q).marked
                            == match cascade_mark(c0, node, q, bound) {
                            Some(m) => m,
                            None => c0.nd(q).marked,
                        } by {
                            if !visited.contains(q) {
                                assert(cascade_mark(c0, node, q, bound) == cascade_mark(c0, cur, q, steps));
                                assert(c0.nd(cur).parent is None);
                                assert(cascade_mark(c0, cur, q, steps) == None::<bool>);
                            }
                        }
                    }
                    return;
                },
                Some(parent) => {
                    proof {
                        assert(self.core.node_linked(cur));
                        assert(self.core.is_live(parent));
                        assert((self.height@)(cur) < (self.height@)(parent));
                        assert(c0.nd(cur).parent == Some(parent));
                        assert(c0.is_live(parent));
                        assert((self.height@)(parent) <= bound);
                        assert forall|q: NodeRef| #[trigger] cascade_mark(c0, node, q, bound) == if visited.contains(q) {
                            Some(false)
                        } else {
                            cascade_mark(c0, parent, q, (steps - 1) as nat)
                        } by {
                            if q != cur && !visited.contains(q) {
                                assert(cascade_mark(c0, cur, q, steps) == cascade_mark(c0, parent, q, (steps - 1) as nat));
                            }
                        }
                        steps = (steps - 1) as nat;
                    }
                    cur = parent;
                },
            }
        }
        let ghost c2 = self.core;
        let has_parent = self.core.node(cur).parent.is_some();
        self.set_mark(cur, has_parent, Ghost(None));
        proof {
            reveal(TreeCore::shaped_by);
            assert(!visited.contains(cur));
            assert(!c0.nd(cur).marked);
            assert(c0.nd(cur).parent == c2.nd(cur).parent);
            assert forall|q: NodeRef| #[trigger] self.core.is_live(q) implies self.core.nd(q).marked == match cascade_mark(
                c0,
                node,
                q,
                bound,
            ) {
                Some(m) => m,
                None => c0.nd(q).marked,
            } by {
                assert(c2.is_live(q));
                if q != cur {
                    assert(self.core.slot_at(q) == c2.slot_at(q));
                }
                if !visited.contains(q) {
                    assert(cascade_mark(c0, node, q, bound) == cascade_mark(c0, cur, q, steps));
                }
            }
            self.core.lemma_same_nodes_trans(&c2, &c0);
            assert forall|q: NodeRef| #[trigger] self.core.is_live(q) implies self.core.nd(q) == (crate::tree::forest::Node {
                marked: self.core.nd(q).marked,
                ..c0.nd(q)
            }) by {
                assert(c2.is_live(q));
                if q != cur {
                    assert(self.core.slot_at(q) == c2.slot_at(q));
                }
            }
        }
    }
}

impl<K: HeapKey, V> RankedForest<K, V> {
    /// Cuts the non-root node `node`, with its subtree, from its parent,
    /// unmarks it, recounts the parent's rank and cascades from the parent;
    /// `node` is left detached.
    pub(crate) fn cut_and_cascade(&mut self, node: NodeRef)
        requires
            old(self).core.links_wf(),
            forall|q: NodeRef| #[trigger] old(self).core.is_live(q) && q != node ==> old(self).core.edge_ordered(old(self).height@, q),
            old(self).core.wf(),
            ranks_ok(old(self).core, None),
            old(self).core.is_live(node),
            old(self).core.nd(node).parent is Some,
        ensures
            final(self).core.shaped_by(final(self).height@),
            final(self).height@ == old(self).height@,
            final(self).core.same_nodes(&old(self).core),
            ranks_ok(final(self).core, None),
            final(self).core.detached(node),
            final(self).core.nd(node).children == old(self).core.nd(node).children,
            forall|q: NodeRef| #[trigger] final(self).core.detached(q) == (old(self).core.detached(q) || q == node),
    {
        let ghost s0 = self.core;
        let parent = self.core.node(node).parent.unwrap();
        proof {
            assert(s0.node_linked(node));
        }
        self.core.cut_out(Ghost(self.height@), node);
        let ghost s1 = self.core;
        proof {
            assert forall|q: NodeRef| #[trigger] s1.is_live(q) && Some(parent) != Some(q) implies s1.nd(q).rank == s1.nd(
                q,
            ).children@.len() by {
                assert(s0.is_live(q));
            }
        }
        self.set_mark(node, false, Ghost(Some(parent)));
        let ghost s2 = self.core;
        proof {
            assert(s2.is_live(parent));
        }
        self.recount(parent);
        let ghost s3 = self.core;
        let ghost bound = lemma_height_bound(self.core.live_nodes@, self.height@);
        proof {
            s3.lemma_same_nodes_trans(&s2, &s1);
            s3.lemma_same_nodes_trans(&s1, &s0);
            assert forall|x: NodeRef| #[trigger] self.core.is_live(x) implies (self.height@)(x) <= bound by {
                assert(s0.is_live(x));
                assert(self.core.live_nodes@.contains(x));
            }
        }
        self.cascade(parent, Ghost(bound));
        proof {
            self.core.lemma_same_nodes_trans(&s3, &s0);
            assert(s2.slot_at(node) == s3.slot_at(node));
            assert(self.core.is_live(node));
        }
    }
}

impl<K: HeapKey, V> RankedForest<K, V> {
    /// Links each of `children`, all detached, with the tree under the
    /// detached node `root`, in order, and returns the final root.
    pub(crate) fn link_all(&mut self, root: NodeRef, children: &Vec<NodeRef>, Ghost(skip): Ghost<Option<NodeRef>>) -> (result: NodeRef)
        requires
            old(self).core.shaped_by(old(self).height@),
            ranks_ok(old(self).core, skip),
            old(self).core.detached(root),
            skip != Some(root),
            children@.no_duplicates(),
            !children@.contains(root),
            forall|k: int| 0 <= k < children@.len() ==> old(self).core.detached(#[trigger] children@[k]),
            forall|k: int| 0 <= k < children@.len() ==> skip != Some(#[trigger] children@[k]),
        ensures
            final(self).core.shaped_by(final(self).height@),
            final(self).core.same_nodes(&old(self).core),
            ranks_ok(final(self).core, skip),
            final(self).core.detached(result),
            result == root || children@.contains(result),
            forall|q: NodeRef| #[trigger]
                final(self).core.detached(q) ==> (old(self).core.detached(q) && q != root && !children@.contains(q)) || q == result,
            forall|q: NodeRef|
                old(self).core.detached(q) && q != root && !children@.contains(q) ==> #[trigger] final(self).core.slot_at(q)
                    == old(self).core.slot_at(q) && final(self).core.detached(q),
    {
        let ghost c0 = self.core;
        let mut top = root;
        let mut j: usize = 0;
        while j < children.len()
            invariant
                j <= children@.len(),
                children@.no_duplicates(),
                !children@.contains(root),
                forall|k: int| 0 <= k < children@.len() ==> skip != Some(#[trigger] children@[k]),
                skip != Some(root),
                self.core.shaped_by(self.height@),
                self.core.same_nodes(&c0),
                ranks_ok(self.core, skip),
                self.core.detached(top),
                top == root || exists|k: int| 0 <= k < j && children@[k] == top,
                forall|k: int| j <= k < children@.len() ==> self.core.detached(#[trigger] children@[k]),
                forall|q: NodeRef| #[trigger]
                    self.core.detached(q) ==> (c0.detached(q) && q != root && !children@.contains(q)) || q == top || exists|k: int|
                        j <= k < children@.len() && children@[k] == q,
                forall|q: NodeRef|
                    c0.detached(q) && q != root && !children@.contains(q) ==> #[trigger] self.core.slot_at(q) == c0.slot_at(q)
                        && self.core.detached(q),
            decreases children@.len() - j,
        {
            let child = children[j];
            let ghost c1 = self.core;
            let ghost top1 = top;
            proof {
                assert(skip != Some(children@[j as int]));
                assert(child != top) by {
                    if top != root {
                        let k = choose|k: int| 0 <= k < j && children@[k] == top;
                        assert(children@[k] != children@[j as int]);
                    }
                }
                if top != root {
                    let k = choose|k: int| 0 <= k < j && children@[k] == top;
                    assert(skip != Some(children@[k]));
                }
            }
            top = self.link(top, child, Ghost(skip));
            proof {
                self.core.lemma_same_nodes_trans(&c1, &c0);
                assert(top == root || exists|k: int| 0 <= k < j + 1 && children@[k] == top) by {
                    if top == child {
                        assert(children@[j as int] == top);
                    } else if top1 != root {
                        let k = choose|k: int| 0 <= k < j && children@[k] == top1;
                        assert(children@[k] == top);
                    }
                }
                assert forall|k: int| j + 1 <= k < children@.len() implies self.core.detached(#[trigger] children@[k]) by {
                    assert(c1.detached(children@[k]));
                    assert(children@[k] != children@[j as int]);
                    assert(children@[k] != top1) by {
                        if top1 != root {
                            let x = choose|x: int| 0 <= x < j && children@[x] == top1;
                            assert(children@[x] != children@[k]);
                        }
                    }
                }
                assert forall|q: NodeRef| #[trigger] self.core.detached(q) implies (c0.detached(q) && q != root && !children@.contains(
                    q,
                )) || q == top || exists|k: int| j + 1 <= k < children@.len() && children@[k] == q by {
                    if q != top {
                        assert(c1.detached(q));
                        assert(q != top1 && q != child);
                        if exists|k: int| j <= k < children@.len() && children@[k] == q {
                            let k = choose|k: int| j <= k < children@.len() && children@[k] == q;
                            assert(k != j);
                        }
                    }
                }
                assert forall|q: NodeRef| c0.detached(q) && q != root && !children@.contains(q) implies #[trigger] self.core.slot_at(q)
                    == c0.slot_at(q) && self.core.detached(q) by {
                    assert(c1.slot_at(q) == c0.slot_at(q));
                    assert(q != child) by {
                        assert(children@[j as int] == child);
                    }
                    assert(q != top1) by {
                        if top1 != root {
                            let x = choose|x: int| 0 <= x < j && children@[x] == top1;
                            assert(children@[x] == top1);
                        }
                    }
                }
            }
            j = j + 1;
        }
        proof {
            if top != root {
                let k = choose|k: int| 0 <= k < j && children@[k] == top;
                assert(children@.contains(children@[k]));
            }
        }
        top
    }
}

} // verus!
