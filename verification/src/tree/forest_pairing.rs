//! The pairing pass shared by the pairing heaps: neighbouring trees of a
//! list of detached roots are linked in pairs.
use vstd::prelude::*;

use crate::order::HeapKey;
use crate::tree::forest::{NodeRef, TreeCore};

verus! {

broadcast use {vstd::set::group_set_axioms, vstd::map::group_map_axioms};

impl<K: HeapKey, V> TreeCore<K, V> {
    /// Where the pairing pass stands after the first `i` children: the
    /// winners so far, each a detached child already visited, with a winner
    /// ranking no later than each visited child; the children still to
    /// visit are detached; and every other tree is where it was.
    #[verifier::opaque]
    pub(crate) closed spec fn pass_ok(children: Seq<NodeRef>, s0: TreeCore<K, V>, c: TreeCore<K, V>, winners: Seq<NodeRef>, i: int) -> bool {
        &&& winners.no_duplicates()
        &&& winners.len() <= i
        &&& i > 0 ==> winners.len() > 0
        &&& forall|x: int| 0 <= x < winners.len() ==> c.detached(#[trigger] winners[x])
        &&& forall|x: int| #![trigger winners[x]] 0 <= x < winners.len() ==> exists|k: int| 0 <= k < i && children[k] == winners[x]
        &&& forall|k: int|
            #![trigger children[k]]
            0 <= k < i ==> exists|x: int|
                0 <= x < winners.len() && s0.nd(#[trigger] winners[x]).key.key_rank() <= s0.nd(children[k]).key.key_rank()
        &&& forall|k: int| i <= k < children.len() ==> c.detached(#[trigger] children[k])
        &&& forall|q: NodeRef| #[trigger]
            c.detached(q) ==> (s0.detached(q) && !children.contains(q)) || winners.contains(q) || exists|k: int|
                i <= k < children.len() && children[k] == q
        &&& forall|q: NodeRef|
            s0.detached(q) && !children.contains(q) ==> #[trigger] c.slot_at(q) == s0.slot_at(q) && c.detached(q)
    }

    /// Links neighbouring pairs of `children`, all detached, and returns
    /// the winners in order.
    pub(crate) fn pair_up(&mut self, Ghost(height): Ghost<spec_fn(NodeRef) -> nat>, children: &Vec<NodeRef>) -> (result: (
        Vec<NodeRef>,
        Ghost<spec_fn(NodeRef) -> nat>,
    ))
        requires
            old(self).shaped_by(height),
            children@.no_duplicates(),
            forall|k: int| 0 <= k < children@.len() ==> old(self).detached(#[trigger] children@[k]),
        ensures
            final(self).shaped_by(result.1@),
            final(self).same_nodes(&old(self)),
            result.0@.no_duplicates(),
            result.0@.len() == 0 <==> children@.len() == 0,
            forall|w: int| 0 <= w < result.0@.len() ==> final(self).detached(#[trigger] result.0@[w]),
            forall|w: int| 0 <= w < result.0@.len() ==> children@.contains(#[trigger] result.0@[w]),
            forall|k: int|
                #![trigger children@[k]]
                0 <= k < children@.len() ==> exists|w: int|
                    0 <= w < result.0@.len() && old(self).nd(#[trigger] result.0@[w]).key.key_rank() <= old(self).nd(
                        children@[k],
                    ).key.key_rank(),
            forall|q: NodeRef| #[trigger]
                final(self).detached(q) ==> (old(self).detached(q) && !children@.contains(q)) || result.0@.contains(q),
            forall|q: NodeRef|
                old(self).detached(q) && !children@.contains(q) ==> #[trigger] final(self).slot_at(q)
                    == old(self).slot_at(q) && final(self).detached(q),
    {
        let ghost s0 = *self;
        let ghost mut h = height;
        let count = children.len();
        let mut winners: Vec<NodeRef> = Vec::new();
        let mut i: usize = 0;
        proof {
            assert(Self::pass_ok(children@, s0, *self, winners@, 0)) by {
                reveal(TreeCore::pass_ok);
                assert forall|q: NodeRef| #[trigger] s0.detached(q) implies (s0.detached(q) && !children@.contains(q))
                    || winners@.contains(q) || exists|k: int| 0 <= k < children@.len() && children@[k] == q by {
                    if children@.contains(q) {
                        let k = choose|k: int| 0 <= k < children@.len() && children@[k] == q;
                    }
                }
            }
        }
        while i < count
            invariant
                count == children@.len(),
                i <= count,
                children@.no_duplicates(),
                self.shaped_by(h),
                self.same_nodes(&s0),
                Self::pass_ok(children@, s0, *self, winners@, i as int),
            decreases count - i,
        {
            let ghost c0 = *self;
            let ghost w0 = winners@;
            let first = children[i];
            let second = if i + 1 < count {
                Some(children[i + 1])
            } else {
                None
            };
            let next = if i + 1 < count {
                i + 2
            } else {
                i + 1
            };
            proof {
                reveal(TreeCore::pass_ok);
                assert(self.detached(children@[i as int]));
                if i + 1 < count {
                    assert(self.detached(children@[i + 1]));
                    assert(children@[i as int] != children@[i + 1]);
                }
            }
            let (winner, lifted) = self.link(Ghost(h), Some(first), second);
            proof {
                h = lifted@;
            }
            let w = winner.unwrap();
            winners.push(w);
            proof {
                self.lemma_same_nodes_trans(&c0, &s0);
                Self::lemma_pair_step(children@, s0, c0, *self, w0, winners@, first, second, w, i as int, next as int);
            }
            i = next;
        }
        proof {
            Self::lemma_pass_done(children@, s0, *self, winners@);
            assert(s0 == *old(self));
            assert forall|k: int| #![trigger children@[k]] 0 <= k < children@.len() implies exists|w: int|
                0 <= w < winners@.len() && old(self).nd(#[trigger] winners@[w]).key.key_rank() <= old(self).nd(
                    children@[k],
                ).key.key_rank() by {
                let x = choose|x: int|
                    0 <= x < winners@.len() && s0.nd(#[trigger] winners@[x]).key.key_rank() <= s0.nd(children@[k]).key.key_rank();
                assert(old(self).nd(winners@[x]).key.key_rank() <= old(self).nd(children@[k]).key.key_rank());
            }
        }
        (winners, Ghost(h))
    }

    /// What the finished pairing pass establishes.
    pub(crate) proof fn lemma_pass_done(children: Seq<NodeRef>, s0: TreeCore<K, V>, c: TreeCore<K, V>, winners: Seq<NodeRef>)
        requires
            Self::pass_ok(children, s0, c, winners, children.len() as int),
        ensures
            winners.no_duplicates(),
            winners.len() == 0 <==> children.len() == 0,
            forall|w: int| 0 <= w < winners.len() ==> c.detached(#[trigger] winners[w]),
            forall|w: int| 0 <= w < winners.len() ==> children.contains(#[trigger] winners[w]),
            forall|k: int|
                #![trigger children[k]]
                0 <= k < children.len() ==> exists|w: int|
                    0 <= w < winners.len() && s0.nd(#[trigger] winners[w]).key.key_rank() <= s0.nd(children[k]).key.key_rank(),
            forall|q: NodeRef| #[trigger] c.detached(q) ==> (s0.detached(q) && !children.contains(q)) || winners.contains(q),
            forall|q: NodeRef|
                s0.detached(q) && !children.contains(q) ==> #[trigger] c.slot_at(q) == s0.slot_at(q) && c.detached(q),
    {
        reveal(TreeCore::pass_ok);
        assert forall|w: int| 0 <= w < winners.len() implies children.contains(#[trigger] winners[w]) by {
            let k = choose|k: int| 0 <= k < children.len() && children[k] == winners[w];
        }
        assert forall|k: int| #![trigger children[k]] 0 <= k < children.len() implies exists|w: int|
            0 <= w < winners.len() && s0.nd(#[trigger] winners[w]).key.key_rank() <= s0.nd(children[k]).key.key_rank() by {
            assert(0 <= k < children.len() as int);
            let x = choose|x: int| 0 <= x < winners.len() && s0.nd(#[trigger] winners[x]).key.key_rank() <= s0.nd(children[k]).key.key_rank();
            assert(0 <= x < winners.len() && s0.nd(winners[x]).key.key_rank() <= s0.nd(children[k]).key.key_rank());
        }
        assert forall|q: NodeRef| #[trigger] c.detached(q) implies (s0.detached(q) && !children.contains(q)) || winners.contains(
            q,
        ) by {
            assert(!(exists|k: int| children.len() <= k < children.len() && children[k] == q));
        }
    }

    /// One step of the pairing pass keeps the pass's invariant.
    #[verifier::spinoff_prover]
    #[verifier::rlimit(100)]
    pub(crate) proof fn lemma_pair_step(
        children: Seq<NodeRef>,
        s0: TreeCore<K, V>,
        c0: TreeCore<K, V>,
        c1: TreeCore<K, V>,
        w0: Seq<NodeRef>,
        w1: Seq<NodeRef>,
        first: NodeRef,
        second: Option<NodeRef>,
        w: NodeRef,
        i: int,
        next: int,
    )
        requires
            0 <= i < next <= children.len(),
            children.no_duplicates(),
            first == children[i],
            next == i + 2 ==> second == Some(children[i + 1]),
            next == i + 1 ==> second is None && i + 1 == children.len(),
            next == i + 1 || next == i + 2,
            w1 == w0.push(w),
            w == first || second == Some(w),
            c1.same_nodes(&s0),
            c0.same_nodes(&s0),
            c1.detached(w),
            c0.nd(w).key.key_rank() <= c0.nd(first).key.key_rank(),
            second matches Some(b) ==> c0.nd(w).key.key_rank() <= c0.nd(b).key.key_rank(),
            forall|q: NodeRef| #[trigger]
                c1.detached(q) ==> (c0.detached(q) && first != q && second != Some(q)) || w == q,
            forall|q: NodeRef|
                c0.detached(q) && first != q && second != Some(q) ==> #[trigger] c1.slot_at(q) == c0.slot_at(q) && c1.detached(q),
            Self::pass_ok(children, s0, c0, w0, i),
        ensures
            Self::pass_ok(children, s0, c1, w1, next),
    {
        reveal(TreeCore::pass_ok);
        assert(w1[w0.len() as int] == w);
        assert(s0.nd(w).key == c0.nd(w).key);
        assert(s0.nd(first).key == c0.nd(first).key);
        if let Some(b) = second {
            assert(s0.nd(b).key == c0.nd(b).key);
        }
        assert(!w0.contains(w)) by {
            if w0.contains(w) {
                let x = choose|x: int| 0 <= x < w0.len() && w0[x] == w;
                let k = choose|k: int| 0 <= k < i && children[k] == w0[x];
                if w == first {
                    assert(children[i] == w);
                } else {
                    assert(children[i + 1] == w);
                }
            }
        }
        assert(w1.no_duplicates());
        assert forall|x: int| 0 <= x < w1.len() implies c1.detached(#[trigger] w1[x]) by {
            if x < w0.len() {
                assert(w1[x] == w0[x]);
                assert(c0.detached(w0[x]));
                let k = choose|k: int| 0 <= k < i && children[k] == w0[x];
                assert(w0[x] != first);
                if second == Some(w0[x]) {
                    assert(children[i + 1] == w0[x]);
                }
            }
        }
        assert forall|x: int| #![trigger w1[x]] 0 <= x < w1.len() implies exists|k: int| 0 <= k < next && children[k] == w1[x] by {
            if x < w0.len() {
                assert(w1[x] == w0[x]);
                let k = choose|k: int| 0 <= k < i && children[k] == w0[x];
            } else if w == first {
                assert(children[i] == w1[x]);
            } else {
                assert(children[i + 1] == w1[x]);
            }
        }
        assert forall|k: int| #![trigger children[k]] 0 <= k < next implies exists|x: int|
            0 <= x < w1.len() && s0.nd(#[trigger] w1[x]).key.key_rank() <= s0.nd(children[k]).key.key_rank() by {
            if k < i {
                let x = choose|x: int| 0 <= x < w0.len() && s0.nd(#[trigger] w0[x]).key.key_rank() <= s0.nd(children[k]).key.key_rank();
                assert(w1[x] == w0[x]);
            } else {
                assert(w1[w0.len() as int] == w);
            }
        }
        assert forall|k: int| next <= k < children.len() implies c1.detached(#[trigger] children[k]) by {
            assert(c0.detached(children[k]));
            assert(children[k] != first);
            if second == Some(children[k]) {
                assert(children[i + 1] == children[k]);
            }
        }
        assert forall|q: NodeRef| #[trigger] c1.detached(q) implies (s0.detached(q) && !children.contains(q)) || w1.contains(q)
            || exists|k: int| next <= k < children.len() && children[k] == q by {
            if w == q {
                assert(w1[w0.len() as int] == q);
            } else {
                assert(c0.detached(q));
                if w0.contains(q) {
                    let x = choose|x: int| 0 <= x < w0.len() && w0[x] == q;
                    assert(w1[x] == q);
                } else if exists|k: int| i <= k < children.len() && children[k] == q {
                    let k = choose|k: int| i <= k < children.len() && children[k] == q;
                    assert(k != i);
                    if k == i + 1 {
                        assert(second == Some(q));
                    }
                }
            }
        }
        assert forall|q: NodeRef| s0.detached(q) && !children.contains(q) implies #[trigger] c1.slot_at(q) == s0.slot_at(q)
            && c1.detached(q) by {
            assert(c0.slot_at(q) == s0.slot_at(q));
            assert(first != q) by {
                assert(children[i] == first);
            }
            if second == Some(q) {
                assert(children[i + 1] == q);
            }
        }
    }

}

} // verus!
