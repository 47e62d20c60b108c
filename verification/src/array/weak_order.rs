//! The order of a weak heap.  Each position but the root has a
//! distinguished ancestor: the parent of the nearest ancestor-or-self that
//! is a right child, where a reverse bit swaps which child of a position is
//! its left one.  The order asks each value to be no smaller than the one at
//! its distinguished ancestor, which makes the root a least value.
use vstd::prelude::*;

use crate::array::layout::swapped;

verus! {

/// Position `x > 0` is the left child of its parent under reverse bits `r`.
pub open spec fn is_left(r: Seq<bool>, x: int) -> bool {
    (x % 2 == 1) == r[x / 2]
}

/// The nearest ancestor-or-self of `x` that is not a left child.
pub open spec fn climb(r: Seq<bool>, x: int) -> int
    decreases x,
{
    if x > 0 && is_left(r, x) {
        climb(r, x / 2)
    } else {
        x
    }
}

/// The distinguished ancestor of `x > 0`.
pub open spec fn danc(r: Seq<bool>, x: int) -> int {
    climb(r, x) / 2
}

/// Climbing from `x` passes through a child of `j`.
pub open spec fn hits(r: Seq<bool>, x: int, j: int) -> bool
    decreases x,
{
    if x <= 0 {
        false
    } else if x / 2 == j {
        true
    } else {
        is_left(r, x) && hits(r, x / 2, j)
    }
}

/// Every value outside `ex` is no smaller than the one at its distinguished
/// ancestor.
pub open spec fn wh_except<T>(s: Seq<T>, r: Seq<bool>, rank: spec_fn(T) -> int, ex: Set<int>) -> bool {
    forall|x: int| #![trigger s[x]] 0 < x < s.len() && !ex.contains(x) ==> rank(s[danc(r, x)]) <= rank(s[x])
}

/// The weak-heap order.
pub open spec fn wh_ordered<T>(s: Seq<T>, r: Seq<bool>, rank: spec_fn(T) -> int) -> bool {
    wh_except(s, r, rank, Set::empty())
}

/// The distinguished ancestor of a position lies strictly above it.
pub proof fn lemma_climb_bounds(r: Seq<bool>, x: int)
    requires
        x >= 1,
        x < r.len(),
        !r[0],
    ensures
        1 <= climb(r, x) <= x,
        0 <= danc(r, x) < x,
    decreases x,
{
    if is_left(r, x) {
        if x / 2 == 0 {
            assert(x == 1);
            assert(!is_left(r, 1));
        }
        lemma_climb_bounds(r, x / 2);
    }
}

/// Climbing from `x` reads no reverse bit at `x` or later.
pub proof fn lemma_climb_frame(r: Seq<bool>, j: int, b: bool, x: int)
    requires
        0 <= x <= j < r.len(),
    ensures
        climb(r.update(j, b), x) == climb(r, x),
    decreases x,
{
    if x > 0 {
        assert(x / 2 < j);
        assert(r.update(j, b)[x / 2] == r[x / 2]);
        lemma_climb_frame(r, j, b, x / 2);
    }
}

/// Flipping the reverse bit of `j` exchanges the distinguished ancestors
/// `j` and `danc(j)` of the positions whose climb passes through a child of
/// `j`, and changes no other.
pub proof fn lemma_flip(r: Seq<bool>, j: int, x: int)
    requires
        1 <= j < r.len(),
        1 <= x < r.len(),
        !r[0],
    ensures
        hits(r, x, j) ==> x > j,
        hits(r, x, j) ==> danc(r, x) == j || danc(r, x) == danc(r, j),
        danc(r.update(j, !r[j]), x) == if hits(r, x, j) {
            if danc(r, x) == j {
                danc(r, j)
            } else {
                j
            }
        } else {
            danc(r, x)
        },
    decreases x,
{
    let r2 = r.update(j, !r[j]);
    lemma_climb_bounds(r, j);
    if x / 2 == j {
        assert(is_left(r2, x) == !is_left(r, x));
        lemma_climb_frame(r, j, !r[j], j);
        if is_left(r, x) {
            assert(climb(r, x) == climb(r, j));
        } else {
            assert(climb(r2, x) == climb(r2, j));
        }
    } else {
        assert(r2[x / 2] == r[x / 2]);
        if is_left(r, x) {
            if x / 2 >= 1 {
                lemma_flip(r, j, x / 2);
            }
        }
    }
}

/// A position whose distinguished ancestor is `j` climbs through a child of
/// `j`.
pub proof fn lemma_danc_hits(r: Seq<bool>, x: int, j: int)
    requires
        1 <= x < r.len(),
        j >= 1,
        danc(r, x) == j,
    ensures
        hits(r, x, j),
    decreases x,
{
    if x / 2 != j {
        if x > 0 && is_left(r, x) {
            if x / 2 == 0 {
                assert(climb(r, x) == climb(r, 0));
            } else {
                lemma_danc_hits(r, x / 2, j);
            }
        }
    }
}

/// Joining `j` with its distinguished ancestor `a` by exchanging their
/// values and flipping `j`'s reverse bit, when `j` holds the smaller value,
/// puts `j` in order and leaves `a` as the only new exception.
pub proof fn lemma_join_swap<T>(s: Seq<T>, r: Seq<bool>, rank: spec_fn(T) -> int, a: int, j: int, ex: Set<int>)
    requires
        wh_except(s, r, rank, ex),
        1 <= j < s.len() <= r.len(),
        !r[0],
        a == danc(r, j),
        rank(s[j]) < rank(s[a]),
        forall|x: int| 0 < x < s.len() && hits(r, x, j) ==> !ex.contains(x),
    ensures
        wh_except(swapped(s, a, j), r.update(j, !r[j]), rank, ex.remove(j).insert(a)),
{
    let t = swapped(s, a, j);
    let r2 = r.update(j, !r[j]);
    lemma_climb_bounds(r, j);
    lemma_flip(r, j, j);
    assert(!hits(r, j, j));
    assert forall|x: int| #![trigger t[x]] 0 < x < t.len() && !ex.remove(j).insert(a).contains(x) implies rank(
        t[danc(r2, x)],
    ) <= rank(t[x]) by {
        lemma_flip(r, j, x);
        lemma_climb_bounds(r, x);
        if x != j {
            let _ = s[x];
            if danc(r, x) == j {
                lemma_danc_hits(r, x, j);
            }
        }
    }
}

/// Joining `j` with its distinguished ancestor when they are in order
/// changes nothing and removes `j` from the exceptions.
pub proof fn lemma_join_keep<T>(s: Seq<T>, r: Seq<bool>, rank: spec_fn(T) -> int, a: int, j: int, ex: Set<int>)
    requires
        wh_except(s, r, rank, ex),
        1 <= j < s.len() <= r.len(),
        a == danc(r, j),
        rank(s[a]) <= rank(s[j]),
    ensures
        wh_except(s, r, rank, ex.remove(j)),
{
    assert forall|x: int| #![trigger s[x]] 0 < x < s.len() && !ex.remove(j).contains(x) implies rank(s[danc(r, x)]) <= rank(
        s[x],
    ) by {}
}

/// The root holds a least value.
pub proof fn lemma_wh_least<T>(s: Seq<T>, r: Seq<bool>, rank: spec_fn(T) -> int, k: int)
    requires
        wh_ordered(s, r, rank),
        0 <= k < s.len() <= r.len(),
        !r[0],
    ensures
        rank(s[0]) <= rank(s[k]),
    decreases k,
{
    if k > 0 {
        lemma_climb_bounds(r, k);
        let _ = s[k];
        lemma_wh_least(s, r, rank, danc(r, k));
    }
}

/// Climbing from `x` reads only reverse bits at positions `y` with
/// `2 * y <= x`.
pub proof fn lemma_climb_agree(r: Seq<bool>, r2: Seq<bool>, x: int)
    requires
        x >= 0,
        forall|y: int| 0 <= y && 2 * y <= x ==> r2[y] == r[y],
    ensures
        climb(r2, x) == climb(r, x),
    decreases x,
{
    if x > 0 {
        assert(r2[x / 2] == r[x / 2]);
        lemma_climb_agree(r, r2, x / 2);
    }
}

/// A larger exception set asks less.
pub proof fn lemma_wh_mono<T>(s: Seq<T>, r: Seq<bool>, rank: spec_fn(T) -> int, a: Set<int>, b: Set<int>)
    requires
        wh_except(s, r, rank, a),
        forall|x: int| 0 < x < s.len() && #[trigger] a.contains(x) ==> b.contains(x),
    ensures
        wh_except(s, r, rank, b),
{
    assert forall|x: int| #![trigger s[x]] 0 < x < s.len() && !b.contains(x) implies rank(s[danc(r, x)]) <= rank(s[x]) by {}
}

/// Of two positions that climb to the same place, the smaller lies above
/// the larger.
pub proof fn lemma_chain_order(r: Seq<bool>, x: int, y: int)
    requires
        1 <= x < y < r.len(),
        !r[0],
        climb(r, x) == climb(r, y),
    ensures
        x <= y / 2,
    decreases y,
{
    lemma_climb_bounds(r, x);
    lemma_climb_bounds(r, y);
    assert(is_left(r, y));
    assert(climb(r, y) == climb(r, y / 2));
    lemma_climb_bounds(r, y / 2);
    if y / 2 < x {
        lemma_chain_order(r, y / 2, x);
        assert(climb(r, x) < x);
        assert(is_left(r, x));
        assert(x / 2 == y / 2);
    }
}

/// Below a position on a climb path, the path continues with its left
/// child.
pub proof fn lemma_chain_below(r: Seq<bool>, b: int, x: int)
    requires
        1 <= b < x < r.len(),
        !r[0],
        climb(r, b) == climb(r, x),
    ensures
        x >= 2 * b + if r[b] {
            1int
        } else {
            0int
        },
    decreases x,
{
    lemma_climb_bounds(r, b);
    lemma_climb_bounds(r, x);
    assert(is_left(r, x));
    assert(climb(r, x) == climb(r, x / 2));
    lemma_climb_bounds(r, x / 2);
    if x / 2 > b {
        lemma_chain_below(r, b, x / 2);
    } else if x / 2 < b {
        lemma_chain_order(r, x / 2, b);
        assert(climb(r, b) < b);
        assert(is_left(r, b));
        assert(x / 2 == b / 2);
    }
}

/// Climbing stops at a position that is not a left child.
pub proof fn lemma_climb_stop(r: Seq<bool>, x: int)
    requires
        1 <= x < r.len(),
        !r[0],
    ensures
        !is_left(r, climb(r, x)),
    decreases x,
{
    if is_left(r, x) {
        if x / 2 == 0 {
            assert(!is_left(r, 1));
        }
        lemma_climb_stop(r, x / 2);
    }
}

} // verus!
