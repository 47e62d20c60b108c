//! The order of a min-max heap: positions on even depths hold values no
//! greater than their descendants, positions on odd depths values no
//! smaller.  It is stated locally, between each position and its parent
//! and grandparent, and the facts here carry it through the moves that
//! restore it.
use vstd::prelude::*;

use crate::array::binary_array_weak_heap::exp2;
use crate::array::layout::swapped;

verus! {

/// The depth of position `i` in the implicit binary tree.
pub open spec fn depth(i: int) -> nat
    decreases i,
{
    if i <= 0 {
        0
    } else {
        depth((i - 1) / 2) + 1
    }
}

/// Position `i` lies on a min level: an even depth.
pub open spec fn on_min(i: int) -> bool {
    depth(i) % 2 == 0
}

/// The parent position of `i > 0`.
pub open spec fn par(i: int) -> int {
    (i - 1) / 2
}

/// The grandparent position of `i >= 3`.
pub open spec fn gpar(i: int) -> int {
    par(par(i))
}

/// `d` is a child or a grandchild of `m`.
pub open spec fn below_two(m: int, d: int) -> bool {
    (d > 0 && par(d) == m) || (d >= 3 && gpar(d) == m)
}

/// The value at `a` governs the value at its descendant `d`: no greater on
/// a min level, no smaller on a max level.
pub open spec fn governs<T>(s: Seq<T>, rank: spec_fn(T) -> int, a: int, d: int) -> bool {
    if on_min(a) {
        rank(s[a]) <= rank(s[d])
    } else {
        rank(s[d]) <= rank(s[a])
    }
}

/// Every position governs its children and grandchildren, for ancestors at
/// `lo` or later other than `m`.
pub open spec fn mm_from<T>(s: Seq<T>, rank: spec_fn(T) -> int, lo: int, m: int) -> bool {
    forall|d: int|
        #![trigger s[d]]
        0 < d < s.len() ==> {
            &&& par(d) >= lo && par(d) != m ==> governs(s, rank, par(d), d)
            &&& d >= 3 && gpar(d) >= lo && gpar(d) != m ==> governs(s, rank, gpar(d), d)
        }
}

/// The min-max order.
pub open spec fn mm_ordered<T>(s: Seq<T>, rank: spec_fn(T) -> int) -> bool {
    mm_from(s, rank, 0, -1)
}

/// The grandparent of `m`, when it is at `lo` or later, governs `m`'s
/// children and grandchildren.
pub open spec fn bridge<T>(s: Seq<T>, rank: spec_fn(T) -> int, lo: int, m: int) -> bool {
    m >= 3 && gpar(m) >= lo ==> forall|d: int|
        #![trigger s[d]]
        0 < d < s.len() && below_two(m, d) ==> governs(s, rank, gpar(m), d)
}

/// The state while a value moves up from `i` through its grandparents:
/// everything is in order but the link from `i`'s grandparent to `i`.
pub open spec fn mm_up<T>(s: Seq<T>, rank: spec_fn(T) -> int, i: int) -> bool {
    &&& 0 <= i < s.len()
    &&& forall|d: int|
        #![trigger s[d]]
        0 < d < s.len() ==> {
            &&& governs(s, rank, par(d), d)
            &&& d >= 3 && d != i ==> governs(s, rank, gpar(d), d)
        }
    &&& bridge(s, rank, 0, i)
}

/// The state while a value moves down from `m` within the positions from
/// `lo` on: everything there is in order but the links from `m` down.
pub open spec fn mm_down<T>(s: Seq<T>, rank: spec_fn(T) -> int, lo: int, m: int) -> bool {
    &&& 0 <= lo <= m < s.len()
    &&& mm_from(s, rank, lo, m)
    &&& bridge(s, rank, lo, m)
}

/// Children are one level down, grandchildren two.
pub proof fn lemma_parity(i: int)
    requires
        i >= 1,
    ensures
        on_min(par(i)) == !on_min(i),
        i >= 3 ==> on_min(gpar(i)) == on_min(i),
        i >= 3 <==> depth(i) >= 2,
        0 <= par(i) < i,
        i >= 3 ==> 0 <= gpar(i) < par(i),
{
    assert(depth(i) == depth(par(i)) + 1);
    if i >= 3 {
        assert(par(i) >= 1);
        assert(depth(par(i)) == depth(gpar(i)) + 1);
    } else {
        assert(par(i) == 0);
        assert(depth(0) == 0);
    }
}

pub(crate) proof fn lemma_exp2_mono(a: nat, b: nat)
    requires
        a <= b,
    ensures
        exp2(a) <= exp2(b),
        exp2(a) >= 1,
    decreases b,
{
    if b > 0 {
        if a < b {
            lemma_exp2_mono(a, (b - 1) as nat);
        }
        lemma_exp2_mono(0, (b - 1) as nat);
    }
}

/// The depth of `i` is the exponent of the largest power of two not above
/// `i + 1`.
pub proof fn lemma_depth_exp(i: int)
    requires
        i >= 0,
    ensures
        exp2(depth(i)) <= i + 1 < exp2(depth(i) + 1),
    decreases i,
{
    if i > 0 {
        lemma_depth_exp(par(i));
        assert(depth(i) == depth(par(i)) + 1);
        let e = exp2(depth(par(i)));
        assert(exp2(depth(i)) == 2 * e);
        assert(exp2(depth(i) + 1) == 2 * exp2(depth(i)));
    } else {
        assert(exp2(1) == 2) by {
            reveal_with_fuel(exp2, 2);
        }
    }
}

/// Only one exponent brackets a number between consecutive powers of two.
pub proof fn lemma_log_unique(a: nat, b: nat, n: int)
    requires
        exp2(a) <= n < exp2(a + 1),
        exp2(b) <= n < exp2(b + 1),
    ensures
        a == b,
{
    if a < b {
        lemma_exp2_mono(a + 1, b);
    } else if b < a {
        lemma_exp2_mono(b + 1, a);
    }
}

/// The root holds a least value.
pub proof fn lemma_mm_least<T>(s: Seq<T>, rank: spec_fn(T) -> int, k: int)
    requires
        mm_ordered(s, rank),
        0 <= k < s.len(),
    ensures
        rank(s[0]) <= rank(s[k]),
    decreases k,
{
    if k > 0 {
        lemma_parity(k);
        assert(0 < k < s.len());
        let _ = s[k];
        if on_min(k) {
            assert(depth(k) != 1);
            lemma_mm_least(s, rank, gpar(k));
        } else {
            lemma_mm_least(s, rank, par(k));
        }
    }
}

/// Every value is no greater than the one at `top`, the greater of the
/// root's children, or the root when it is alone.
pub proof fn lemma_mm_greatest<T>(s: Seq<T>, rank: spec_fn(T) -> int, top: int, k: int)
    requires
        mm_ordered(s, rank),
        0 <= k < s.len(),
        0 <= top < s.len(),
        s.len() == 1 ==> top == 0,
        s.len() >= 2 ==> top == 1 || top == 2,
        s.len() >= 2 ==> rank(s[1]) <= rank(s[top]),
        s.len() >= 3 ==> rank(s[2]) <= rank(s[top]),
    ensures
        rank(s[k]) <= rank(s[top]),
    decreases k,
{
    if k == 0 {
        if s.len() >= 2 {
            let _ = s[1];
            lemma_parity(1);
            assert(depth(0) == 0);
        }
    } else if k <= 2 {
    } else {
        lemma_parity(k);
        let _ = s[k];
        if on_min(k) {
            lemma_parity(par(k));
            lemma_mm_greatest(s, rank, top, par(k));
        } else {
            lemma_mm_greatest(s, rank, top, gpar(k));
        }
    }
}

/// `c` is preferred to `d` for position `m`: no greater on a min level, no
/// smaller on a max level.
pub open spec fn prefers<T>(s: Seq<T>, rank: spec_fn(T) -> int, m: int, c: int, d: int) -> bool {
    if on_min(m) {
        rank(s[c]) <= rank(s[d])
    } else {
        rank(s[d]) <= rank(s[c])
    }
}

/// `c` is a child or grandchild of `m` preferred to every other one.
pub open spec fn best_below<T>(s: Seq<T>, rank: spec_fn(T) -> int, m: int, c: int) -> bool {
    &&& 0 < c < s.len()
    &&& below_two(m, c)
    &&& forall|d: int| 0 < d < s.len() && below_two(m, d) ==> #[trigger] prefers(s, rank, m, c, d)
}

/// The positions two levels below `m`.
pub proof fn lemma_family(m: int, d: int)
    requires
        m >= 0,
        d > 0,
    ensures
        par(d) == m <==> (d == 2 * m + 1 || d == 2 * m + 2),
        d >= 3 ==> (gpar(d) == m <==> 4 * m + 3 <= d <= 4 * m + 6),
{
}

/// An element added after the last, in order with its parent, leaves the
/// state of moving up from it.
pub proof fn lemma_push_stay<T>(s: Seq<T>, rank: spec_fn(T) -> int, x: T)
    requires
        mm_ordered(s, rank),
        s.len() >= 1,
        governs(s.push(x), rank, par(s.len() as int), s.len() as int),
    ensures
        mm_up(s.push(x), rank, s.len() as int),
{
    let t = s.push(x);
    let i = s.len() as int;
    assert forall|d: int| #![trigger t[d]] 0 < d < t.len() implies {
        &&& governs(t, rank, par(d), d)
        &&& d >= 3 && d != i ==> governs(t, rank, gpar(d), d)
    } by {
        lemma_parity(d);
        if d != i {
            let _ = s[d];
        }
    }
    assert forall|d: int| #![trigger t[d]] 0 < d < t.len() && below_two(i, d) implies governs(t, rank, gpar(i), d) by {
        lemma_parity(d);
    }
}

/// An element added after the last and out of order with its parent,
/// swapped with it, leaves the state of moving up from the parent.
pub proof fn lemma_push_swap<T>(s: Seq<T>, rank: spec_fn(T) -> int, x: T)
    requires
        mm_ordered(s, rank),
        s.len() >= 1,
        !governs(s.push(x), rank, par(s.len() as int), s.len() as int),
    ensures
        mm_up(swapped(s.push(x), s.len() as int, par(s.len() as int)), rank, par(s.len() as int)),
{
    let t = s.push(x);
    let i = s.len() as int;
    let p = par(i);
    let u = swapped(t, i, p);
    lemma_parity(i);
    let _ = s[p];
    if p >= 1 {
        lemma_parity(p);
        let _ = s[par(p)];
    }
    assert forall|d: int| #![trigger u[d]] 0 < d < u.len() implies {
        &&& governs(u, rank, par(d), d)
        &&& d >= 3 && d != p ==> governs(u, rank, gpar(d), d)
    } by {
        lemma_parity(d);
        let _ = s[par(d)];
        if d < i {
            let _ = s[d];
        }
        if d >= 3 {
            lemma_parity(par(d));
        }
        if d != i && d != p && par(d) == p {
            assert(d < i);
        }
    }
    if p >= 3 {
        lemma_parity(p);
        assert forall|d: int| #![trigger u[d]] 0 < d < u.len() && below_two(p, d) implies governs(u, rank, gpar(p), d) by {
            lemma_parity(d);
            if d < i {
                let _ = s[d];
            }
            let _ = s[p];
        }
    }
}

/// Swapping a value with its grandparent that it should govern moves the
/// exception up to the grandparent.
pub proof fn lemma_up_swap<T>(s: Seq<T>, rank: spec_fn(T) -> int, i: int)
    requires
        mm_up(s, rank, i),
        i >= 3,
        !governs(s, rank, gpar(i), i),
    ensures
        mm_up(swapped(s, i, gpar(i)), rank, gpar(i)),
{
    let g = gpar(i);
    let t = swapped(s, i, g);
    lemma_parity(i);
    lemma_parity(par(i));
    let _ = s[i];
    let _ = s[par(i)];
    if g >= 1 {
        lemma_parity(g);
        let _ = s[g];
    }
    assert forall|d: int| #![trigger t[d]] 0 < d < t.len() implies {
        &&& governs(t, rank, par(d), d)
        &&& d >= 3 && d != g ==> governs(t, rank, gpar(d), d)
    } by {
        lemma_parity(d);
        let _ = s[d];
        if d >= 3 {
            lemma_parity(par(d));
        }
        if below_two(i, d) {
            assert(governs(s, rank, g, d));
        }
    }
    if g >= 3 {
        lemma_parity(g);
        let _ = s[g];
        assert forall|d: int| #![trigger t[d]] 0 < d < t.len() && below_two(g, d) implies governs(t, rank, gpar(g), d) by {
            lemma_parity(d);
            let _ = s[d];
            if d >= 3 {
                lemma_parity(par(d));
            }
        }
    }
}

/// A value in order with its grandparent, or without one, ends the move up.
pub proof fn lemma_up_done<T>(s: Seq<T>, rank: spec_fn(T) -> int, i: int)
    requires
        mm_up(s, rank, i),
        i >= 3 ==> governs(s, rank, gpar(i), i),
    ensures
        mm_ordered(s, rank),
{
    assert forall|d: int| #![trigger s[d]] 0 < d < s.len() implies {
        &&& par(d) >= 0 && par(d) != -1 ==> governs(s, rank, par(d), d)
        &&& d >= 3 && gpar(d) >= 0 && gpar(d) != -1 ==> governs(s, rank, gpar(d), d)
    } by {
        lemma_parity(d);
    }
}

/// A value that governs its children and grandchildren ends the move down.
pub proof fn lemma_down_done<T>(s: Seq<T>, rank: spec_fn(T) -> int, lo: int, m: int)
    requires
        mm_down(s, rank, lo, m),
        forall|d: int| 0 < d < s.len() && below_two(m, d) ==> #[trigger] governs(s, rank, m, d),
    ensures
        mm_from(s, rank, lo, -1),
{
    assert forall|d: int| #![trigger s[d]] 0 < d < s.len() implies {
        &&& par(d) >= lo && par(d) != -1 ==> governs(s, rank, par(d), d)
        &&& d >= 3 && gpar(d) >= lo && gpar(d) != -1 ==> governs(s, rank, gpar(d), d)
    } by {
        lemma_parity(d);
        if par(d) == m {
            assert(below_two(m, d));
        }
        if d >= 3 && gpar(d) == m {
            assert(below_two(m, d));
        }
    }
}

/// When the preferred position below `m` holds a value that `m` governs,
/// `m` governs every child and grandchild.
pub proof fn lemma_best_governed<T>(s: Seq<T>, rank: spec_fn(T) -> int, m: int, c: int)
    requires
        0 <= m < s.len(),
        best_below(s, rank, m, c),
        governs(s, rank, m, c),
    ensures
        forall|d: int| 0 < d < s.len() && below_two(m, d) ==> #[trigger] governs(s, rank, m, d),
{
    assert forall|d: int| 0 < d < s.len() && below_two(m, d) implies #[trigger] governs(s, rank, m, d) by {
        assert(prefers(s, rank, m, c, d));
    }
}

/// Moving the preferred grandchild's value up into `m`, when `m` does not
/// govern it, moves the exception down to that grandchild; so it does
/// again after a further swap of the grandchild with its parent, when that
/// parent no longer governs it.
pub proof fn lemma_down_grandchild<T>(s: Seq<T>, rank: spec_fn(T) -> int, lo: int, m: int, c: int)
    requires
        mm_down(s, rank, lo, m),
        best_below(s, rank, m, c),
        c >= 3,
        gpar(c) == m,
        !governs(s, rank, m, c),
    ensures
        governs(swapped(s, m, c), rank, par(c), c) ==> mm_down(swapped(s, m, c), rank, lo, c),
        !governs(swapped(s, m, c), rank, par(c), c) ==> mm_down(swapped(swapped(s, m, c), c, par(c)), rank, lo, c),
{
    let t = swapped(s, m, c);
    let q = par(c);
    lemma_parity(c);
    lemma_parity(q);
    let _ = s[c];
    let _ = s[q];
    assert(below_two(m, q));
    assert(prefers(s, rank, m, c, q));
    if m >= 1 {
        lemma_parity(m);
        let _ = s[m];
    }
    if m >= 3 && gpar(m) >= lo {
        assert(governs(s, rank, gpar(m), c));
    }
    if m >= 1 && par(m) >= lo {
        assert(governs(s, rank, par(m), q));
    }
    assert forall|d: int| #![trigger t[d]] 0 < d < t.len() && d != c implies {
        &&& par(d) >= lo && par(d) != c ==> governs(t, rank, par(d), d)
        &&& d >= 3 && gpar(d) >= lo && gpar(d) != c ==> governs(t, rank, gpar(d), d)
    } by {
        lemma_parity(d);
        let _ = s[d];
        if d >= 3 {
            lemma_parity(par(d));
        }
        if below_two(m, d) {
            assert(prefers(s, rank, m, c, d));
        }
    }
    if governs(t, rank, q, c) {
        assert forall|d: int| #![trigger t[d]] 0 < d < t.len() implies {
            &&& par(d) >= lo && par(d) != c ==> governs(t, rank, par(d), d)
            &&& d >= 3 && gpar(d) >= lo && gpar(d) != c ==> governs(t, rank, gpar(d), d)
        } by {
            if d == c {
            } else {
                let _ = t[d];
            }
        }
        assert forall|d: int| #![trigger t[d]] 0 < d < t.len() && below_two(c, d) implies governs(t, rank, gpar(c), d) by {
            lemma_parity(d);
            let _ = s[d];
        }
    } else {
        let u = swapped(t, c, q);
        assert forall|d: int| #![trigger u[d]] 0 < d < u.len() implies {
            &&& par(d) >= lo && par(d) != c ==> governs(u, rank, par(d), d)
            &&& d >= 3 && gpar(d) >= lo && gpar(d) != c ==> governs(u, rank, gpar(d), d)
        } by {
            lemma_parity(d);
            let _ = s[d];
            let _ = t[d];
            if d >= 3 {
                lemma_parity(par(d));
            }
            if below_two(m, d) {
                assert(prefers(s, rank, m, c, d));
            }
            if below_two(q, d) {
                assert(governs(s, rank, q, d));
            }
        }
        assert forall|d: int| #![trigger u[d]] 0 < d < u.len() && below_two(c, d) implies governs(u, rank, gpar(c), d) by {
            lemma_parity(d);
            let _ = s[d];
        }
    }
}

/// Moving the preferred child's value up into `m`, when `m` does not govern
/// it, ends the move down.
pub proof fn lemma_down_child<T>(s: Seq<T>, rank: spec_fn(T) -> int, lo: int, m: int, c: int)
    requires
        mm_down(s, rank, lo, m),
        best_below(s, rank, m, c),
        par(c) == m,
        !governs(s, rank, m, c),
    ensures
        mm_from(swapped(s, m, c), rank, lo, -1),
{
    let t = swapped(s, m, c);
    lemma_parity(c);
    let _ = s[c];
    if m >= 1 {
        lemma_parity(m);
        let _ = s[m];
    }
    if m >= 3 && gpar(m) >= lo {
        assert(governs(s, rank, gpar(m), c));
    }
    assert forall|d: int| #![trigger t[d]] 0 < d < t.len() implies {
        &&& par(d) >= lo && par(d) != -1 ==> governs(t, rank, par(d), d)
        &&& d >= 3 && gpar(d) >= lo && gpar(d) != -1 ==> governs(t, rank, gpar(d), d)
    } by {
        lemma_parity(d);
        let _ = s[d];
        if d >= 3 {
            lemma_parity(par(d));
        }
        if below_two(m, d) {
            assert(prefers(s, rank, m, c, d));
        }
    }
}

/// Replacing the root by the last value, which is dropped, leaves the state
/// of moving down from the root.
pub proof fn lemma_pop_start<T>(s: Seq<T>, rank: spec_fn(T) -> int)
    requires
        mm_ordered(s, rank),
        s.len() >= 2,
    ensures
        mm_down(s.update(0, s.last()).drop_last(), rank, 0, 0),
{
    let t = s.update(0, s.last()).drop_last();
    assert forall|d: int| #![trigger t[d]] 0 < d < t.len() implies {
        &&& par(d) >= 0 && par(d) != 0 ==> governs(t, rank, par(d), d)
        &&& d >= 3 && gpar(d) >= 0 && gpar(d) != 0 ==> governs(t, rank, gpar(d), d)
    } by {
        lemma_parity(d);
        let _ = s[d];
    }
}

/// Replacing a child of the root by the last value, which is dropped,
/// leaves the state of moving down from that child.
pub proof fn lemma_pop_max_start<T>(s: Seq<T>, rank: spec_fn(T) -> int, top: int)
    requires
        mm_ordered(s, rank),
        top == 1 || top == 2,
        top < s.len() - 1,
    ensures
        mm_down(s.update(top, s.last()).drop_last(), rank, 0, top),
{
    let t = s.update(top, s.last()).drop_last();
    lemma_mm_least(s, rank, s.len() - 1);
    assert forall|d: int| #![trigger t[d]] 0 < d < t.len() implies {
        &&& par(d) >= 0 && par(d) != top ==> governs(t, rank, par(d), d)
        &&& d >= 3 && gpar(d) >= 0 && gpar(d) != top ==> governs(t, rank, gpar(d), d)
    } by {
        lemma_parity(d);
        let _ = s[d];
        if d == top {
            assert(depth(0) == 0);
        }
    }
}

/// The order survives dropping the last value.
pub proof fn lemma_drop_last<T>(s: Seq<T>, rank: spec_fn(T) -> int)
    requires
        mm_ordered(s, rank),
        s.len() >= 1,
    ensures
        mm_ordered(s.drop_last(), rank),
{
    let t = s.drop_last();
    assert forall|d: int| #![trigger t[d]] 0 < d < t.len() implies {
        &&& par(d) >= 0 && par(d) != -1 ==> governs(t, rank, par(d), d)
        &&& d >= 3 && gpar(d) >= 0 && gpar(d) != -1 ==> governs(t, rank, gpar(d), d)
    } by {
        lemma_parity(d);
        let _ = s[d];
    }
}

/// Positions from `half` on have no children, so nothing is required of
/// them.
pub proof fn lemma_leaves<T>(s: Seq<T>, rank: spec_fn(T) -> int)
    ensures
        mm_from(s, rank, (s.len() / 2) as int, -1),
{
    assert forall|d: int| #![trigger s[d]] 0 < d < s.len() implies {
        &&& par(d) >= s.len() / 2 && par(d) != -1 ==> governs(s, rank, par(d), d)
        &&& d >= 3 && gpar(d) >= s.len() / 2 && gpar(d) != -1 ==> governs(s, rank, gpar(d), d)
    } by {
        lemma_parity(d);
    }
}

/// The order from `lo + 1` on is the state of moving down from `lo`.
pub proof fn lemma_heapify_start<T>(s: Seq<T>, rank: spec_fn(T) -> int, lo: int)
    requires
        mm_from(s, rank, lo + 1, -1),
        0 <= lo < s.len(),
    ensures
        mm_down(s, rank, lo, lo),
{
    assert forall|d: int| #![trigger s[d]] 0 < d < s.len() implies {
        &&& par(d) >= lo && par(d) != lo ==> governs(s, rank, par(d), d)
        &&& d >= 3 && gpar(d) >= lo && gpar(d) != lo ==> governs(s, rank, gpar(d), d)
    } by {
        lemma_parity(d);
    }
}

} // verus!
