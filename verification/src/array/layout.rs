//! The implicit d-ary tree layout shared by the array heaps, and the facts
//! about heap order in that layout that their sift operations rest on.
use vstd::prelude::*;

verus! {

broadcast use vstd::seq_lib::group_to_multiset_ensures;

/// The parent position of position `i > 0` in a `degree`-ary array tree.
pub open spec fn parent_of(i: int, degree: int) -> int {
    (i - 1) / degree
}

/// `s` with the elements at positions `i` and `j` exchanged.
pub open spec fn swapped<T>(s: Seq<T>, i: int, j: int) -> Seq<T> {
    s.update(i, s[j]).update(j, s[i])
}

/// Every edge whose parent lies at position `low` or later is in order.
pub open spec fn ordered_from<T>(s: Seq<T>, rank: spec_fn(T) -> int, degree: int, low: int) -> bool {
    forall|j: int|
        #![trigger s[j]]
        0 < j < s.len() && parent_of(j, degree) >= low ==> rank(s[parent_of(j, degree)]) <= rank(
            s[j],
        )
}

/// Every parent is no greater than its children: the heap order.
pub open spec fn heap_ordered<T>(s: Seq<T>, rank: spec_fn(T) -> int, degree: int) -> bool {
    ordered_from(s, rank, degree, 0)
}

/// The state while an element moves up from position `i`: every edge is in
/// order but the one above `i`, and `i`'s parent is no greater than `i`'s
/// children.
pub open spec fn sifting_up<T>(s: Seq<T>, rank: spec_fn(T) -> int, degree: int, i: int) -> bool {
    &&& 0 <= i < s.len()
    &&& forall|j: int|
        #![trigger s[j]]
        0 < j < s.len() && j != i ==> rank(s[parent_of(j, degree)]) <= rank(s[j])
    &&& i > 0 ==> forall|c: int|
        #![trigger s[c]]
        0 < c < s.len() && parent_of(c, degree) == i ==> rank(s[parent_of(i, degree)]) <= rank(
            s[c],
        )
}

/// The state while an element moves down from position `i` within the part
/// of the tree below `low`: every edge there is in order but those below
/// `i`, and `i`'s parent is no greater than `i`'s children.
pub open spec fn sifting_down<T>(
    s: Seq<T>,
    rank: spec_fn(T) -> int,
    degree: int,
    low: int,
    i: int,
) -> bool {
    &&& 0 <= low <= i < s.len()
    &&& forall|j: int|
        #![trigger s[j]]
        0 < j < s.len() && parent_of(j, degree) >= low && parent_of(j, degree) != i ==> rank(
            s[parent_of(j, degree)],
        ) <= rank(s[j])
    &&& i > low ==> parent_of(i, degree) >= low
    &&& i > low ==> forall|c: int|
        #![trigger s[c]]
        0 < c < s.len() && parent_of(c, degree) == i ==> rank(s[parent_of(i, degree)]) <= rank(
            s[c],
        )
}

/// Position `m` holds a least child of position `i`.
pub open spec fn least_child<T>(s: Seq<T>, rank: spec_fn(T) -> int, degree: int, i: int, m: int) -> bool {
    &&& 0 < m < s.len()
    &&& parent_of(m, degree) == i
    &&& forall|c: int|
        #![trigger s[c]]
        0 < c < s.len() && parent_of(c, degree) == i ==> rank(s[m]) <= rank(s[c])
}

/// A parent position precedes its children, and the children of `i` are
/// exactly the positions `degree * i + 1 ..= degree * i + degree`.
pub proof fn lemma_parent_bounds(j: int, i: int, degree: int)
    requires
        degree >= 2,
        j > 0,
        i >= 0,
    ensures
        0 <= parent_of(j, degree) < j,
        parent_of(j, degree) == i <==> degree * i + 1 <= j <= degree * i + degree,
{
    assert(0 <= (j - 1) / degree < j) by (nonlinear_arith)
        requires
            degree >= 2,
            j > 0,
    ;
    assert(((j - 1) / degree == i) <==> (degree * i + 1 <= j <= degree * i + degree))
        by (nonlinear_arith)
        requires
            degree >= 2,
            j > 0,
            i >= 0,
    ;
}

/// Exchanging two elements keeps the multiset of elements.
pub proof fn lemma_swap_multiset<T>(s: Seq<T>, i: int, j: int)
    requires
        0 <= i < s.len(),
        0 <= j < s.len(),
    ensures
        swapped(s, i, j).to_multiset() == s.to_multiset(),
        swapped(s, i, j).len() == s.len(),
{
    let t = s.update(i, s[j]);
    assert(t.to_multiset() == s.to_multiset().insert(s[j]).remove(s[i]));
    assert(t[j] == if i == j { s[j] } else { s[j] });
    assert(t.update(j, s[i]).to_multiset() == t.to_multiset().insert(s[i]).remove(t[j]));
    assert(s.to_multiset().contains(s[j]));
    assert(s.to_multiset().insert(s[j]).remove(s[i]).insert(s[i]).remove(s[j]) =~= s.to_multiset());
}

/// In heap order, the element at the root is no greater than any other.
pub proof fn lemma_root_least<T>(s: Seq<T>, rank: spec_fn(T) -> int, degree: int, k: int)
    requires
        degree >= 2,
        heap_ordered(s, rank, degree),
        0 <= k < s.len(),
    ensures
        rank(s[0]) <= rank(s[k]),
    decreases k,
{
    if k > 0 {
        lemma_parent_bounds(k, 0, degree);
        let p = parent_of(k, degree);
        lemma_root_least(s, rank, degree, p);
        assert(rank(s[p]) <= rank(s[k]));
    }
}

/// Moving the element at `i` above its greater parent keeps the sift-up state.
pub proof fn lemma_up_step<T>(s: Seq<T>, rank: spec_fn(T) -> int, degree: int, i: int)
    requires
        degree >= 2,
        sifting_up(s, rank, degree, i),
        i > 0,
        rank(s[parent_of(i, degree)]) > rank(s[i]),
    ensures
        sifting_up(swapped(s, i, parent_of(i, degree)), rank, degree, parent_of(i, degree)),
{
    let p = parent_of(i, degree);
    lemma_parent_bounds(i, 0, degree);
    let t = swapped(s, i, p);
    assert forall|j: int| #![trigger t[j]] 0 < j < t.len() && j != p implies rank(
        t[parent_of(j, degree)],
    ) <= rank(t[j]) by {
        lemma_parent_bounds(j, i, degree);
        lemma_parent_bounds(j, p, degree);
        let q = parent_of(j, degree);
        if j == i {
        } else if q == i {
            assert(rank(s[p]) <= rank(s[j]));
        } else if q == p {
            assert(rank(s[p]) <= rank(s[j]));
        } else if q == j {
        } else {
            assert(s[q] == t[q]);
            assert(s[j] == t[j]);
            assert(rank(s[q]) <= rank(s[j]));
        }
    }
    if p > 0 {
        lemma_parent_bounds(p, 0, degree);
        let g = parent_of(p, degree);
        assert(rank(s[g]) <= rank(s[p]));
        assert forall|c: int| #![trigger t[c]] 0 < c < t.len() && parent_of(c, degree) == p implies rank(
            t[parent_of(p, degree)],
        ) <= rank(t[c]) by {
            if c == i {
            } else {
                assert(rank(s[p]) <= rank(s[c]));
            }
        }
    }
}

/// A sift-up that stops at the root, or below a parent that is no greater,
/// leaves the whole array in heap order.
pub proof fn lemma_up_done<T>(s: Seq<T>, rank: spec_fn(T) -> int, degree: int, i: int)
    requires
        degree >= 2,
        sifting_up(s, rank, degree, i),
        i == 0 || rank(s[parent_of(i, degree)]) <= rank(s[i]),
    ensures
        heap_ordered(s, rank, degree),
{
}

/// Appending an element to a heap-ordered array starts a sift-up at the end.
pub proof fn lemma_up_start<T>(s: Seq<T>, rank: spec_fn(T) -> int, degree: int, x: T)
    requires
        degree >= 2,
        heap_ordered(s, rank, degree),
    ensures
        sifting_up(s.push(x), rank, degree, s.len() as int),
{
    let t = s.push(x);
    assert forall|j: int| #![trigger t[j]] 0 < j < t.len() && j != s.len() implies rank(
        t[parent_of(j, degree)],
    ) <= rank(t[j]) by {
        lemma_parent_bounds(j, 0, degree);
        assert(t[j] == s[j]);
        assert(t[parent_of(j, degree)] == s[parent_of(j, degree)]);
    }
    assert forall|c: int| #![trigger t[c]] 0 < c < t.len() && parent_of(c, degree) == s.len() implies rank(
        t[parent_of(s.len() as int, degree)],
    ) <= rank(t[c]) by {
        lemma_parent_bounds(c, 0, degree);
    }
}

/// Moving the element at `i` below its least child `m`, which is smaller,
/// keeps the sift-down state.
pub proof fn lemma_down_step<T>(
    s: Seq<T>,
    rank: spec_fn(T) -> int,
    degree: int,
    low: int,
    i: int,
    m: int,
)
    requires
        degree >= 2,
        sifting_down(s, rank, degree, low, i),
        least_child(s, rank, degree, i, m),
        rank(s[i]) > rank(s[m]),
    ensures
        sifting_down(swapped(s, i, m), rank, degree, low, m),
{
    lemma_parent_bounds(m, i, degree);
    let t = swapped(s, i, m);
    assert forall|j: int|
        #![trigger t[j]]
        0 < j < t.len() && parent_of(j, degree) >= low && parent_of(j, degree) != m implies rank(
        t[parent_of(j, degree)],
    ) <= rank(t[j]) by {
        lemma_parent_bounds(j, i, degree);
        lemma_parent_bounds(j, m, degree);
        let q = parent_of(j, degree);
        if j == m {
        } else if q == i {
            assert(rank(s[m]) <= rank(s[j]));
        } else if j == i {
            assert(i > low);
            assert(rank(s[q]) <= rank(s[m]));
        } else {
            assert(s[q] == t[q]);
            assert(s[j] == t[j]);
        }
    }
    assert forall|c: int| #![trigger t[c]] 0 < c < t.len() && parent_of(c, degree) == m implies rank(
        t[parent_of(m, degree)],
    ) <= rank(t[c]) by {
        lemma_parent_bounds(c, m, degree);
        assert(c != i && c != m);
        assert(rank(s[m]) <= rank(s[c]));
    }
}

/// A sift-down that stops where no child is smaller leaves the part of the
/// tree below `low` in order.
pub proof fn lemma_down_done<T>(
    s: Seq<T>,
    rank: spec_fn(T) -> int,
    degree: int,
    low: int,
    i: int,
)
    requires
        degree >= 2,
        sifting_down(s, rank, degree, low, i),
        forall|c: int|
            #![trigger s[c]]
            0 < c < s.len() && parent_of(c, degree) == i ==> rank(s[i]) <= rank(s[c]),
    ensures
        ordered_from(s, rank, degree, low),
{
}

/// Putting a new element at the root of an array whose other edges are in
/// order starts a sift-down at the root.
pub proof fn lemma_down_start_root<T>(s: Seq<T>, rank: spec_fn(T) -> int, degree: int)
    requires
        degree >= 2,
        s.len() > 0,
        forall|j: int|
            #![trigger s[j]]
            0 < j < s.len() && parent_of(j, degree) != 0 ==> rank(s[parent_of(j, degree)]) <= rank(
                s[j],
            ),
    ensures
        sifting_down(s, rank, degree, 0, 0),
{
}

/// Removing the last element keeps every remaining edge in order.
pub proof fn lemma_drop_last_ordered<T>(s: Seq<T>, rank: spec_fn(T) -> int, degree: int)
    requires
        degree >= 2,
        heap_ordered(s, rank, degree),
        s.len() > 0,
    ensures
        heap_ordered(s.drop_last(), rank, degree),
{
    let t = s.drop_last();
    assert forall|j: int| #![trigger t[j]] 0 < j < t.len() && parent_of(j, degree) >= 0 implies rank(
        t[parent_of(j, degree)],
    ) <= rank(t[j]) by {
        lemma_parent_bounds(j, 0, degree);
        assert(t[j] == s[j]);
    }
}

/// Replacing the element at `i` of a heap-ordered array by `x` starts a
/// sift-up at `i` when `x` is smaller than the parent, and a sift-down at `i`
/// otherwise; `x` must be no greater than the element it replaces, or it
/// must be the element that replaces a removed one (`grand` holds).
pub proof fn lemma_replace_state<T>(
    s: Seq<T>,
    rank: spec_fn(T) -> int,
    degree: int,
    i: int,
    x: T,
)
    requires
        degree >= 2,
        heap_ordered(s, rank, degree),
        0 <= i < s.len(),
    ensures
        rank(x) <= rank(s[i]) ==> sifting_up(s.update(i, x), rank, degree, i),
        (i == 0 || rank(s[parent_of(i, degree)]) <= rank(x)) ==> sifting_down(
            s.update(i, x),
            rank,
            degree,
            0,
            i,
        ),
{
    let t = s.update(i, x);
    if i > 0 {
        lemma_parent_bounds(i, 0, degree);
    }
    assert forall|c: int| #![trigger t[c]] 0 < c < t.len() && parent_of(c, degree) == i implies rank(
        s[i],
    ) <= rank(t[c]) by {
        lemma_parent_bounds(c, i, degree);
        assert(t[c] == s[c]);
    }
    if rank(x) <= rank(s[i]) {
        assert forall|j: int| #![trigger t[j]] 0 < j < t.len() && j != i implies rank(
            t[parent_of(j, degree)],
        ) <= rank(t[j]) by {
            lemma_parent_bounds(j, i, degree);
            assert(t[j] == s[j]);
        }
        if i > 0 {
            assert forall|c: int| #![trigger t[c]] 0 < c < t.len() && parent_of(c, degree) == i implies rank(
                t[parent_of(i, degree)],
            ) <= rank(t[c]) by {
                lemma_parent_bounds(c, i, degree);
                assert(t[c] == s[c]);
                assert(rank(s[parent_of(i, degree)]) <= rank(s[i]));
            }
        }
    }
    if i == 0 || rank(s[parent_of(i, degree)]) <= rank(x) {
        assert forall|j: int|
            #![trigger t[j]]
            0 < j < t.len() && parent_of(j, degree) >= 0 && parent_of(j, degree) != i implies rank(
            t[parent_of(j, degree)],
        ) <= rank(t[j]) by {
            lemma_parent_bounds(j, i, degree);
            if j != i {
                assert(t[j] == s[j]);
            }
        }
        if i > 0 {
            assert forall|c: int| #![trigger t[c]] 0 < c < t.len() && parent_of(c, degree) == i implies rank(
                t[parent_of(i, degree)],
            ) <= rank(t[c]) by {
                lemma_parent_bounds(c, i, degree);
                assert(t[c] == s[c]);
                assert(rank(s[parent_of(i, degree)]) <= rank(s[i]));
            }
        }
    }
}

} // verus!
