//! The multiset of keys held by a map from handles to entries, which is what
//! a value-less addressable heap holds when it is used as a plain heap.
use vstd::multiset::Multiset;
use vstd::prelude::*;

verus! {

broadcast use {vstd::set::group_set_axioms, vstd::multiset::group_multiset_axioms, vstd::map::group_map_axioms};

/// The keys of the entries of `live`, each counted once per handle.
pub open spec fn keys_of<H, K, V>(live: Map<H, (K, V)>) -> Multiset<K>
    decreases live.dom().len(),
{
    if live.dom().finite() && live.dom().len() > 0 {
        let h = live.dom().choose();
        keys_of(live.remove(h)).insert(live[h].0)
    } else {
        Multiset::empty()
    }
}

/// An empty map holds no keys.
pub proof fn lemma_keys_empty<H, K, V>(live: Map<H, (K, V)>)
    requires
        live.dom().finite(),
        live.dom().len() == 0,
    ensures
        keys_of(live) =~= Multiset::empty(),
{
}

/// Removing a handle removes one copy of its key, and the key was there.
pub proof fn lemma_keys_remove<H, K, V>(live: Map<H, (K, V)>, h: H)
    requires
        live.dom().finite(),
        live.dom().contains(h),
    ensures
        keys_of(live).count(live[h].0) > 0,
        keys_of(live.remove(h)) =~= keys_of(live).remove(live[h].0),
    decreases live.dom().len(),
{
    let c = live.dom().choose();
    assert(live.dom().len() > 0);
    assert(live.dom().contains(c));
    let kh = live[h].0;
    if c != h {
        let rest = live.remove(c);
        let kc = live[c].0;
        lemma_keys_remove(rest, h);
        let other = live.remove(h);
        assert(other.dom().contains(c));
        lemma_keys_remove(other, c);
        assert(other.remove(c) =~= rest.remove(h));
        assert(rest[h] == live[h]);
        assert(other[c] == live[c]);
        assert(keys_of(live) == keys_of(rest).insert(kc));
        assert(keys_of(other) =~= keys_of(other.remove(c)).insert(kc));
        assert(keys_of(other) =~= keys_of(live).remove(kh));
    } else {
        assert(keys_of(live) == keys_of(live.remove(h)).insert(kh));
        assert(keys_of(live.remove(h)) =~= keys_of(live).remove(kh));
    }
}

/// Inserting a handle that is not present adds one copy of its key.
pub proof fn lemma_keys_insert<H, K, V>(live: Map<H, (K, V)>, h: H, e: (K, V))
    requires
        live.dom().finite(),
        !live.dom().contains(h),
    ensures
        keys_of(live.insert(h, e)) =~= keys_of(live).insert(e.0),
{
    let bigger = live.insert(h, e);
    lemma_keys_remove(bigger, h);
    assert(bigger.remove(h) =~= live);
}

/// A key occurs in the multiset only where some handle holds it.
pub proof fn lemma_keys_contains<H, K, V>(live: Map<H, (K, V)>, k: K)
    requires
        live.dom().finite(),
        keys_of(live).count(k) > 0,
    ensures
        exists|h: H| live.dom().contains(h) && live[h].0 == k,
    decreases live.dom().len(),
{
    if live.dom().len() > 0 {
        let c = live.dom().choose();
        assert(live.dom().contains(c));
        if live[c].0 != k {
            let rest = live.remove(c);
            lemma_keys_contains(rest, k);
            let g = choose|g: H| rest.dom().contains(g) && rest[g].0 == k;
            assert(live.dom().contains(g) && live[g].0 == k);
        }
    } else {
        lemma_keys_empty(live);
    }
}

/// There are as many keys as handles.
pub proof fn lemma_keys_len<H, K, V>(live: Map<H, (K, V)>)
    requires
        live.dom().finite(),
    ensures
        keys_of(live).len() == live.dom().len(),
    decreases live.dom().len(),
{
    if live.dom().len() > 0 {
        let c = live.dom().choose();
        assert(live.dom().contains(c));
        lemma_keys_len(live.remove(c));
    }
}

/// The keys of two maps with disjoint handles, joined, are the sum of their
/// keys.
pub proof fn lemma_keys_union<H, K, V>(a: Map<H, (K, V)>, b: Map<H, (K, V)>)
    requires
        a.dom().finite(),
        b.dom().finite(),
        a.dom().disjoint(b.dom()),
    ensures
        keys_of(a.union_prefer_right(b)) =~= keys_of(a).add(keys_of(b)),
    decreases b.dom().len(),
{
    if b.dom().len() == 0 {
        assert(a.union_prefer_right(b) =~= a);
        lemma_keys_empty(b);
    } else {
        let c = b.dom().choose();
        assert(b.dom().contains(c));
        let rest = b.remove(c);
        lemma_keys_union(a, rest);
        assert(a.union_prefer_right(rest).dom() =~= a.dom().union(rest.dom()));
        assert(!a.union_prefer_right(rest).dom().contains(c));
        assert(a.union_prefer_right(b) =~= a.union_prefer_right(rest).insert(c, b[c]));
        lemma_keys_insert(a.union_prefer_right(rest), c, b[c]);
        assert(rest.insert(c, b[c]) =~= b);
        lemma_keys_insert(rest, c, b[c]);
    }
}

} // verus!
