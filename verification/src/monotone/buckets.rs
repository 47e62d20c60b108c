//! The multiset of values held by a sequence of buckets.
use vstd::multiset::Multiset;
use vstd::prelude::*;

verus! {

broadcast use {vstd::seq_lib::group_to_multiset_ensures, vstd::multiset::group_multiset_axioms};

/// Everything held by the buckets.
pub open spec fn bucket_total<K>(bs: Seq<Vec<K>>) -> Multiset<K>
    decreases bs.len(),
{
    if bs.len() == 0 {
        Multiset::empty()
    } else {
        bucket_total(bs.drop_last()).add(bs.last()@.to_multiset())
    }
}

/// Replacing one bucket changes the total by what left and what came.
pub proof fn lemma_total_update<K>(bs: Seq<Vec<K>>, b: int, t: Vec<K>)
    requires
        0 <= b < bs.len(),
    ensures
        forall|x: K|
            #[trigger] bucket_total(bs.update(b, t)).count(x) + bs[b]@.to_multiset().count(x)
                == bucket_total(bs).count(x) + t@.to_multiset().count(x),
    decreases bs.len(),
{
    let u = bs.update(b, t);
    if b == bs.len() - 1 {
        assert(u.drop_last() =~= bs.drop_last());
        assert(u.last() == t);
        assert forall|x: K| #[trigger] bucket_total(u).count(x) + bs[b]@.to_multiset().count(x)
            == bucket_total(bs).count(x) + t@.to_multiset().count(x) by {
            assert(bucket_total(u) == bucket_total(u.drop_last()).add(u.last()@.to_multiset()));
            assert(bucket_total(bs) == bucket_total(bs.drop_last()).add(bs.last()@.to_multiset()));
        }
    } else {
        lemma_total_update(bs.drop_last(), b, t);
        assert(u.drop_last() =~= bs.drop_last().update(b, t));
        assert(u.last() == bs.last());
        assert forall|x: K| #[trigger] bucket_total(u).count(x) + bs[b]@.to_multiset().count(x)
            == bucket_total(bs).count(x) + t@.to_multiset().count(x) by {
            assert(bucket_total(u) == bucket_total(u.drop_last()).add(u.last()@.to_multiset()));
            assert(bucket_total(bs) == bucket_total(bs.drop_last()).add(bs.last()@.to_multiset()));
            assert(bs.drop_last()[b] == bs[b]);
            assert(bucket_total(bs.drop_last().update(b, t)).count(x) + bs.drop_last()[b]@.to_multiset().count(x)
                == bucket_total(bs.drop_last()).count(x) + t@.to_multiset().count(x));
        }
    }
}

/// Every value of a bucket is counted in the total.
pub proof fn lemma_total_contains<K>(bs: Seq<Vec<K>>, b: int, x: K)
    requires
        0 <= b < bs.len(),
    ensures
        bucket_total(bs).count(x) >= bs[b]@.to_multiset().count(x),
    decreases bs.len(),
{
    if b < bs.len() - 1 {
        lemma_total_contains(bs.drop_last(), b, x);
    }
}

/// Whatever the total holds lies in some bucket.
pub proof fn lemma_total_member<K>(bs: Seq<Vec<K>>, x: K) -> (position: (int, int))
    requires
        bucket_total(bs).count(x) > 0,
    ensures
        0 <= position.0 < bs.len(),
        0 <= position.1 < bs[position.0]@.len(),
        bs[position.0]@[position.1] == x,
    decreases bs.len(),
{
    if bs.len() == 0 {
        assert(false);
        (0, 0)
    } else if bucket_total(bs.drop_last()).count(x) > 0 {
        let q = lemma_total_member(bs.drop_last(), x);
        q
    } else {
        assert(bs.last()@.to_multiset().count(x) > 0);
        assert(bs.last()@.contains(x));
        let p = choose|p: int| 0 <= p < bs.last()@.len() && bs.last()@[p] == x;
        (bs.len() - 1, p)
    }
}

/// Buckets that all are empty hold nothing.
pub proof fn lemma_total_empty<K>(bs: Seq<Vec<K>>)
    requires
        forall|b: int| 0 <= b < bs.len() ==> (#[trigger] bs[b])@.len() == 0,
    ensures
        bucket_total(bs) =~= Multiset::empty(),
    decreases bs.len(),
{
    if bs.len() > 0 {
        lemma_total_empty(bs.drop_last());
        assert(bs.last()@ =~= Seq::<K>::empty());
    }
}


/// Removing position `i` by moving the last element there takes `s[i]` out
/// of the multiset.
pub proof fn lemma_swap_remove_to_multiset<K>(s: Seq<K>, i: int)
    requires
        0 <= i < s.len(),
    ensures
        s.update(i, s.last()).drop_last().to_multiset() =~= s.to_multiset().remove(s[i]),
        s.to_multiset().contains(s[i]),
{
    let t = s.update(i, s.last());
    assert(s.contains(s[i]));
    assert(t =~= t.drop_last().push(t.last()));
    assert(t.last() == s.last());
    assert(t.to_multiset() == s.to_multiset().insert(s.last()).remove(s[i]));
    assert(t.drop_last().push(t.last()).to_multiset() == t.drop_last().to_multiset().insert(t.last()));
    assert(s.to_multiset().contains(s.last())) by {
        assert(s.contains(s.last()));
    }
    let a = s.to_multiset();
    let d = t.drop_last().to_multiset();
    assert forall|x: K| #[trigger] d.count(x) == a.remove(s[i]).count(x) by {
        assert(t.to_multiset().count(x) == d.insert(s.last()).count(x));
        assert(t.to_multiset().count(x) == a.insert(s.last()).remove(s[i]).count(x));
        assert(a.count(s[i]) > 0);
    }
}

} // verus!
