//! Radix heaps of plain keys.
use vstd::multiset::Multiset;
use vstd::prelude::*;

use crate::monotone::buckets::{
    bucket_total, lemma_swap_remove_to_multiset, lemma_total_contains, lemma_total_empty,
    lemma_total_member, lemma_total_update,
};
use crate::monotone::radix::{
    bucket_count, range_bucket_count, bucket_of, in_bucket, lemma_bucket_floor, lemma_bucket_order,
    lemma_buckets_above_keep, RadixKey,
};
use crate::monotone::RadixHeapError;
use crate::order::HeapKey;
use crate::{least_in, TryHeap};

verus! {

broadcast use {
    vstd::seq_lib::group_to_multiset_ensures,
    vstd::multiset::group_multiset_axioms,
    vstd::multiset::group_multiset_properties,
};

/// The storage of a radix heap: keys in buckets by their highest bit that
/// differs from the last removed key, and the position of a least key.
struct RadixHeapCore<K> {
    buckets: Vec<Vec<K>>,
    len: usize,
    last_deleted_key: K,
    minimum_key: K,
    maximum_key: K,
    current_minimum: Option<(usize, usize)>,
}

impl<K: RadixKey> RadixHeapCore<K> {
    spec fn last(&self) -> u64 {
        self.last_deleted_key.key_rank() as u64
    }

    spec fn count(&self) -> int {
        self.buckets@.len() as int
    }

    spec fn items(&self) -> Multiset<K> {
        bucket_total(self.buckets@)
    }

    spec fn placed(&self) -> bool {
        forall|b: int, p: int|
            0 <= b < self.buckets@.len() && 0 <= p < self.buckets@[b]@.len() ==> {
                &&& in_bucket(#[trigger] self.buckets@[b]@[p].key_rank(), b, self.last(), self.count())
                &&& self.buckets@[b]@[p].key_rank() <= self.maximum_key.key_rank()
            }
    }

    spec fn is_least(&self, k: K) -> bool {
        forall|x: K| self.items().contains(x) ==> k.key_rank() <= x.key_rank()
    }

    spec fn wf(&self) -> bool {
        &&& 2 <= self.count() <= 66
        &&& self.count() == range_bucket_count(self.minimum_key.key_rank(), self.maximum_key.key_rank())
        &&& self.minimum_key.key_rank() <= self.last_deleted_key.key_rank()
        &&& self.last_deleted_key.key_rank() <= self.maximum_key.key_rank()
        &&& self.placed()
        &&& self.len == self.items().len()
        &&& match self.current_minimum {
            None => self.len == 0,
            Some((b, p)) => {
                &&& b < self.count()
                &&& p < self.buckets@[b as int]@.len()
                &&& self.is_least(self.buckets@[b as int]@[p as int])
            },
        }
    }

    spec fn accepts(&self, key: K) -> bool {
        &&& self.minimum_key.key_rank() <= key.key_rank() <= self.maximum_key.key_rank()
        &&& self.last_deleted_key.key_rank() <= key.key_rank()
    }

    spec fn same_bounds(&self, other: &Self) -> bool {
        &&& self.minimum_key == other.minimum_key
        &&& self.maximum_key == other.maximum_key
        &&& self.count() == other.count()
    }

    proof fn lemma_ranks(&self)
        ensures
            0 <= self.last_deleted_key.key_rank() <= u64::MAX,
            0 <= self.minimum_key.key_rank() <= u64::MAX,
            0 <= self.maximum_key.key_rank() <= u64::MAX,
    {
        self.last_deleted_key.lemma_rank_range();
        self.minimum_key.lemma_rank_range();
        self.maximum_key.lemma_rank_range();
    }

    fn new(minimum_key: K, maximum_key: K) -> (result: Result<Self, RadixHeapError>)
        ensures
            result is Ok <==> minimum_key.key_rank() <= maximum_key.key_rank(),
            result matches Err(e) ==> e == RadixHeapError::InvalidRange,
            result matches Ok(core) ==> {
                &&& core.wf()
                &&& core.items() =~= Multiset::empty()
                &&& core.minimum_key == minimum_key
                &&& core.maximum_key == maximum_key
                &&& core.last_deleted_key == minimum_key
            },
    {
        if maximum_key.key_lt(&minimum_key) {
            return Err(RadixHeapError::InvalidRange);
        }
        let count = bucket_count(minimum_key.wide(), maximum_key.wide());
        let mut buckets: Vec<Vec<K>> = Vec::with_capacity(count);
        while buckets.len() < count
            invariant
                buckets@.len() <= count,
                forall|b: int| 0 <= b < buckets@.len() ==> (#[trigger] buckets@[b])@.len() == 0,
            decreases count - buckets@.len(),
        {
            buckets.push(Vec::new());
        }
        proof {
            lemma_total_empty(buckets@);
        }
        Ok(RadixHeapCore {
            buckets,
            len: 0,
            last_deleted_key: minimum_key,
            minimum_key,
            maximum_key,
            current_minimum: None,
        })
    }

    fn check_key(&self, key: &K) -> (result: Result<(), RadixHeapError>)
        ensures
            result is Ok <==> self.accepts(*key),
            result matches Err(e) ==> {
                ||| e == RadixHeapError::KeyOutOfRange && !(self.minimum_key.key_rank() <= key.key_rank()
                    <= self.maximum_key.key_rank())
                ||| e == RadixHeapError::MonotonicityViolation && self.minimum_key.key_rank()
                    <= key.key_rank() <= self.maximum_key.key_rank() && key.key_rank()
                    < self.last_deleted_key.key_rank()
            },
    {
        if key.key_lt(&self.minimum_key) || self.maximum_key.key_lt(key) {
            return Err(RadixHeapError::KeyOutOfRange);
        }
        if key.key_lt(&self.last_deleted_key) {
            return Err(RadixHeapError::MonotonicityViolation);
        }
        Ok(())
    }

    fn try_push(&mut self, key: K) -> (result: Result<(), RadixHeapError>)
        requires
            old(self).wf(),
            old(self).items().len() < usize::MAX,
        ensures
            final(self).wf(),
            final(self).same_bounds(old(self)),
            final(self).last_deleted_key == old(self).last_deleted_key,
            result is Ok <==> old(self).accepts(key),
            result matches Err(e) ==> {
                ||| e == RadixHeapError::KeyOutOfRange && !(old(self).minimum_key.key_rank() <= key.key_rank()
                    <= old(self).maximum_key.key_rank())
                ||| e == RadixHeapError::MonotonicityViolation && old(self).minimum_key.key_rank()
                    <= key.key_rank() <= old(self).maximum_key.key_rank() && key.key_rank()
                    < old(self).last_deleted_key.key_rank()
            },
            result is Ok ==> final(self).items() == old(self).items().insert(key),
            result is Err ==> final(self).items() == old(self).items(),
    {
        self.check_key(&key)?;
        proof {
            self.lemma_ranks();
            key.lemma_rank_range();
        }
        let replace_minimum = match self.current_minimum {
            Some((bucket, position)) => key.key_lt(&self.buckets[bucket][position]),
            None => true,
        };
        let bucket = bucket_of(key.wide(), self.last_deleted_key.wide(), self.buckets.len());
        let ghost old_buckets = self.buckets@;
        self.buckets[bucket].push(key);
        proof {
            lemma_total_update(old_buckets, bucket as int, self.buckets@[bucket as int]);
            assert(self.buckets@ == old_buckets.update(bucket as int, self.buckets@[bucket as int]));
            assert(self.items() =~= old(self).items().insert(key)) by {
                assert forall|x: K| #[trigger] self.items().count(x) == old(self).items().insert(key).count(x) by {
                    assert(bucket_total(old_buckets.update(bucket as int, self.buckets@[bucket as int])).count(x)
                        + old_buckets[bucket as int]@.to_multiset().count(x) == bucket_total(old_buckets).count(x)
                        + self.buckets@[bucket as int]@.to_multiset().count(x));
                }
            }
            assert forall|b: int, p: int|
                0 <= b < self.buckets@.len() && 0 <= p < self.buckets@[b]@.len() implies {
                    &&& in_bucket(#[trigger] self.buckets@[b]@[p].key_rank(), b, self.last(), self.count())
                    &&& self.buckets@[b]@[p].key_rank() <= self.maximum_key.key_rank()
                } by {
                if b != bucket || p < old_buckets[b]@.len() {
                    assert(self.buckets@[b]@[p] == old_buckets[b]@[p]);
                }
            }
        }
        if replace_minimum {
            self.current_minimum = Some((bucket, self.buckets[bucket].len() - 1));
        }
        self.len = self.len + 1;
        proof {
            let (b, p) = self.current_minimum->0;
            if replace_minimum {
                assert(self.buckets@[b as int]@[p as int] == key);
                assert forall|x: K| self.items().contains(x) implies key.key_rank() <= x.key_rank() by {
                    if x != key {
                        assert(old(self).items().contains(x));
                        if old(self).current_minimum is None {
                            assert(old(self).items().len() == 0);
                        }
                    }
                }
            } else {
                let (ob, op) = old(self).current_minimum->0;
                assert(self.buckets@[ob as int]@[op as int] == old_buckets[ob as int]@[op as int]);
                assert forall|x: K| self.items().contains(x) implies self.buckets@[b as int]@[p as int].key_rank() <= x.key_rank() by {
                    if x != key {
                        assert(old(self).items().contains(x));
                    }
                }
            }
        }
        Ok(())
    }

    fn peek(&self) -> (result: Option<&K>)
        requires
            self.wf(),
        ensures
            result is None <==> self.items().len() == 0,
            result matches Some(k) ==> least_in(self.items(), *k, |t: K| t.key_rank()),
    {
        match self.current_minimum {
            None => None,
            Some((bucket, position)) => {
                proof {
                    let k = self.buckets@[bucket as int]@[position as int];
                    lemma_total_contains(self.buckets@, bucket as int, k);
                    assert(self.buckets@[bucket as int]@.contains(k));
                }
                Some(&self.buckets[bucket][position])
            },
        }
    }

    /// Points the cached minimum at a least key of the first non-empty
    /// bucket, which is a least key of the heap.
    fn cache_minimum(&mut self)
        requires
            2 <= old(self).count() <= 66,
            old(self).placed(),
            old(self).items().len() > 0,
        ensures
            final(self).buckets == old(self).buckets,
            final(self).len == old(self).len,
            final(self).last_deleted_key == old(self).last_deleted_key,
            final(self).same_bounds(old(self)),
            final(self).current_minimum matches Some((b, p)) && b < final(self).count() && p
                < final(self).buckets@[b as int]@.len() && final(self).is_least(
                final(self).buckets@[b as int]@[p as int],
            ),
    {
        let ghost witness = lemma_total_member(self.buckets@, self.items().choose());
        let mut bucket: usize = 0;
        while self.buckets[bucket].len() == 0
            invariant
                self.buckets@.len() <= 66,
                0 <= bucket <= witness.0,
                0 <= witness.0 < self.buckets@.len(),
                self.buckets@[witness.0]@.len() > 0,
                forall|j: int| 0 <= j < bucket ==> (#[trigger] self.buckets@[j])@.len() == 0,
            decreases witness.0 - bucket,
        {
            bucket = bucket + 1;
        }
        let mut position: usize = 0;
        let mut candidate: usize = 1;
        while candidate < self.buckets[bucket].len()
            invariant
                bucket < self.buckets@.len(),
                0 <= position < candidate,
                position < self.buckets@[bucket as int]@.len(),
                candidate <= self.buckets@[bucket as int]@.len() || candidate == 1,
                forall|q: int|
                    0 <= q < candidate && q < self.buckets@[bucket as int]@.len() ==> self.buckets@[bucket as int]@[position as int].key_rank()
                        <= (#[trigger] self.buckets@[bucket as int]@[q]).key_rank(),
            decreases self.buckets@[bucket as int]@.len() - candidate,
        {
            if self.buckets[bucket][candidate].key_lt(&self.buckets[bucket][position]) {
                position = candidate;
            }
            candidate = candidate + 1;
        }
        self.current_minimum = Some((bucket, position));
        proof {
            let k = self.buckets@[bucket as int]@[position as int];
            assert forall|x: K| self.items().contains(x) implies k.key_rank() <= x.key_rank() by {
                let (j, q) = lemma_total_member(self.buckets@, x);
                if j > bucket {
                    x.lemma_rank_range();
                    lemma_bucket_order(k.key_rank(), bucket as int, x.key_rank(), j, self.last(), self.count());
                }
            }
        }
    }

    fn pop(&mut self) -> (result: Option<K>)
        requires
            old(self).wf(),
        ensures
            final(self).wf(),
            final(self).same_bounds(old(self)),
            result is None <==> old(self).items().len() == 0,
            result is None ==> final(self).items() == old(self).items() && final(self).last_deleted_key
                == old(self).last_deleted_key,
            result matches Some(k) ==> {
                &&& least_in(old(self).items(), k, |t: K| t.key_rank())
                &&& final(self).items() == old(self).items().remove(k)
                &&& final(self).last_deleted_key == k
            },
    {
        let (bucket, position) = match self.current_minimum {
            Some(found) => found,
            None => return None,
        };
        self.current_minimum = None;
        proof {
            self.lemma_ranks();
            let k = self.buckets@[bucket as int]@[position as int];
            lemma_total_contains(self.buckets@, bucket as int, k);
            assert(self.buckets@[bucket as int]@.contains(k));
        }
        let ghost old_buckets = self.buckets@;
        let ghost total = bucket_total(old_buckets);
        let ghost least = old_buckets[bucket as int]@[position as int];
        let result = if bucket == 0 {
            let removed = self.buckets[0].swap_remove(position);
            proof {
                lemma_total_update(old_buckets, 0, self.buckets@[0]);
                assert(self.buckets@ == old_buckets.update(0, self.buckets@[0]));
                lemma_swap_remove_to_multiset(old_buckets[0]@, position as int);
                assert(self.items() =~= total.remove(least)) by {
                    assert forall|x: K| #[trigger] self.items().count(x) == total.remove(least).count(x) by {
                        assert(bucket_total(old_buckets.update(0, self.buckets@[0])).count(x) + old_buckets[0]@.to_multiset().count(x)
                            == total.count(x) + self.buckets@[0]@.to_multiset().count(x));
                    }
                }
                assert forall|b: int, p: int|
                    0 <= b < self.buckets@.len() && 0 <= p < self.buckets@[b]@.len() implies {
                        &&& in_bucket(#[trigger] self.buckets@[b]@[p].key_rank(), b, self.last(), self.count())
                        &&& self.buckets@[b]@[p].key_rank() <= self.maximum_key.key_rank()
                    } by {
                    if b != 0 {
                        assert(self.buckets@[b]@[p] == old_buckets[b]@[p]);
                    } else if p == position {
                        assert(self.buckets@[0]@[p] == old_buckets[0]@.last());
                    } else {
                        assert(self.buckets@[0]@[p] == old_buckets[0]@[p]);
                    }
                }
                assert(in_bucket(least.key_rank(), 0, old(self).last(), old(self).count()));
            }
            removed
        } else {
            let mut members: Vec<K> = Vec::new();
            std::mem::swap(&mut members, &mut self.buckets[bucket]);
            let removed = members.swap_remove(position);
            self.last_deleted_key = removed;
            let ghost emptied = self.buckets@;
            proof {
                assert(emptied == old_buckets.update(bucket as int, emptied[bucket as int]));
                assert(emptied[bucket as int]@ =~= Seq::<K>::empty());
                lemma_total_update(old_buckets, bucket as int, emptied[bucket as int]);
                let s = old_buckets[bucket as int]@;
                lemma_swap_remove_to_multiset(s, position as int);
                assert forall|x: K| #[trigger] bucket_total(emptied).count(x) + members@.to_multiset().count(x)
                    == total.remove(least).count(x) by {
                    assert(bucket_total(old_buckets.update(bucket as int, emptied[bucket as int])).count(x)
                        + s.to_multiset().count(x) == total.count(x) + emptied[bucket as int]@.to_multiset().count(x));
                    assert(members@.to_multiset() == s.to_multiset().remove(least));
                    assert(total.count(least) >= s.to_multiset().count(least));
                }
                assert forall|j: int| 0 <= j < bucket implies (#[trigger] emptied[j])@.len() == 0 by {
                    if emptied[j]@.len() > 0 {
                        let k = old(self).buckets@[j]@[0];
                        assert(emptied[j] == old_buckets[j]);
                        assert(in_bucket(old(self).buckets@[j]@[0].key_rank(), j, old(self).last(), old(self).count()));
                        assert(in_bucket(old(self).buckets@[bucket as int]@[position as int].key_rank(), bucket as int, old(self).last(), old(self).count()));
                        lemma_total_contains(old_buckets, j, k);
                        assert(old_buckets[j]@.contains(k));
                        assert(old(self).items().contains(k));
                        least.lemma_rank_range();
                        lemma_bucket_order(k.key_rank(), j, least.key_rank(), bucket as int, old(self).last(), old(self).count());
                    }
                }
                assert forall|q: int| 0 <= q < members@.len() implies least.key_rank() <= (#[trigger] members@[q]).key_rank()
                    && in_bucket(members@[q].key_rank(), bucket as int, old(self).last(), old(self).count())
                    && members@[q].key_rank() <= self.maximum_key.key_rank() by {
                    let m = members@[q];
                    let idx: int = if q == position { s.len() - 1 } else { q };
                    assert(m == old(self).buckets@[bucket as int]@[idx]);
                    assert(in_bucket(old(self).buckets@[bucket as int]@[idx].key_rank(), bucket as int, old(self).last(), old(self).count()));
                    assert(old(self).buckets@[bucket as int]@[idx].key_rank() <= old(self).maximum_key.key_rank());
                    assert(s.contains(m));
                    lemma_total_contains(old_buckets, bucket as int, m);
                    assert(old(self).items().contains(m));
                }
                least.lemma_rank_range();
            }
            let new_last = removed.wide();
            let count = self.buckets.len();
            proof {
                assert forall|b: int, p: int|
                    0 <= b < self.buckets@.len() && 0 <= p < self.buckets@[b]@.len() implies {
                        &&& in_bucket(#[trigger] self.buckets@[b]@[p].key_rank(), b, new_last, count as int)
                        &&& self.buckets@[b]@[p].key_rank() <= self.maximum_key.key_rank()
                    } by {
                    assert(b > bucket);
                    assert(self.buckets@[b] == old(self).buckets@[b]);
                    assert(in_bucket(old(self).buckets@[b]@[p].key_rank(), b, old(self).last(), old(self).count()));
                    assert(in_bucket(old(self).buckets@[bucket as int]@[position as int].key_rank(), bucket as int, old(self).last(), old(self).count()));
                    lemma_buckets_above_keep(old(self).last(), new_last, bucket as int, self.buckets@[b]@[p].key_rank(), b, count as int);
                }
            }
            while members.len() > 0
                invariant
                    self.buckets@.len() == count,
                    2 <= count <= 66,
                    new_last as int == least.key_rank(),
                    self.last_deleted_key == least,
                    self.minimum_key == old(self).minimum_key,
                    self.maximum_key == old(self).maximum_key,
                    self.len == old(self).len,
                    self.current_minimum is None,
                    forall|x: K| #[trigger] bucket_total(self.buckets@).count(x) + members@.to_multiset().count(x)
                        == total.remove(least).count(x),
                    forall|q: int| 0 <= q < members@.len() ==> least.key_rank() <= (#[trigger] members@[q]).key_rank()
                        && members@[q].key_rank() <= self.maximum_key.key_rank(),
                    forall|b: int, p: int|
                        0 <= b < self.buckets@.len() && 0 <= p < self.buckets@[b]@.len() ==> {
                            &&& in_bucket(#[trigger] self.buckets@[b]@[p].key_rank(), b, new_last, count as int)
                            &&& self.buckets@[b]@[p].key_rank() <= self.maximum_key.key_rank()
                        },
                decreases members@.len(),
            {
                let ghost members_before = members@;
                let value = members.pop().unwrap();
                proof {
                    value.lemma_rank_range();
                    assert(members_before =~= members@.push(value));
                    assert(members@.push(value).to_multiset() == members@.to_multiset().insert(value));
                    assert(least.key_rank() <= members_before[members_before.len() - 1].key_rank());
                    assert forall|q: int| 0 <= q < members@.len() implies least.key_rank() <= (#[trigger] members@[q]).key_rank()
                        && members@[q].key_rank() <= self.maximum_key.key_rank() by {
                        assert(members@[q] == members_before[q]);
                    }
                }
                let target = bucket_of(value.wide(), new_last, count);
                let ghost before = self.buckets@;
                self.buckets[target].push(value);
                proof {
                    lemma_total_update(before, target as int, self.buckets@[target as int]);
                    assert(self.buckets@ == before.update(target as int, self.buckets@[target as int]));
                    assert(self.buckets@[target as int]@ == before[target as int]@.push(value));
                    assert forall|x: K| #[trigger] bucket_total(self.buckets@).count(x) + members@.to_multiset().count(x)
                        == total.remove(least).count(x) by {
                        assert(bucket_total(before).count(x) + members_before.to_multiset().count(x) == total.remove(least).count(x));
                        assert(bucket_total(before.update(target as int, self.buckets@[target as int])).count(x)
                            + before[target as int]@.to_multiset().count(x) == bucket_total(before).count(x)
                            + self.buckets@[target as int]@.to_multiset().count(x));
                    }
                    assert forall|b: int, p: int|
                        0 <= b < self.buckets@.len() && 0 <= p < self.buckets@[b]@.len() implies {
                            &&& in_bucket(#[trigger] self.buckets@[b]@[p].key_rank(), b, new_last, count as int)
                            &&& self.buckets@[b]@[p].key_rank() <= self.maximum_key.key_rank()
                        } by {
                        if b != target || p < before[b]@.len() {
                            assert(self.buckets@[b]@[p] == before[b]@[p]);
                        }
                    }
                }
            }
            proof {
                assert(members@.to_multiset() =~= Multiset::<K>::empty());
            }
            removed
        };
        proof {
            assert(least_in(total, least, |t: K| t.key_rank()));
            if bucket > 0 {
                assert(result == least);
            }
        }
        proof {
            lemma_total_contains(old_buckets, bucket as int, least);
            assert(old_buckets[bucket as int]@.contains(least));
            assert(total.contains(least));
            assert(total.remove(least).insert(least) =~= total);
            vstd::multiset::lemma_insert_len(total.remove(least), least);
            assert(old(self).len == total.len());
        }
        self.last_deleted_key = result;
        self.len = self.len - 1;
        proof {
            assert(self.items() =~= total.remove(least)) by {
                if bucket > 0 {
                    assert forall|x: K| #[trigger] self.items().count(x) == total.remove(least).count(x) by {}
                }
            }
        }
        proof {
            assert(self.len == self.items().len());
            assert(in_bucket(old(self).buckets@[bucket as int]@[position as int].key_rank(), bucket as int, old(self).last(), old(self).count()));
            lemma_bucket_floor(least.key_rank(), bucket as int, old(self).last(), old(self).count());
            least.lemma_rank_range();
            assert(self.last() == least.key_rank() as u64);
            assert(self.minimum_key.key_rank() <= self.last_deleted_key.key_rank());
            assert(self.last_deleted_key.key_rank() <= self.maximum_key.key_rank());
            assert(self.placed());
        }
        if self.len != 0 {
            self.cache_minimum();
        }
        Some(result)
    }

    fn clear(&mut self)
        requires
            old(self).wf(),
        ensures
            final(self).wf(),
            final(self).same_bounds(old(self)),
            final(self).items() =~= Multiset::empty(),
            final(self).last_deleted_key == old(self).minimum_key,
    {
        let count = self.buckets.len();
        let mut index: usize = 0;
        while index < count
            invariant
                self.buckets@.len() == count,
                index <= count,
                forall|b: int| 0 <= b < index ==> (#[trigger] self.buckets@[b])@.len() == 0,
                self.minimum_key == old(self).minimum_key,
                self.maximum_key == old(self).maximum_key,
            decreases count - index,
        {
            self.buckets[index].clear();
            index = index + 1;
        }
        proof {
            lemma_total_empty(self.buckets@);
        }
        self.len = 0;
        self.last_deleted_key = self.minimum_key;
        self.current_minimum = None;
    }
}


/// A monotone radix heap for `u32` keys.
///
/// This heap uses radix buckets rather than a comparison heap.  Keys must
/// remain within its construction bounds and cannot move below the most
/// recently removed key.
pub struct U32RadixHeap {
    core: RadixHeapCore<u32>,
}

impl U32RadixHeap {
    /// The inclusive lower key bound.
    pub closed spec fn lower(&self) -> u32 {
        self.core.minimum_key
    }

    /// The inclusive upper key bound.
    pub closed spec fn upper(&self) -> u32 {
        self.core.maximum_key
    }

    /// The most recently removed key, or the lower bound.
    pub closed spec fn last_removed(&self) -> u32 {
        self.core.last_deleted_key
    }

    /// The number of buckets.
    pub closed spec fn buckets(&self) -> int {
        self.core.count()
    }

    /// Creates an empty radix heap with inclusive key bounds.
    pub fn new(minimum_key: u32, maximum_key: u32) -> (result: Result<Self, RadixHeapError>)
        ensures
            result is Ok <==> minimum_key <= maximum_key,
            result matches Err(e) ==> e == RadixHeapError::InvalidRange,
            result matches Ok(heap) ==> {
                &&& heap.well_formed()
                &&& heap.items() =~= Multiset::empty()
                &&& heap.lower() == minimum_key
                &&& heap.upper() == maximum_key
                &&& heap.last_removed() == minimum_key
            },
    {
        let core = RadixHeapCore::new(minimum_key, maximum_key)?;
        Ok(U32RadixHeap { core })
    }

    /// Alias for [`Self::new`].
    pub fn with_bounds(minimum_key: u32, maximum_key: u32) -> (result: Result<Self, RadixHeapError>)
        ensures
            result is Ok <==> minimum_key <= maximum_key,
            result matches Err(e) ==> e == RadixHeapError::InvalidRange,
            result matches Ok(heap) ==> {
                &&& heap.well_formed()
                &&& heap.items() =~= Multiset::empty()
                &&& heap.lower() == minimum_key
                &&& heap.upper() == maximum_key
                &&& heap.last_removed() == minimum_key
            },
    {
        Self::new(minimum_key, maximum_key)
    }

    /// Returns the inclusive lower key bound.
    pub fn minimum_key(&self) -> (result: &u32)
        ensures
            *result == self.lower(),
    {
        &self.core.minimum_key
    }

    /// Returns the inclusive upper key bound.
    pub fn maximum_key(&self) -> (result: &u32)
        ensures
            *result == self.upper(),
    {
        &self.core.maximum_key
    }

    /// Returns the most recently removed key, or the lower bound if no key
    /// has yet been removed or the heap was cleared.
    pub fn last_deleted_key(&self) -> (result: &u32)
        ensures
            *result == self.last_removed(),
    {
        &self.core.last_deleted_key
    }

    /// Returns the fixed number of radix buckets.
    pub fn bucket_count(&self) -> (result: usize)
        requires
            self.well_formed(),
        ensures
            result == self.buckets(),
            result == range_bucket_count(self.lower() as int, self.upper() as int),
    {
        self.core.buckets.len()
    }

    /// Inserts `key`, or reports why it was refused: keys outside the bounds
    /// and keys below the last removed key are refused.
    pub fn try_push(&mut self, key: u32) -> (result: Result<(), RadixHeapError>)
        requires
            old(self).well_formed(),
            old(self).items().len() < usize::MAX,
        ensures
            final(self).well_formed(),
            final(self).lower() == old(self).lower(),
            final(self).upper() == old(self).upper(),
            final(self).last_removed() == old(self).last_removed(),
            result is Ok <==> old(self).accepts(key),
            result matches Err(e) ==> {
                ||| e == RadixHeapError::KeyOutOfRange && !(old(self).lower() <= key <= old(self).upper())
                ||| e == RadixHeapError::MonotonicityViolation && old(self).lower() <= key <= old(self).upper()
                    && key < old(self).last_removed()
            },
            result is Ok ==> final(self).items() == old(self).items().insert(key),
            result is Err ==> final(self).items() == old(self).items(),
    {
        self.core.try_push(key)
    }

    /// Returns the current minimum key.
    pub fn peek(&self) -> (result: Option<&u32>)
        requires
            self.well_formed(),
        ensures
            result is None <==> self.items().len() == 0,
            result matches Some(k) ==> least_in(self.items(), *k, |t: u32| t as int),
    {
        self.core.peek()
    }

    /// Removes and returns the current minimum key, which becomes the last
    /// removed key.
    pub fn pop(&mut self) -> (result: Option<u32>)
        requires
            old(self).well_formed(),
        ensures
            final(self).well_formed(),
            final(self).lower() == old(self).lower(),
            final(self).upper() == old(self).upper(),
            result is None <==> old(self).items().len() == 0,
            result is None ==> final(self).items() == old(self).items() && final(self).last_removed()
                == old(self).last_removed(),
            result matches Some(k) ==> {
                &&& least_in(old(self).items(), k, |t: u32| t as int)
                &&& final(self).items() == old(self).items().remove(k)
                &&& final(self).last_removed() == k
            },
    {
        self.core.pop()
    }

    /// Returns the number of keys in the heap.
    pub fn len(&self) -> (result: usize)
        requires
            self.well_formed(),
        ensures
            result == self.items().len(),
    {
        self.core.len
    }

    /// Returns whether the heap contains no keys.
    pub fn is_empty(&self) -> (result: bool)
        requires
            self.well_formed(),
        ensures
            result == (self.items().len() == 0),
    {
        self.core.len == 0
    }

    /// Removes all keys and resets the monotonicity constraint.
    pub fn clear(&mut self)
        requires
            old(self).well_formed(),
        ensures
            final(self).well_formed(),
            final(self).lower() == old(self).lower(),
            final(self).upper() == old(self).upper(),
            final(self).items() =~= Multiset::empty(),
            final(self).last_removed() == old(self).lower(),
    {
        self.core.clear()
    }
}

impl TryHeap<u32> for U32RadixHeap {
    type InsertError = RadixHeapError;

    closed spec fn well_formed(&self) -> bool {
        self.core.wf()
    }

    closed spec fn items(&self) -> Multiset<u32> {
        self.core.items()
    }

    open spec fn priority(&self, value: u32) -> int {
        value as int
    }

    open spec fn accepts(&self, value: u32) -> bool {
        &&& self.lower() <= value <= self.upper()
        &&& self.last_removed() <= value
    }

    fn try_push(&mut self, value: u32) -> (result: Result<(), RadixHeapError>) {
        U32RadixHeap::try_push(self, value)
    }

    fn peek(&self) -> (result: Option<&u32>) {
        U32RadixHeap::peek(self)
    }

    fn pop(&mut self) -> (result: Option<u32>) {
        U32RadixHeap::pop(self)
    }

    fn len(&self) -> (result: usize) {
        U32RadixHeap::len(self)
    }

    fn clear(&mut self) {
        U32RadixHeap::clear(self)
    }
}

/// A monotone radix heap for `u64` keys.
///
/// This heap uses radix buckets rather than a comparison heap.  Keys must
/// remain within its construction bounds and cannot move below the most
/// recently removed key.
pub struct U64RadixHeap {
    core: RadixHeapCore<u64>,
}

impl U64RadixHeap {
    /// The inclusive lower key bound.
    pub closed spec fn lower(&self) -> u64 {
        self.core.minimum_key
    }

    /// The inclusive upper key bound.
    pub closed spec fn upper(&self) -> u64 {
        self.core.maximum_key
    }

    /// The most recently removed key, or the lower bound.
    pub closed spec fn last_removed(&self) -> u64 {
        self.core.last_deleted_key
    }

    /// The number of buckets.
    pub closed spec fn buckets(&self) -> int {
        self.core.count()
    }

    /// Creates an empty radix heap with inclusive key bounds.
    pub fn new(minimum_key: u64, maximum_key: u64) -> (result: Result<Self, RadixHeapError>)
        ensures
            result is Ok <==> minimum_key <= maximum_key,
            result matches Err(e) ==> e == RadixHeapError::InvalidRange,
            result matches Ok(heap) ==> {
                &&& heap.well_formed()
                &&& heap.items() =~= Multiset::empty()
                &&& heap.lower() == minimum_key
                &&& heap.upper() == maximum_key
                &&& heap.last_removed() == minimum_key
            },
    {
        let core = RadixHeapCore::new(minimum_key, maximum_key)?;
        Ok(U64RadixHeap { core })
    }

    /// Alias for [`Self::new`].
    pub fn with_bounds(minimum_key: u64, maximum_key: u64) -> (result: Result<Self, RadixHeapError>)
        ensures
            result is Ok <==> minimum_key <= maximum_key,
            result matches Err(e) ==> e == RadixHeapError::InvalidRange,
            result matches Ok(heap) ==> {
                &&& heap.well_formed()
                &&& heap.items() =~= Multiset::empty()
                &&& heap.lower() == minimum_key
                &&& heap.upper() == maximum_key
                &&& heap.last_removed() == minimum_key
            },
    {
        Self::new(minimum_key, maximum_key)
    }

    /// Returns the inclusive lower key bound.
    pub fn minimum_key(&self) -> (result: &u64)
        ensures
            *result == self.lower(),
    {
        &self.core.minimum_key
    }

    /// Returns the inclusive upper key bound.
    pub fn maximum_key(&self) -> (result: &u64)
        ensures
            *result == self.upper(),
    {
        &self.core.maximum_key
    }

    /// Returns the most recently removed key, or the lower bound if no key
    /// has yet been removed or the heap was cleared.
    pub fn last_deleted_key(&self) -> (result: &u64)
        ensures
            *result == self.last_removed(),
    {
        &self.core.last_deleted_key
    }

    /// Returns the fixed number of radix buckets.
    pub fn bucket_count(&self) -> (result: usize)
        requires
            self.well_formed(),
        ensures
            result == self.buckets(),
            result == range_bucket_count(self.lower() as int, self.upper() as int),
    {
        self.core.buckets.len()
    }

    /// Inserts `key`, or reports why it was refused: keys outside the bounds
    /// and keys below the last removed key are refused.
    pub fn try_push(&mut self, key: u64) -> (result: Result<(), RadixHeapError>)
        requires
            old(self).well_formed(),
            old(self).items().len() < usize::MAX,
        ensures
            final(self).well_formed(),
            final(self).lower() == old(self).lower(),
            final(self).upper() == old(self).upper(),
            final(self).last_removed() == old(self).last_removed(),
            result is Ok <==> old(self).accepts(key),
            result matches Err(e) ==> {
                ||| e == RadixHeapError::KeyOutOfRange && !(old(self).lower() <= key <= old(self).upper())
                ||| e == RadixHeapError::MonotonicityViolation && old(self).lower() <= key <= old(self).upper()
                    && key < old(self).last_removed()
            },
            result is Ok ==> final(self).items() == old(self).items().insert(key),
            result is Err ==> final(self).items() == old(self).items(),
    {
        self.core.try_push(key)
    }

    /// Returns the current minimum key.
    pub fn peek(&self) -> (result: Option<&u64>)
        requires
            self.well_formed(),
        ensures
            result is None <==> self.items().len() == 0,
            result matches Some(k) ==> least_in(self.items(), *k, |t: u64| t as int),
    {
        self.core.peek()
    }

    /// Removes and returns the current minimum key, which becomes the last
    /// removed key.
    pub fn pop(&mut self) -> (result: Option<u64>)
        requires
            old(self).well_formed(),
        ensures
            final(self).well_formed(),
            final(self).lower() == old(self).lower(),
            final(self).upper() == old(self).upper(),
            result is None <==> old(self).items().len() == 0,
            result is None ==> final(self).items() == old(self).items() && final(self).last_removed()
                == old(self).last_removed(),
            result matches Some(k) ==> {
                &&& least_in(old(self).items(), k, |t: u64| t as int)
                &&& final(self).items() == old(self).items().remove(k)
                &&& final(self).last_removed() == k
            },
    {
        self.core.pop()
    }

    /// Returns the number of keys in the heap.
    pub fn len(&self) -> (result: usize)
        requires
            self.well_formed(),
        ensures
            result == self.items().len(),
    {
        self.core.len
    }

    /// Returns whether the heap contains no keys.
    pub fn is_empty(&self) -> (result: bool)
        requires
            self.well_formed(),
        ensures
            result == (self.items().len() == 0),
    {
        self.core.len == 0
    }

    /// Removes all keys and resets the monotonicity constraint.
    pub fn clear(&mut self)
        requires
            old(self).well_formed(),
        ensures
            final(self).well_formed(),
            final(self).lower() == old(self).lower(),
            final(self).upper() == old(self).upper(),
            final(self).items() =~= Multiset::empty(),
            final(self).last_removed() == old(self).lower(),
    {
        self.core.clear()
    }
}

impl TryHeap<u64> for U64RadixHeap {
    type InsertError = RadixHeapError;

    closed spec fn well_formed(&self) -> bool {
        self.core.wf()
    }

    closed spec fn items(&self) -> Multiset<u64> {
        self.core.items()
    }

    open spec fn priority(&self, value: u64) -> int {
        value as int
    }

    open spec fn accepts(&self, value: u64) -> bool {
        &&& self.lower() <= value <= self.upper()
        &&& self.last_removed() <= value
    }

    fn try_push(&mut self, value: u64) -> (result: Result<(), RadixHeapError>) {
        U64RadixHeap::try_push(self, value)
    }

    fn peek(&self) -> (result: Option<&u64>) {
        U64RadixHeap::peek(self)
    }

    fn pop(&mut self) -> (result: Option<u64>) {
        U64RadixHeap::pop(self)
    }

    fn len(&self) -> (result: usize) {
        U64RadixHeap::len(self)
    }

    fn clear(&mut self) {
        U64RadixHeap::clear(self)
    }
}
} // verus!
