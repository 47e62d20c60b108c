//! Radix buckets: which bucket a key belongs to relative to the last
//! removed key, and the facts about bucket order that the radix heaps rest
//! on.
//!
//! Bucket 0 holds keys equal to the last removed key `l`.  Bucket `b >= 1`
//! holds the keys whose highest bit that differs from `l` is bit `b - 1`,
//! and the last bucket also holds every key that differs from `l` in a
//! higher bit.  For keys no smaller than `l`, each bucket is an interval of
//! keys, and the intervals follow one another in bucket order.
use vstd::prelude::*;

use crate::order::HeapKey;

verus! {

/// A key type that a radix heap can bucket by its bits.
pub trait RadixKey: HeapKey + Copy {
    /// The key as an unsigned 64-bit integer, which preserves its order.
    fn wide(&self) -> (result: u64)
        ensures
            result as int == self.key_rank(),
    ;

    /// Every key's rank fits an unsigned 64-bit integer.
    proof fn lemma_rank_range(&self)
        ensures
            0 <= self.key_rank() <= u64::MAX,
    ;
}

impl RadixKey for u32 {
    fn wide(&self) -> (result: u64) {
        *self as u64
    }

    proof fn lemma_rank_range(&self) {
    }
}

impl RadixKey for u64 {
    fn wide(&self) -> (result: u64) {
        *self
    }

    proof fn lemma_rank_range(&self) {
    }
}

/// The largest key that agrees with `l` on every bit from `m` upward.
pub open spec fn upper(l: u64, m: int) -> int {
    if m >= 64 {
        u64::MAX as int
    } else {
        (l | !(u64::MAX << (m as u64))) as int
    }
}

/// Key `k` belongs in bucket `b` of `count` buckets relative to `l`.
pub open spec fn in_bucket(k: int, b: int, l: u64, count: int) -> bool {
    if b == 0 {
        k == l
    } else if b < count - 1 {
        upper(l, b - 1) < k <= upper(l, b)
    } else {
        b == count - 1 && upper(l, count - 2) < k
    }
}

/// `upper` grows with the bit position, and starts at `l`.
pub proof fn lemma_upper_monotone(l: u64, a: int, b: int)
    requires
        0 <= a <= b,
    ensures
        upper(l, a) <= upper(l, b),
        upper(l, 0) == l,
        l <= upper(l, a) <= u64::MAX,
{
    if b < 64 {
        let a64 = a as u64;
        let b64 = b as u64;
        assert((l | !(u64::MAX << a64)) <= (l | !(u64::MAX << b64))) by (bit_vector)
            requires
                a64 <= b64 < 64,
        ;
    }
    if a < 64 {
        let a64 = a as u64;
        assert(l <= (l | !(u64::MAX << a64))) by (bit_vector);
    }
    assert((l | !(u64::MAX << 0u64)) == l) by (bit_vector);
}

/// Keys in a lower bucket are smaller than keys in a higher bucket.
pub proof fn lemma_bucket_order(k1: int, b1: int, k2: int, b2: int, l: u64, count: int)
    requires
        0 <= b1 < b2 < count,
        in_bucket(k1, b1, l, count),
        in_bucket(k2, b2, l, count),
        k2 <= u64::MAX,
    ensures
        k1 < k2,
{
    lemma_upper_monotone(l, 0, b2 - 1);
    if b1 > 0 {
        lemma_upper_monotone(l, b1, b2 - 1);
    }
}

/// Every key of a bucket is at least `l`.
pub proof fn lemma_bucket_floor(k: int, b: int, l: u64, count: int)
    requires
        0 <= b < count,
        count >= 2,
        in_bucket(k, b, l, count),
    ensures
        l <= k,
{
    if b > 0 {
        lemma_upper_monotone(l, 0, b - 1);
        lemma_upper_monotone(l, 0, count - 2);
    }
}

/// When the new last key `l2` comes from bucket `b >= 1`, every bucket above
/// `b` keeps its keys.
pub proof fn lemma_buckets_above_keep(l: u64, l2: u64, b: int, k: int, j: int, count: int)
    requires
        1 <= b < j < count,
        count <= 66,
        in_bucket(l2 as int, b, l, count),
        in_bucket(k, j, l, count),
    ensures
        in_bucket(k, j, l2, count),
{
    assert forall|m: int| b <= m implies #[trigger] upper(l2, m) == upper(l, m) by {
        if m < 64 {
            let b0 = (b - 1) as u64;
            let b64 = b as u64;
            let m64 = m as u64;
            if b < count - 1 {
                assert((l2 | !(u64::MAX << m64)) == (l | !(u64::MAX << m64))) by (bit_vector)
                    requires
                        1 <= b64 <= m64 < 64,
                        b0 + 1 == b64,
                        (l | !(u64::MAX << b0)) < l2,
                        l2 <= (l | !(u64::MAX << b64)),
                ;
            }
        }
    }
}

/// Computes the bucket of `key` relative to `last` among `count` buckets.
pub fn bucket_of(key: u64, last: u64, count: usize) -> (bucket: usize)
    requires
        key >= last,
        2 <= count <= 66,
    ensures
        bucket < count,
        in_bucket(key as int, bucket as int, last, count as int),
{
    if key == last {
        return 0;
    }
    let x = key ^ last;
    assert(x != 0u64) by (bit_vector)
        requires
            x == key ^ last,
            key != last,
    ;
    let zeros = x.leading_zeros();
    proof {
        vstd::std_specs::bits::axiom_u64_leading_zeros(x);
    }
    let m: u32 = 63 - zeros;
    proof {
        let m64 = m as u64;
        let z64 = zeros as u64;
        assert(((x >> m64) & 1u64) != 0u64);
        if m < 63 {
            let m1: u64 = (m64 + 1) as u64;
            assert(x >> m1 == 0u64);
            assert(k_bounds(key, last, m64, m1)) by {
                assert((last | !(u64::MAX << m64)) < key) by (bit_vector)
                    requires
                        m64 < 64,
                        key > last,
                        x == key ^ last,
                        ((x >> m64) & 1u64) != 0u64,
                ;
                assert(key <= (last | !(u64::MAX << m1))) by (bit_vector)
                    requires
                        m64 < 63,
                        m1 == m64 + 1,
                        key > last,
                        x == key ^ last,
                        x >> m1 == 0u64,
                ;
            }
        } else {
            assert((last | !(u64::MAX << m64)) < key) by (bit_vector)
                requires
                    m64 < 64,
                    key > last,
                    x == key ^ last,
                    ((x >> m64) & 1u64) != 0u64,
            ;
        }
    }
    let top = count - 2;
    let m_index = m as usize;
    if m_index <= top {
        m_index + 1
    } else {
        proof {
            lemma_upper_monotone(last, top as int, m as int);
        }
        count - 1
    }
}

/// `key` lies above `upper(last, m)` and no higher than `upper(last, m1)`.
pub open spec fn k_bounds(key: u64, last: u64, m: u64, m1: u64) -> bool {
    &&& (last | !(u64::MAX << m)) < key
    &&& key <= (last | !(u64::MAX << m1))
}

/// The number of buckets for keys from `minimum` to `maximum`: two more
/// than the number of significant bits of `maximum - minimum`.
pub open spec fn range_bucket_count(minimum: int, maximum: int) -> int {
    66 - vstd::std_specs::bits::u64_leading_zeros((maximum - minimum) as u64)
}

/// The number of buckets for keys in `minimum..=maximum`: two more than the
/// number of significant bits of the range.
pub fn bucket_count(minimum: u64, maximum: u64) -> (count: usize)
    requires
        minimum <= maximum,
    ensures
        count == range_bucket_count(minimum as int, maximum as int),
        2 <= count <= 66,
{
    let range = maximum - minimum;
    let zeros = range.leading_zeros();
    proof {
        vstd::std_specs::bits::axiom_u64_leading_zeros(range);
    }
    (64 - zeros) as usize + 2
}

} // verus!
