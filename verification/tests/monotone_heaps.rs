//! Conformance checks for the monotone radix heaps with integer keys.

use std::fmt::Debug;

use rheaps::monotone::{
    RadixDecreaseKeyError, RadixHandle, RadixHeapError, U32RadixAddressableHeap, U32RadixHeap,
    U64RadixAddressableHeap, U64RadixHeap,
};
use rheaps::{InvalidHandle, TryAddressableHeap, TryHeap};

const RANDOM_VALUES: usize = 4_000;

struct JavaRandom {
    seed: u64,
}

impl JavaRandom {
    const MASK: u64 = (1 << 48) - 1;
    const MULTIPLIER: u64 = 0x5DEECE66D;
    const ADDEND: u64 = 0xB;

    fn new(seed: u64) -> Self {
        Self {
            seed: (seed ^ Self::MULTIPLIER) & Self::MASK,
        }
    }

    fn next_u64(&mut self) -> u64 {
        self.seed = (self
            .seed
            .wrapping_mul(Self::MULTIPLIER)
            .wrapping_add(Self::ADDEND))
            & Self::MASK;
        self.seed
    }
}

trait ValueFixture<K> {
    fn checked_push(&mut self, key: K) -> Result<(), RadixHeapError>;
    fn peek_key(&self) -> Option<&K>;
    fn pop_key(&mut self) -> Option<K>;
    fn fixture_len(&self) -> usize;
    fn fixture_clear(&mut self);
}

impl ValueFixture<u32> for U32RadixHeap {
    fn checked_push(&mut self, key: u32) -> Result<(), RadixHeapError> {
        self.try_push(key)
    }

    fn peek_key(&self) -> Option<&u32> {
        self.peek()
    }

    fn pop_key(&mut self) -> Option<u32> {
        self.pop()
    }

    fn fixture_len(&self) -> usize {
        self.len()
    }

    fn fixture_clear(&mut self) {
        self.clear();
    }
}

impl ValueFixture<u64> for U64RadixHeap {
    fn checked_push(&mut self, key: u64) -> Result<(), RadixHeapError> {
        self.try_push(key)
    }

    fn peek_key(&self) -> Option<&u64> {
        self.peek()
    }

    fn pop_key(&mut self) -> Option<u64> {
        self.pop()
    }

    fn fixture_len(&self) -> usize {
        self.len()
    }

    fn fixture_clear(&mut self) {
        self.clear();
    }
}

fn exercise_value_heap<H, K>(mut heap: H, values: Vec<K>)
where
    H: ValueFixture<K>,
    K: Clone + Debug + Ord,
{
    assert_eq!(heap.fixture_len(), 0);
    assert_eq!(heap.peek_key(), None);
    assert_eq!(heap.pop_key(), None);

    let mut expected = values.clone();
    expected.sort();
    for value in values {
        heap.checked_push(value).unwrap();
    }
    assert_eq!(heap.fixture_len(), expected.len());
    for expected_key in &expected {
        assert_eq!(heap.peek_key(), Some(expected_key));
        assert_eq!(heap.pop_key().as_ref(), Some(expected_key));
    }
    assert_eq!(heap.pop_key(), None);

    let key = expected
        .first()
        .expect("the fixture must contain at least one key")
        .clone();
    heap.fixture_clear();
    assert_eq!(heap.fixture_len(), 0);
    heap.checked_push(key.clone()).unwrap();
    assert_eq!(heap.pop_key(), Some(key));
}

trait AddressableFixture<K> {
    fn checked_push(&mut self, key: K, value: usize) -> Result<RadixHandle, RadixHeapError>;
    fn fixture_peek(&self) -> Option<(RadixHandle, &K, &usize)>;
    fn fixture_pop(&mut self) -> Option<(K, usize)>;
    fn fixture_key(&self, handle: RadixHandle) -> Result<&K, InvalidHandle>;
    fn fixture_len(&self) -> usize;
    fn fixture_clear(&mut self);
}

impl AddressableFixture<u32> for U32RadixAddressableHeap<usize> {
    fn checked_push(&mut self, key: u32, value: usize) -> Result<RadixHandle, RadixHeapError> {
        self.try_insert(key, value)
    }

    fn fixture_peek(&self) -> Option<(RadixHandle, &u32, &usize)> {
        self.peek()
    }

    fn fixture_pop(&mut self) -> Option<(u32, usize)> {
        self.pop()
    }

    fn fixture_key(&self, handle: RadixHandle) -> Result<&u32, InvalidHandle> {
        self.key(handle)
    }

    fn fixture_len(&self) -> usize {
        self.len()
    }

    fn fixture_clear(&mut self) {
        self.clear();
    }
}

impl AddressableFixture<u64> for U64RadixAddressableHeap<usize> {
    fn checked_push(&mut self, key: u64, value: usize) -> Result<RadixHandle, RadixHeapError> {
        self.try_insert(key, value)
    }

    fn fixture_peek(&self) -> Option<(RadixHandle, &u64, &usize)> {
        self.peek()
    }

    fn fixture_pop(&mut self) -> Option<(u64, usize)> {
        self.pop()
    }

    fn fixture_key(&self, handle: RadixHandle) -> Result<&u64, InvalidHandle> {
        self.key(handle)
    }

    fn fixture_len(&self) -> usize {
        self.len()
    }

    fn fixture_clear(&mut self) {
        self.clear();
    }
}

fn exercise_addressable_heap<H, K>(mut heap: H, values: Vec<K>)
where
    H: AddressableFixture<K>,
    K: Clone + Debug + Ord,
{
    assert_eq!(heap.fixture_len(), 0);
    assert_eq!(heap.fixture_peek(), None);
    assert_eq!(heap.fixture_pop(), None);

    let mut expected = values.clone();
    expected.sort();
    let mut first_handle = None;
    for (value, key) in values.into_iter().enumerate() {
        let handle = heap.checked_push(key, value).unwrap();
        if first_handle.is_none() {
            first_handle = Some(handle);
        }
    }
    assert_eq!(heap.fixture_len(), expected.len());
    for expected_key in &expected {
        assert_eq!(
            heap.fixture_peek().map(|(_, key, _)| key),
            Some(expected_key)
        );
        assert_eq!(
            heap.fixture_pop().map(|(key, _)| key).as_ref(),
            Some(expected_key)
        );
    }
    assert_eq!(
        heap.fixture_key(first_handle.expect("fixture inserted an initial key")),
        Err(InvalidHandle::Stale)
    );

    let key = expected
        .first()
        .expect("the fixture must contain at least one key")
        .clone();
    heap.fixture_clear();
    let handle = heap.checked_push(key, 0).unwrap();
    heap.fixture_clear();
    assert_eq!(heap.fixture_key(handle), Err(InvalidHandle::Stale));
}

#[test]
fn value_radix_heaps_sort_random_and_boundary_keys() {
    let mut random = JavaRandom::new(1);
    let integers = std::iter::once(0)
        .chain(std::iter::once(u32::MAX))
        .chain((0..RANDOM_VALUES).map(|_| (random.next_u64() % 100_001) as u32))
        .collect();
    exercise_value_heap(U32RadixHeap::new(0, u32::MAX).unwrap(), integers);

    let mut random = JavaRandom::new(2);
    let longs = std::iter::once(0)
        .chain(std::iter::once(u64::MAX))
        .chain((0..RANDOM_VALUES).map(|_| random.next_u64() % 100_001))
        .collect();
    exercise_value_heap(U64RadixHeap::new(0, u64::MAX).unwrap(), longs);
}

#[test]
fn addressable_radix_heaps_sort_random_and_invalidate_handles() {
    let mut random = JavaRandom::new(5);
    let integers = std::iter::once(0)
        .chain((0..RANDOM_VALUES).map(|_| (random.next_u64() % 100_001) as u32))
        .collect();
    exercise_addressable_heap(U32RadixAddressableHeap::new(0, 100_000).unwrap(), integers);

    let mut random = JavaRandom::new(6);
    let longs = std::iter::once(0)
        .chain((0..RANDOM_VALUES).map(|_| random.next_u64() % 100_001))
        .collect();
    exercise_addressable_heap(U64RadixAddressableHeap::new(0, 100_000).unwrap(), longs);
}

#[test]
fn value_radix_heaps_cover_jheaps_regression_sequences() {
    exercise_value_heap(
        U32RadixHeap::new(29, 36).unwrap(),
        vec![29, 30, 31, 30, 33, 36, 35],
    );
    exercise_value_heap(
        U64RadixHeap::new(29, 36).unwrap(),
        vec![29, 30, 31, 30, 33, 36, 35],
    );

    exercise_value_heap(U32RadixHeap::new(0, u32::MAX).unwrap(), vec![0, u32::MAX]);
    exercise_value_heap(U64RadixHeap::new(0, u64::MAX).unwrap(), vec![0, u64::MAX]);

    let mut same = U32RadixHeap::new(15, 15).unwrap();
    for _ in 0..15 {
        same.try_push(15).unwrap();
    }
    assert_eq!(
        (0..15).map(|_| same.pop()).collect::<Vec<_>>(),
        vec![Some(15); 15]
    );

    let mut after_min = U64RadixHeap::new(0, 15).unwrap();
    after_min.try_push(0).unwrap();
    assert_eq!(after_min.pop(), Some(0));
    after_min.try_push(15).unwrap();
    assert_eq!(after_min.peek(), Some(&15));
}

#[test]
fn addressable_radix_heaps_cover_jheaps_regression_sequences() {
    exercise_addressable_heap(
        U32RadixAddressableHeap::new(15, 100).unwrap(),
        vec![15, 50, 21, 51, 30, 25, 18],
    );
    exercise_addressable_heap(
        U64RadixAddressableHeap::new(15, 100).unwrap(),
        vec![15, 50, 21, 51, 30, 25, 18],
    );

    let mut update = U64RadixAddressableHeap::new(0, u64::MAX).unwrap();
    for key in [0, 0, u64::MAX, u64::MAX, u64::MAX, u64::MAX] {
        update.try_insert(key, ()).unwrap();
    }
    assert_eq!(update.pop().map(|entry| entry.0), Some(0));
    assert_eq!(update.pop().map(|entry| entry.0), Some(0));
    assert_eq!(update.peek().map(|entry| entry.1), Some(&u64::MAX));
}

fn exercise_u32_addressable_handles() {
    let mut heap = U32RadixAddressableHeap::new(0, 100).unwrap();
    let mut foreign_heap = U32RadixAddressableHeap::new(0, 100).unwrap();
    let foreign = foreign_heap.try_insert(0_u32, 99).unwrap();
    let first = heap.try_insert(0_u32, 0).unwrap();
    let second = heap.try_insert(10_u32, 1).unwrap();

    assert_eq!(
        heap.decrease_key(second, 15_u32),
        Err(RadixDecreaseKeyError::NotDecreased)
    );
    heap.decrease_key(second, 5_u32).unwrap();
    *heap.value_mut(first).unwrap() = 42;
    assert_eq!(heap.value(first), Ok(&42));
    assert_eq!(heap.key(foreign), Err(InvalidHandle::ForeignHeap));
    assert_eq!(heap.value_mut(foreign), Err(InvalidHandle::ForeignHeap));

    assert_eq!(heap.pop(), Some((0_u32, 42)));
    assert_eq!(heap.key(first), Err(InvalidHandle::Stale));
    assert_eq!(heap.value_mut(first), Err(InvalidHandle::Stale));
    assert_eq!(heap.delete(second), Ok((5_u32, 1)));
    assert_eq!(heap.key(second), Err(InvalidHandle::Stale));

    heap.try_insert(20_u32, 2).unwrap();
    assert_eq!(heap.pop(), Some((20_u32, 2)));
    let live = heap.try_insert(30_u32, 3).unwrap();
    assert_eq!(
        heap.decrease_key(live, 15_u32),
        Err(RadixDecreaseKeyError::Radix(
            RadixHeapError::MonotonicityViolation
        ))
    );
    heap.clear();
    assert_eq!(heap.key(live), Err(InvalidHandle::Stale));
    assert_eq!(heap.value_mut(live), Err(InvalidHandle::Stale));
}

fn exercise_u64_addressable_handles() {
    let mut heap = U64RadixAddressableHeap::new(0, 100).unwrap();
    let mut foreign_heap = U64RadixAddressableHeap::new(0, 100).unwrap();
    let foreign = foreign_heap.try_insert(0_u64, 99).unwrap();
    let first = heap.try_insert(0_u64, 0).unwrap();
    let second = heap.try_insert(10_u64, 1).unwrap();

    assert_eq!(
        heap.decrease_key(second, 15_u64),
        Err(RadixDecreaseKeyError::NotDecreased)
    );
    heap.decrease_key(second, 5_u64).unwrap();
    *heap.value_mut(first).unwrap() = 42;
    assert_eq!(heap.value(first), Ok(&42));
    assert_eq!(heap.key(foreign), Err(InvalidHandle::ForeignHeap));
    assert_eq!(heap.value_mut(foreign), Err(InvalidHandle::ForeignHeap));

    assert_eq!(heap.pop(), Some((0_u64, 42)));
    assert_eq!(heap.key(first), Err(InvalidHandle::Stale));
    assert_eq!(heap.value_mut(first), Err(InvalidHandle::Stale));
    assert_eq!(heap.delete(second), Ok((5_u64, 1)));
    assert_eq!(heap.key(second), Err(InvalidHandle::Stale));

    heap.try_insert(20_u64, 2).unwrap();
    assert_eq!(heap.pop(), Some((20_u64, 2)));
    let live = heap.try_insert(30_u64, 3).unwrap();
    assert_eq!(
        heap.decrease_key(live, 15_u64),
        Err(RadixDecreaseKeyError::Radix(
            RadixHeapError::MonotonicityViolation
        ))
    );
    heap.clear();
    assert_eq!(heap.key(live), Err(InvalidHandle::Stale));
    assert_eq!(heap.value_mut(live), Err(InvalidHandle::Stale));
}

#[test]
fn addressable_heaps_validate_handles_and_monotone_key_updates() {
    exercise_u32_addressable_handles();
    exercise_u64_addressable_handles();
}

#[test]
fn heaps_report_range_and_monotonicity_errors() {
    assert!(matches!(
        U32RadixHeap::new(2, 1),
        Err(RadixHeapError::InvalidRange)
    ));
    let mut integer = U32RadixHeap::new(10, 20).unwrap();
    assert_eq!(integer.try_push(9), Err(RadixHeapError::KeyOutOfRange));
    integer.try_push(15).unwrap();
    assert_eq!(integer.pop(), Some(15));
    assert_eq!(integer.try_push(14), Err(RadixHeapError::MonotonicityViolation));
    assert_eq!(integer.try_push(21), Err(RadixHeapError::KeyOutOfRange));

    assert!(matches!(
        U64RadixHeap::new(2, 1),
        Err(RadixHeapError::InvalidRange)
    ));
    let mut long = U64RadixHeap::new(0, 20).unwrap();
    long.try_push(15).unwrap();
    assert_eq!(long.pop(), Some(15));
    assert_eq!(long.try_push(14), Err(RadixHeapError::MonotonicityViolation));
}

#[test]
fn common_heap_traits_remain_usable_for_valid_monotone_keys() {
    let mut values = U32RadixHeap::new(0, 10).unwrap();
    TryHeap::try_push(&mut values, 3).unwrap();
    assert_eq!(TryHeap::pop(&mut values), Some(3));

    let mut entries = U32RadixAddressableHeap::new(0, 10).unwrap();
    let handle = TryAddressableHeap::try_insert(&mut entries, 3, "entry").unwrap();
    assert_eq!(TryAddressableHeap::key(&entries, handle), Ok(&3));
    assert_eq!(TryAddressableHeap::pop(&mut entries), Some((3, "entry")));
}
