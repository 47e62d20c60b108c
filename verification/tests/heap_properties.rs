//! Concrete checks of the properties that relate several heap operations.

use rheaps::array::{BinaryArrayHeap, BinaryArrayWeakHeap, DaryArrayHeap, MinMaxBinaryArrayDoubleEndedHeap};
use rheaps::array::BinaryArrayAddressableHeap;
use rheaps::monotone::{RadixDecreaseKeyError, RadixHeapError, U32RadixAddressableHeap};
use rheaps::tree::{
    BinaryTreeAddressableHeap, CostlessMeldPairingHeap, DaryTreeAddressableHeap, FibonacciHeap, InvalidBranchingFactor, MeldError, PurePairingHeap, SimpleFibonacciHeap,
    SkewHeap,
};
use rheaps::{DecreaseKeyError, Heap, IncreaseKeyError, InvalidHandle, MeldableHeap};

fn drain_heap<H: Heap<i32>>(heap: &mut H) -> Vec<i32> {
    let mut out = Vec::new();
    while let Some(value) = heap.pop() {
        out.push(value);
    }
    out
}

#[test]
fn pops_come_in_nondecreasing_order() {
    let input = [5, 3, 8, 1, 9, 2, 8, -4];
    let expected = vec![-4, 1, 2, 3, 5, 8, 8, 9];

    let mut binary = BinaryArrayHeap::<i32>::new();
    let mut dary = DaryArrayHeap::<i32>::new(3).unwrap();
    let mut weak = BinaryArrayWeakHeap::<i32>::new();
    let mut min_max = MinMaxBinaryArrayDoubleEndedHeap::<i32>::new();
    for value in input {
        Heap::push(&mut binary, value);
        Heap::push(&mut dary, value);
        Heap::push(&mut weak, value);
        Heap::push(&mut min_max, value);
    }
    assert_eq!(drain_heap(&mut binary), expected);
    assert_eq!(drain_heap(&mut dary), expected);
    assert_eq!(drain_heap(&mut weak), expected);
    assert_eq!(drain_heap(&mut min_max), expected);
}

#[test]
fn peek_after_push_shows_the_least_value() {
    let mut heap = BinaryArrayWeakHeap::<i32>::new();
    Heap::push(&mut heap, 7);
    assert_eq!(Heap::peek(&heap), Some(&7));
    Heap::push(&mut heap, 9);
    assert_eq!(Heap::peek(&heap), Some(&7));
    Heap::push(&mut heap, 2);
    assert_eq!(Heap::peek(&heap), Some(&2));
    assert_eq!(Heap::len(&heap), 3);
}

#[test]
fn min_max_heap_extrema_bracket_every_value() {
    let mut heap = MinMaxBinaryArrayDoubleEndedHeap::<i32>::new();
    for value in [4, 10, -3, 7, 7, 0, 12, 5] {
        heap.push(value);
        let low = *heap.peek().unwrap();
        let high = *heap.peek_max().unwrap();
        assert!(low <= value && value <= high);
    }
    assert_eq!(heap.peek(), Some(&-3));
    assert_eq!(heap.peek_max(), Some(&12));
    assert_eq!(heap.pop_max(), Some(12));
    assert_eq!(heap.pop(), Some(-3));
    assert_eq!(heap.peek_max(), Some(&10));
    assert_eq!(heap.peek(), Some(&0));
}

#[test]
fn removed_handle_reports_stale_everywhere() {
    let mut heap = PurePairingHeap::<i32, &str>::new();
    let kept = heap.insert(3, "kept");
    let removed = heap.insert(5, "removed");
    assert_eq!(heap.delete(removed), Ok((5, "removed")));
    assert_eq!(heap.key(removed), Err(InvalidHandle::Stale));
    assert_eq!(heap.value(removed), Err(InvalidHandle::Stale));
    assert_eq!(heap.delete(removed), Err(InvalidHandle::Stale));
    assert_eq!(
        heap.decrease_key(removed, 1),
        Err(DecreaseKeyError::InvalidHandle(InvalidHandle::Stale))
    );
    assert_eq!(heap.key(kept), Ok(&3));
}

#[test]
fn cleared_handles_are_stale_and_others_foreign() {
    let mut heap = SkewHeap::<i32, i32>::new();
    let first = heap.insert(1, 10);
    let second = heap.insert(2, 20);
    let mut other = SkewHeap::<i32, i32>::new();
    let foreign = other.insert(1, 1);
    heap.clear();
    assert!(heap.is_empty());
    assert_eq!(heap.key(first), Err(InvalidHandle::Stale));
    assert_eq!(heap.value(second), Err(InvalidHandle::Stale));
    assert_eq!(heap.key(foreign), Err(InvalidHandle::ForeignHeap));
}

#[test]
fn meld_keeps_donor_entries_under_their_handles() {
    let mut receiver = SimpleFibonacciHeap::<i32, i32>::new();
    let mut donor = SimpleFibonacciHeap::<i32, i32>::new();
    let own = receiver.insert(4, 40);
    let moved = donor.insert(6, 60);
    receiver.meld(&mut donor).unwrap();
    assert_eq!(receiver.key(moved), Ok(&6));
    assert_eq!(receiver.value(moved), Ok(&60));
    assert_eq!(receiver.key(own), Ok(&4));
    assert_eq!(receiver.len(), 2);
    assert_eq!(donor.try_insert(1, 1), Err(MeldError::ReceiverConsumed));
    let mut fresh = SimpleFibonacciHeap::<i32, i32>::new();
    assert_eq!(fresh.meld(&mut donor), Err(MeldError::DonorConsumed));
}

#[test]
fn decrease_key_bounds_the_minimum() {
    let mut heap = FibonacciHeap::<i32, i32>::new();
    let handles = (0..20).map(|key| heap.insert(key * 3, key)).collect::<Vec<_>>();
    assert_eq!(heap.pop_entry(), Some((0, 0)));
    heap.decrease_key(handles[11], 2).unwrap();
    assert!(*heap.peek_entry().unwrap().1 <= 2);
    assert_eq!(heap.peek_entry().map(|(_, key, _)| *key), Some(2));
    heap.decrease_key(handles[17], -5).unwrap();
    assert_eq!(heap.peek_entry().map(|(_, key, value)| (*key, *value)), Some((-5, 17)));
    assert_eq!(
        heap.decrease_key(handles[17], 0),
        Err(DecreaseKeyError::NotDecreased)
    );
}

#[test]
fn fibonacci_heap_delete_inner_node_keeps_order() {
    let mut heap = FibonacciHeap::<i32, i32>::new();
    let handles = (0..32).map(|key| heap.insert(key, key)).collect::<Vec<_>>();
    assert_eq!(heap.pop_entry(), Some((0, 0)));
    for index in [5, 9, 2, 30, 17] {
        assert_eq!(heap.delete(handles[index]), Ok((index as i32, index as i32)));
    }
    let mut drained = Vec::new();
    while let Some((key, _)) = heap.pop_entry() {
        drained.push(key);
    }
    let expected = (1..32)
        .filter(|key| ![5, 9, 2, 30, 17].contains(key))
        .collect::<Vec<_>>();
    assert_eq!(drained, expected);
}

#[test]
fn simple_fibonacci_heap_cascading_cuts_keep_order() {
    let mut heap = SimpleFibonacciHeap::<i32, i32>::new();
    let handles = (0..64).map(|key| heap.insert(key + 100, key)).collect::<Vec<_>>();
    assert_eq!(heap.pop_entry(), Some((100, 0)));
    for (offset, index) in [40, 41, 42, 50, 60, 3].iter().enumerate() {
        heap.decrease_key(handles[*index], offset as i32).unwrap();
    }
    let mut drained = Vec::new();
    while let Some((key, value)) = heap.pop_entry() {
        drained.push((key, value));
    }
    assert_eq!(drained.len(), 63);
    assert_eq!(&drained[..6], &[(0, 40), (1, 41), (2, 42), (3, 50), (4, 60), (5, 3)]);
    assert!(drained.windows(2).all(|pair| pair[0].0 <= pair[1].0));
}

#[test]
fn error_messages_describe_each_error() {
    assert_eq!(InvalidHandle::ForeignHeap.message(), "handle belongs to another heap");
    assert_eq!(
        DecreaseKeyError::InvalidHandle(InvalidHandle::Stale).message(),
        "handle no longer identifies a live entry"
    );
    assert_eq!(
        DecreaseKeyError::NotDecreased.message(),
        "new key must not be greater than the old key"
    );
    assert_eq!(
        IncreaseKeyError::NotIncreased.message(),
        "new key must not be less than the old key"
    );
    assert_eq!(MeldError::ReceiverConsumed.message(), "a meld donor cannot be reused");
    assert_eq!(
        RadixDecreaseKeyError::Radix(RadixHeapError::KeyOutOfRange).message(),
        "key is outside the heap's configured range"
    );
    assert_eq!(
        InvalidBranchingFactor(3).message(),
        "branching factor must be a power of two and at least two"
    );
}

fn exercise_meldable_value_heap<H>(make: impl Fn() -> H)
where
    H: Heap<i32> + MeldableHeap<i32>,
    H::MeldError: std::fmt::Debug,
{
    let mut first = make();
    let mut second = make();
    for value in [9, 4, 7] {
        Heap::push(&mut first, value);
    }
    for value in [8, 1, 6] {
        Heap::push(&mut second, value);
    }
    assert_eq!(Heap::peek(&first), Some(&4));
    MeldableHeap::meld(&mut first, &mut second).unwrap();
    assert_eq!(Heap::len(&first), 6);
    assert_eq!(Heap::len(&second), 0);
    assert!(MeldableHeap::meld(&mut first, &mut second).is_err());
    assert_eq!(drain_heap(&mut first), vec![1, 4, 6, 7, 8, 9]);
    Heap::push(&mut first, 3);
    Heap::clear(&mut first);
    assert_eq!(Heap::pop(&mut first), None);
}

#[test]
fn value_less_tree_heaps_meld_through_the_plain_heap_traits() {
    exercise_meldable_value_heap(SkewHeap::<i32, ()>::new);
    exercise_meldable_value_heap(PurePairingHeap::<i32, ()>::new);
    exercise_meldable_value_heap(CostlessMeldPairingHeap::<i32, ()>::new);
    exercise_meldable_value_heap(FibonacciHeap::<i32, ()>::new);
    exercise_meldable_value_heap(SimpleFibonacciHeap::<i32, ()>::new);
}

fn exercise_plain_heap<H: Heap<i32>>(mut heap: H) {
    for value in [5, -2, 9, 5, 0] {
        Heap::push(&mut heap, value);
    }
    assert_eq!(Heap::len(&heap), 5);
    assert_eq!(Heap::peek(&heap), Some(&-2));
    assert_eq!(drain_heap(&mut heap), vec![-2, 0, 5, 5, 9]);
    Heap::push(&mut heap, 1);
    Heap::clear(&mut heap);
    assert!(Heap::is_empty(&heap));
}

#[test]
fn value_less_explicit_tree_heaps_serve_as_plain_heaps() {
    exercise_plain_heap(BinaryTreeAddressableHeap::<i32, ()>::new());
    exercise_plain_heap(DaryTreeAddressableHeap::<i32, ()>::new(4).unwrap());
}

#[test]
fn radix_delete_of_the_minimum_acts_as_pop() {
    let mut heap = U32RadixAddressableHeap::new(0, 100).unwrap();
    let a = heap.try_insert(10, 0).unwrap();
    let b = heap.try_insert(20, 1).unwrap();
    assert_eq!(heap.delete(b), Ok((20, 1)));
    assert_eq!(heap.key(b), Err(InvalidHandle::Stale));
    assert_eq!(heap.last_deleted_key(), &0);
    assert_eq!(heap.delete(a), Ok((10, 0)));
    assert_eq!(heap.last_deleted_key(), &10);
    assert_eq!(heap.try_insert(5, 2), Err(RadixHeapError::MonotonicityViolation));
}

#[test]
fn array_handles_are_not_handed_out_again() {
    let mut heap = BinaryArrayAddressableHeap::<i32, i32>::new();
    let first = heap.push(50, 1);
    assert_eq!(heap.pop(), Some((50, 1)));
    let second = heap.push(10, 20);
    assert_ne!(first, second);
    assert_eq!(
        heap.decrease_key(first, 0),
        Err(DecreaseKeyError::InvalidHandle(InvalidHandle::Stale))
    );
    heap.clear();
    let third = heap.push(10, 30);
    assert_ne!(third, second);
    assert_eq!(heap.value(second), Err(InvalidHandle::Stale));
    assert_eq!(heap.value(third), Ok(&30));
}

#[test]
fn bulk_weak_heap_into_vec_starts_with_minimum() {
    let mut heap = rheaps::array::BinaryArrayBulkInsertWeakHeap::new();
    for value in [1, 6, 5, 3] {
        heap.push(value);
    }
    let values = heap.into_vec();
    assert_eq!(values.len(), 4);
    assert_eq!(values[0], 1);
    let mut sorted = values.clone();
    sorted.sort();
    assert_eq!(sorted, vec![1, 3, 5, 6]);
}

#[test]
fn bulk_weak_heap_pops_buffered_minimum() {
    let mut heap = rheaps::array::BinaryArrayBulkInsertWeakHeap::new();
    heap.push(4);
    heap.push(1);
    heap.push(3);
    assert_eq!(heap.pop(), Some(1));
    assert_eq!(heap.len(), 2);
    assert_eq!(heap.peek(), Some(&3));
    assert_eq!(heap.pop(), Some(3));
    assert_eq!(heap.pop(), Some(4));
    assert_eq!(heap.pop(), None);
}

#[test]
fn bulk_weak_heap_random_operations_pop_minimum() {
    let mut heap = rheaps::array::BinaryArrayBulkInsertWeakHeap::new();
    let mut model: Vec<u64> = Vec::new();
    let mut state: u64 = 145;
    for _ in 0..3000 {
        state = state.wrapping_mul(6364136223846793005).wrapping_add(1442695040888963407);
        let r = state >> 33;
        if r % 3 == 0 {
            let expected = model.iter().copied().min();
            if let Some(least) = expected {
                let position = model.iter().position(|v| *v == least).unwrap();
                model.swap_remove(position);
            }
            assert_eq!(heap.peek().copied(), expected);
            assert_eq!(heap.pop(), expected);
        } else {
            let value = r % 1000;
            heap.push(value);
            model.push(value);
        }
        assert_eq!(heap.len(), model.len());
    }
}
