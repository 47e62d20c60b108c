//! Conformance checks for the reflected double-ended heap.

use std::cmp::Ordering;

use rheaps::tree::{ReflectedFibonacciHeap, ReflectedHandle};
use rheaps::{
    AddressableHeap, DecreaseKeyError, DecreaseKeyHeap, DoubleEndedAddressableHeap, DoubleEndedHeap, Heap,
    IncreaseKeyError, InvalidHandle, Reverse,
};

type ReverseKey = Reverse<i32>;

const STRESS_SIZE: i32 = 2_000;

struct Random(u64);

impl Random {
    fn next_i32(&mut self) -> i32 {
        self.0 = self
            .0
            .wrapping_mul(6_364_136_223_846_793_005)
            .wrapping_add(1);
        (self.0 >> 32) as i32
    }
}

fn exercise_heap<H>(make: impl Fn() -> H)
where
    H: Heap<i32>,
{
    let mut heap = make();
    assert!(heap.peek().is_none());
    assert!(heap.pop().is_none());
    for value in (0..STRESS_SIZE).rev() {
        heap.push(value);
    }
    for offset in 0..STRESS_SIZE {
        assert_eq!(heap.peek(), Some(&offset));
        assert_eq!(heap.pop(), Some(offset));
    }
    let mut random = Random(1);
    let mut heap = make();
    for _ in 0..STRESS_SIZE {
        heap.push(random.next_i32());
    }
    let mut previous = None;
    while let Some(value) = heap.pop() {
        if let Some(previous) = previous {
            assert!(previous <= value, "heap output was not ordered");
        }
        previous = Some(value);
    }
}

fn exercise_reverse_heap<H>(make: impl Fn() -> H)
where
    H: Heap<ReverseKey>,
{
    let mut heap = make();
    for value in 0..STRESS_SIZE {
        heap.push(Reverse(value));
    }
    for value in (0..STRESS_SIZE).rev() {
        assert_eq!(heap.pop(), Some(Reverse(value)));
    }
}

fn exercise_addressable_heap<H>(make: impl Fn() -> H)
where
    H: AddressableHeap<i32, usize> + DecreaseKeyHeap<i32, usize>,
    H::Handle: Copy + Eq + std::fmt::Debug,
{
    let mut heap = make();
    assert!(heap.peek().is_none());
    let first = heap.insert(5, 0);
    let second = heap.insert(3, 1);
    let third = heap.insert(8, 2);
    assert_eq!(heap.key(first), Ok(&5));
    assert_eq!(heap.value(second), Ok(&1));
    assert_eq!(heap.decrease_key(third, 9), Err(DecreaseKeyError::NotDecreased));
    heap.decrease_key(third, 1).unwrap();
    assert_eq!(heap.peek().map(|(h, k, v)| (h, *k, *v)), Some((third, 1, 2)));
    *heap.value_mut(first).unwrap() = 10;
    assert_eq!(heap.delete(first), Ok((5, 10)));
    assert_eq!(heap.key(first), Err(InvalidHandle::Stale));
    assert_eq!(heap.delete(first), Err(InvalidHandle::Stale));
    let mut foreign = make();
    let foreign_handle = foreign.insert(1, 1);
    assert_eq!(heap.key(foreign_handle), Err(InvalidHandle::ForeignHeap));
    assert_eq!(
        heap.decrease_key(foreign_handle, 0),
        Err(DecreaseKeyError::InvalidHandle(InvalidHandle::ForeignHeap))
    );
    assert_eq!(heap.pop(), Some((1, 2)));
    assert_eq!(heap.pop(), Some((3, 1)));
    assert_eq!(heap.pop(), None);
    let kept = heap.insert(4, 4);
    heap.clear();
    assert!(heap.is_empty());
    assert_eq!(heap.key(kept), Err(InvalidHandle::Stale));
}

fn exercise_addressable_random_operations<H>(make: impl Fn() -> H)
where
    H: AddressableHeap<i32, usize> + DecreaseKeyHeap<i32, usize>,
    H::Handle: Copy + Eq,
{
    let mut heap = make();
    let mut random = Random(3);
    let mut entries = Vec::<Option<(i32, H::Handle)>>::new();
    for value in 0..STRESS_SIZE as usize {
        let key = random.next_i32();
        entries.push(Some((key, heap.insert(key, value))));
    }
    for _ in 0..STRESS_SIZE {
        let index = (random.next_i32() as u32 as usize) % entries.len();
        if let Some((key, handle)) = entries[index] {
            match random.next_i32() & 3 {
                0 | 1 => {
                    let next = key.saturating_sub((random.next_i32() as u32 & 255) as i32);
                    heap.decrease_key(handle, next).unwrap();
                    entries[index] = Some((next, handle));
                }
                2 => {
                    assert_eq!(heap.delete(handle), Ok((key, index)));
                    entries[index] = None;
                }
                _ => {
                    let expected = expected_extreme(&entries, false).unwrap();
                    let (popped, value) = heap.pop().unwrap();
                    assert_eq!(popped, expected);
                    entries[value] = None;
                }
            }
        }
    }
    while let Some((key, value)) = heap.pop() {
        assert_eq!(Some(key), expected_extreme(&entries, false));
        entries[value] = None;
    }
    assert!(entries.iter().all(Option::is_none));
}

fn exercise_reverse_double_ended_addressable_heap<H>(make: impl Fn() -> H)
where
    H: AddressableHeap<ReverseKey, usize>
        + DoubleEndedAddressableHeap<ReverseKey, usize>
        + DecreaseKeyHeap<ReverseKey, usize>,
    H::Handle: Copy + Eq,
{
    let mut heap = make();
    let first = heap.insert(Reverse(3), 0);
    let second = heap.insert(Reverse(1), 1);
    let third = heap.insert(Reverse(5), 2);
    assert_eq!(heap.peek().map(|(_, key, _)| key.0), Some(5));
    assert_eq!(heap.peek_max().map(|(_, key, _)| key.0), Some(1));
    heap.decrease_key(first, Reverse(6)).unwrap();
    heap.increase_key(second, Reverse(0)).unwrap();
    assert_eq!(
        heap.increase_key(third, Reverse(6)),
        Err(IncreaseKeyError::NotIncreased)
    );
    assert_eq!(
        heap.decrease_key(third, Reverse(4)),
        Err(DecreaseKeyError::NotDecreased)
    );
    assert_eq!(heap.delete(first), Ok((Reverse(6), 0)));

    let mut entries = vec![None, Some((0, second)), Some((5, third))];
    let mut random = Random(9);
    for value in 3..STRESS_SIZE as usize {
        let key = random.next_i32();
        entries.push(Some((key, heap.insert(Reverse(key), value))));
    }
    for _ in 0..STRESS_SIZE {
        let index = (random.next_i32() as u32 as usize) % entries.len();
        if let Some((key, handle)) = entries[index] {
            match random.next_i32() & 3 {
                0 => {
                    let next = key.saturating_add((random.next_i32() as u32 & 255) as i32);
                    heap.decrease_key(handle, Reverse(next)).unwrap();
                    entries[index] = Some((next, handle));
                }
                1 => {
                    let next = key.saturating_sub((random.next_i32() as u32 & 255) as i32);
                    heap.increase_key(handle, Reverse(next)).unwrap();
                    entries[index] = Some((next, handle));
                }
                2 => {
                    let expected = entries
                        .iter()
                        .filter_map(|entry| entry.map(|e| e.0))
                        .max()
                        .unwrap();
                    let (Reverse(key), value) = heap.pop().unwrap();
                    assert_eq!(key, expected);
                    entries[value] = None;
                }
                _ => {
                    let expected = entries
                        .iter()
                        .filter_map(|entry| entry.map(|e| e.0))
                        .min()
                        .unwrap();
                    let (Reverse(key), value) = heap.pop_max().unwrap();
                    assert_eq!(key, expected);
                    entries[value] = None;
                }
            }
        }
    }
    while let Some((Reverse(key), value)) = heap.pop() {
        let expected = entries
            .iter()
            .filter_map(|entry| entry.map(|e| e.0))
            .max()
            .unwrap();
        assert_eq!(key, expected);
        entries[value] = None;
    }
    assert!(entries.iter().all(Option::is_none));
}

fn exercise_double_ended_addressable_heap<H>(make: impl Fn() -> H)
where
    H: AddressableHeap<i32, usize>
        + DoubleEndedAddressableHeap<i32, usize>
        + DecreaseKeyHeap<i32, usize>,
    H::Handle: Copy + Eq,
{
    let mut heap = make();
    assert!(heap.peek().is_none());
    assert!(heap.peek_max().is_none());
    assert!(heap.pop().is_none());
    assert!(heap.pop_max().is_none());

    let first = heap.insert(3, 0);
    let second = heap.insert(1, 1);
    let third = heap.insert(5, 2);
    assert_eq!(heap.peek().map(|(_, key, _)| *key), Some(1));
    assert_eq!(heap.peek_max().map(|(_, key, _)| *key), Some(5));
    let decreased = 0;
    heap.decrease_key(first, decreased).unwrap();
    let increased = 7;
    heap.increase_key(second, increased).unwrap();
    assert_eq!(
        heap.increase_key(third, 4),
        Err(IncreaseKeyError::NotIncreased)
    );
    assert_eq!(
        heap.decrease_key(third, 6),
        Err(DecreaseKeyError::NotDecreased)
    );
    assert_eq!(heap.delete(first), Ok((decreased, 0)));
    assert_eq!(heap.key(first), Err(InvalidHandle::Stale));

    let mut foreign = make();
    let foreign_handle = foreign.insert(10, 10);
    assert_eq!(
        heap.increase_key(foreign_handle, 11),
        Err(IncreaseKeyError::InvalidHandle(InvalidHandle::ForeignHeap))
    );

    let mut entries = vec![None, Some((increased, second)), Some((5, third))];
    let mut random = Random(9);
    for value in 3..STRESS_SIZE as usize {
        let key = random.next_i32();
        entries.push(Some((key, heap.insert(key, value))));
    }

    for _ in 0..STRESS_SIZE {
        let index = (random.next_i32() as u32 as usize) % entries.len();
        if let Some((key, handle)) = entries[index] {
            match random.next_i32() & 3 {
                0 => {
                    let next = key.saturating_sub((random.next_i32() as u32 & 255) as i32);
                    heap.decrease_key(handle, next).unwrap();
                    entries[index] = Some((next, handle));
                }
                1 => {
                    let next = key.saturating_add((random.next_i32() as u32 & 255) as i32);
                    heap.increase_key(handle, next).unwrap();
                    entries[index] = Some((next, handle));
                }
                2 => {
                    let expected = expected_extreme(&entries, false).unwrap();
                    let (popped, value) = heap.pop().unwrap();
                    assert_eq!(popped, expected);
                    assert_eq!(entries[value].map(|(entry, _)| entry), Some(popped));
                    entries[value] = None;
                }
                _ => {
                    let expected = expected_extreme(&entries, true).unwrap();
                    let (popped, value) = heap.pop_max().unwrap();
                    assert_eq!(popped, expected);
                    assert_eq!(entries[value].map(|(entry, _)| entry), Some(popped));
                    entries[value] = None;
                }
            }
        }
    }

    while !heap.is_empty() {
        let expected = expected_extreme(&entries, false).unwrap();
        let (key, value) = heap.pop().unwrap();
        assert_eq!(key, expected);
        entries[value] = None;
    }
    assert!(entries.iter().all(Option::is_none));
}

fn expected_extreme(entries: &[Option<(i32, impl Copy)>], maximum: bool) -> Option<i32> {
    entries
        .iter()
        .filter_map(|entry| entry.as_ref().map(|(key, _)| *key))
        .reduce(|left, right| {
            let order = left.cmp(&right);
            if (maximum && order == Ordering::Less) || (!maximum && order == Ordering::Greater) {
                right
            } else {
                left
            }
        })
}

#[test]
fn reflected_fibonacci_heap_follows_common_heap_conformance() {
    exercise_heap(ReflectedFibonacciHeap::<i32>::new);
}

#[test]
fn alternate_ord_keys_preserve_reflected_fibonacci_heap_ordering() {
    exercise_reverse_heap(ReflectedFibonacciHeap::<ReverseKey>::new);
}

#[test]
fn reflected_fibonacci_heap_enforces_handle_rules() {
    exercise_addressable_heap(ReflectedFibonacciHeap::<i32, usize>::new);
    exercise_addressable_random_operations(ReflectedFibonacciHeap::<i32, usize>::new);
}

#[test]
fn alternate_ord_keys_preserve_reflected_fibonacci_heap_handle_ordering() {
    exercise_reverse_double_ended_addressable_heap(ReflectedFibonacciHeap::<ReverseKey, usize>::new);
}

#[test]
fn reflected_fibonacci_heap_maintains_both_extrema_through_key_changes() {
    exercise_double_ended_addressable_heap(ReflectedFibonacciHeap::<i32, usize>::new);

    let mut heap = ReflectedFibonacciHeap::<i32>::new();
    Heap::push(&mut heap, 3);
    Heap::push(&mut heap, 1);
    Heap::push(&mut heap, 5);
    assert_eq!(DoubleEndedHeap::peek_max(&heap), Some(&5));
    assert_eq!(DoubleEndedHeap::pop_max(&mut heap), Some(5));
    assert_eq!(Heap::pop(&mut heap), Some(1));
}

#[test]
fn reflected_fibonacci_heap_applies_ord_to_both_extrema() {
    exercise_reverse_double_ended_addressable_heap(ReflectedFibonacciHeap::<ReverseKey, usize>::new);
    let mut fibonacci = ReflectedFibonacciHeap::<ReverseKey>::new();
    Heap::push(&mut fibonacci, Reverse(3));
    Heap::push(&mut fibonacci, Reverse(1));
    Heap::push(&mut fibonacci, Reverse(5));
    assert_eq!(Heap::peek(&fibonacci), Some(&Reverse(5)));
    assert_eq!(DoubleEndedHeap::peek_max(&fibonacci), Some(&Reverse(1)));
}

#[test]
fn reflected_heap_handles_differ_after_reuse() {
    let mut heap = ReflectedFibonacciHeap::<i32, usize>::new();
    let first: ReflectedHandle = heap.insert(50, 1);
    assert_eq!(heap.pop_entry(), Some((50, 1)));
    let second = heap.insert(10, 20);
    assert_ne!(first, second);
    assert_eq!(heap.key(first), Err(InvalidHandle::Stale));
    assert_eq!(heap.key(second), Ok(&10));
    assert_eq!(heap.len(), 1);
}

#[test]
fn reflected_heap_pops_from_both_ends() {
    let mut heap = ReflectedFibonacciHeap::<i32, usize>::new();
    for (index, key) in [7, 2, 9, 4, 4, 1].into_iter().enumerate() {
        heap.insert(key, index);
    }
    assert_eq!(heap.pop_max_entry(), Some((9, 2)));
    assert_eq!(heap.pop_entry(), Some((1, 5)));
    assert_eq!(heap.peek_max_entry().map(|(_, k, _)| *k), Some(7));
    assert_eq!(heap.peek_entry().map(|(_, k, _)| *k), Some(2));
    assert_eq!(heap.len(), 4);
}
