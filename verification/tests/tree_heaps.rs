//! Conformance checks for the tree-based heaps.

use std::fmt::Debug;

use rheaps::tree::{
    BinaryTreeAddressableHeap, CostlessMeldPairingHeap, DaryTreeAddressableHeap, FibonacciHeap, MeldError,
    PurePairingHeap, SimpleFibonacciHeap, SkewHeap,
};
use rheaps::{
    AddressableHeap, DecreaseKeyError, DecreaseKeyHeap, HeapKey, InvalidHandle, MeldableAddressableHeap, Reverse,
};

type ReverseKey = Reverse<i32>;

const STRESS_SIZE: i32 = 2_000;

struct Random(u64);

impl Random {
    fn next_i32(&mut self) -> i32 {
        self.0 = self
            .0
            .wrapping_mul(6_364_136_223_846_793_005)
            .wrapping_add(1);
        (self.0 >> 32) as i32
    }
}

/// The value-less min-heap operations that the conformance checks use.
trait MinHeapOps<T> {
    fn push(&mut self, value: T);
    fn peek(&self) -> Option<&T>;
    fn pop(&mut self) -> Option<T>;
}

impl<T: HeapKey> MinHeapOps<T> for SkewHeap<T, ()> {
    fn push(&mut self, value: T) {
        SkewHeap::push(self, value)
    }

    fn peek(&self) -> Option<&T> {
        SkewHeap::peek(self)
    }

    fn pop(&mut self) -> Option<T> {
        SkewHeap::pop(self)
    }
}

impl<T: HeapKey> MinHeapOps<T> for PurePairingHeap<T, ()> {
    fn push(&mut self, value: T) {
        PurePairingHeap::push(self, value)
    }

    fn peek(&self) -> Option<&T> {
        PurePairingHeap::peek(self)
    }

    fn pop(&mut self) -> Option<T> {
        PurePairingHeap::pop(self)
    }
}

impl<T: HeapKey> MinHeapOps<T> for CostlessMeldPairingHeap<T, ()> {
    fn push(&mut self, value: T) {
        CostlessMeldPairingHeap::push(self, value)
    }

    fn peek(&self) -> Option<&T> {
        CostlessMeldPairingHeap::peek(self)
    }

    fn pop(&mut self) -> Option<T> {
        CostlessMeldPairingHeap::pop(self)
    }
}

impl<T: HeapKey> MinHeapOps<T> for SimpleFibonacciHeap<T, ()> {
    fn push(&mut self, value: T) {
        SimpleFibonacciHeap::push(self, value)
    }

    fn peek(&self) -> Option<&T> {
        SimpleFibonacciHeap::peek(self)
    }

    fn pop(&mut self) -> Option<T> {
        SimpleFibonacciHeap::pop(self)
    }
}

impl<T: HeapKey> MinHeapOps<T> for FibonacciHeap<T, ()> {
    fn push(&mut self, value: T) {
        FibonacciHeap::push(self, value)
    }

    fn peek(&self) -> Option<&T> {
        FibonacciHeap::peek(self)
    }

    fn pop(&mut self) -> Option<T> {
        FibonacciHeap::pop(self)
    }
}

impl<T: HeapKey> MinHeapOps<T> for BinaryTreeAddressableHeap<T, ()> {
    fn push(&mut self, value: T) {
        AddressableHeap::insert(self, value, ());
    }

    fn peek(&self) -> Option<&T> {
        AddressableHeap::peek(self).map(|(_, key, _)| key)
    }

    fn pop(&mut self) -> Option<T> {
        AddressableHeap::pop(self).map(|(key, _)| key)
    }
}

impl<T: HeapKey> MinHeapOps<T> for DaryTreeAddressableHeap<T, ()> {
    fn push(&mut self, value: T) {
        AddressableHeap::insert(self, value, ());
    }

    fn peek(&self) -> Option<&T> {
        AddressableHeap::peek(self).map(|(_, key, _)| key)
    }

    fn pop(&mut self) -> Option<T> {
        AddressableHeap::pop(self).map(|(key, _)| key)
    }
}

fn exercise_heap<H>(make: impl Fn() -> H)
where
    H: MinHeapOps<i32>,
{
    let mut heap = make();
    assert!(heap.peek().is_none());
    assert!(heap.pop().is_none());
    for value in (0..STRESS_SIZE).rev() {
        heap.push(value);
    }
    for offset in 0..STRESS_SIZE {
        let expected = offset;
        assert_eq!(heap.peek(), Some(&expected));
        assert_eq!(heap.pop(), Some(expected));
    }

    let mut random = Random(1);
    let mut heap = make();
    for _ in 0..STRESS_SIZE {
        heap.push(random.next_i32());
    }
    let mut previous = None;
    while let Some(value) = heap.pop() {
        if let Some(previous) = previous {
            assert!(previous <= value, "tree heap output was not ordered");
        }
        previous = Some(value);
    }
}

fn exercise_reverse_tree_heap<H>(make: impl Fn() -> H)
where
    H: MinHeapOps<ReverseKey>,
{
    let mut heap = make();
    for value in 0..STRESS_SIZE {
        heap.push(Reverse(value));
    }
    for expected in (0..STRESS_SIZE).rev() {
        assert_eq!(heap.peek(), Some(&Reverse(expected)));
        assert_eq!(heap.pop(), Some(Reverse(expected)));
    }

    let mut random = Random(1);
    let values = (0..STRESS_SIZE)
        .map(|_| random.next_i32())
        .collect::<Vec<_>>();
    let mut expected = values.clone();
    expected.sort_unstable_by(|left, right| right.cmp(left));
    let mut heap = make();
    for value in values {
        heap.push(Reverse(value));
    }
    for value in expected {
        assert_eq!(heap.pop(), Some(Reverse(value)));
    }
}

fn exercise_meld<H>(make: impl Fn() -> H)
where
    H: AddressableHeap<i32, usize> + DecreaseKeyHeap<i32, usize> + MeldableAddressableHeap<i32, usize>,
    H::Handle: Copy + Eq + Debug,
    H::MeldError: Debug,
{
    let mut first = make();
    let mut second = make();
    for value in 0..100 {
        first.insert(value * 2, value as usize);
    }
    let donor_handle = second.insert(201, 201);
    for value in 0..100 {
        second.insert(value * 2 + 1, value as usize);
    }
    first.meld(&mut second).unwrap();
    first.decrease_key(donor_handle, -1).unwrap();
    assert_eq!(first.peek().map(|(_, key, _)| *key), Some(-1));
    assert_eq!(first.delete(donor_handle), Ok((-1, 201)));
    assert_eq!(first.key(donor_handle), Err(InvalidHandle::Stale));
    let mut expected = 0;
    while let Some((key, _)) = first.pop() {
        assert!(expected <= key);
        expected = key;
    }

    let mut a = make();
    let mut b = make();
    let mut c = make();
    let handle = c.insert(10, 10);
    b.meld(&mut c).unwrap();
    a.meld(&mut b).unwrap();
    a.decrease_key(handle, 0).unwrap();
    assert_eq!(a.peek().map(|(_, key, _)| *key), Some(0));

    let mut empty_receiver = make();
    let mut empty_donor = make();
    empty_receiver.meld(&mut empty_donor).unwrap();
    assert!(empty_receiver.is_empty());

    for (receiver_len, donor_len) in [(100, 100), (101, 101), (101, 100)] {
        let mut receiver = make();
        let mut donor = make();
        for value in 0..receiver_len {
            receiver.insert(value * 2, value as usize);
        }
        for value in 0..donor_len {
            donor.insert(value * 2 + 1, value as usize);
        }
        receiver.meld(&mut donor).unwrap();
        let mut previous = None;
        let mut count = 0;
        while let Some((key, _)) = receiver.pop() {
            if let Some(previous) = previous {
                assert!(previous <= key);
            }
            previous = Some(key);
            count += 1;
        }
        assert_eq!(count, receiver_len + donor_len);
    }

    let mut reusable = make();
    let mut reusable_donor = make();
    reusable_donor.insert(1, 1);
    reusable.meld(&mut reusable_donor).unwrap();
    reusable.insert(0, 0);
    assert_eq!(reusable.pop(), Some((0, 0)));
    reusable.clear();
    reusable.insert(2, 2);
    assert_eq!(reusable.pop(), Some((2, 2)));
}

/// Checks what the forest invariants guarantee through the public
/// interface: the entry count and a least key at the top.
fn check_forest<H>(heap: &H, model: &[Option<i32>])
where
    H: AddressableHeap<i32, usize>,
{
    let live = model.iter().flatten().copied().collect::<Vec<_>>();
    assert_eq!(heap.len(), live.len());
    assert_eq!(heap.peek().map(|(_, key, _)| *key), live.iter().copied().min());
}

fn exercise_invariants<H>(make: impl Fn() -> H)
where
    H: AddressableHeap<i32, usize> + DecreaseKeyHeap<i32, usize> + MeldableAddressableHeap<i32, usize>,
    H::Handle: Copy + Eq + Debug,
    H::MeldError: Debug,
{
    let mut heap = make();
    let mut model = vec![None; 1_000];
    let handles = (0..128)
        .rev()
        .map(|key| {
            model[key as usize] = Some(key);
            heap.insert(key, key as usize)
        })
        .collect::<Vec<_>>();
    check_forest(&heap, &model);

    for index in (0..handles.len()).step_by(3) {
        let key = 127 - index;
        heap.decrease_key(handles[index], -1_000 - index as i32)
            .unwrap();
        model[key] = Some(-1_000 - index as i32);
        check_forest(&heap, &model);
    }
    for index in (1..handles.len()).step_by(4) {
        let key = 127 - index;
        heap.delete(handles[index]).unwrap();
        model[key] = None;
        check_forest(&heap, &model);
    }

    let mut donor = make();
    let donor_handle = donor.insert(-2_000, 999);
    heap.meld(&mut donor).unwrap();
    model[999] = Some(-2_000);
    check_forest(&heap, &model);
    heap.decrease_key(donor_handle, -3_000).unwrap();
    model[999] = Some(-3_000);
    check_forest(&heap, &model);

    let mut previous = None;
    while let Some((key, value)) = heap.pop() {
        if let Some(previous) = previous {
            assert!(previous <= key);
        }
        previous = Some(key);
        assert_eq!(model[value], Some(key));
        model[value] = None;
        check_forest(&heap, &model);
    }
}

fn exercise_reverse_tree_addressable_heap<H>(make: impl Fn() -> H)
where
    H: AddressableHeap<ReverseKey, usize> + DecreaseKeyHeap<ReverseKey, usize>,
    H::Handle: Copy + Eq,
{
    let mut heap = make();
    let handles = (0..256)
        .map(|key| heap.insert(Reverse(key), key as usize))
        .collect::<Vec<_>>();
    assert_eq!(heap.peek().map(|(_, key, _)| *key), Some(Reverse(255)));
    heap.decrease_key(handles[0], Reverse(256)).unwrap();
    assert_eq!(heap.pop(), Some((Reverse(256), 0)));
    assert_eq!(heap.key(handles[0]), Err(InvalidHandle::Stale));

    let mut previous = i32::MAX;
    while let Some((key, value)) = heap.pop() {
        assert_eq!(key.0 as usize, value);
        assert!(previous >= key.0);
        previous = key.0;
    }
    let stale = heap.insert(Reverse(1), 1);
    heap.clear();
    assert_eq!(heap.key(stale), Err(InvalidHandle::Stale));
}

fn exercise_reverse_addressable_random_operations<H>(make: impl Fn() -> H)
where
    H: AddressableHeap<ReverseKey, usize> + DecreaseKeyHeap<ReverseKey, usize>,
    H::Handle: Copy + Eq,
{
    let mut heap = make();
    let mut random = Random(3);
    let mut entries = Vec::<Option<(i32, H::Handle)>>::new();
    for value in 0..STRESS_SIZE as usize {
        let key = random.next_i32();
        entries.push(Some((key, heap.insert(Reverse(key), value))));
    }
    for _ in 0..STRESS_SIZE {
        let index = (random.next_i32() as u32 as usize) % entries.len();
        if let Some((key, handle)) = entries[index] {
            match random.next_i32() & 3 {
                0 => {
                    let next = key.saturating_add((random.next_i32() as u32 & 255) as i32);
                    heap.decrease_key(handle, Reverse(next)).unwrap();
                    entries[index] = Some((next, handle));
                }
                1 => {
                    assert_eq!(heap.delete(handle), Ok((Reverse(key), index)));
                    entries[index] = None;
                }
                _ => {
                    let (popped, value) = heap.pop().unwrap();
                    let expected = entries
                        .iter()
                        .filter_map(|entry| entry.map(|(key, _)| key))
                        .max()
                        .unwrap();
                    assert_eq!(popped, Reverse(expected));
                    assert_eq!(entries[value].map(|(key, _)| key), Some(expected));
                    entries[value] = None;
                }
            }
        }
    }
    let mut previous = i32::MAX;
    while let Some((Reverse(key), value)) = heap.pop() {
        assert_eq!(entries[value].map(|(expected, _)| expected), Some(key));
        entries[value] = None;
        assert!(previous >= key);
        previous = key;
    }
    assert!(entries.iter().all(Option::is_none));
}

fn exercise_addressable_heap<H>(make: impl Fn() -> H)
where
    H: AddressableHeap<i32, usize> + DecreaseKeyHeap<i32, usize>,
    H::Handle: Copy + Eq,
{
    let mut heap = make();
    assert!(heap.peek().is_none());
    assert!(heap.pop().is_none());

    let handles = (0..256)
        .map(|key| heap.insert(key, key as usize))
        .collect::<Vec<_>>();
    for key in [17, 5, 255, 0, 73, 109, 1, 200] {
        assert_eq!(heap.delete(handles[key]), Ok((key as i32, key)));
        assert_eq!(heap.key(handles[key]), Err(InvalidHandle::Stale));
    }

    let handle = heap.insert(1_000, 1_000);
    let decreased = -1;
    heap.decrease_key(handle, decreased).unwrap();
    assert_eq!(heap.key(handle), Ok(&decreased));
    let invalid = 2_000;
    assert_eq!(
        heap.decrease_key(handle, invalid),
        Err(DecreaseKeyError::NotDecreased)
    );
    *heap.value_mut(handle).unwrap() = 7;
    assert_eq!(heap.value(handle), Ok(&7));

    let mut previous = None;
    while let Some((key, _)) = heap.pop() {
        if let Some(previous) = previous {
            assert!(previous <= key);
        }
        previous = Some(key);
    }
    assert_eq!(heap.key(handle), Err(InvalidHandle::Stale));

    let stale = heap.insert(4, 4);
    heap.clear();
    assert_eq!(heap.key(stale), Err(InvalidHandle::Stale));
    assert_eq!(heap.pop(), None);
    let reused = heap.insert(3, 3);
    assert_eq!(heap.pop(), Some((3, 3)));
    assert_eq!(heap.key(reused), Err(InvalidHandle::Stale));

    let mut foreign = make();
    let foreign_handle = foreign.insert(5, 5);
    assert_eq!(heap.key(foreign_handle), Err(InvalidHandle::ForeignHeap));
    assert_eq!(
        heap.value_mut(foreign_handle),
        Err(InvalidHandle::ForeignHeap)
    );
    assert_eq!(
        heap.decrease_key(foreign_handle, 4),
        Err(DecreaseKeyError::InvalidHandle(InvalidHandle::ForeignHeap))
    );
}

fn exercise_addressable_random_operations<H>(make: impl Fn() -> H)
where
    H: AddressableHeap<i32, usize> + DecreaseKeyHeap<i32, usize>,
    H::Handle: Copy + Eq,
{
    let mut heap = make();
    let mut random = Random(3);
    let mut entries = Vec::<Option<(i32, H::Handle)>>::new();

    for value in 0..STRESS_SIZE as usize {
        let key = random.next_i32();
        entries.push(Some((key, heap.insert(key, value))));
    }

    for _ in 0..STRESS_SIZE {
        let index = (random.next_i32() as u32 as usize) % entries.len();
        if let Some((key, handle)) = entries[index] {
            match random.next_i32() & 3 {
                0 => {
                    let next = key.saturating_sub((random.next_i32() as u32 & 255) as i32);
                    heap.decrease_key(handle, next).unwrap();
                    entries[index] = Some((next, handle));
                }
                1 => {
                    assert_eq!(heap.delete(handle), Ok((key, index)));
                    entries[index] = None;
                }
                _ => {
                    let (popped_key, value) = heap.pop().unwrap();
                    let expected = entries
                        .iter()
                        .filter_map(|entry| entry.map(|(key, _)| key))
                        .min()
                        .unwrap();
                    assert_eq!(popped_key, expected);
                    assert_eq!(entries[value].map(|(key, _)| key), Some(popped_key));
                    entries[value] = None;
                }
            }
        }
    }

    let mut previous = None;
    while let Some((key, value)) = heap.pop() {
        assert_eq!(entries[value].map(|(expected, _)| expected), Some(key));
        entries[value] = None;
        if let Some(previous) = previous {
            assert!(previous <= key);
        }
        previous = Some(key);
    }
    assert!(entries.iter().all(Option::is_none));
}

fn exercise_binary_addressable_heap<H>(make: impl Fn() -> H + Copy)
where
    H: AddressableHeap<i32, usize> + DecreaseKeyHeap<i32, usize>,
    H::Handle: Copy + Eq,
{
    exercise_addressable_heap(make);
    let mut random = Random(2);
    let mut heap = make();
    let mut keys = Vec::new();
    let mut handles = Vec::new();
    for value in 0..STRESS_SIZE {
        let key = random.next_i32();
        keys.push(key);
        handles.push(heap.insert(key, value as usize));
    }
    for index in (0..STRESS_SIZE as usize).step_by(7) {
        let next = keys[index].saturating_sub(10);
        heap.decrease_key(handles[index], next).unwrap();
    }
    let mut previous = None;
    while let Some((key, _)) = heap.pop() {
        if let Some(previous) = previous {
            assert!(previous <= key);
        }
        previous = Some(key);
    }
}

#[test]
fn dary_tree_addressable_heap_enforces_power_of_two_branching() {
    assert!(DaryTreeAddressableHeap::<i32, ()>::new(0).is_err());
    assert!(DaryTreeAddressableHeap::<i32, ()>::new(3).is_err());
    assert!(DaryTreeAddressableHeap::<i32, ()>::new(2).is_ok());
}

#[test]
fn binary_tree_addressable_heap_enforces_handle_rules() {
    exercise_binary_addressable_heap(BinaryTreeAddressableHeap::<i32, usize>::new);
    exercise_addressable_random_operations(BinaryTreeAddressableHeap::<i32, usize>::new);
}

#[test]
fn dary_tree_addressable_heap_degree_2_enforces_handle_rules() {
    exercise_binary_addressable_heap(|| DaryTreeAddressableHeap::<i32, usize>::new(2).unwrap());
    exercise_addressable_random_operations(|| {
        DaryTreeAddressableHeap::<i32, usize>::new(2).unwrap()
    });
}

#[test]
fn dary_tree_addressable_heap_degree_4_enforces_handle_rules() {
    exercise_binary_addressable_heap(|| DaryTreeAddressableHeap::<i32, usize>::new(4).unwrap());
    exercise_addressable_random_operations(|| {
        DaryTreeAddressableHeap::<i32, usize>::new(4).unwrap()
    });
}

#[test]
fn dary_tree_addressable_heap_degree_8_enforces_handle_rules() {
    exercise_binary_addressable_heap(|| DaryTreeAddressableHeap::<i32, usize>::new(8).unwrap());
    exercise_addressable_random_operations(|| {
        DaryTreeAddressableHeap::<i32, usize>::new(8).unwrap()
    });
}

#[test]
fn dary_tree_addressable_heap_degree_16_enforces_handle_rules() {
    exercise_binary_addressable_heap(|| DaryTreeAddressableHeap::<i32, usize>::new(16).unwrap());
    exercise_addressable_random_operations(|| {
        DaryTreeAddressableHeap::<i32, usize>::new(16).unwrap()
    });
}

#[test]
fn alternate_ord_keys_preserve_binary_tree_addressable_heap_handle_ordering() {
    exercise_reverse_tree_addressable_heap(BinaryTreeAddressableHeap::<ReverseKey, usize>::new);
    exercise_reverse_addressable_random_operations(
        BinaryTreeAddressableHeap::<ReverseKey, usize>::new,
    );
}

#[test]
fn alternate_ord_keys_preserve_dary_tree_addressable_heap_degree_2_handle_ordering() {
    exercise_reverse_tree_addressable_heap(|| {
        DaryTreeAddressableHeap::<ReverseKey, usize>::new(2).unwrap()
    });
    exercise_reverse_addressable_random_operations(|| {
        DaryTreeAddressableHeap::<ReverseKey, usize>::new(2).unwrap()
    });
}

#[test]
fn alternate_ord_keys_preserve_dary_tree_addressable_heap_degree_4_handle_ordering() {
    exercise_reverse_tree_addressable_heap(|| {
        DaryTreeAddressableHeap::<ReverseKey, usize>::new(4).unwrap()
    });
    exercise_reverse_addressable_random_operations(|| {
        DaryTreeAddressableHeap::<ReverseKey, usize>::new(4).unwrap()
    });
}

#[test]
fn alternate_ord_keys_preserve_dary_tree_addressable_heap_degree_8_handle_ordering() {
    exercise_reverse_tree_addressable_heap(|| {
        DaryTreeAddressableHeap::<ReverseKey, usize>::new(8).unwrap()
    });
    exercise_reverse_addressable_random_operations(|| {
        DaryTreeAddressableHeap::<ReverseKey, usize>::new(8).unwrap()
    });
}

#[test]
fn alternate_ord_keys_preserve_dary_tree_addressable_heap_degree_16_handle_ordering() {
    exercise_reverse_tree_addressable_heap(|| {
        DaryTreeAddressableHeap::<ReverseKey, usize>::new(16).unwrap()
    });
    exercise_reverse_addressable_random_operations(|| {
        DaryTreeAddressableHeap::<ReverseKey, usize>::new(16).unwrap()
    });
}

#[test]
fn binary_tree_addressable_heap_gains_value_less_heap_trait() {
    exercise_heap(BinaryTreeAddressableHeap::<i32>::new);
}

#[test]
fn dary_tree_addressable_heap_gains_value_less_heap_trait() {
    exercise_heap(|| DaryTreeAddressableHeap::<i32>::new(4).unwrap());
}

#[test]
fn skew_heap_follows_common_heap_conformance() {
    exercise_heap(SkewHeap::<i32>::new);
}

#[test]
fn alternate_ord_keys_preserve_skew_heap_ordering() {
    exercise_reverse_tree_heap(SkewHeap::<ReverseKey>::new);
}

#[test]
fn skew_heap_enforces_handle_rules() {
    exercise_addressable_heap(SkewHeap::<i32, usize>::new);
    exercise_addressable_random_operations(SkewHeap::<i32, usize>::new);
}

#[test]
fn alternate_ord_keys_preserve_skew_heap_handle_ordering() {
    exercise_reverse_tree_addressable_heap(SkewHeap::<ReverseKey, usize>::new);
    exercise_reverse_addressable_random_operations(SkewHeap::<ReverseKey, usize>::new);
}

#[test]
fn skew_heap_meld_consumes_donor_and_preserves_handles() {
    exercise_meld(SkewHeap::<i32, usize>::new);
}

#[test]
fn skew_heap_meld_reports_consumed_heaps() {
    let mut receiver = SkewHeap::<i32, usize>::new();
    let mut donor = SkewHeap::<i32, usize>::new();
    let kept = donor.insert(4, 40);
    receiver.meld(&mut donor).unwrap();
    assert!(donor.is_empty());
    assert_eq!(donor.try_insert(1, 1), Err(MeldError::ReceiverConsumed));
    assert_eq!(donor.meld(&mut receiver), Err(MeldError::ReceiverConsumed));
    assert_eq!(receiver.meld(&mut donor), Err(MeldError::DonorConsumed));
    assert_eq!(donor.key(kept), Err(InvalidHandle::ForeignHeap));
    assert_eq!(receiver.value(kept), Ok(&40));
    assert_eq!(MeldError::DonorConsumed.message(), "the donor heap was already consumed");
}

#[test]
fn pure_pairing_heap_follows_common_heap_conformance() {
    exercise_heap(PurePairingHeap::<i32>::new);
}

#[test]
fn alternate_ord_keys_preserve_pure_pairing_heap_ordering() {
    exercise_reverse_tree_heap(PurePairingHeap::<ReverseKey>::new);
}

#[test]
fn pure_pairing_heap_enforces_handle_rules() {
    exercise_addressable_heap(PurePairingHeap::<i32, usize>::new);
    exercise_addressable_random_operations(PurePairingHeap::<i32, usize>::new);
}

#[test]
fn alternate_ord_keys_preserve_pure_pairing_heap_handle_ordering() {
    exercise_reverse_tree_addressable_heap(PurePairingHeap::<ReverseKey, usize>::new);
    exercise_reverse_addressable_random_operations(PurePairingHeap::<ReverseKey, usize>::new);
}

#[test]
fn pure_pairing_heap_meld_consumes_donor_and_preserves_handles() {
    exercise_meld(PurePairingHeap::<i32, usize>::new);
}

#[test]
fn pure_pairing_heap_maintains_node_forest_invariants() {
    exercise_invariants(PurePairingHeap::<i32, usize>::new);
}

#[test]
fn pure_pairing_heap_set_value_replaces_values() {
    let mut heap = PurePairingHeap::<i32, usize>::new();
    let handle = heap.insert(3, 30);
    assert_eq!(heap.set_value(handle, 31), Ok(()));
    assert_eq!(heap.value(handle), Ok(&31));
    assert_eq!(heap.pop_entry(), Some((3, 31)));
    assert_eq!(heap.set_value(handle, 32), Err(InvalidHandle::Stale));
}

#[test]
fn costless_meld_pairing_heap_follows_common_heap_conformance() {
    exercise_heap(CostlessMeldPairingHeap::<i32>::new);
}

#[test]
fn alternate_ord_keys_preserve_costless_meld_pairing_heap_ordering() {
    exercise_reverse_tree_heap(CostlessMeldPairingHeap::<ReverseKey>::new);
}

#[test]
fn costless_meld_pairing_heap_enforces_handle_rules() {
    exercise_addressable_heap(CostlessMeldPairingHeap::<i32, usize>::new);
    exercise_addressable_random_operations(CostlessMeldPairingHeap::<i32, usize>::new);
}

#[test]
fn alternate_ord_keys_preserve_costless_meld_pairing_heap_handle_ordering() {
    exercise_reverse_tree_addressable_heap(CostlessMeldPairingHeap::<ReverseKey, usize>::new);
    exercise_reverse_addressable_random_operations(CostlessMeldPairingHeap::<ReverseKey, usize>::new);
}

#[test]
fn costless_meld_pairing_heap_meld_consumes_donor_and_preserves_handles() {
    exercise_meld(CostlessMeldPairingHeap::<i32, usize>::new);
}

#[test]
fn costless_meld_pairing_heap_maintains_node_forest_invariants() {
    exercise_invariants(CostlessMeldPairingHeap::<i32, usize>::new);
}

#[test]
fn simple_fibonacci_heap_follows_common_heap_conformance() {
    exercise_heap(SimpleFibonacciHeap::<i32>::new);
}

#[test]
fn alternate_ord_keys_preserve_simple_fibonacci_heap_ordering() {
    exercise_reverse_tree_heap(SimpleFibonacciHeap::<ReverseKey>::new);
}

#[test]
fn simple_fibonacci_heap_enforces_handle_rules() {
    exercise_addressable_heap(SimpleFibonacciHeap::<i32, usize>::new);
    exercise_addressable_random_operations(SimpleFibonacciHeap::<i32, usize>::new);
}

#[test]
fn alternate_ord_keys_preserve_simple_fibonacci_heap_handle_ordering() {
    exercise_reverse_tree_addressable_heap(SimpleFibonacciHeap::<ReverseKey, usize>::new);
    exercise_reverse_addressable_random_operations(SimpleFibonacciHeap::<ReverseKey, usize>::new);
}

#[test]
fn simple_fibonacci_heap_meld_consumes_donor_and_preserves_handles() {
    exercise_meld(SimpleFibonacciHeap::<i32, usize>::new);
}

#[test]
fn simple_fibonacci_heap_maintains_node_forest_invariants() {
    exercise_invariants(SimpleFibonacciHeap::<i32, usize>::new);
}

#[test]
fn fibonacci_heap_follows_common_heap_conformance() {
    exercise_heap(FibonacciHeap::<i32>::new);
}

#[test]
fn alternate_ord_keys_preserve_fibonacci_heap_ordering() {
    exercise_reverse_tree_heap(FibonacciHeap::<ReverseKey>::new);
}

#[test]
fn fibonacci_heap_enforces_handle_rules() {
    exercise_addressable_heap(FibonacciHeap::<i32, usize>::new);
    exercise_addressable_random_operations(FibonacciHeap::<i32, usize>::new);
}

#[test]
fn alternate_ord_keys_preserve_fibonacci_heap_handle_ordering() {
    exercise_reverse_tree_addressable_heap(FibonacciHeap::<ReverseKey, usize>::new);
    exercise_reverse_addressable_random_operations(FibonacciHeap::<ReverseKey, usize>::new);
}

#[test]
fn fibonacci_heap_meld_consumes_donor_and_preserves_handles() {
    exercise_meld(FibonacciHeap::<i32, usize>::new);
}

#[test]
fn fibonacci_heap_maintains_node_forest_invariants() {
    exercise_invariants(FibonacciHeap::<i32, usize>::new);
}
