//! Specifications and wrappers for the few standard-library functions that
//! the heaps call and that vstd does not specify.
use std::collections::hash_map::RandomState;
use std::hash::BuildHasher;
use vstd::prelude::*;

verus! {

/// `<[T]>::swap` exchanges the elements at the two positions; it panics when
/// either position is out of bounds, so both are required to be in bounds.
pub assume_specification<Elem>[ <[Elem]>::swap ](slice: &mut [Elem], a: usize, b: usize)
    requires
        a < old(slice)@.len(),
        b < old(slice)@.len(),
    ensures
        final(slice)@ == old(slice)@.update(a as int, old(slice)@[b as int]).update(
            b as int,
            old(slice)@[a as int],
        ),
;

/// Calls `RandomState::new`, which seeds a new hash builder from per-thread
/// random keys; nothing is stated of the state it returns.
#[verifier::external_body]
fn new_random_state() -> RandomState {
    RandomState::new()
}

/// Calls `BuildHasher::hash_one` on `0u64`.  Two `RandomState`s are, as the
/// standard library documents, unlikely to hash a value alike; that rests on
/// chance, so nothing is stated of the result.
#[verifier::external_body]
fn hash_zero(state: &RandomState) -> u64 {
    state.hash_one(0u64)
}

/// A fresh identity for a heap, used to recognise handles of other heaps.
///
/// Identities come from independently seeded hash builders, so two heaps
/// share one only by chance.
pub fn fresh_heap_id() -> u64 {
    let state = new_random_state();
    hash_zero(&state)
}

} // verus!
