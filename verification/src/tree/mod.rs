//! Tree-based heap implementations.
use vstd::prelude::*;

pub mod handles;
mod explicit_tree;
mod forest;
mod forest_order;
mod forest_bulk;
mod forest_links;
mod forest_pairing;
mod skew_heap;
mod pure_pairing_heap;
mod costless_meld_pairing_heap;
mod forest_ranks;
mod simple_fibonacci_heap;
mod fibonacci_heap;
mod binary_tree_addressable_heap;
mod dary_tree_addressable_heap;
mod reflected_heap;

pub use binary_tree_addressable_heap::BinaryTreeAddressableHeap;
pub use dary_tree_addressable_heap::{DaryTreeAddressableHeap, InvalidBranchingFactor, is_power_of_two, valid_branching_factor};
pub use fibonacci_heap::FibonacciHeap;
pub use handles::{MeldError, TreeHandle};
pub use costless_meld_pairing_heap::CostlessMeldPairingHeap;
pub use pure_pairing_heap::PurePairingHeap;
pub use simple_fibonacci_heap::SimpleFibonacciHeap;
pub use skew_heap::SkewHeap;
pub use reflected_heap::{ReflectedFibonacciHeap, ReflectedHandle, ReflectedHeap};

verus! {

} // verus!
