//! Array-backed heap implementations.
//!
//! These heaps store entries in a contiguous backing array rather than a
//! linked node structure.
pub mod layout;
mod binary_array_heap;
mod binary_array_weak_heap;

pub use binary_array_heap::BinaryArrayHeap;
mod dary_array_heap;

pub use dary_array_heap::{DaryArrayHeap, InvalidDegree};
mod binary_array_integer_value_heap;

pub use binary_array_integer_value_heap::BinaryArrayIntegerValueHeap;
mod addressable_heap;

pub use addressable_heap::{AddressableHandle, BinaryArrayAddressableHeap, DaryArrayAddressableHeap};
pub use binary_array_weak_heap::{exp2, floor_log2, BinaryArrayBulkInsertWeakHeap, BinaryArrayWeakHeap};
mod min_max_binary_array_double_ended_heap;
mod min_max_order;
mod weak_order;

pub use min_max_binary_array_double_ended_heap::MinMaxBinaryArrayDoubleEndedHeap;
