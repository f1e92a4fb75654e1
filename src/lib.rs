//! An in-place, array-backed binary heap (max-heap, min-heap and priority
//! queue over one buffer), together with comparison sorts (heap sort among
//! them), inversion counting and a maximum-subarray search.

pub mod heap;
pub mod inversions;
pub mod max_subarray;
pub mod priority_queue;
pub mod sorting;
