//! In-place comparison sorting of slices, driven by a three-way comparator.
//!
//! [`sort_by`] is an introsort: short slices are sorted by insertion, longer
//! ones by quicksort on two pivots, or on one where many elements are level,
//! and a slice on which the recursion has gone too deep by heapsort.
//! [`insertion_sort`] and [`heapsort`] can be called by themselves, and
//! [`sort`] sorts by the order that the elements have by `Ord`.
//!
//! A slice is changed by exchanges of two of its elements and in no other
//! way. So it holds each of its elements exactly once at every call of the
//! comparator, and would do so where such a call should panic; and the result
//! is a rearrangement of the input whatever the comparator answers. Where the
//! comparator answers by a total preorder on the elements (see
//! [`order::orders`]), the result is in order by that preorder.

pub mod order;
pub mod exchange;
pub mod insertion;
pub mod heap;
pub mod partition;
pub mod introsort;
pub mod laws;

pub use heap::heapsort;
pub use insertion::insertion_sort;
pub use introsort::{sort, sort_by};
