//! In-place comparison sorting of slices.
//!
//! `sort`, `sort_by` and `sort_by_key` are an introspective sort: short
//! slices are insertion sorted, longer ones quicksorted around two pivots,
//! or around one where the slice seems to hold few different values, and
//! heapsorted once the recursion has gone deeper than its budget.
//! `insertion_sort` and `heapsort` force one algorithm. `sort_floats` sorts
//! IEEE-754 numbers, held as bit patterns, in their total order.
//!
//! Every function leaves the slice a permutation of what it was given,
//! whatever the comparator answers. What it promises of the order of its
//! result it promises for every order by which the comparator orders the
//! elements of the slice: a total preorder on them that its answers on
//! them follow. Of other values nothing is asked. The sort is not stable.

pub mod order;
pub mod seqs;
pub mod insertion;
pub mod heap;
pub mod partition;
pub mod pivots;
pub mod sort;
pub mod float;
pub mod laws;

pub use insertion::insertion_sort;
pub use heap::heapsort;
pub use sort::{sort, sort_by, sort_by_key};
pub use float::sort_floats;
