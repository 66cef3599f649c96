//! In-place, allocation-free unstable sorting and selection of slices, after
//! pattern-defeating quicksort: quicksort with block partitioning, a
//! heapsort fallback that bounds the worst case, and insertion sort for
//! short and nearly sorted runs.
//!
//! Every routine leaves a permutation of its input, whatever the comparator
//! answers; by every strict weak order that the comparator's answers agree
//! with, the result is sorted (or, for selection, ordered around the
//! selected position).
pub mod comparators;
pub mod const_slice_sort_ext;
pub mod const_sort;
pub mod fake_usize_ptr;
pub mod heap;
pub mod insertion;
pub mod laws;
pub mod model;
pub mod mut_ref_sort;
pub mod partition;
pub mod pivot;
pub mod quicksort;
pub mod select;

pub use const_slice_sort_ext::ConstSliceSortExt;
pub use heap::const_heapsort;
pub use quicksort::{const_pred_lt, const_quicksort, ConstUnstableSortable};
pub use select::{const_partition_at_index, IndexOutOfBounds};
