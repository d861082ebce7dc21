//! Comparison sorts over vectors.

pub mod bubble_sort;
pub mod merge_sort;
pub mod quick_sort;
pub mod selection_sort;
pub mod sort;
