//! Sorting algorithms written as resumable state machines: each call of
//! `step` does one comparison or one write, so that a front end can show
//! every intermediate state of the sequence being sorted.

pub mod sorter;

pub mod bogo_sort;
pub mod bubble_sort;
pub mod heap_sort;
pub mod insertion_sort;
pub mod merge_sort;
pub mod quick_sort;
pub mod selection_sort;

pub mod sorters;

pub mod bundles;
pub mod util;
pub mod visualizer;
