//! Median-of-medians quicksort over slices of totally ordered, copyable
//! values, with what surrounds it: random input, numbers as text, and the
//! summary of measured running times.
//!
//! `sort` holds the routines and their contracts, `order` the order on the
//! elements. `laws` and `balance` state what holds of the routines beyond
//! their contracts, over the counts of `counting`.

pub mod balance;
pub mod bench;
pub mod counting;
pub mod laws;
pub mod order;
pub mod random;
pub mod sort;
pub mod text;

pub use bench::{summarize, Summary};
pub use random::{random_array, random_char_arrays};
pub use sort::{
    immut_median, insertion_sort, is_sorted, median, median_of_medians, parameters_are_valid,
    quicksort, DEFAULT_CUTOFF, DEFAULT_GROUP_SIZE,
};
pub use text::{collect_numbers, join, parse_numbers, render, ParseFailure};
