//! Classic introductory algorithms, verified: linear and binary search over
//! sorted sequences, selection sort, quicksort, and the recursive aggregates
//! sum, count and max, together with the laws that relate them.

pub mod intro_to_algos;
pub mod laws;
pub mod quicksort;
pub mod recursion;
pub mod selection_sort;
pub mod total_order;
