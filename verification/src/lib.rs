//! Lazily sorted sequences: a producer owns a buffer of elements and hands
//! them out one at a time in ascending order, partitioning only as much of the
//! buffer as each request needs.
use vstd::prelude::*;

pub mod engine;
pub mod heap;
pub mod laws;
pub mod lazy;
pub mod lemmas;
pub mod model;
pub mod order;

pub use crate::engine::{make_work, partition, pivot, qsort};
pub use crate::lazy::{
    LazySortIterator, LazySortIteratorBy, LazySortIteratorPartialFirst,
    LazySortIteratorPartialLast, Sorted, SortedBy, SortedPartial,
};
pub use crate::order::{partial_cmp_first, partial_cmp_last};
