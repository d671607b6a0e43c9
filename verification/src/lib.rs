//! Lazy k-way merging of sorted, duplicate-free sequences of integers into
//! their sorted union, plain or with per-value provenance groups, proved
//! against a mathematical model of the merge.

mod engine;
pub mod detailed;
mod frontier;
pub mod merge;
pub mod model;
pub mod order;
pub mod source;

pub use detailed::{merge_iters_detailed, merge_iters_detailed_by, DetailedMergeIterator};
pub use merge::{merge_iters, merge_iters_by, MergeIterator};
pub use order::Direction;
pub use source::Source;
