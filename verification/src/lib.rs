//! A fixed-capacity, array-backed range-sum tree.
//!
//! The tree stores a power-of-two number of integer slots in the second half
//! of a flat buffer and keeps every internal buffer cell equal to the sum of
//! its two children, which makes point updates and inclusive range-sum
//! queries take logarithmically many buffer accesses.

pub mod sums;
pub mod text;
pub mod tree;

pub use tree::SegmentTree;
