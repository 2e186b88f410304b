//! In-memory, multi-symbol statistics over append-only sample logs.
//!
//! Each symbol keeps its samples in order together with a segment tree of
//! aggregate nodes, so the count, minimum, maximum and running moments of the
//! most recent `10^k` samples come out of `O(log N)` node merges.
pub mod config;
pub mod error;
pub mod node;
pub mod segment_tree;
pub mod service;
pub mod store;

pub use error::AppError;
