//! External sorting of newline-delimited text.
//!
//! The input is split into bounded chunks, each chunk is sorted on its own,
//! and sorted chunks are then merged pairwise, level by level, until a single
//! sorted output remains.  The pieces are:
//!
//! - [`naming`]: the `(level, index)` identity of a chunk and its on-disk name;
//! - [`order`]: lexicographic ordering of lines and its algebraic laws;
//! - [`sorting`]: sorting a chunk's tokens and the two-way merge of sorted files;
//! - [`scheduler`]: the pure iterator that enumerates the pairwise merges;
//! - [`engine`]: the orchestrator tying splitting, scheduling and merging together.
//!
//! All file reading and writing stays outside this crate: the functions here
//! work on plain line and token values and say in their contracts what each
//! step produces.

pub mod engine;
pub mod naming;
pub mod order;
pub mod scheduler;
pub mod sorting;
