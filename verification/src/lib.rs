//! Concurrent per-line word counting.
//!
//! The library takes named text sources, counts the whitespace-separated
//! words on every line of every source, and folds the per-line counts into
//! a mapping from source identifier to the ordered sequence of counts for
//! that source's lines. Reading the sources and driving them concurrently
//! is left to the caller; the counting, the line splitting and the fold
//! into the keyed result are verified here.

pub mod aggregate;
pub mod counter;
pub mod laws;
pub mod lines;
pub mod stream_ext;
pub mod words;
