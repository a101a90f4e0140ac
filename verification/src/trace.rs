//! Traversal of the immutable, sorted batches that make up a trace.

pub mod cursor;
pub mod implementations;
