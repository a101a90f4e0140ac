//! Batches that expose the cursor protocol.

pub mod mmap;
