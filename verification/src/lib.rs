//! An in-memory index of fixed-dimension vectors that answers
//! k-nearest-neighbour queries.
//!
//! The crate owns the bookkeeping of such an index: which entries it holds,
//! which batches it accepts, how candidates are ranked and cut to `k`, how a
//! batch of answers is laid out, how a snapshot is written and read back, and
//! how a shared index is guarded. Numbers are carried as IEEE-754 bit patterns
//! and the arithmetic on them is supplied by the caller as a kernel.

pub mod bytes;
pub mod concurrency;
pub mod errors;
pub mod grid;
pub mod hnsw_index;
pub mod index;
pub mod kernel;
pub mod metrics;
pub mod rank;
pub mod scalar;
pub mod storage;
