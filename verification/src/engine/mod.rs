//! What an engine asks of a dataset, decided on plain values.
//!
//! The adapters that speak an engine's own types are elsewhere. What stands here is what they decide:
//! how a scan is split and projected, how batches are cut into chunks, and what crosses a C boundary.

pub mod chunks;
pub mod handles;
pub mod laws;
pub mod table;

pub use chunks::{counts, wanted, Chunk, Chunks};
pub use handles::{IRIS_ERROR, IRIS_INVALID, IRIS_OK};
pub use table::{split, Error, Filling, IrisExec, IrisTable, Pushdown};
