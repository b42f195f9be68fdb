//! A container format whose files carry the decoder that reads them.

pub mod abi;
pub mod btr;
pub mod bytes;
pub mod decoder;
pub mod engine;
pub mod format;
pub mod guard;
pub mod text;
