//! Reading column parts that were written by BtrBlocks.
//!
//! A part is one column cut into chunks, each chunk compressed with a scheme of its own. Everything
//! here is read from untrusted bytes, so every length is checked against what is really there and a
//! malformed part is an answer, never a panic.

pub mod bitmap_laws;
pub mod bitmap_roundtrip;
pub mod column;
pub mod column_laws;
pub mod error;
pub mod fastpfor;
pub mod fsst;
pub mod laws;
pub mod nullmap;
pub mod packing;
pub mod part;
pub mod part_laws;
pub mod patch_laws;
pub mod patched;
pub mod roaring;
pub mod scheme;
pub mod symbol_laws;

pub use column::{Column, Strings};
pub use error::{Error, Result};
pub use nullmap::{Nullmap, Presence};
pub use part::{Chunk, ColumnType, Part};
pub use scheme::scheme_name;
