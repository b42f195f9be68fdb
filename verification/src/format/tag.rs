//! The footer record tags.
//!
//! They share their framing with the records of the call protocol and not their number space: a footer
//! record and a call record never appear in the same byte stream.
use vstd::prelude::*;

verus! {

/// How many rows the dataset has, and what it is called.
pub const DATASET: u16 = 0x0100;

/// The schema, as bytes and an encoding.
pub const SCHEMA: u16 = 0x0101;

/// Which decoder reads this dataset, and what it needs from the host.
pub const DECODER: u16 = 0x0102;

/// One run of bytes in the payload area, with its digest.
pub const SECTION: u16 = 0x0103;

} // verus!
