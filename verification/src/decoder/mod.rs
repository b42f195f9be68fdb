//! What a decoder is written against.
//!
//! A decoder implements [`Decoder`]: it says what it needs, opens, and decodes. [`Instance`] has the
//! conversation with the host for it, so a decoder never sees a record, a tag or an address.
//!
//! Every answer to the host is a record. A `HelloAck` means the decoder opened, a `Refusal` means it
//! did not and says why, and nothing at all after a scan means the scan finished.

pub mod batch;
pub mod error;
pub mod guest;
pub mod harness;
pub mod instance;
pub mod laws;
pub mod session;
pub mod source;

pub use batch::Batch;
pub use error::{Error, Result};
pub use harness::{Collect, Recorded};
pub use instance::{record, Instance};
pub use session::{Request, Session};
pub use source::{Decoder, Resident, Sink, Source};
