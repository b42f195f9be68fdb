//! The guest and host ABI: length prefixed records, negotiated capabilities, and a defined way for
//! either side to refuse.
//!
//! The host sends a [`Hello`] saying which version it speaks and what it can do, the decoder answers
//! with a [`HelloAck`] saying what it needs, and [`negotiate`] turns the two into an [`Agreement`] or
//! a [`Refusal`]. After that the host sends [`ScanRequest`] records and rows come back as [`Batch`]
//! records. A decoder that needs bytes it has not been given asks with a [`RangeRequest`].
//!
//! A field may be added at the end of a record and a record may be added to the protocol, because a
//! reader steps over what it does not know. Every other change is breaking.

use vstd::prelude::*;

pub mod caps;
pub mod error;
pub mod handshake;
pub mod layout_laws;
pub mod message;
pub mod range;
pub mod record;
pub mod roundtrip;
pub mod wire;

pub use caps::{Capability, CapabilitySet};
pub use error::{Error, Result};
pub use handshake::{negotiate, Agreement};
pub use message::{
    Batch, BufferRef, Buffers, Hello, HelloAck, Message, Node, Nodes, Projection, RangeRequest,
    Refusal, RefusalReason, ScanRequest,
};
pub use range::RangeStatus;
pub use record::{Header, Tag};
pub use wire::{Reader, Writer};

verus! {

/// The major version this build speaks.
pub const ABI_MAJOR: u16 = 0;

/// The minor version this build speaks. Two sides settle on the lower of theirs.
pub const ABI_MINOR: u16 = 3;

} // verus!
