//! What the host answers when a decoder asks for bytes it has not been given.
use vstd::prelude::*;
use vstd::string::*;

use crate::text::{decimal, decimal_text};

verus! {

/// The answer to a request for a range of the source.
///
/// Only [`RangeStatus::SERVED`] means the bytes are in the buffer the decoder named. For every other
/// value that buffer holds whatever it held before.
#[derive(Clone, Copy, PartialEq, Eq, PartialOrd, Ord, Hash, Debug, Structural)]
pub struct RangeStatus(pub u32);

/// The name assigned to a status, if there is one.
pub open spec fn status_name(status: RangeStatus) -> Option<&'static str> {
    if status.0 == RangeStatus::SERVED {
        Some("served")
    } else if status.0 == RangeStatus::OUT_OF_BOUNDS {
        Some("out of bounds")
    } else if status.0 == RangeStatus::TOO_LARGE {
        Some("larger than one request can cover")
    } else if status.0 == RangeStatus::UNAVAILABLE {
        Some("unavailable")
    } else if status.0 == RangeStatus::NO_SOURCE {
        Some("no source attached")
    } else {
        None
    }
}

/// What a status prints as.
pub open spec fn status_text(status: RangeStatus) -> Seq<char> {
    match status_name(status) {
        Some(name) => name@,
        None => "range status "@ + decimal_text(status.0 as nat),
    }
}

impl RangeStatus {
    /// The bytes are in the buffer, exactly as many as were asked for.
    pub const SERVED: u32 = 0;

    /// The range runs past the end of the source. Never a short read.
    pub const OUT_OF_BOUNDS: u32 = 1;

    /// No single request to this host can cover a range that long; asking in pieces works.
    pub const TOO_LARGE: u32 = 2;

    /// The host tried and could not get the bytes.
    pub const UNAVAILABLE: u32 = 3;

    /// This host has nothing to serve ranges from.
    pub const NO_SOURCE: u32 = 4;

    /// Whether the bytes arrived.
    #[must_use]
    pub fn is_served(self) -> (r: bool)
        ensures
            r == (self.0 == RangeStatus::SERVED),
    {
        self.0 == RangeStatus::SERVED
    }

    /// The name of this status, if it is an assigned one.
    #[must_use]
    pub fn name(self) -> (r: Option<&'static str>)
        ensures
            r == status_name(self),
    {
        if self.0 == RangeStatus::SERVED {
            Some("served")
        } else if self.0 == RangeStatus::OUT_OF_BOUNDS {
            Some("out of bounds")
        } else if self.0 == RangeStatus::TOO_LARGE {
            Some("larger than one request can cover")
        } else if self.0 == RangeStatus::UNAVAILABLE {
            Some("unavailable")
        } else if self.0 == RangeStatus::NO_SOURCE {
            Some("no source attached")
        } else {
            None
        }
    }

    /// What this status prints as.
    pub fn text(self) -> (r: String)
        ensures
            r@ == status_text(self),
    {
        match self.name() {
            Some(name) => name.to_owned(),
            None => {
                let mut s = "range status ".to_owned();
                s.append(decimal(self.0 as u64).as_str());
                s
            },
        }
    }
}

} // verus!
