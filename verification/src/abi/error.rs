//! What can go wrong while reading or writing a record.
use vstd::prelude::*;
use vstd::string::*;

use crate::abi::record::{tag_text, Tag};
use crate::text::{decimal, decimal_text};

verus! {

/// What went wrong while reading or writing a record.
///
/// Every variant is a fact about the bytes. Deciding what to do about it is the caller's job.
#[derive(Clone, Copy, PartialEq, Eq, Debug)]
pub enum Error {
    /// The buffer ended before the value did.
    Truncated {
        /// How many bytes the read wanted.
        needed: usize,
        /// How many bytes were left.
        available: usize,
    },
    /// There was not enough room left in the output buffer.
    BufferFull {
        /// How many bytes the write wanted.
        needed: usize,
        /// How many bytes were left.
        available: usize,
    },
    /// A length does not fit in the field or the machine word meant to hold it.
    LengthOverflow,
    /// A field declared to be text was not valid UTF-8.
    NotUtf8,
    /// The bytes parsed and do not describe a record this code can make sense of.
    Malformed(&'static str),
    /// A known record at a version this build does not know.
    UnsupportedVersion {
        /// Which record.
        tag: Tag,
        /// The version that was on the wire.
        version: u16,
    },
}

/// The result of a read or a write.
pub type Result<T> = core::result::Result<T, Error>;

/// The sentence an error prints as.
pub open spec fn error_text(e: Error) -> Seq<char> {
    match e {
        Error::Truncated { needed, available } => "record is truncated: wanted "@ + decimal_text(
            needed as nat,
        ) + " bytes, "@ + decimal_text(available as nat) + " available"@,
        Error::BufferFull { needed, available } => "output buffer is full: wanted "@ + decimal_text(
            needed as nat,
        ) + " bytes, "@ + decimal_text(available as nat) + " available"@,
        Error::LengthOverflow => "a length field does not fit in a pointer"@,
        Error::NotUtf8 => "a text field is not valid UTF-8"@,
        Error::Malformed(what) => "malformed record: "@ + what@,
        Error::UnsupportedVersion { tag, version } => "record "@ + tag_text(tag)
            + " is at version "@ + decimal_text(version as nat)
            + ", which this build does not understand"@,
    }
}

impl Error {
    /// The sentence this error prints as.
    pub fn text(&self) -> (r: String)
        ensures
            r@ == error_text(*self),
    {
        match self {
            Error::Truncated { needed, available } => {
                let mut s = "record is truncated: wanted ".to_owned();
                s.append(decimal(*needed as u64).as_str());
                s.append(" bytes, ");
                s.append(decimal(*available as u64).as_str());
                s.append(" available");
                s
            },
            Error::BufferFull { needed, available } => {
                let mut s = "output buffer is full: wanted ".to_owned();
                s.append(decimal(*needed as u64).as_str());
                s.append(" bytes, ");
                s.append(decimal(*available as u64).as_str());
                s.append(" available");
                s
            },
            Error::LengthOverflow => "a length field does not fit in a pointer".to_owned(),
            Error::NotUtf8 => "a text field is not valid UTF-8".to_owned(),
            Error::Malformed(what) => {
                let mut s = "malformed record: ".to_owned();
                s.append(what);
                s
            },
            Error::UnsupportedVersion { tag, version } => {
                let mut s = "record ".to_owned();
                s.append(tag.text().as_str());
                s.append(" is at version ");
                s.append(decimal(*version as u64).as_str());
                s.append(", which this build does not understand");
                s
            },
        }
    }
}

} // verus!
