//! What can go wrong reading a column part.
use vstd::prelude::*;
use vstd::string::*;

use crate::btr::part::{column_type_name, ColumnType};
use crate::btr::scheme::{name_or_unknown, scheme_name};
use crate::text::{decimal, decimal_text};

verus! {

/// The result of reading something out of a column part.
pub type Result<T> = core::result::Result<T, Error>;

/// Why a column part could not be read.
///
/// Every variant is a statement about the bytes.
#[derive(Clone, Copy, PartialEq, Eq, Debug)]
pub enum Error {
    /// The part ended in the middle of something it said was there.
    Truncated {
        /// What was being read.
        what: &'static str,
        /// The first byte wanted.
        from: usize,
        /// One past the last byte wanted.
        to: usize,
        /// How long the part actually is.
        len: usize,
    },
    /// A chunk index past the end of the part.
    NoSuchChunk {
        /// The index asked for.
        index: u32,
        /// How many chunks the part holds.
        count: u32,
    },
    /// The chunk offsets do not describe a run of chunks laid out end to end.
    Overlapping {
        /// The chunk whose extent could not be worked out.
        index: u32,
        /// Where it starts.
        start: usize,
        /// Where the chunk after it starts.
        end: usize,
    },
    /// A column type that is not read here.
    UnknownColumnType {
        /// The byte in the chunk header.
        code: u8,
    },
    /// A scheme that is defined and not implemented.
    UnsupportedScheme {
        /// The column type the scheme belongs to.
        column: ColumnType,
        /// The scheme code in the chunk header.
        code: u8,
    },
    /// A scheme code that is not defined for this column type.
    UnknownScheme {
        /// The column type the scheme was read for.
        column: ColumnType,
        /// The scheme code in the chunk header.
        code: u8,
    },
    /// A nullmap encoding that is defined and not read here.
    UnsupportedNullmap {
        /// The byte in the chunk header.
        code: u8,
    },
    /// A nullmap encoding that is not defined.
    UnknownNullmap {
        /// The byte in the chunk header.
        code: u8,
    },
    /// A compressed stream that fits and does not describe itself consistently.
    Malformed {
        /// What was being read.
        what: &'static str,
        /// What was wrong with it.
        why: &'static str,
    },
    /// A length inside a chunk that does not fit in what the chunk holds.
    Overrun {
        /// What claimed the length.
        what: &'static str,
        /// The length it claimed.
        claimed: usize,
        /// How many bytes are actually left.
        available: usize,
    },
}

/// The sentence an error prints as.
pub open spec fn error_text(e: Error) -> Seq<char> {
    match e {
        Error::Truncated { what, from, to, len } => "the part ends after "@ + decimal_text(
            len as nat,
        ) + " bytes but "@ + what@ + " needs bytes "@ + decimal_text(from as nat) + " to "@
            + decimal_text(to as nat),
        Error::NoSuchChunk { index, count } => "chunk "@ + decimal_text(index as nat)
            + " was asked for but the part holds "@ + decimal_text(count as nat),
        Error::Overlapping { index, start, end } => "chunk "@ + decimal_text(index as nat)
            + " starts at "@ + decimal_text(start as nat) + " and the next one starts at "@
            + decimal_text(end as nat),
        Error::UnknownColumnType { code } => "column type "@ + decimal_text(code as nat)
            + " is not one this reads"@,
        Error::UnsupportedScheme { column, code } => column_type_name(column)@ + " scheme "@
            + name_or_unknown(column, code)@ + " is not implemented yet"@,
        Error::UnknownScheme { column, code } => column_type_name(column)@ + " scheme "@
            + decimal_text(code as nat) + " is not one the reference defines"@,
        Error::UnsupportedNullmap { code } => "nullmap encoding "@ + decimal_text(code as nat)
            + " is not implemented yet"@,
        Error::UnknownNullmap { code } => "nullmap encoding "@ + decimal_text(code as nat)
            + " is not one the reference defines"@,
        Error::Malformed { what, why } => what@ + " is malformed: "@ + why@,
        Error::Overrun { what, claimed, available } => what@ + " says "@ + decimal_text(
            claimed as nat,
        ) + " bytes but the chunk has "@ + decimal_text(available as nat) + " left"@,
    }
}

impl Error {
    /// The sentence this error prints as.
    pub fn text(&self) -> (r: String)
        ensures
            r@ == error_text(*self),
    {
        match self {
            Error::Truncated { what, from, to, len } => {
                let mut s = "the part ends after ".to_owned();
                s.append(decimal(*len as u64).as_str());
                s.append(" bytes but ");
                s.append(what);
                s.append(" needs bytes ");
                s.append(decimal(*from as u64).as_str());
                s.append(" to ");
                s.append(decimal(*to as u64).as_str());
                s
            },
            Error::NoSuchChunk { index, count } => {
                let mut s = "chunk ".to_owned();
                s.append(decimal(*index as u64).as_str());
                s.append(" was asked for but the part holds ");
                s.append(decimal(*count as u64).as_str());
                s
            },
            Error::Overlapping { index, start, end } => {
                let mut s = "chunk ".to_owned();
                s.append(decimal(*index as u64).as_str());
                s.append(" starts at ");
                s.append(decimal(*start as u64).as_str());
                s.append(" and the next one starts at ");
                s.append(decimal(*end as u64).as_str());
                s
            },
            Error::UnknownColumnType { code } => {
                let mut s = "column type ".to_owned();
                s.append(decimal(*code as u64).as_str());
                s.append(" is not one this reads");
                s
            },
            Error::UnsupportedScheme { column, code } => {
                let mut s = column.name().to_owned();
                s.append(" scheme ");
                s.append(scheme_name(*column, *code));
                s.append(" is not implemented yet");
                s
            },
            Error::UnknownScheme { column, code } => {
                let mut s = column.name().to_owned();
                s.append(" scheme ");
                s.append(decimal(*code as u64).as_str());
                s.append(" is not one the reference defines");
                s
            },
            Error::UnsupportedNullmap { code } => {
                let mut s = "nullmap encoding ".to_owned();
                s.append(decimal(*code as u64).as_str());
                s.append(" is not implemented yet");
                s
            },
            Error::UnknownNullmap { code } => {
                let mut s = "nullmap encoding ".to_owned();
                s.append(decimal(*code as u64).as_str());
                s.append(" is not one the reference defines");
                s
            },
            Error::Malformed { what, why } => {
                let mut s = (*what).to_owned();
                s.append(" is malformed: ");
                s.append(why);
                s
            },
            Error::Overrun { what, claimed, available } => {
                let mut s = (*what).to_owned();
                s.append(" says ");
                s.append(decimal(*claimed as u64).as_str());
                s.append(" bytes but the chunk has ");
                s.append(decimal(*available as u64).as_str());
                s.append(" left");
                s
            },
        }
    }
}

} // verus!
