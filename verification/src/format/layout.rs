//! Where everything sits in the file.
//!
//! Sixteen bytes of header, the sections back to back with each one aligned to eight bytes, the footer
//! as a run of records, and fifty six bytes of trailer. The directory is at the end because a writer
//! does not know how long a section is until it has written it. The magic is at both ends, so that a
//! file cut in the middle can be told from one that never was a container.
use vstd::prelude::*;

verus! {

/// The first eight bytes of every container, and the last eight.
pub const MAGIC: [u8; 8] = [73, 82, 73, 83, 13, 10, 26, 10];

/// The format major version this build writes and reads.
pub const FORMAT_MAJOR: u16 = 0;

/// The format minor version this build writes.
pub const FORMAT_MINOR: u16 = 1;

/// How wide the header is, in bytes.
pub const HEADER_SIZE: usize = 16;

/// How wide the trailer is, in bytes.
pub const TRAILER_SIZE: usize = 56;

/// The smallest a container can be: a header, an empty footer and a trailer.
pub const MIN_SIZE: usize = 72;

/// How wide a digest is, in bytes.
pub const DIGEST_SIZE: usize = 32;

/// How the schema bytes are encoded.
#[derive(Clone, Copy, PartialEq, Eq, Debug, Structural)]
pub enum SchemaEncoding {
    /// An Arrow IPC schema message.
    ArrowIpc,
    /// Something this build does not know about, carried through.
    Unknown(u32),
}

impl SchemaEncoding {
    /// The number an encoding is written as.
    pub open spec fn number(self) -> u32 {
        match self {
            SchemaEncoding::ArrowIpc => 1,
            SchemaEncoding::Unknown(code) => code,
        }
    }

    /// The encoding a number stands for.
    pub open spec fn of(code: u32) -> SchemaEncoding {
        if code == 1 {
            SchemaEncoding::ArrowIpc
        } else {
            SchemaEncoding::Unknown(code)
        }
    }

    /// The number this encoding is written as.
    #[must_use]
    pub fn code(self) -> (r: u32)
        ensures
            r == self.number(),
    {
        match self {
            SchemaEncoding::ArrowIpc => 1,
            SchemaEncoding::Unknown(code) => code,
        }
    }

    /// The encoding a code stands for.
    #[must_use]
    pub fn from_code(code: u32) -> (r: Self)
        ensures
            r == SchemaEncoding::of(code),
            r.number() == code,
    {
        match code {
            1 => SchemaEncoding::ArrowIpc,
            other => SchemaEncoding::Unknown(other),
        }
    }
}

/// What a section holds.
#[derive(Clone, Copy, PartialEq, Eq, Debug, Structural)]
pub enum SectionKind {
    /// Encoded column data, in whatever form the decoder expects.
    Data,
    /// A decoder module.
    Decoder,
    /// An index, a dictionary, anything the decoder wants to find without reading the data.
    Sidecar,
    /// A kind this build does not know about, which can still be checked and stepped over.
    Unknown(u32),
}

impl SectionKind {
    /// The number a kind is written as.
    pub open spec fn number(self) -> u32 {
        match self {
            SectionKind::Data => 1,
            SectionKind::Decoder => 2,
            SectionKind::Sidecar => 3,
            SectionKind::Unknown(code) => code,
        }
    }

    /// The kind a number stands for.
    pub open spec fn of(code: u32) -> SectionKind {
        if code == 1 {
            SectionKind::Data
        } else if code == 2 {
            SectionKind::Decoder
        } else if code == 3 {
            SectionKind::Sidecar
        } else {
            SectionKind::Unknown(code)
        }
    }

    /// The number this kind is written as.
    #[must_use]
    pub fn code(self) -> (r: u32)
        ensures
            r == self.number(),
    {
        match self {
            SectionKind::Data => 1,
            SectionKind::Decoder => 2,
            SectionKind::Sidecar => 3,
            SectionKind::Unknown(code) => code,
        }
    }

    /// The kind a code stands for.
    #[must_use]
    pub fn from_code(code: u32) -> (r: Self)
        ensures
            r == SectionKind::of(code),
            r.number() == code,
    {
        match code {
            1 => SectionKind::Data,
            2 => SectionKind::Decoder,
            3 => SectionKind::Sidecar,
            other => SectionKind::Unknown(other),
        }
    }
}

/// Where the decoder module for a dataset lives.
#[derive(Clone, Copy, PartialEq, Eq, Debug, Structural)]
pub enum DecoderLocation {
    /// In a section of this container, so that a host that has never seen the encoding can read the
    /// data.
    Embedded {
        /// Which section holds the module.
        section: u32,
    },
    /// Somewhere else, to be resolved by digest.
    External,
}

} // verus!
