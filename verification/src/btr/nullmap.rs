//! Which rows are present.
//!
//! A nullmap is stored in one of four ways. Two say the same thing about every row and take no bytes,
//! and two are a Roaring bitmap, of the present rows in one and of the null rows in the other. Only
//! the two constant forms are worked out here.
use vstd::prelude::*;

use crate::btr::error::{Error, Result};

verus! {

/// How a nullmap is stored.
#[derive(Debug, Clone, Copy, PartialEq, Eq, Structural)]
enum Kind {
    /// Every row is present. No bytes.
    AllPresent,
    /// Every row is null. No bytes.
    AllNull,
    /// A Roaring bitmap of the rows that are present.
    Present,
    /// A Roaring bitmap of the rows that are null.
    Absent,
}

/// A nullmap as it sits in the chunk.
#[derive(Debug, Clone, Copy)]
pub struct Nullmap<'a> {
    code: u8,
    rows: u32,
    bytes: &'a [u8],
}

/// What a [`Nullmap`] holds.
pub ghost struct NullmapView {
    /// The encoding.
    pub code: u8,
    /// How many rows it is about.
    pub rows: u32,
    /// The bytes after the scheme's own.
    pub bytes: Seq<u8>,
}

impl<'a> View for Nullmap<'a> {
    type V = NullmapView;

    closed spec fn view(&self) -> NullmapView {
        NullmapView { code: self.code, rows: self.rows, bytes: self.bytes@ }
    }
}

/// Which rows of a chunk hold a value.
#[derive(Debug, Clone, PartialEq, Eq)]
pub enum Presence {
    /// Every row, of which there are this many.
    All(u32),
    /// None of them.
    Nothing,
    /// One entry per row, true where the row is present.
    Each(Vec<bool>),
}

impl Presence {
    /// Whether `row` holds a value.
    pub open spec fn holds(self, row: u32) -> bool {
        match self {
            Presence::All(rows) => row < rows,
            Presence::Nothing => false,
            Presence::Each(each) => row < each@.len() && each@[row as int],
        }
    }

    /// Whether `row` holds a value.
    ///
    /// A row past the end of the chunk is not present, which is the same answer as asking about a null
    /// row and the only one that makes sense for a row that does not exist.
    #[must_use]
    pub fn present(&self, row: u32) -> (r: bool)
        ensures
            r == self.holds(row),
    {
        match self {
            Presence::All(rows) => row < *rows,
            Presence::Nothing => false,
            Presence::Each(each) => (row as usize) < each.len() && each[row as usize],
        }
    }
}

impl<'a> Nullmap<'a> {
    /// Wraps the bytes after a chunk's scheme data.
    pub fn new(code: u8, rows: u32, bytes: &'a [u8]) -> (r: Self)
        ensures
            r@ == (NullmapView { code, rows, bytes: bytes@ }),
    {
        Nullmap { code, rows, bytes }
    }

    /// The encoding byte from the chunk header.
    #[must_use]
    pub fn code(&self) -> (r: u8)
        ensures
            r == self@.code,
    {
        self.code
    }

    /// Works out which rows are present.
    pub fn presence(&self) -> (r: Result<Presence>)
        ensures
            r == (if self@.code == 0 {
                Ok::<Presence, Error>(Presence::All(self@.rows))
            } else if self@.code == 1 {
                Ok(Presence::Nothing)
            } else if self@.code == 2 || self@.code == 3 {
                Err(Error::UnsupportedNullmap { code: self@.code })
            } else {
                Err(Error::UnknownNullmap { code: self@.code })
            }),
    {
        match self.kind()? {
            Kind::AllPresent => Ok(Presence::All(self.rows)),
            Kind::AllNull => Ok(Presence::Nothing),
            Kind::Present | Kind::Absent => Err(Error::UnsupportedNullmap { code: self.code }),
        }
    }

    /// Reads the encoding byte.
    fn kind(&self) -> (r: Result<Kind>)
        ensures
            r == (match self.code {
                0 => Ok::<Kind, Error>(Kind::AllPresent),
                1 => Ok(Kind::AllNull),
                2 => Ok(Kind::Present),
                3 => Ok(Kind::Absent),
                code => Err(Error::UnknownNullmap { code }),
            }),
    {
        match self.code {
            0 => Ok(Kind::AllPresent),
            1 => Ok(Kind::AllNull),
            2 => Ok(Kind::Present),
            3 => Ok(Kind::Absent),
            code => Err(Error::UnknownNullmap { code }),
        }
    }
}

} // verus!
