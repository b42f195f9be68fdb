//! What can go wrong while reading a container.
use vstd::prelude::*;
use vstd::string::*;

use crate::abi;
use crate::abi::record::{tag_text, Tag};
use crate::text::{decimal, decimal_text, hex2, hex2_text};

verus! {

/// Why a container could not be read, or could not be trusted once it was read.
#[derive(Clone, PartialEq, Eq, Debug)]
pub enum Error {
    /// The file does not start with the container magic.
    NotAContainer {
        /// The first eight bytes of the file, or fewer if the file is shorter than that.
        found: Vec<u8>,
        /// What those bytes should have been.
        expected: Vec<u8>,
    },
    /// The file starts correctly but ends somewhere unexpected.
    Truncated {
        /// Which part of the file ran out.
        what: &'static str,
        /// How many bytes that part needed.
        needed: u64,
        /// How many were there.
        available: u64,
    },
    /// The container was written by another major version.
    UnsupportedFormat {
        /// The major version in the file.
        major: u16,
        /// The minor version in the file.
        minor: u16,
        /// The major version this build understands.
        supported_major: u16,
    },
    /// A reserved field was not zero.
    Reserved {
        /// Which part of the container the field is in.
        what: &'static str,
    },
    /// A section points somewhere that is not inside the payload area.
    SectionOutOfBounds {
        /// Which section.
        id: u32,
        /// Where it claims to start.
        offset: u64,
        /// Where it claims to end, saturated.
        end: u64,
        /// How long the file actually is.
        file_len: u64,
    },
    /// Two sections claim the same identifier.
    DuplicateSection {
        /// The repeated identifier.
        id: u32,
    },
    /// A required footer record was missing.
    MissingRecord(Tag),
    /// A footer record appeared more times than it is allowed to.
    RepeatedRecord(Tag),
    /// A known footer record was written at a version this build does not read.
    UnsupportedRecord {
        /// Which record.
        tag: Tag,
        /// The version on it.
        version: u16,
    },
    /// A digest did not match the bytes it covers.
    DigestMismatch {
        /// Which digest.
        what: String,
        /// What the container claims.
        expected: String,
        /// What the bytes actually hash to.
        actual: String,
    },
    /// The bytes inside the footer did not parse.
    Footer(abi::Error),
    /// Something in the container is bigger than this build can address.
    TooLarge {
        /// Which part of the container.
        what: &'static str,
        /// How many bytes it asked for.
        needed: u64,
    },
}

/// What an [`Error`] says.
pub ghost enum ErrorView {
    /// See [`Error::NotAContainer`].
    NotAContainer { found: Seq<u8>, expected: Seq<u8> },
    /// See [`Error::Truncated`].
    Truncated { what: &'static str, needed: u64, available: u64 },
    /// See [`Error::UnsupportedFormat`].
    UnsupportedFormat { major: u16, minor: u16, supported_major: u16 },
    /// See [`Error::Reserved`].
    Reserved { what: &'static str },
    /// See [`Error::SectionOutOfBounds`].
    SectionOutOfBounds { id: u32, offset: u64, end: u64, file_len: u64 },
    /// See [`Error::DuplicateSection`].
    DuplicateSection { id: u32 },
    /// See [`Error::MissingRecord`].
    MissingRecord(Tag),
    /// See [`Error::RepeatedRecord`].
    RepeatedRecord(Tag),
    /// See [`Error::UnsupportedRecord`].
    UnsupportedRecord { tag: Tag, version: u16 },
    /// See [`Error::DigestMismatch`].
    DigestMismatch { what: Seq<char>, expected: Seq<char>, actual: Seq<char> },
    /// See [`Error::Footer`].
    Footer(abi::Error),
    /// See [`Error::TooLarge`].
    TooLarge { what: &'static str, needed: u64 },
}

impl View for Error {
    type V = ErrorView;

    open spec fn view(&self) -> ErrorView {
        match *self {
            Error::NotAContainer { found, expected } => ErrorView::NotAContainer {
                found: found@,
                expected: expected@,
            },
            Error::Truncated { what, needed, available } => ErrorView::Truncated {
                what,
                needed,
                available,
            },
            Error::UnsupportedFormat { major, minor, supported_major } => {
                ErrorView::UnsupportedFormat { major, minor, supported_major }
            },
            Error::Reserved { what } => ErrorView::Reserved { what },
            Error::SectionOutOfBounds { id, offset, end, file_len } => {
                ErrorView::SectionOutOfBounds { id, offset, end, file_len }
            },
            Error::DuplicateSection { id } => ErrorView::DuplicateSection { id },
            Error::MissingRecord(tag) => ErrorView::MissingRecord(tag),
            Error::RepeatedRecord(tag) => ErrorView::RepeatedRecord(tag),
            Error::UnsupportedRecord { tag, version } => ErrorView::UnsupportedRecord {
                tag,
                version,
            },
            Error::DigestMismatch { what, expected, actual } => ErrorView::DigestMismatch {
                what: what@,
                expected: expected@,
                actual: actual@,
            },
            Error::Footer(e) => ErrorView::Footer(e),
            Error::TooLarge { what, needed } => ErrorView::TooLarge { what, needed },
        }
    }
}

/// The result of reading a container.
pub type Result<T> = core::result::Result<T, Error>;

/// What reading a container should give.
pub type Outcome<T> = core::result::Result<T, ErrorView>;

/// Whether a result is as stated.
pub open spec fn agrees<T: View>(r: Result<T>, s: Outcome<T::V>) -> bool {
    match s {
        Ok(v) => r is Ok && r->Ok_0@ == v,
        Err(e) => r is Err && r->Err_0@ == e,
    }
}

/// Whether a result of a plain value is as stated.
pub open spec fn equals<T>(r: Result<T>, s: Outcome<T>) -> bool {
    match s {
        Ok(v) => r is Ok && r->Ok_0 == v,
        Err(e) => r is Err && r->Err_0@ == e,
    }
}

/// A record that did not parse, as an error of the footer.
pub(crate) fn footer<T>(r: abi::Result<T>) -> (o: Result<T>)
    ensures
        match r {
            Ok(v) => o == Ok::<T, Error>(v),
            Err(e) => o is Err && o->Err_0@ == ErrorView::Footer(e),
        },
{
    match r {
        Ok(v) => Ok(v),
        Err(e) => Err(Error::Footer(e)),
    }
}

/// Bytes as a list of hexadecimal numbers, without the brackets.
pub open spec fn listed_text(s: Seq<u8>) -> Seq<char>
    decreases s.len(),
{
    if s.len() == 0 {
        Seq::empty()
    } else if s.len() == 1 {
        hex2_text(s[0])
    } else {
        listed_text(s.drop_last()) + ", "@ + hex2_text(s.last())
    }
}

/// Appends bytes as a list of hexadecimal numbers, without the brackets.
fn append_listed(out: &mut String, bytes: &Vec<u8>)
    ensures
        final(out)@ == old(out)@ + listed_text(bytes@),
{
    let mut i: usize = 0;
    assert(out@ =~= old(out)@ + listed_text(bytes@.take(0)));
    while i < bytes.len()
        invariant
            0 <= i <= bytes@.len(),
            out@ == old(out)@ + listed_text(bytes@.take(i as int)),
        decreases bytes@.len() - i,
    {
        if i > 0 {
            out.append(", ");
        }
        out.append(hex2(bytes[i]).as_str());
        i = i + 1;
        proof {
            let s = bytes@.take(i as int);
            assert(s.drop_last() =~= bytes@.take(i - 1));
            assert(s.last() == bytes@[i - 1]);
            assert(out@ =~= old(out)@ + listed_text(s));
        }
    }
    assert(bytes@.take(i as int) =~= bytes@);
}

/// The sentence an error prints as.
pub open spec fn error_text(e: ErrorView) -> Seq<char> {
    match e {
        ErrorView::NotAContainer { found, expected } => {
            "this is not an iris container: it starts with ["@ + listed_text(found)
                + "] and not ["@ + listed_text(expected) + "]"@
        },
        ErrorView::Truncated { what, needed, available } => "the container is truncated: "@ + what@
            + " needs "@ + decimal_text(needed as nat) + " bytes and there are "@ + decimal_text(
            available as nat,
        ),
        ErrorView::UnsupportedFormat { major, minor, supported_major } => {
            "this container is format "@ + decimal_text(major as nat) + "."@ + decimal_text(
                minor as nat,
            ) + " and this build reads format "@ + decimal_text(supported_major as nat) + ".x"@
        },
        ErrorView::Reserved { what } => "a reserved field in the "@ + what@
            + " is not zero, so this container uses something this build does not know about"@,
        ErrorView::SectionOutOfBounds { id, offset, end, file_len } => "section "@ + decimal_text(
            id as nat,
        ) + " covers bytes "@ + decimal_text(offset as nat) + ".."@ + decimal_text(end as nat)
            + " which is not inside the payload area of a "@ + decimal_text(file_len as nat)
            + " byte container"@,
        ErrorView::DuplicateSection { id } => "section id "@ + decimal_text(id as nat)
            + " is used twice, so a reference to it is ambiguous"@,
        ErrorView::MissingRecord(tag) => "the footer has no "@ + tag_text(tag) + " record"@,
        ErrorView::RepeatedRecord(tag) => "the footer has more than one "@ + tag_text(tag)
            + " record"@,
        ErrorView::UnsupportedRecord { tag, version } => "the footer has a "@ + tag_text(tag)
            + " record at version "@ + decimal_text(version as nat)
            + ", which this build does not read"@,
        ErrorView::DigestMismatch { what, expected, actual } => "the "@ + what
            + " digest does not match: the footer says "@ + expected + " and the bytes hash to "@
            + actual,
        ErrorView::Footer(e) => "the footer is malformed: "@ + abi::error::error_text(e),
        ErrorView::TooLarge { what, needed } => "the container declares "@ + decimal_text(
            needed as nat,
        ) + " bytes for "@ + what@ + ", which does not fit in this build's address space"@,
    }
}

impl Error {
    /// The sentence this error prints as.
    pub fn text(&self) -> (r: String)
        ensures
            r@ == error_text(self@),
    {
        match self {
            Error::NotAContainer { found, expected } => {
                let mut s = "this is not an iris container: it starts with [".to_owned();
                append_listed(&mut s, found);
                s.append("] and not [");
                append_listed(&mut s, expected);
                s.append("]");
                s
            },
            Error::Truncated { what, needed, available } => {
                let mut s = "the container is truncated: ".to_owned();
                s.append(what);
                s.append(" needs ");
                s.append(decimal(*needed).as_str());
                s.append(" bytes and there are ");
                s.append(decimal(*available).as_str());
                s
            },
            Error::UnsupportedFormat { major, minor, supported_major } => {
                let mut s = "this container is format ".to_owned();
                s.append(decimal(*major as u64).as_str());
                s.append(".");
                s.append(decimal(*minor as u64).as_str());
                s.append(" and this build reads format ");
                s.append(decimal(*supported_major as u64).as_str());
                s.append(".x");
                s
            },
            Error::Reserved { what } => {
                let mut s = "a reserved field in the ".to_owned();
                s.append(what);
                s.append(
                    " is not zero, so this container uses something this build does not know about",
                );
                s
            },
            Error::SectionOutOfBounds { id, offset, end, file_len } => {
                let mut s = "section ".to_owned();
                s.append(decimal(*id as u64).as_str());
                s.append(" covers bytes ");
                s.append(decimal(*offset).as_str());
                s.append("..");
                s.append(decimal(*end).as_str());
                s.append(" which is not inside the payload area of a ");
                s.append(decimal(*file_len).as_str());
                s.append(" byte container");
                s
            },
            Error::DuplicateSection { id } => {
                let mut s = "section id ".to_owned();
                s.append(decimal(*id as u64).as_str());
                s.append(" is used twice, so a reference to it is ambiguous");
                s
            },
            Error::MissingRecord(tag) => {
                let mut s = "the footer has no ".to_owned();
                s.append(tag.text().as_str());
                s.append(" record");
                s
            },
            Error::RepeatedRecord(tag) => {
                let mut s = "the footer has more than one ".to_owned();
                s.append(tag.text().as_str());
                s.append(" record");
                s
            },
            Error::UnsupportedRecord { tag, version } => {
                let mut s = "the footer has a ".to_owned();
                s.append(tag.text().as_str());
                s.append(" record at version ");
                s.append(decimal(*version as u64).as_str());
                s.append(", which this build does not read");
                s
            },
            Error::DigestMismatch { what, expected, actual } => {
                let mut s = "the ".to_owned();
                s.append(what.as_str());
                s.append(" digest does not match: the footer says ");
                s.append(expected.as_str());
                s.append(" and the bytes hash to ");
                s.append(actual.as_str());
                s
            },
            Error::Footer(e) => {
                let mut s = "the footer is malformed: ".to_owned();
                s.append(e.text().as_str());
                s
            },
            Error::TooLarge { what, needed } => {
                let mut s = "the container declares ".to_owned();
                s.append(decimal(*needed).as_str());
                s.append(" bytes for ");
                s.append(what);
                s.append(", which does not fit in this build's address space");
                s
            },
        }
    }
}

} // verus!
