//! The trait a decoder implements, and the two things it talks to.
use vstd::prelude::*;

use crate::abi::caps::{CapabilitySet, Caps};
use crate::abi::message::{RefusalReason, RefusalView};
use crate::decoder::batch::Batch;
use crate::decoder::error::{Error, Result};
use crate::decoder::session::{Request, Session};

verus! {

/// Where a decoder gets bytes of the source.
///
/// A range is borrowed from the source, so one range cannot be held while asking for another. Once the
/// host slides a window, the bytes behind an earlier range may not be there any more.
pub trait Source {
    /// Asks for `len` bytes starting at `offset` in the source.
    fn range(&mut self, offset: u64, len: u64) -> (r: Result<&[u8]>);
}

/// A source whose bytes are all here already.
#[derive(Clone, Copy, PartialEq, Eq, Debug)]
pub struct Resident<'a> {
    bytes: &'a [u8],
}

impl<'a> View for Resident<'a> {
    type V = Seq<u8>;

    closed spec fn view(&self) -> Seq<u8> {
        self.bytes@
    }
}

/// What a range of some bytes is, or why there is none.
pub open spec fn range_of(
    bytes: Seq<u8>,
    offset: u64,
    len: u64,
) -> core::result::Result<Seq<u8>, RefusalView> {
    if offset > usize::MAX {
        Err(
            RefusalView::plain(
                RefusalReason::MALFORMED,
                "a range starts past what this target can address"@,
            ),
        )
    } else if len > usize::MAX {
        Err(
            RefusalView::plain(
                RefusalReason::MALFORMED,
                "a range is longer than this target can address"@,
            ),
        )
    } else if offset + len > usize::MAX {
        Err(
            RefusalView::plain(
                RefusalReason::MALFORMED,
                "a range's offset and length overflow"@,
            ),
        )
    } else if offset + len > bytes.len() {
        Err(
            RefusalView::plain(
                RefusalReason::MALFORMED,
                "a range runs off the end of the source"@,
            ),
        )
    } else {
        Ok(bytes.subrange(offset as int, offset + len))
    }
}

impl<'a> Resident<'a> {
    /// Serves ranges out of a slice.
    #[must_use]
    pub fn new(bytes: &'a [u8]) -> (r: Self)
        ensures
            r@ == bytes@,
    {
        Resident { bytes }
    }

    /// How many bytes there are.
    #[must_use]
    pub fn len(&self) -> (r: usize)
        ensures
            r == self@.len(),
    {
        self.bytes.len()
    }

    /// Whether there are no bytes at all.
    #[must_use]
    pub fn is_empty(&self) -> (r: bool)
        ensures
            r == (self@.len() == 0),
    {
        self.bytes.len() == 0
    }
}

impl<'a> Source for Resident<'a> {
    /// The bytes at a range, if it lies inside the source.
    fn range(&mut self, offset: u64, len: u64) -> (r: Result<&[u8]>)
        ensures
            match range_of(old(self)@, offset, len) {
                Ok(s) => r is Ok && r->Ok_0@ == s,
                Err(e) => r is Err && r->Err_0@ == e,
            },
            final(self)@ == old(self)@,
    {
        if offset > usize::MAX as u64 {
            return Err(Error::malformed("a range starts past what this target can address"));
        }
        if len > usize::MAX as u64 {
            return Err(Error::malformed("a range is longer than this target can address"));
        }
        let start: usize = offset as usize;
        let n: usize = len as usize;
        if n > usize::MAX - start {
            return Err(Error::malformed("a range's offset and length overflow"));
        }
        if start + n > self.bytes.len() {
            return Err(Error::malformed("a range runs off the end of the source"));
        }
        Ok(&self.bytes[start..start + n])
    }
}

/// Where a decoder puts the rows it has decoded.
pub trait Sink {
    /// Hands one batch to the host. The batch is borrowed, so a decoder can keep one and reuse it.
    fn emit(&mut self, batch: &Batch) -> (r: Result<()>)
        requires
            batch@.wf(),
    ;
}

/// A decoder.
pub trait Decoder: Sized {
    /// A name for this decoder, for messages. Nothing interprets it.
    fn name() -> (r: &'static str);

    /// What the decoder cannot run without.
    ///
    /// If the host does not offer all of these, the two sides stop before [`Decoder::open`] is called.
    fn required() -> (r: CapabilitySet)
        default_ensures
            r@ == Caps::of(Seq::empty()),
    {
        CapabilitySet::new()
    }

    /// What the decoder will use if the host has it and do without if it does not.
    fn optional() -> (r: CapabilitySet)
        default_ensures
            r@ == Caps::of(Seq::empty()),
    {
        CapabilitySet::new()
    }

    /// Called once, after the two sides have agreed on what they can both do.
    fn open<S: Source>(session: &Session, source: &mut S) -> (r: Result<Self>);

    /// Decodes the rows the host asked for, handing them to the sink a batch at a time.
    ///
    /// Emitting nothing is how a decoder says the rows are past the end of the source.
    fn scan<S: Source, K: Sink>(&mut self, request: &Request<'_>, source: &mut S, sink: &mut K) -> (r:
        Result<()>);
}

} // verus!
