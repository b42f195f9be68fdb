//! The decisions on the guest's side of the boundary.
//!
//! A guest serves a range out of the bytes the host sent up front when they hold it, and asks the host
//! for it otherwise. The calls to the host are made elsewhere.
use vstd::prelude::*;

use crate::abi::message::{RefusalReason, RefusalView};
use crate::abi::range::RangeStatus;
use crate::decoder::batch::{encoded, Batch};
use crate::decoder::error::{Error, Result};

verus! {

/// A length, narrowed for a call to the host.
#[must_use]
pub fn length(bytes: &[u8]) -> (r: u32)
    requires
        bytes@.len() <= u32::MAX,
    ensures
        r == bytes@.len(),
{
    bytes.len() as u32
}

/// Widens a length the host sent.
#[must_use]
pub fn size(len: u32) -> (r: usize)
    ensures
        r == len,
{
    len as usize
}

/// Packs an answer into one number: its address in the high half and its length in the low half.
///
/// An empty answer is zero.
#[must_use]
pub fn packed(address: u32, bytes: &[u8]) -> (r: u64)
    requires
        bytes@.len() <= u32::MAX,
    ensures
        bytes@.len() == 0 ==> r == 0,
        bytes@.len() > 0 ==> r == address * 0x1_0000_0000 + bytes@.len(),
{
    if bytes.len() == 0 {
        return 0;
    }
    address as u64 * 0x1_0000_0000 + length(bytes) as u64
}

/// An answer comes apart into the address and the length it was packed from.
pub proof fn lemma_packed_comes_apart(address: u32, len: u32)
    requires
        len > 0,
    ensures
        (address * 0x1_0000_0000 + len) / 0x1_0000_0000 == address,
        (address * 0x1_0000_0000 + len) % 0x1_0000_0000 == len as int,
        address * 0x1_0000_0000 + len != 0,
{
}

/// A source that reads what the host already sent and asks for the rest.
#[derive(Debug)]
pub struct HostSource<'a> {
    resident: &'a [u8],
}

/// What a range is found to be.
pub ghost enum Found {
    /// Inside the bytes the host sent.
    Here(Seq<u8>),
    /// To be asked for: this many bytes.
    Ask(usize),
    /// Longer than this target can address.
    TooLong,
}

/// Where a range is found.
///
/// The offset need not fit in this target's addresses: a range past them is never resident, and asking
/// the host for it is what a window over a large source is for.
pub open spec fn found(resident: Seq<u8>, offset: u64, len: u64) -> Found {
    if len > usize::MAX {
        Found::TooLong
    } else if offset + len <= resident.len() {
        Found::Here(resident.subrange(offset as int, offset + len))
    } else {
        Found::Ask(len as usize)
    }
}

impl<'a> View for HostSource<'a> {
    type V = Seq<u8>;

    closed spec fn view(&self) -> Seq<u8> {
        self.resident@
    }
}

impl<'a> HostSource<'a> {
    /// A source over whatever the host sent, which may be nothing.
    pub fn new(resident: &'a [u8]) -> (r: Self)
        ensures
            r@ == resident@,
    {
        HostSource { resident }
    }

    /// The bytes of a range if the host already sent them, or how many to ask it for.
    pub fn find(&self, offset: u64, len: u64) -> (r: Result<core::result::Result<&'a [u8], usize>>)
        ensures
            match found(self@, offset, len) {
                Found::Here(s) => r is Ok && r->Ok_0 is Ok && r->Ok_0->Ok_0@ == s,
                Found::Ask(n) => r is Ok && r->Ok_0 is Err && r->Ok_0->Err_0 == n,
                Found::TooLong => r is Err && r->Err_0@ == RefusalView::plain(
                    RefusalReason::MALFORMED,
                    "a range is longer than this target can address"@,
                ),
            },
    {
        if len > usize::MAX as u64 {
            return Err(Error::malformed("a range is longer than this target can address"));
        }
        let want: usize = len as usize;
        let held: usize = self.resident.len();
        if offset <= held as u64 && want <= held - offset as usize {
            let start: usize = offset as usize;
            return Ok(Ok(&self.resident[start..start + want]));
        }
        Ok(Err(want))
    }
}

/// What an answer to a request for a range comes to.
pub open spec fn served_as(status: RangeStatus) -> Option<RefusalView> {
    if status.0 == RangeStatus::SERVED {
        None
    } else if status.0 == RangeStatus::OUT_OF_BOUNDS {
        Some(
            RefusalView::plain(
                RefusalReason::MALFORMED,
                "a range runs off the end of the source"@,
            ),
        )
    } else if status.0 == RangeStatus::TOO_LARGE {
        Some(
            RefusalView::plain(
                RefusalReason::RESOURCE_LIMIT,
                "the host cannot serve a range that long in one request"@,
            ),
        )
    } else {
        Some(RefusalView::plain(RefusalReason::POLICY, "the host could not serve a range"@))
    }
}

/// Whether the bytes of a range arrived, and if not why.
///
/// A decoder can do something about a range that runs off the end or is too large for one request, so
/// those two are told apart from the rest.
pub fn served(status: RangeStatus) -> (r: Result<()>)
    ensures
        match served_as(status) {
            None => r is Ok,
            Some(e) => r is Err && r->Err_0@ == e,
        },
{
    if status.0 == RangeStatus::SERVED {
        Ok(())
    } else if status.0 == RangeStatus::OUT_OF_BOUNDS {
        Err(Error::malformed("a range runs off the end of the source"))
    } else if status.0 == RangeStatus::TOO_LARGE {
        Err(Error::resource_limit("the host cannot serve a range that long in one request"))
    } else {
        Err(Error::policy("the host could not serve a range"))
    }
}

/// A sink that hands each batch to the host as it is produced.
#[derive(Debug)]
pub struct HostSink {
    scratch: Vec<u8>,
}

impl View for HostSink {
    type V = Seq<u8>;

    closed spec fn view(&self) -> Seq<u8> {
        self.scratch@
    }
}

impl Default for HostSink {
    /// A sink that has not emitted anything yet.
    fn default() -> (r: Self)
        ensures
            r@ == Seq::<u8>::empty(),
    {
        HostSink::new()
    }
}

impl HostSink {
    /// A sink that has not emitted anything yet.
    #[must_use]
    pub fn new() -> (r: Self)
        ensures
            r@ == Seq::<u8>::empty(),
    {
        HostSink { scratch: Vec::new() }
    }

    /// The record of a batch, as the host is handed it. It stays in the sink until the next one.
    pub fn frame(&mut self, batch: &Batch) -> (r: Result<&[u8]>)
        requires
            batch@.wf(),
        ensures
            exists|addresses: Seq<u64>, out: Result<()>|
                {
                    &&& addresses.len() == batch@.buffers.len()
                    &&& #[trigger] encoded(batch@.entry(addresses), out, final(self)@)
                    &&& match out {
                        Ok(_) => r is Ok && r->Ok_0@ == final(self)@,
                        Err(e) => r is Err && r->Err_0 == e,
                    }
                },
    {
        let out = batch.record(&mut self.scratch);
        let ghost addresses = choose|addresses: Seq<u64>|
            {
                &&& addresses.len() == batch@.buffers.len()
                &&& #[trigger] encoded(batch@.entry(addresses), out, self.scratch@)
            };
        assert(encoded(batch@.entry(addresses), out, self@));
        match out {
            Ok(()) => Ok(self.scratch.as_slice()),
            Err(e) => Err(e),
        }
    }

    /// Whether the host took a batch, by the number it answered with.
    pub fn taken(status: u32) -> (r: Result<()>)
        ensures
            status == 0 ==> r is Ok,
            status != 0 ==> r is Err && r->Err_0@ == RefusalView::plain(
                RefusalReason::POLICY,
                "the host declined a batch"@,
            ),
    {
        if status == 0 {
            Ok(())
        } else {
            Err(Error::policy("the host declined a batch"))
        }
    }
}

} // verus!
