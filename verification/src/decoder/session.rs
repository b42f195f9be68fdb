//! What the host and the decoder settled on, and what the host is asking for.
use vstd::prelude::*;

use crate::abi::caps::Capability;
use crate::abi::handshake::Agreement;
use crate::abi::message::{indices, Projection};

verus! {

/// What the two sides agreed on when the decoder was opened.
#[derive(Clone, Copy, PartialEq, Eq, Debug)]
pub struct Session {
    agreement: Agreement,
    source_bytes: u64,
}

/// What a [`Session`] holds.
pub ghost struct SessionView {
    /// What was agreed.
    pub agreement: Agreement,
    /// How large the source is, or zero.
    pub source_bytes: u64,
}

impl View for Session {
    type V = SessionView;

    closed spec fn view(&self) -> SessionView {
        SessionView { agreement: self.agreement, source_bytes: self.source_bytes }
    }
}

impl Session {
    /// Wraps a negotiated agreement.
    #[must_use]
    pub fn new(agreement: Agreement, source_bytes: u64) -> (r: Self)
        ensures
            r@ == (SessionView { agreement, source_bytes }),
    {
        Session { agreement, source_bytes }
    }

    /// Whether a capability is in force.
    #[must_use]
    pub fn has(&self, capability: Capability) -> (r: bool)
        ensures
            r == self@.agreement.agreed@.has(capability),
    {
        self.agreement.has(capability)
    }

    /// How many bytes of the source the host will keep visible at once, or zero for all of them.
    #[must_use]
    pub fn window_bytes(&self) -> (r: u64)
        ensures
            r == self@.agreement.window_bytes,
    {
        self.agreement.window_bytes
    }

    /// The largest number of rows the host will ask for in one scan.
    #[must_use]
    pub fn max_batch_rows(&self) -> (r: u64)
        ensures
            r == self@.agreement.max_batch_rows,
    {
        self.agreement.max_batch_rows
    }

    /// How many bytes the whole source has, or zero if the host did not say.
    #[must_use]
    pub fn source_bytes(&self) -> (r: u64)
        ensures
            r == self@.source_bytes,
    {
        self.source_bytes
    }

    /// The minor version both sides settled on.
    #[must_use]
    pub fn abi_minor(&self) -> (r: u16)
        ensures
            r == self@.agreement.abi_minor,
    {
        self.agreement.abi_minor
    }
}

/// What the host is asking for on one scan.
#[derive(Clone, Copy, PartialEq, Eq, Debug)]
pub struct Request<'a> {
    row_start: u64,
    row_count: u64,
    projection: Projection<'a>,
    filter: &'a [u8],
}

/// What a [`Request`] holds.
pub ghost struct RequestView {
    /// The first row.
    pub row_start: u64,
    /// How many rows.
    pub row_count: u64,
    /// The columns, encoded.
    pub projection: Seq<u8>,
    /// The filter.
    pub filter: Seq<u8>,
}

impl<'a> View for Request<'a> {
    type V = RequestView;

    closed spec fn view(&self) -> RequestView {
        RequestView {
            row_start: self.row_start,
            row_count: self.row_count,
            projection: self.projection@,
            filter: self.filter@,
        }
    }
}

impl<'a> Request<'a> {
    /// Wraps the fields of a scan request.
    #[must_use]
    pub fn new(
        row_start: u64,
        row_count: u64,
        projection: Projection<'a>,
        filter: &'a [u8],
    ) -> (r: Self)
        ensures
            r@ == (RequestView {
                row_start,
                row_count,
                projection: projection@,
                filter: filter@,
            }),
    {
        Request { row_start, row_count, projection, filter }
    }

    /// The first row wanted, counting from zero.
    #[must_use]
    pub fn row_start(&self) -> (r: u64)
        ensures
            r == self@.row_start,
    {
        self.row_start
    }

    /// How many rows are wanted. [`u64::MAX`] means everything from [`Request::row_start`] on.
    #[must_use]
    pub fn row_count(&self) -> (r: u64)
        ensures
            r == self@.row_count,
    {
        self.row_count
    }

    /// Which columns are wanted, or `None` for all of them.
    ///
    /// An empty projection means every column, and a decoder that took it for a list would produce an
    /// empty batch.
    #[must_use]
    pub fn columns(&self) -> (r: Option<Vec<u32>>)
        ensures
            self@.projection.len() == 0 ==> r is None,
            self@.projection.len() > 0 ==> r is Some && r->Some_0@ == indices(self@.projection),
    {
        if self.projection.is_empty() {
            None
        } else {
            Some(self.projection.iter())
        }
    }

    /// The filter the host pushed down. Empty means no filter.
    #[must_use]
    pub fn filter(&self) -> (r: &'a [u8])
        ensures
            r@ == self@.filter,
    {
        self.filter
    }
}

} // verus!
