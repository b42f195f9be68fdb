//! One decoder, and the conversation it is having with a host.
//!
//! This is where every record a decoder deals with is read and written.
use vstd::prelude::*;

use crate::abi;
use crate::abi::caps::CapabilitySet;
use crate::abi::handshake::{negotiate, negotiated, Agreement};
use crate::abi::message::{
    Hello, HelloAck, HelloAckView, HelloView, Message, MessageView, Refusal, RefusalReason,
    RefusalView,
};
use crate::abi::record::Tag;
use crate::abi::wire::{Input, Reader, Writer, Wrote};
use crate::abi::{ABI_MAJOR, ABI_MINOR};
use crate::bytes::zeros;
use crate::decoder::batch::{
    encode_into, encoded, fresh, lemma_encoded, sendable, too_large, unsendable, RECORD_LIMIT,
};
use crate::decoder::error::{refusal_for, Error, Result};
use crate::decoder::session::{Request, RequestView, Session, SessionView};
use crate::decoder::source::{Decoder, Sink, Source};
use crate::format::frames::Entry;

verus! {

/// A decoder together with the buffers the host writes into and reads out of.
///
/// The host asks for an input buffer, writes a record into it, and asks the instance to act on it. The
/// answer is a record too, so there is no error channel beside it.
#[derive(Debug)]
pub struct Instance<D> {
    decoder: Option<D>,
    input: Vec<u8>,
    output: Vec<u8>,
}

/// What the record in the input buffer says when a decoder is to be opened.
pub open spec fn greeting(input: Seq<u8>) -> core::result::Result<(HelloView, u64), RefusalView> {
    let i = Input::over(input);
    match i.message().out {
        Err(e) => Err(refusal_for(e)),
        Ok(MessageView::Hello(_)) => {
            let (header, payload) = i.record().out->Ok_0;
            match HelloView::read_sized(header.version, Input::over(payload)).out {
                Err(e) => Err(refusal_for(e)),
                Ok(hello) => Ok(hello),
            }
        },
        Ok(_) => Err(
            RefusalView::plain(
                RefusalReason::UNSUPPORTED_RECORD,
                "a decoder expects a Hello before anything else"@,
            ),
        ),
    }
}

/// What the record in the input buffer asks for when a decoder is to scan.
pub open spec fn asked(input: Seq<u8>) -> core::result::Result<RequestView, RefusalView> {
    match Input::over(input).message().out {
        Err(e) => Err(refusal_for(e)),
        Ok(MessageView::ScanRequest(scan)) => if scan.flags != 0 {
            Err(
                RefusalView::plain(
                    RefusalReason::UNSUPPORTED_RECORD,
                    "a scan request set a flag this decoder does not know the meaning of"@,
                ),
            )
        } else {
            Ok(
                RequestView {
                    row_start: scan.row_start,
                    row_count: scan.row_count,
                    projection: scan.projection,
                    filter: scan.filter,
                },
            )
        },
        Ok(_) => Err(
            RefusalView::plain(
                RefusalReason::UNSUPPORTED_RECORD,
                "a decoder expects a ScanRequest here"@,
            ),
        ),
    }
}

/// What a scan before the decoder was opened is refused with.
pub open spec fn not_open() -> RefusalView {
    RefusalView::plain(
        RefusalReason::UNSUPPORTED_RECORD,
        "a scan arrived before the decoder was opened"@,
    )
}

/// The record of a refusal.
pub open spec fn refusal_entry(e: RefusalView) -> Entry {
    Entry { tag: Tag::REFUSAL, fields: e.fields() }
}

/// The record of an acknowledgement.
pub open spec fn ack_entry(ack: HelloAckView) -> Entry {
    Entry { tag: Tag::HELLO_ACK, fields: ack.fields() }
}

/// The answer that refuses: the record, or nothing if it is too large to be one.
pub open spec fn refused(e: RefusalView) -> Seq<u8> {
    if sendable(refusal_entry(e)) {
        refusal_entry(e).frame()
    } else {
        Seq::empty()
    }
}

/// Whether an answer acknowledges: the record, or a refusal if it is too large to be one.
pub open spec fn acknowledged(ack: HelloAckView, out: Seq<u8>) -> bool {
    if sendable(ack_entry(ack)) {
        out == ack_entry(ack).frame()
    } else {
        out == refused(unsendable(ack_entry(ack)))
    }
}

/// Whether an acknowledgement is what a decoder may tell a host of itself.
pub open spec fn told<D: Decoder>(ack: HelloAckView) -> bool {
    exists|name: &'static str, required: CapabilitySet, optional: CapabilitySet|
        {
            &&& #[trigger] call_ensures(D::name, (), name)
            &&& #[trigger] call_ensures(D::required, (), required)
            &&& #[trigger] call_ensures(D::optional, (), optional)
            &&& ack == (HelloAckView {
                abi_major: ABI_MAJOR,
                abi_minor: ABI_MINOR,
                required: required@,
                optional: optional@,
                decoder_id: name@,
            })
        }
}

impl<D> Default for Instance<D> {
    /// A decoder that has not been opened yet.
    fn default() -> (r: Self)
        ensures
            r.held() is None,
            r.written() == Seq::<u8>::empty(),
            r.answered() == Seq::<u8>::empty(),
    {
        Instance::new()
    }
}

impl<D> Instance<D> {
    /// The decoder, once it is open.
    pub closed spec fn held(&self) -> Option<D> {
        self.decoder
    }

    /// What is in the input buffer.
    pub closed spec fn written(&self) -> Seq<u8> {
        self.input@
    }

    /// What is in the output buffer.
    pub closed spec fn answered(&self) -> Seq<u8> {
        self.output@
    }

    /// A decoder that has not been opened yet.
    #[must_use]
    pub fn new() -> (r: Self)
        ensures
            r.held() is None,
            r.written() == Seq::<u8>::empty(),
            r.answered() == Seq::<u8>::empty(),
    {
        Instance { decoder: None, input: Vec::new(), output: Vec::new() }
    }

    /// Makes room for a record of `len` bytes and hands back where to put it.
    pub fn input(&mut self, len: usize) -> (r: &mut [u8])
        ensures
            r@ == zeros(len as nat),
            final(self).written() == final(r)@,
            final(self).held() == old(self).held(),
            final(self).answered() == old(self).answered(),
    {
        self.input = vec![0u8; len];
        assert(self.input@ =~= zeros(len as nat));
        self.input.as_mut_slice()
    }

    /// Whether the decoder has been opened.
    #[must_use]
    pub fn is_open(&self) -> (r: bool)
        ensures
            r == self.held() is Some,
    {
        self.decoder.is_some()
    }

    /// Puts a refusal in the output buffer.
    fn refuse(&mut self, err: Error)
        ensures
            final(self).answered() == refused(err@),
            final(self).held() == old(self).held(),
            final(self).written() == old(self).written(),
    {
        let refusal = err.as_refusal();
        let ghost e = refusal_entry(err@);
        let r = encode_into(
            &mut self.output,
            |w: &mut Writer<'_>| -> (b: abi::Result<()>)
                requires
                    w.wf(),
                ensures
                    (Wrote { out: b, to: final(w)@ }) == old(w)@.record(
                        Tag(Tag::REFUSAL),
                        1,
                        refusal@.fields(),
                    ),
                    final(w).wf()
                {
                    refusal.encode(w)
                },
        );
        proof {
            lemma_encoded(e);
            assert(encoded(e, r, self.output@));
        }
    }

    /// Puts the answer to a greeting in the output buffer: an acknowledgement if the decoder opened and
    /// a refusal if it did not.
    pub fn answer(&mut self, outcome: Result<HelloAck<'static>>) -> (r: &[u8])
        ensures
            match outcome {
                Ok(ack) => acknowledged(ack@, r@),
                Err(e) => r@ == refused(e@),
            },
            final(self).answered() == r@,
            final(self).held() == old(self).held(),
            final(self).written() == old(self).written(),
    {
        match outcome {
            Ok(ack) => {
                let ghost e = ack_entry(ack@);
                let done = encode_into(
                    &mut self.output,
                    |w: &mut Writer<'_>| -> (b: abi::Result<()>)
                        requires
                            w.wf(),
                        ensures
                            (Wrote { out: b, to: final(w)@ }) == old(w)@.record(
                                Tag(Tag::HELLO_ACK),
                                1,
                                ack@.fields(),
                            ),
                            final(w).wf()
                        {
                            ack.encode(w)
                        },
                );
                proof {
                    lemma_encoded(e);
                    assert(encoded(e, done, self.output@));
                }
                if let Err(err) = done {
                    self.refuse(err);
                }
            },
            Err(err) => {
                self.refuse(err);
            },
        }
        self.output.as_slice()
    }

    /// Puts the answer to a scan in the output buffer: nothing if it finished and a refusal if it did
    /// not.
    pub fn finish(&mut self, outcome: Result<()>) -> (r: &[u8])
        ensures
            match outcome {
                Ok(_) => r@ == Seq::<u8>::empty(),
                Err(e) => r@ == refused(e@),
            },
            final(self).answered() == r@,
            final(self).held() == old(self).held(),
            final(self).written() == old(self).written(),
    {
        match outcome {
            Ok(()) => {
                self.output.clear();
                assert(self.output@ =~= Seq::<u8>::empty());
            },
            Err(err) => {
                self.refuse(err);
            },
        }
        self.output.as_slice()
    }
}

/// Reads the greeting in an input buffer.
fn read_greeting(input: &[u8]) -> (r: Result<(Hello, u64)>)
    ensures
        match greeting(input@) {
            Ok((hello, n)) => r is Ok && r->Ok_0.0@ == hello && r->Ok_0.1 == n,
            Err(e) => r is Err && r->Err_0@ == e,
        },
{
    let mut reader = Reader::new(input);
    match reader.message() {
        Err(err) => Err(Error::from_abi(err)),
        Ok(Message::Hello(_)) => {
            let mut again = Reader::new(input);
            match again.record() {
                Err(err) => Err(Error::from_abi(err)),
                Ok((header, mut payload)) => match Hello::decode_sized(
                    header.version,
                    &mut payload,
                ) {
                    Err(err) => Err(Error::from_abi(err)),
                    Ok(hello) => Ok(hello),
                },
            }
        },
        Ok(_) => Err(
            Error::new(
                RefusalReason(RefusalReason::UNSUPPORTED_RECORD),
                "a decoder expects a Hello before anything else",
            ),
        ),
    }
}

/// Reads the request in an input buffer.
fn read_request<'a>(input: &'a [u8]) -> (r: Result<Request<'a>>)
    ensures
        match asked(input@) {
            Ok(request) => r is Ok && r->Ok_0@ == request,
            Err(e) => r is Err && r->Err_0@ == e,
        },
{
    let mut reader = Reader::new(input);
    match reader.message() {
        Err(err) => Err(Error::from_abi(err)),
        Ok(Message::ScanRequest(scan)) => {
            if scan.flags != 0 {
                return Err(
                    Error::new(
                        RefusalReason(RefusalReason::UNSUPPORTED_RECORD),
                        "a scan request set a flag this decoder does not know the meaning of",
                    ),
                );
            }
            Ok(Request::new(scan.row_start, scan.row_count, scan.projection, scan.filter))
        },
        Ok(_) => Err(
            Error::new(
                RefusalReason(RefusalReason::UNSUPPORTED_RECORD),
                "a decoder expects a ScanRequest here",
            ),
        ),
    }
}

impl<D: Decoder> Instance<D> {
    /// Reads the host's `Hello` out of the input buffer and answers it.
    ///
    /// Both sides run the negotiation. The decoder does because it is the side that knows what its own
    /// refusal means, and can say so before it has touched a byte of the source.
    pub fn start<S: Source>(&mut self, source: &mut S) -> (r: &[u8])
        ensures
            match greeting(old(self).written()) {
                Err(e) => {
                    &&& r@ == refused(e)
                    &&& final(self).held() == old(self).held()
                    &&& *final(source) == *old(source)
                },
                Ok((hello, source_bytes)) => exists|
                    ack: HelloAckView,
                    n: core::result::Result<Agreement, RefusalView>,
                |
                    {
                        &&& told::<D>(ack)
                        &&& #[trigger] negotiated(hello, ack, n)
                        &&& match n {
                            Err(e) => {
                                &&& r@ == refused(e)
                                &&& final(self).held() == old(self).held()
                                &&& *final(source) == *old(source)
                            },
                            Ok(agreement) => exists|session: Session, from: &mut S, o: Result<D>|
                                {
                                    &&& session@ == (SessionView { agreement, source_bytes })
                                    &&& *from == *old(source)
                                    &&& #[trigger] call_ensures(D::open::<S>, (&session, from), o)
                                    &&& *final(from) == *final(source)
                                    &&& match o {
                                        Ok(d) => acknowledged(ack, r@) && final(self).held() == Some(d),
                                        Err(e) => r@ == refused(e@) && final(self).held() == old(self).held(),
                                    }
                                },
                        }
                    },
            },
            final(self).answered() == r@,
            final(self).written() == old(self).written(),
    {
        let outcome = self.open(source);
        self.answer(outcome)
    }

    /// Reads the host's `ScanRequest` out of the input buffer and runs it.
    ///
    /// Batches go to the sink as they are produced. The answer is empty when the scan finished and a
    /// `Refusal` when it did not.
    pub fn scan<S: Source, K: Sink>(&mut self, source: &mut S, sink: &mut K) -> (r: &[u8])
        ensures
            match asked(old(self).written()) {
                Err(e) => {
                    &&& r@ == refused(e)
                    &&& final(self).held() == old(self).held()
                    &&& *final(source) == *old(source)
                    &&& *final(sink) == *old(sink)
                },
                Ok(request) => if old(self).held() is None {
                    &&& r@ == refused(not_open())
                    &&& final(self).held() is None
                    &&& *final(source) == *old(source)
                    &&& *final(sink) == *old(sink)
                } else {
                    exists|q: Request<'_>, o: Result<()>, d: &mut D, from: &mut S, to: &mut K|
                        {
                            &&& q@ == request
                            &&& *d == old(self).held()->Some_0
                            &&& *from == *old(source)
                            &&& *to == *old(sink)
                            &&& #[trigger] call_ensures(D::scan::<S, K>, (d, &q, from, to), o)
                            &&& final(self).held() == Some(*final(d))
                            &&& *final(from) == *final(source)
                            &&& *final(to) == *final(sink)
                            &&& match o {
                                Ok(_) => r@ == Seq::<u8>::empty(),
                                Err(e) => r@ == refused(e@),
                            }
                        }
                },
            },
            final(self).answered() == r@,
            final(self).written() == old(self).written(),
    {
        let outcome = self.run(source, sink);
        self.finish(outcome)
    }

    fn open<S: Source>(&mut self, source: &mut S) -> (r: Result<HelloAck<'static>>)
        ensures
            match greeting(old(self).written()) {
                Err(e) => {
                    &&& r is Err && r->Err_0@ == e
                    &&& final(self).held() == old(self).held()
                    &&& *final(source) == *old(source)
                },
                Ok((hello, source_bytes)) => exists|
                    ack: HelloAckView,
                    n: core::result::Result<Agreement, RefusalView>,
                |
                    {
                        &&& told::<D>(ack)
                        &&& #[trigger] negotiated(hello, ack, n)
                        &&& match n {
                            Err(e) => {
                                &&& r is Err && r->Err_0@ == e
                                &&& final(self).held() == old(self).held()
                                &&& *final(source) == *old(source)
                            },
                            Ok(agreement) => exists|session: Session, from: &mut S, o: Result<D>|
                                {
                                    &&& session@ == (SessionView { agreement, source_bytes })
                                    &&& *from == *old(source)
                                    &&& #[trigger] call_ensures(D::open::<S>, (&session, from), o)
                                    &&& *final(from) == *final(source)
                                    &&& match o {
                                        Ok(d) => r is Ok && r->Ok_0@ == ack && final(self).held() == Some(d),
                                        Err(e) => r is Err && r->Err_0@ == e@ && final(self).held()
                                            == old(self).held(),
                                    }
                                },
                        }
                    },
            },
            final(self).written() == old(self).written(),
    {
        let (hello, source_bytes) = read_greeting(self.input.as_slice())?;
        let ack = HelloAck {
            abi_major: ABI_MAJOR,
            abi_minor: ABI_MINOR,
            required: D::required(),
            optional: D::optional(),
            decoder_id: D::name(),
        };
        assert(told::<D>(ack@));
        match negotiate(&hello, &ack) {
            Err(refusal) => {
                assert(negotiated(hello@, ack@, Err(refusal@)));
                Err(Error::from_refusal(refusal))
            },
            Ok(agreement) => {
                assert(negotiated(hello@, ack@, Ok(agreement)));
                let session = Session::new(agreement, source_bytes);
                let o = D::open(&session, source);
                match o {
                    Ok(decoder) => {
                        self.decoder = Some(decoder);
                        Ok(ack)
                    },
                    Err(err) => Err(err),
                }
            },
        }
    }

    fn run<S: Source, K: Sink>(&mut self, source: &mut S, sink: &mut K) -> (r: Result<()>)
        ensures
            match asked(old(self).written()) {
                Err(e) => {
                    &&& r is Err && r->Err_0@ == e
                    &&& final(self).held() == old(self).held()
                    &&& *final(source) == *old(source)
                    &&& *final(sink) == *old(sink)
                },
                Ok(request) => if old(self).held() is None {
                    &&& r is Err && r->Err_0@ == not_open()
                    &&& final(self).held() is None
                    &&& *final(source) == *old(source)
                    &&& *final(sink) == *old(sink)
                } else {
                    exists|q: Request<'_>, d: &mut D, from: &mut S, to: &mut K|
                        {
                            &&& q@ == request
                            &&& *d == old(self).held()->Some_0
                            &&& *from == *old(source)
                            &&& *to == *old(sink)
                            &&& #[trigger] call_ensures(D::scan::<S, K>, (d, &q, from, to), r)
                            &&& final(self).held() == Some(*final(d))
                            &&& *final(from) == *final(source)
                            &&& *final(to) == *final(sink)
                        }
                },
            },
            final(self).written() == old(self).written(),
    {
        let request = read_request(self.input.as_slice())?;
        match &mut self.decoder {
            None => Err(
                Error::new(
                    RefusalReason(RefusalReason::UNSUPPORTED_RECORD),
                    "a scan arrived before the decoder was opened",
                ),
            ),
            Some(decoder) => {
                decoder.scan(&request, source, sink)
            },
        }
    }
}

/// Writes a record into a fresh buffer.
pub fn record<F: Fn(&mut Writer<'_>) -> abi::Result<()>>(body: F) -> (r: Result<Vec<u8>>)
    requires
        forall|w: &mut Writer<'_>| w.wf() ==> call_requires(body, (w,)),
        forall|w: &mut Writer<'_>, b: abi::Result<()>|
            w.wf() && #[trigger] call_ensures(body, (w,), b) ==> final(w).wf(),
    ensures
        r is Ok ==> exists|w: &mut Writer<'_>, b: abi::Result<()>|
            {
                &&& fresh(w@)
                &&& #[trigger] call_ensures(body, (w,), b)
                &&& b is Ok
                &&& r->Ok_0@ == final(w)@.written()
            },
        r is Err ==> exists|w: &mut Writer<'_>, e: abi::Error|
            {
                &&& fresh(w@)
                &&& #[trigger] call_ensures(body, (w,), Err(e))
                &&& e is BufferFull ==> w@.bytes.len() == RECORD_LIMIT && r->Err_0@ == too_large()
                &&& !(e is BufferFull) ==> r->Err_0@ == refusal_for(e)
            },
{
    let mut out: Vec<u8> = Vec::new();
    encode_into(&mut out, body)?;
    Ok(out)
}

} // verus!
