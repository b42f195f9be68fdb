//! The records themselves.
//!
//! Each record has a fixed-width part and then a variable-length part, and new fields go on the end.
//! A reader reads what it knows and stops; the framing tells it where the record ended. The version
//! of a record goes up only when a field is removed or changes meaning.
use vstd::prelude::*;
use vstd::string::*;
use vstd::utf8::encode_utf8;

use crate::abi::caps::{Capability, CapabilitySet, Caps};
use crate::abi::error::{Error, Result};
use crate::abi::record::{Header, Tag};
use crate::abi::roundtrip::{lemma_batch_round_trip, lemma_scan_round_trip};
use crate::abi::wire::{
    agrees, lemma_run_is_flat, group_run_push, Input, Op, Reader, Step, Writer, Wrote,
};
use crate::bytes::{le, le_bytes, u32_of, u64_of};
use crate::text::{decimal, decimal_text};

verus! {

/// The first writes of a list.
pub open spec fn fields() -> Seq<Op> {
    Seq::<Op>::empty()
}

/// A number of two bytes.
pub open spec fn two(v: u16) -> Op {
    Op::Raw(le_bytes(v as nat, 2))
}

/// A number of four bytes.
pub open spec fn four(v: u32) -> Op {
    Op::Raw(le_bytes(v as nat, 4))
}

/// A number of eight bytes.
pub open spec fn eight(v: u64) -> Op {
    Op::Raw(le_bytes(v as nat, 8))
}

/// The host introducing itself.
#[derive(Clone, Copy, PartialEq, Eq, Debug)]
pub struct Hello {
    /// The major version the host speaks. A mismatch here is fatal.
    pub abi_major: u16,
    /// The minor version the host speaks. A mismatch here is not.
    pub abi_minor: u16,
    /// How many bytes of the source the host keeps visible at once, or zero for all of it.
    pub window_bytes: u64,
    /// The largest number of rows the host will ask for in one scan request.
    pub max_batch_rows: u64,
    /// What the host can do.
    pub offered: CapabilitySet,
}

/// What a [`Hello`] says.
pub ghost struct HelloView {
    /// The major version.
    pub abi_major: u16,
    /// The minor version.
    pub abi_minor: u16,
    /// The window.
    pub window_bytes: u64,
    /// The largest batch.
    pub max_batch_rows: u64,
    /// What is offered.
    pub offered: Caps,
}

impl View for Hello {
    type V = HelloView;

    open spec fn view(&self) -> HelloView {
        HelloView {
            abi_major: self.abi_major,
            abi_minor: self.abi_minor,
            window_bytes: self.window_bytes,
            max_batch_rows: self.max_batch_rows,
            offered: self.offered@,
        }
    }
}

impl HelloView {
    /// The fields, as they lie in the payload.
    pub open spec fn fields(self) -> Seq<Op> {
        fields()
            .push(two(self.abi_major))
            .push(two(self.abi_minor))
            .push(four(0))
            .push(eight(self.window_bytes))
            .push(eight(self.max_batch_rows))
            .push(Op::Var(self.offered.wire()))
    }

    /// The fields, and the size of the source appended to them.
    pub open spec fn sized_fields(self, source_bytes: u64) -> Seq<Op> {
        self.fields().push(eight(source_bytes))
    }

    /// What a payload holds.
    pub open spec fn read(version: u16, i: Input) -> Step<HelloView> {
        let known = known_version(Tag(Tag::HELLO), version);
        if known is Err {
            Step { out: Err(known->Err_0), at: i.at }
        } else {
            Self::read_fields(i)
        }
    }

    /// The fields a payload holds.
    pub open spec fn read_fields(i: Input) -> Step<HelloView> {
        let a = i.u16();
        if a.out is Err {
            a.fail()
        } else {
            let b = i.to(a.at).u16();
            if b.out is Err {
                b.fail()
            } else {
                let z = i.to(b.at).skip(4);
                if z.out is Err {
                    z.fail()
                } else {
                    let c = i.to(z.at).u64();
                    if c.out is Err {
                        c.fail()
                    } else {
                        let d = i.to(c.at).u64();
                        if d.out is Err {
                            d.fail()
                        } else {
                            let e = i.to(d.at).capability_set();
                            if e.out is Err {
                                e.fail()
                            } else {
                                Step {
                            out: Ok(
                                HelloView {
                                    abi_major: a.out->Ok_0,
                                    abi_minor: b.out->Ok_0,
                                    window_bytes: c.out->Ok_0,
                                    max_batch_rows: d.out->Ok_0,
                                    offered: e.out->Ok_0,
                                },
                            ),
                            at: e.at,
                        }
                            }
                        }
                    }
                }
            }
        }
    }

    /// What a payload holds, with the size of the source after it. A writer that predates that field
    /// leaves it zero.
    pub open spec fn read_sized(version: u16, i: Input) -> Step<(HelloView, u64)> {
        let h = Self::read(version, i);
        if h.out is Err {
            h.fail()
        } else {
            let n = i.to(h.at).opt_u64();
            if n.out is Err {
                n.fail()
            } else {
                Step {
                    out: Ok(
                        (
                            h.out->Ok_0,
                            match n.out->Ok_0 {
                                Some(v) => v,
                                None => 0,
                            },
                        ),
                    ),
                    at: n.at,
                }
            }
        }
    }
}

impl Hello {
    /// The layout version of this record.
    pub const VERSION: u16 = 1;

    /// Writes the record.
    pub fn encode<'w>(&self, w: &mut Writer<'w>) -> (r: Result<()>)
        requires
            old(w).wf(),
        ensures
            (Wrote { out: r, to: final(w)@ }) == old(w)@.record(
                Tag(Tag::HELLO),
                Hello::VERSION,
                self@.fields(),
            ),
            final(w).wf(),
            final(final(w).buf)@ == final(old(w).buf)@,
    {
        w.record(
            Tag(Tag::HELLO),
            Hello::VERSION,
            |w: &mut Writer<'w>| -> (b: Result<()>)
                requires
                    w.wf(),
                ensures
                    (Wrote { out: b, to: final(w)@ }) == old(w)@.run(self@.fields()),
                    final(w).wf(),
                    final(w)@.bytes.len() == old(w)@.bytes.len(),
                    final(w)@.at >= old(w)@.at,
                    final(final(w).buf)@ == final(old(w).buf)@
                {
                    broadcast use group_run_push;

                    proof {
                        lemma_run_is_flat(w@, self@.fields(), 0);
                    }
                    w.u16(self.abi_major)?;
                    w.u16(self.abi_minor)?;
                    w.u32(0)?;
                    w.u64(self.window_bytes)?;
                    w.u64(self.max_batch_rows)?;
                    w.var_bytes(self.offered.as_bytes())
                },
        )
    }

    /// Writes the record with the size of the source appended, which an older reader steps over.
    pub fn encode_sized<'w>(&self, source_bytes: u64, w: &mut Writer<'w>) -> (r: Result<()>)
        requires
            old(w).wf(),
        ensures
            (Wrote { out: r, to: final(w)@ }) == old(w)@.record(
                Tag(Tag::HELLO),
                Hello::VERSION,
                self@.sized_fields(source_bytes),
            ),
            final(w).wf(),
            final(final(w).buf)@ == final(old(w).buf)@,
    {
        w.record(
            Tag(Tag::HELLO),
            Hello::VERSION,
            |w: &mut Writer<'w>| -> (b: Result<()>)
                requires
                    w.wf(),
                ensures
                    (Wrote { out: b, to: final(w)@ }) == old(w)@.run(self@.sized_fields(source_bytes)),
                    final(w).wf(),
                    final(w)@.bytes.len() == old(w)@.bytes.len(),
                    final(w)@.at >= old(w)@.at,
                    final(final(w).buf)@ == final(old(w).buf)@
                {
                    broadcast use group_run_push;

                    proof {
                        lemma_run_is_flat(w@, self@.sized_fields(source_bytes), 0);
                    }
                    w.u16(self.abi_major)?;
                    w.u16(self.abi_minor)?;
                    w.u32(0)?;
                    w.u64(self.window_bytes)?;
                    w.u64(self.max_batch_rows)?;
                    w.var_bytes(self.offered.as_bytes())?;
                    w.u64(source_bytes)
                },
        )
    }

    /// Reads the record from its payload.
    pub fn decode(version: u16, p: &mut Reader<'_>) -> (r: Result<Self>)
        requires
            old(p).wf(),
        ensures
            agrees(r, HelloView::read(version, old(p)@).out),
            final(p)@ == old(p)@.to(HelloView::read(version, old(p)@).at),
            final(p).wf(),
    {
        expect_version(Tag(Tag::HELLO), version)?;
        let abi_major: u16 = p.u16()?;
        let abi_minor: u16 = p.u16()?;
        p.skip(4)?;
        let window_bytes: u64 = p.u64()?;
        let max_batch_rows: u64 = p.u64()?;
        let offered = p.capability_set()?;
        Ok(Hello { abi_major, abi_minor, window_bytes, max_batch_rows, offered })
    }

    /// Reads the record and the size of the source behind it, which is zero when the writer predates
    /// the field.
    pub fn decode_sized(version: u16, p: &mut Reader<'_>) -> (r: Result<(Self, u64)>)
        requires
            old(p).wf(),
        ensures
            match HelloView::read_sized(version, old(p)@).out {
                Ok((hello, n)) => r is Ok && r->Ok_0.0@ == hello && r->Ok_0.1 == n,
                Err(e) => r is Err && r->Err_0 == e,
            },
            final(p)@ == old(p)@.to(HelloView::read_sized(version, old(p)@).at),
            final(p).wf(),
    {
        let hello = Hello::decode(version, p)?;
        match p.opt_u64()? {
            Some(n) => Ok((hello, n)),
            None => Ok((hello, 0)),
        }
    }
}

/// The decoder answering the host.
#[derive(Clone, Copy, PartialEq, Eq, Debug)]
pub struct HelloAck<'a> {
    /// The major version the decoder was built against.
    pub abi_major: u16,
    /// The minor version the decoder was built against.
    pub abi_minor: u16,
    /// What the decoder cannot run without.
    pub required: CapabilitySet,
    /// What the decoder will use if it is there and do without if it is not.
    pub optional: CapabilitySet,
    /// A name for the decoder, for messages. Not interpreted.
    pub decoder_id: &'a str,
}

/// What a [`HelloAck`] says.
pub ghost struct HelloAckView {
    /// The major version.
    pub abi_major: u16,
    /// The minor version.
    pub abi_minor: u16,
    /// What is required.
    pub required: Caps,
    /// What is optional.
    pub optional: Caps,
    /// The name.
    pub decoder_id: Seq<char>,
}

impl<'a> View for HelloAck<'a> {
    type V = HelloAckView;

    open spec fn view(&self) -> HelloAckView {
        HelloAckView {
            abi_major: self.abi_major,
            abi_minor: self.abi_minor,
            required: self.required@,
            optional: self.optional@,
            decoder_id: self.decoder_id@,
        }
    }
}

impl HelloAckView {
    /// The fields, as they lie in the payload.
    pub open spec fn fields(self) -> Seq<Op> {
        fields()
            .push(two(self.abi_major))
            .push(two(self.abi_minor))
            .push(four(0))
            .push(Op::Var(self.required.wire()))
            .push(Op::Var(self.optional.wire()))
            .push(Op::Var(encode_utf8(self.decoder_id)))
    }

    /// What a payload holds.
    pub open spec fn read(version: u16, i: Input) -> Step<HelloAckView> {
        let known = known_version(Tag(Tag::HELLO_ACK), version);
        if known is Err {
            Step { out: Err(known->Err_0), at: i.at }
        } else {
            Self::read_fields(i)
        }
    }

    /// The fields a payload holds.
    pub open spec fn read_fields(i: Input) -> Step<HelloAckView> {
        let a = i.u16();
        if a.out is Err {
            a.fail()
        } else {
            let b = i.to(a.at).u16();
            if b.out is Err {
                b.fail()
            } else {
                let z = i.to(b.at).skip(4);
                if z.out is Err {
                    z.fail()
                } else {
                    let c = i.to(z.at).capability_set();
                    if c.out is Err {
                        c.fail()
                    } else {
                        let d = i.to(c.at).capability_set();
                        if d.out is Err {
                            d.fail()
                        } else {
                            let e = i.to(d.at).var_str();
                            if e.out is Err {
                                e.fail()
                            } else {
                                Step {
                            out: Ok(
                                HelloAckView {
                                    abi_major: a.out->Ok_0,
                                    abi_minor: b.out->Ok_0,
                                    required: c.out->Ok_0,
                                    optional: d.out->Ok_0,
                                    decoder_id: e.out->Ok_0,
                                },
                            ),
                            at: e.at,
                        }
                            }
                        }
                    }
                }
            }
        }
    }
}

impl<'a> HelloAck<'a> {
    /// The layout version of this record.
    pub const VERSION: u16 = 1;

    /// Writes the record.
    pub fn encode<'w>(&self, w: &mut Writer<'w>) -> (r: Result<()>)
        requires
            old(w).wf(),
        ensures
            (Wrote { out: r, to: final(w)@ }) == old(w)@.record(
                Tag(Tag::HELLO_ACK),
                HelloAck::VERSION,
                self@.fields(),
            ),
            final(w).wf(),
            final(final(w).buf)@ == final(old(w).buf)@,
    {
        w.record(
            Tag(Tag::HELLO_ACK),
            HelloAck::VERSION,
            |w: &mut Writer<'w>| -> (b: Result<()>)
                requires
                    w.wf(),
                ensures
                    (Wrote { out: b, to: final(w)@ }) == old(w)@.run(self@.fields()),
                    final(w).wf(),
                    final(w)@.bytes.len() == old(w)@.bytes.len(),
                    final(w)@.at >= old(w)@.at,
                    final(final(w).buf)@ == final(old(w).buf)@
                {
                    broadcast use group_run_push;

                    proof {
                        lemma_run_is_flat(w@, self@.fields(), 0);
                    }
                    w.u16(self.abi_major)?;
                    w.u16(self.abi_minor)?;
                    w.u32(0)?;
                    w.var_bytes(self.required.as_bytes())?;
                    w.var_bytes(self.optional.as_bytes())?;
                    w.var_str(self.decoder_id)
                },
        )
    }

    /// Reads the record from its payload.
    pub fn decode(version: u16, p: &mut Reader<'a>) -> (r: Result<Self>)
        requires
            old(p).wf(),
        ensures
            agrees(r, HelloAckView::read(version, old(p)@).out),
            final(p)@ == old(p)@.to(HelloAckView::read(version, old(p)@).at),
            final(p).wf(),
    {
        expect_version(Tag(Tag::HELLO_ACK), version)?;
        let abi_major: u16 = p.u16()?;
        let abi_minor: u16 = p.u16()?;
        p.skip(4)?;
        let required = p.capability_set()?;
        let optional = p.capability_set()?;
        let decoder_id = p.var_str()?;
        Ok(HelloAck { abi_major, abi_minor, required, optional, decoder_id })
    }
}

/// Why one side is declining to go on.
#[derive(Clone, Copy, PartialEq, Eq, PartialOrd, Ord, Hash, Debug, Structural)]
pub struct RefusalReason(pub u16);

/// The name assigned to a reason, if there is one.
pub open spec fn reason_name(reason: RefusalReason) -> Option<&'static str> {
    if reason.0 == RefusalReason::MISSING_CAPABILITY {
        Some("missing capability")
    } else if reason.0 == RefusalReason::ABI_TOO_NEW {
        Some("ABI version too new")
    } else if reason.0 == RefusalReason::ABI_TOO_OLD {
        Some("ABI version too old")
    } else if reason.0 == RefusalReason::UNSUPPORTED_RECORD {
        Some("unsupported record")
    } else if reason.0 == RefusalReason::MALFORMED {
        Some("malformed record")
    } else if reason.0 == RefusalReason::RESOURCE_LIMIT {
        Some("resource limit")
    } else if reason.0 == RefusalReason::POLICY {
        Some("refused by policy")
    } else {
        None
    }
}

/// What a reason prints as.
pub open spec fn reason_text(reason: RefusalReason) -> Seq<char> {
    match reason_name(reason) {
        Some(name) => name@,
        None => "refusal reason "@ + decimal_text(reason.0 as nat),
    }
}

impl RefusalReason {
    /// The other side needs a capability this side does not have.
    pub const MISSING_CAPABILITY: u16 = 1;

    /// The other side speaks a major version from the future.
    pub const ABI_TOO_NEW: u16 = 2;

    /// The other side speaks a major version that is no longer supported.
    pub const ABI_TOO_OLD: u16 = 3;

    /// A record arrived that this side cannot handle and cannot skip.
    pub const UNSUPPORTED_RECORD: u16 = 4;

    /// The bytes did not parse.
    pub const MALFORMED: u16 = 5;

    /// The request is larger than this side is willing to serve.
    pub const RESOURCE_LIMIT: u16 = 6;

    /// This side is able to do what was asked and is choosing not to.
    pub const POLICY: u16 = 7;

    /// The name of this reason, if it is an assigned one.
    #[must_use]
    pub fn name(self) -> (r: Option<&'static str>)
        ensures
            r == reason_name(self),
    {
        if self.0 == RefusalReason::MISSING_CAPABILITY {
            Some("missing capability")
        } else if self.0 == RefusalReason::ABI_TOO_NEW {
            Some("ABI version too new")
        } else if self.0 == RefusalReason::ABI_TOO_OLD {
            Some("ABI version too old")
        } else if self.0 == RefusalReason::UNSUPPORTED_RECORD {
            Some("unsupported record")
        } else if self.0 == RefusalReason::MALFORMED {
            Some("malformed record")
        } else if self.0 == RefusalReason::RESOURCE_LIMIT {
            Some("resource limit")
        } else if self.0 == RefusalReason::POLICY {
            Some("refused by policy")
        } else {
            None
        }
    }

    /// What this reason prints as.
    pub fn text(self) -> (r: String)
        ensures
            r@ == reason_text(self),
    {
        match self.name() {
            Some(name) => name.to_owned(),
            None => {
                let mut s = "refusal reason ".to_owned();
                s.append(decimal(self.0 as u64).as_str());
                s
            },
        }
    }
}

/// One side declining to go on, and saying why.
#[derive(Clone, Copy, PartialEq, Eq, Debug)]
pub struct Refusal<'a> {
    /// The category of problem.
    pub reason: RefusalReason,
    /// Which capability was missing, when that is the reason.
    pub capability: Capability,
    /// Text for a human. Not parsed by anything.
    pub detail: &'a str,
}

/// What a [`Refusal`] says.
pub ghost struct RefusalView {
    /// The category.
    pub reason: RefusalReason,
    /// The capability.
    pub capability: Capability,
    /// The text.
    pub detail: Seq<char>,
}

impl<'a> View for Refusal<'a> {
    type V = RefusalView;

    open spec fn view(&self) -> RefusalView {
        RefusalView {
            reason: self.reason,
            capability: self.capability,
            detail: self.detail@,
        }
    }
}

impl RefusalView {
    /// A refusal with no particular capability attached.
    pub open spec fn plain(reason: u16, detail: Seq<char>) -> RefusalView {
        RefusalView {
            reason: RefusalReason(reason),
            capability: Capability(u16::MAX),
            detail,
        }
    }

    /// The fields, as they lie in the payload.
    pub open spec fn fields(self) -> Seq<Op> {
        fields()
            .push(two(self.reason.0))
            .push(two(self.capability.0))
            .push(four(0))
            .push(Op::Var(encode_utf8(self.detail)))
    }

    /// What a payload holds.
    pub open spec fn read(version: u16, i: Input) -> Step<RefusalView> {
        let known = known_version(Tag(Tag::REFUSAL), version);
        if known is Err {
            Step { out: Err(known->Err_0), at: i.at }
        } else {
            Self::read_fields(i)
        }
    }

    /// The fields a payload holds.
    pub open spec fn read_fields(i: Input) -> Step<RefusalView> {
        let a = i.u16();
        if a.out is Err {
            a.fail()
        } else {
            let b = i.to(a.at).u16();
            if b.out is Err {
                b.fail()
            } else {
                let z = i.to(b.at).skip(4);
                if z.out is Err {
                    z.fail()
                } else {
                    let c = i.to(z.at).var_str();
                    if c.out is Err {
                        c.fail()
                    } else {
                        Step {
                    out: Ok(
                        RefusalView {
                            reason: RefusalReason(a.out->Ok_0),
                            capability: Capability(b.out->Ok_0),
                            detail: c.out->Ok_0,
                        },
                    ),
                    at: c.at,
                }
                    }
                }
            }
        }
    }
}

impl<'a> Refusal<'a> {
    /// The layout version of this record.
    pub const VERSION: u16 = 1;

    /// A refusal with no particular capability attached.
    #[must_use]
    pub fn new(reason: RefusalReason, detail: &'a str) -> (r: Self)
        ensures
            r@ == RefusalView::plain(reason.0, detail@),
            r.detail == detail,
    {
        Refusal { reason, capability: Capability(u16::MAX), detail }
    }

    /// Writes the record.
    pub fn encode<'w>(&self, w: &mut Writer<'w>) -> (r: Result<()>)
        requires
            old(w).wf(),
        ensures
            (Wrote { out: r, to: final(w)@ }) == old(w)@.record(
                Tag(Tag::REFUSAL),
                Refusal::VERSION,
                self@.fields(),
            ),
            final(w).wf(),
            final(final(w).buf)@ == final(old(w).buf)@,
    {
        w.record(
            Tag(Tag::REFUSAL),
            Refusal::VERSION,
            |w: &mut Writer<'w>| -> (b: Result<()>)
                requires
                    w.wf(),
                ensures
                    (Wrote { out: b, to: final(w)@ }) == old(w)@.run(self@.fields()),
                    final(w).wf(),
                    final(w)@.bytes.len() == old(w)@.bytes.len(),
                    final(w)@.at >= old(w)@.at,
                    final(final(w).buf)@ == final(old(w).buf)@
                {
                    broadcast use group_run_push;

                    proof {
                        lemma_run_is_flat(w@, self@.fields(), 0);
                    }
                    w.u16(self.reason.0)?;
                    w.u16(self.capability.0)?;
                    w.u32(0)?;
                    w.var_str(self.detail)
                },
        )
    }

    /// Reads the record from its payload.
    pub fn decode(version: u16, p: &mut Reader<'a>) -> (r: Result<Self>)
        requires
            old(p).wf(),
        ensures
            agrees(r, RefusalView::read(version, old(p)@).out),
            final(p)@ == old(p)@.to(RefusalView::read(version, old(p)@).at),
            final(p).wf(),
    {
        expect_version(Tag(Tag::REFUSAL), version)?;
        let reason: u16 = p.u16()?;
        let capability: u16 = p.u16()?;
        p.skip(4)?;
        let detail = p.var_str()?;
        Ok(Refusal { reason: RefusalReason(reason), capability: Capability(capability), detail })
    }
}

/// The columns a scan is being asked for, as a list of indices.
///
/// A list and not a mask, so that the number of columns a table can have is not the width of a mask.
#[derive(Clone, Copy, PartialEq, Eq, Debug)]
pub struct Projection<'a> {
    raw: &'a [u8],
}

impl<'a> View for Projection<'a> {
    type V = Seq<u8>;

    closed spec fn view(&self) -> Seq<u8> {
        self.raw@
    }
}

impl<'a> Projection<'a> {
    /// The bytes always end where a column index does.
    #[verifier::type_invariant]
    spec fn whole(self) -> bool {
        self.raw@.len() % 4 == 0
    }
}

/// The column indices that a byte string lists.
pub open spec fn indices(raw: Seq<u8>) -> Seq<u32> {
    Seq::new((raw.len() / 4) as nat, |i: int| le(raw.subrange(4 * i, 4 * i + 4)) as u32)
}

/// What a projection that is not a whole number of indices is refused with.
pub open spec fn projection_error() -> Error {
    Error::Malformed("a projection must be a whole number of four byte column indices")
}

impl<'a> Projection<'a> {
    /// An empty projection, which means every column.
    #[must_use]
    pub fn all() -> (r: Projection<'a>)
        ensures
            r@ == Seq::<u8>::empty(),
    {
        let r = Projection { raw: &[] };
        assert(r@ =~= Seq::<u8>::empty());
        r
    }

    /// Wraps the encoded form.
    pub fn from_bytes(raw: &'a [u8]) -> (r: Result<Self>)
        ensures
            match r {
                Ok(p) => raw@.len() % 4 == 0 && p@ == raw@,
                Err(e) => raw@.len() % 4 != 0 && e == projection_error(),
            },
    {
        if raw.len() % 4 != 0 {
            return Err(
                Error::Malformed("a projection must be a whole number of four byte column indices"),
            );
        }
        Ok(Projection { raw })
    }

    /// How many columns are named.
    #[must_use]
    pub fn len(self) -> (r: usize)
        ensures
            r == self@.len() / 4,
    {
        self.raw.len() / 4
    }

    /// Whether the projection names no columns, which means every column.
    #[must_use]
    pub fn is_empty(self) -> (r: bool)
        ensures
            r == (self@.len() == 0),
    {
        self.raw.len() == 0
    }

    /// The column indices, in the order they were written.
    pub fn iter(self) -> (r: Vec<u32>)
        ensures
            r@ == indices(self@),
    {
        let mut r: Vec<u32> = Vec::new();
        let total: usize = self.raw.len();
        let n: usize = total / 4;
        let mut i: usize = 0;
        while i < n
            invariant
                0 <= i <= n,
                n == total / 4,
                total == self.raw@.len(),
                r@ == indices(self@).take(i as int),
            decreases n - i,
        {
            assert(4 * i + 4 <= self.raw@.len());
            let v: u32 = u32_of(&self.raw[4 * i..4 * i + 4]);
            r.push(v);
            i = i + 1;
            assert(r@ =~= indices(self@).take(i as int));
        }
        assert(indices(self@).take(n as int) =~= indices(self@));
        r
    }

    /// The encoded form.
    #[must_use]
    pub fn as_bytes(self) -> (r: &'a [u8])
        ensures
            r@ == self@,
            self@.len() % 4 == 0,
    {
        proof {
            use_type_invariant(&self);
        }
        self.raw
    }
}

/// The host asking the decoder for a run of rows.
#[derive(Clone, Copy, PartialEq, Eq, Debug)]
pub struct ScanRequest<'a> {
    /// The first row wanted, counting from zero.
    pub row_start: u64,
    /// How many rows are wanted. `u64::MAX` means everything from `row_start` on.
    pub row_count: u64,
    /// Flags, all reserved and required to be zero.
    pub flags: u64,
    /// Which columns are wanted.
    pub projection: Projection<'a>,
    /// A filter in a form the two sides agreed on separately. Empty means no filter.
    pub filter: &'a [u8],
}

/// What a [`ScanRequest`] says.
pub ghost struct ScanView {
    /// The first row.
    pub row_start: u64,
    /// How many rows.
    pub row_count: u64,
    /// The flags.
    pub flags: u64,
    /// The columns, encoded.
    pub projection: Seq<u8>,
    /// The filter.
    pub filter: Seq<u8>,
}

impl<'a> View for ScanRequest<'a> {
    type V = ScanView;

    open spec fn view(&self) -> ScanView {
        ScanView {
            row_start: self.row_start,
            row_count: self.row_count,
            flags: self.flags,
            projection: self.projection@,
            filter: self.filter@,
        }
    }
}

impl ScanView {
    /// Whether the columns are a whole number of indices, which those of a [`Projection`] always are.
    pub open spec fn wf(self) -> bool {
        self.projection.len() % 4 == 0
    }

    /// The fields, as they lie in the payload.
    pub open spec fn fields(self) -> Seq<Op> {
        fields()
            .push(eight(self.row_start))
            .push(eight(self.row_count))
            .push(eight(self.flags))
            .push(Op::Var(self.projection))
            .push(Op::Var(self.filter))
    }

    /// What a payload holds.
    pub open spec fn read(version: u16, i: Input) -> Step<ScanView> {
        let known = known_version(Tag(Tag::SCAN_REQUEST), version);
        if known is Err {
            Step { out: Err(known->Err_0), at: i.at }
        } else {
            Self::read_fields(i)
        }
    }

    /// The fields a payload holds.
    pub open spec fn read_fields(i: Input) -> Step<ScanView> {
        let a = i.u64();
        if a.out is Err {
            a.fail()
        } else {
            let b = i.to(a.at).u64();
            if b.out is Err {
                b.fail()
            } else {
                let c = i.to(b.at).u64();
                if c.out is Err {
                    c.fail()
                } else {
                    let d = i.to(c.at).var_bytes();
                    if d.out is Err {
                        d.fail()
                    } else if d.out->Ok_0.len() % 4 != 0 {
                        Step { out: Err(projection_error()), at: d.at }
                    } else {
                        let e = i.to(d.at).var_bytes();
                        if e.out is Err {
                            e.fail()
                        } else {
                            Step {
                                out: Ok(
                                    ScanView {
                                        row_start: a.out->Ok_0,
                                        row_count: b.out->Ok_0,
                                        flags: c.out->Ok_0,
                                        projection: d.out->Ok_0,
                                        filter: e.out->Ok_0,
                                    },
                                ),
                                at: e.at,
                            }
                        }
                    }
                }
            }
        }
    }
}

impl<'a> ScanRequest<'a> {
    /// The layout version of this record.
    pub const VERSION: u16 = 1;

    /// A request for every row and every column.
    #[must_use]
    pub fn everything() -> (r: Self)
        ensures
            r@ == (ScanView {
                row_start: 0,
                row_count: u64::MAX,
                flags: 0,
                projection: Seq::empty(),
                filter: Seq::empty(),
            }),
    {
        let r = ScanRequest {
            row_start: 0,
            row_count: u64::MAX,
            flags: 0,
            projection: Projection::all(),
            filter: &[],
        };
        assert(r.filter@ =~= Seq::<u8>::empty());
        r
    }

    /// Writes the record.
    pub fn encode<'w>(&self, w: &mut Writer<'w>) -> (r: Result<()>)
        requires
            old(w).wf(),
        ensures
            (Wrote { out: r, to: final(w)@ }) == old(w)@.record(
                Tag(Tag::SCAN_REQUEST),
                ScanRequest::VERSION,
                self@.fields(),
            ),
            r is Ok && old(w)@.at % 8 == 0 ==> (Input {
                bytes: final(w)@.written(),
                at: old(w)@.at,
            }).message() == (Step {
                out: Ok::<MessageView, Error>(MessageView::ScanRequest(self@)),
                at: final(w)@.at,
            }),
            self@.wf(),
            final(w).wf(),
            final(final(w).buf)@ == final(old(w).buf)@,
    {
        proof {
            use_type_invariant(&self.projection);
        }
        let r = w.record(
            Tag(Tag::SCAN_REQUEST),
            ScanRequest::VERSION,
            |w: &mut Writer<'w>| -> (b: Result<()>)
                requires
                    w.wf(),
                ensures
                    (Wrote { out: b, to: final(w)@ }) == old(w)@.run(self@.fields()),
                    final(w).wf(),
                    final(w)@.bytes.len() == old(w)@.bytes.len(),
                    final(w)@.at >= old(w)@.at,
                    final(final(w).buf)@ == final(old(w).buf)@
                {
                    broadcast use group_run_push;

                    proof {
                        lemma_run_is_flat(w@, self@.fields(), 0);
                    }
                    w.u64(self.row_start)?;
                    w.u64(self.row_count)?;
                    w.u64(self.flags)?;
                    w.var_bytes(self.projection.as_bytes())?;
                    w.var_bytes(self.filter)
                },
        );
        proof {
            if r is Ok && old(w)@.at % 8 == 0 {
                let none = Seq::<Op>::empty();
                assert(self@.fields() + none =~= self@.fields());
                assert(w@.written() + Seq::<u8>::empty() =~= w@.written());
                lemma_scan_round_trip(old(w)@, self@, none, Seq::empty());
            }
        }
        r
    }

    /// Reads the record from its payload.
    pub fn decode(version: u16, p: &mut Reader<'a>) -> (r: Result<Self>)
        requires
            old(p).wf(),
        ensures
            agrees(r, ScanView::read(version, old(p)@).out),
            final(p)@ == old(p)@.to(ScanView::read(version, old(p)@).at),
            final(p).wf(),
    {
        expect_version(Tag(Tag::SCAN_REQUEST), version)?;
        let row_start: u64 = p.u64()?;
        let row_count: u64 = p.u64()?;
        let flags: u64 = p.u64()?;
        let raw = p.var_bytes()?;
        let projection = Projection::from_bytes(raw)?;
        let filter = p.var_bytes()?;
        Ok(ScanRequest { row_start, row_count, flags, projection, filter })
    }
}

/// The decoder asking for bytes of the source.
///
/// The decoder says which bytes it needs and the host decides how to get them.
#[derive(Clone, Copy, PartialEq, Eq, Debug, Structural)]
pub struct RangeRequest {
    /// Where the wanted bytes start in the source.
    pub offset: u64,
    /// How many bytes are wanted.
    pub len: u64,
}

impl View for RangeRequest {
    type V = RangeRequest;

    open spec fn view(&self) -> RangeRequest {
        *self
    }
}

impl RangeRequest {
    /// The layout version of this record.
    pub const VERSION: u16 = 1;

    /// The fields, as they lie in the payload.
    pub open spec fn fields(self) -> Seq<Op> {
        fields().push(eight(self.offset)).push(eight(self.len))
    }

    /// What a payload holds.
    pub open spec fn read(version: u16, i: Input) -> Step<RangeRequest> {
        let known = known_version(Tag(Tag::RANGE_REQUEST), version);
        if known is Err {
            Step { out: Err(known->Err_0), at: i.at }
        } else {
            Self::read_fields(i)
        }
    }

    /// The fields a payload holds.
    pub open spec fn read_fields(i: Input) -> Step<RangeRequest> {
        let a = i.u64();
        if a.out is Err {
            a.fail()
        } else {
            let b = i.to(a.at).u64();
            if b.out is Err {
                b.fail()
            } else {
                Step {
                    out: Ok(RangeRequest { offset: a.out->Ok_0, len: b.out->Ok_0 }),
                    at: b.at,
                }
            }
        }
    }

    /// Writes the record.
    pub fn encode<'w>(&self, w: &mut Writer<'w>) -> (r: Result<()>)
        requires
            old(w).wf(),
        ensures
            (Wrote { out: r, to: final(w)@ }) == old(w)@.record(
                Tag(Tag::RANGE_REQUEST),
                RangeRequest::VERSION,
                self@.fields(),
            ),
            final(w).wf(),
            final(final(w).buf)@ == final(old(w).buf)@,
    {
        w.record(
            Tag(Tag::RANGE_REQUEST),
            RangeRequest::VERSION,
            |w: &mut Writer<'w>| -> (b: Result<()>)
                requires
                    w.wf(),
                ensures
                    (Wrote { out: b, to: final(w)@ }) == old(w)@.run(self@.fields()),
                    final(w).wf(),
                    final(w)@.bytes.len() == old(w)@.bytes.len(),
                    final(w)@.at >= old(w)@.at,
                    final(final(w).buf)@ == final(old(w).buf)@
                {
                    broadcast use group_run_push;

                    proof {
                        lemma_run_is_flat(w@, self@.fields(), 0);
                    }
                    w.u64(self.offset)?;
                    w.u64(self.len)
                },
        )
    }

    /// Reads the record from its payload.
    pub fn decode(version: u16, p: &mut Reader<'_>) -> (r: Result<Self>)
        requires
            old(p).wf(),
        ensures
            agrees(r, RangeRequest::read(version, old(p)@).out),
            final(p)@ == old(p)@.to(RangeRequest::read(version, old(p)@).at),
            final(p).wf(),
    {
        expect_version(Tag(Tag::RANGE_REQUEST), version)?;
        let offset: u64 = p.u64()?;
        let len: u64 = p.u64()?;
        Ok(RangeRequest { offset, len })
    }
}

/// One array of a batch: how many slots it has and how many of them are null.
#[derive(Clone, Copy, PartialEq, Eq, Debug, Structural)]
pub struct Node {
    /// How many slots the array has.
    pub length: u64,
    /// How many of them are null.
    pub null_count: u64,
}

impl Node {
    /// How many bytes one takes.
    pub const SIZE: usize = 16;

    /// What sixteen bytes describe.
    pub open spec fn of(raw: Seq<u8>) -> Node {
        Node { length: le(raw.subrange(0, 8)) as u64, null_count: le(raw.subrange(8, 16)) as u64 }
    }
}

/// The arrays of a batch, in schema order, encoded.
#[derive(Clone, Copy, PartialEq, Eq, Debug)]
pub struct Nodes<'a> {
    raw: &'a [u8],
}

impl<'a> View for Nodes<'a> {
    type V = Seq<u8>;

    closed spec fn view(&self) -> Seq<u8> {
        self.raw@
    }
}

impl<'a> Nodes<'a> {
    /// The bytes always end where a node does.
    #[verifier::type_invariant]
    spec fn whole(self) -> bool {
        self.raw@.len() % 16 == 0
    }
}

/// What a byte string lists.
pub open spec fn nodes_of(raw: Seq<u8>) -> Seq<Node> {
    Seq::new((raw.len() / 16) as nat, |i: int| Node::of(raw.subrange(16 * i, 16 * i + 16)))
}

/// What a list that is not a whole number of entries is refused with.
pub open spec fn nodes_error() -> Error {
    Error::Malformed("a node list must be a whole number of sixteen byte nodes")
}

impl<'a> Nodes<'a> {
    /// An empty list.
    #[must_use]
    pub fn empty() -> (r: Nodes<'a>)
        ensures
            r@ == Seq::<u8>::empty(),
    {
        let r = Nodes { raw: &[] };
        assert(r@ =~= Seq::<u8>::empty());
        r
    }

    /// Wraps the encoded form.
    pub fn from_bytes(raw: &'a [u8]) -> (r: Result<Self>)
        ensures
            match r {
                Ok(p) => raw@.len() % 16 == 0 && p@ == raw@,
                Err(e) => raw@.len() % 16 != 0 && e == nodes_error(),
            },
    {
        if raw.len() % Node::SIZE != 0 {
            return Err(Error::Malformed("a node list must be a whole number of sixteen byte nodes"));
        }
        Ok(Nodes { raw })
    }

    /// How many entries there are.
    #[must_use]
    pub fn len(self) -> (r: usize)
        ensures
            r == self@.len() / 16,
    {
        self.raw.len() / Node::SIZE
    }

    /// Whether there are none.
    #[must_use]
    pub fn is_empty(self) -> (r: bool)
        ensures
            r == (self@.len() == 0),
    {
        self.raw.len() == 0
    }

    /// The entries, in order.
    pub fn iter(self) -> (r: Vec<Node>)
        ensures
            r@ == nodes_of(self@),
    {
        let mut r: Vec<Node> = Vec::new();
        let total: usize = self.raw.len();
        let n: usize = total / 16;
        let mut i: usize = 0;
        while i < n
            invariant
                0 <= i <= n,
                n == total / 16,
                total == self.raw@.len(),
                r@ == nodes_of(self@).take(i as int),
            decreases n - i,
        {
            assert(16 * i + 16 <= self.raw@.len());
            let ghost all = self.raw@.subrange(16 * i, 16 * i + 16);
            let low = &self.raw[16 * i..16 * i + 8];
            let high = &self.raw[16 * i + 8..16 * i + 16];
            assert(low@ =~= all.subrange(0, 8));
            assert(high@ =~= all.subrange(8, 16));
            r.push(Node { length: u64_of(low), null_count: u64_of(high) });
            i = i + 1;
            assert(r@ =~= nodes_of(self@).take(i as int));
        }
        assert(nodes_of(self@).take(n as int) =~= nodes_of(self@));
        r
    }

    /// The encoded form.
    #[must_use]
    pub fn as_bytes(self) -> (r: &'a [u8])
        ensures
            r@ == self@,
            self@.len() % 16 == 0,
    {
        proof {
            use_type_invariant(&self);
        }
        self.raw
    }
}

/// Where one buffer of a batch lies.
#[derive(Clone, Copy, PartialEq, Eq, Debug, Structural)]
pub struct BufferRef {
    /// Where the buffer starts.
    pub offset: u64,
    /// How many bytes it has.
    pub len: u64,
}

impl BufferRef {
    /// How many bytes one takes.
    pub const SIZE: usize = 16;

    /// What sixteen bytes describe.
    pub open spec fn of(raw: Seq<u8>) -> BufferRef {
        BufferRef { offset: le(raw.subrange(0, 8)) as u64, len: le(raw.subrange(8, 16)) as u64 }
    }
}

/// The buffers of a batch, in schema order, encoded.
#[derive(Clone, Copy, PartialEq, Eq, Debug)]
pub struct Buffers<'a> {
    raw: &'a [u8],
}

impl<'a> View for Buffers<'a> {
    type V = Seq<u8>;

    closed spec fn view(&self) -> Seq<u8> {
        self.raw@
    }
}

impl<'a> Buffers<'a> {
    /// The bytes always end where a reference does.
    #[verifier::type_invariant]
    spec fn whole(self) -> bool {
        self.raw@.len() % 16 == 0
    }
}

/// What a byte string lists.
pub open spec fn buffers_of(raw: Seq<u8>) -> Seq<BufferRef> {
    Seq::new((raw.len() / 16) as nat, |i: int| BufferRef::of(raw.subrange(16 * i, 16 * i + 16)))
}

/// What a list that is not a whole number of entries is refused with.
pub open spec fn buffers_error() -> Error {
    Error::Malformed("a buffer list must be a whole number of sixteen byte references")
}

impl<'a> Buffers<'a> {
    /// An empty list.
    #[must_use]
    pub fn empty() -> (r: Buffers<'a>)
        ensures
            r@ == Seq::<u8>::empty(),
    {
        let r = Buffers { raw: &[] };
        assert(r@ =~= Seq::<u8>::empty());
        r
    }

    /// Wraps the encoded form.
    pub fn from_bytes(raw: &'a [u8]) -> (r: Result<Self>)
        ensures
            match r {
                Ok(p) => raw@.len() % 16 == 0 && p@ == raw@,
                Err(e) => raw@.len() % 16 != 0 && e == buffers_error(),
            },
    {
        if raw.len() % BufferRef::SIZE != 0 {
            return Err(Error::Malformed("a buffer list must be a whole number of sixteen byte references"));
        }
        Ok(Buffers { raw })
    }

    /// How many entries there are.
    #[must_use]
    pub fn len(self) -> (r: usize)
        ensures
            r == self@.len() / 16,
    {
        self.raw.len() / BufferRef::SIZE
    }

    /// Whether there are none.
    #[must_use]
    pub fn is_empty(self) -> (r: bool)
        ensures
            r == (self@.len() == 0),
    {
        self.raw.len() == 0
    }

    /// The entries, in order.
    pub fn iter(self) -> (r: Vec<BufferRef>)
        ensures
            r@ == buffers_of(self@),
    {
        let mut r: Vec<BufferRef> = Vec::new();
        let total: usize = self.raw.len();
        let n: usize = total / 16;
        let mut i: usize = 0;
        while i < n
            invariant
                0 <= i <= n,
                n == total / 16,
                total == self.raw@.len(),
                r@ == buffers_of(self@).take(i as int),
            decreases n - i,
        {
            assert(16 * i + 16 <= self.raw@.len());
            let ghost all = self.raw@.subrange(16 * i, 16 * i + 16);
            let low = &self.raw[16 * i..16 * i + 8];
            let high = &self.raw[16 * i + 8..16 * i + 16];
            assert(low@ =~= all.subrange(0, 8));
            assert(high@ =~= all.subrange(8, 16));
            r.push(BufferRef { offset: u64_of(low), len: u64_of(high) });
            i = i + 1;
            assert(r@ =~= buffers_of(self@).take(i as int));
        }
        assert(buffers_of(self@).take(n as int) =~= buffers_of(self@));
        r
    }

    /// The encoded form.
    #[must_use]
    pub fn as_bytes(self) -> (r: &'a [u8])
        ensures
            r@ == self@,
            self@.len() % 16 == 0,
    {
        proof {
            use_type_invariant(&self);
        }
        self.raw
    }
}

/// The decoder handing back one batch of decoded rows.
#[derive(Clone, Copy, PartialEq, Eq, Debug)]
pub struct Batch<'a> {
    /// How many rows the batch holds.
    pub rows: u64,
    /// Flags, all reserved.
    pub flags: u64,
    /// The arrays.
    pub nodes: Nodes<'a>,
    /// Where their buffers lie.
    pub buffers: Buffers<'a>,
}

/// What a [`Batch`] says.
pub ghost struct BatchView {
    /// How many rows.
    pub rows: u64,
    /// The flags.
    pub flags: u64,
    /// The arrays, encoded.
    pub nodes: Seq<u8>,
    /// The buffers, encoded.
    pub buffers: Seq<u8>,
}

impl<'a> View for Batch<'a> {
    type V = BatchView;

    open spec fn view(&self) -> BatchView {
        BatchView {
            rows: self.rows,
            flags: self.flags,
            nodes: self.nodes@,
            buffers: self.buffers@,
        }
    }
}

impl BatchView {
    /// Whether the arrays and the buffers are a whole number of entries, which those of [`Nodes`] and
    /// [`Buffers`] always are.
    pub open spec fn wf(self) -> bool {
        self.nodes.len() % 16 == 0 && self.buffers.len() % 16 == 0
    }

    /// The fields, as they lie in the payload.
    pub open spec fn fields(self) -> Seq<Op> {
        fields()
            .push(eight(self.rows))
            .push(eight(self.flags))
            .push(Op::Var(self.nodes))
            .push(Op::Var(self.buffers))
    }

    /// What a payload holds.
    pub open spec fn read(version: u16, i: Input) -> Step<BatchView> {
        let known = known_version(Tag(Tag::BATCH), version);
        if known is Err {
            Step { out: Err(known->Err_0), at: i.at }
        } else {
            Self::read_fields(i)
        }
    }

    /// The fields a payload holds.
    pub open spec fn read_fields(i: Input) -> Step<BatchView> {
        let a = i.u64();
        if a.out is Err {
            a.fail()
        } else {
            let b = i.to(a.at).u64();
            if b.out is Err {
                b.fail()
            } else {
                let c = i.to(b.at).var_bytes();
                if c.out is Err {
                    c.fail()
                } else if c.out->Ok_0.len() % 16 != 0 {
                    Step { out: Err(nodes_error()), at: c.at }
                } else {
                    let d = i.to(c.at).var_bytes();
                    if d.out is Err {
                        d.fail()
                    } else if d.out->Ok_0.len() % 16 != 0 {
                        Step { out: Err(buffers_error()), at: d.at }
                    } else {
                        Step {
                            out: Ok(
                                BatchView {
                                    rows: a.out->Ok_0,
                                    flags: b.out->Ok_0,
                                    nodes: c.out->Ok_0,
                                    buffers: d.out->Ok_0,
                                },
                            ),
                            at: d.at,
                        }
                    }
                }
            }
        }
    }
}

impl<'a> Batch<'a> {
    /// The layout version of this record.
    pub const VERSION: u16 = 1;

    /// Writes the record.
    pub fn encode<'w>(&self, w: &mut Writer<'w>) -> (r: Result<()>)
        requires
            old(w).wf(),
        ensures
            (Wrote { out: r, to: final(w)@ }) == old(w)@.record(
                Tag(Tag::BATCH),
                Batch::VERSION,
                self@.fields(),
            ),
            r is Ok && old(w)@.at % 8 == 0 ==> (Input {
                bytes: final(w)@.written(),
                at: old(w)@.at,
            }).message() == (Step {
                out: Ok::<MessageView, Error>(MessageView::Batch(self@)),
                at: final(w)@.at,
            }),
            self@.wf(),
            final(w).wf(),
            final(final(w).buf)@ == final(old(w).buf)@,
    {
        proof {
            use_type_invariant(&self.nodes);
            use_type_invariant(&self.buffers);
        }
        let r = w.record(
            Tag(Tag::BATCH),
            Batch::VERSION,
            |w: &mut Writer<'w>| -> (b: Result<()>)
                requires
                    w.wf(),
                ensures
                    (Wrote { out: b, to: final(w)@ }) == old(w)@.run(self@.fields()),
                    final(w).wf(),
                    final(w)@.bytes.len() == old(w)@.bytes.len(),
                    final(w)@.at >= old(w)@.at,
                    final(final(w).buf)@ == final(old(w).buf)@
                {
                    broadcast use group_run_push;

                    proof {
                        lemma_run_is_flat(w@, self@.fields(), 0);
                    }
                    w.u64(self.rows)?;
                    w.u64(self.flags)?;
                    w.var_bytes(self.nodes.as_bytes())?;
                    w.var_bytes(self.buffers.as_bytes())
                },
        );
        proof {
            if r is Ok && old(w)@.at % 8 == 0 {
                let none = Seq::<Op>::empty();
                assert(self@.fields() + none =~= self@.fields());
                assert(w@.written() + Seq::<u8>::empty() =~= w@.written());
                lemma_batch_round_trip(old(w)@, self@, none, Seq::empty());
            }
        }
        r
    }

    /// Reads the record from its payload.
    pub fn decode(version: u16, p: &mut Reader<'a>) -> (r: Result<Self>)
        requires
            old(p).wf(),
        ensures
            agrees(r, BatchView::read(version, old(p)@).out),
            final(p)@ == old(p)@.to(BatchView::read(version, old(p)@).at),
            final(p).wf(),
    {
        expect_version(Tag(Tag::BATCH), version)?;
        let rows: u64 = p.u64()?;
        let flags: u64 = p.u64()?;
        let raw = p.var_bytes()?;
        let nodes = Nodes::from_bytes(raw)?;
        let raw = p.var_bytes()?;
        let buffers = Buffers::from_bytes(raw)?;
        Ok(Batch { rows, flags, nodes, buffers })
    }
}

/// One record, decoded.
#[derive(Clone, Copy, PartialEq, Eq, Debug)]
pub enum Message<'a> {
    /// See [`Hello`].
    Hello(Hello),
    /// See [`HelloAck`].
    HelloAck(HelloAck<'a>),
    /// See [`Refusal`].
    Refusal(Refusal<'a>),
    /// See [`ScanRequest`].
    ScanRequest(ScanRequest<'a>),
    /// See [`RangeRequest`].
    RangeRequest(RangeRequest),
    /// See [`Batch`].
    Batch(Batch<'a>),
    /// A record this build has no code for. It has already been stepped over.
    Unknown(Header),
}

/// What a [`Message`] says.
pub ghost enum MessageView {
    /// See [`Hello`].
    Hello(HelloView),
    /// See [`HelloAck`].
    HelloAck(HelloAckView),
    /// See [`Refusal`].
    Refusal(RefusalView),
    /// See [`ScanRequest`].
    ScanRequest(ScanView),
    /// See [`RangeRequest`].
    RangeRequest(RangeRequest),
    /// See [`Batch`].
    Batch(BatchView),
    /// See [`Message::Unknown`].
    Unknown(Header),
}

impl<'a> View for Message<'a> {
    type V = MessageView;

    open spec fn view(&self) -> MessageView {
        match *self {
            Message::Hello(m) => MessageView::Hello(m@),
            Message::HelloAck(m) => MessageView::HelloAck(m@),
            Message::Refusal(m) => MessageView::Refusal(m@),
            Message::ScanRequest(m) => MessageView::ScanRequest(m@),
            Message::RangeRequest(m) => MessageView::RangeRequest(m@),
            Message::Batch(m) => MessageView::Batch(m@),
            Message::Unknown(h) => MessageView::Unknown(h),
        }
    }
}

/// What the payload behind a header says.
pub open spec fn read_payload(header: Header, payload: Seq<u8>) -> Result<MessageView> {
    let i = Input::over(payload);
    let v = header.version;
    if header.tag.0 == Tag::HELLO {
        match HelloView::read(v, i).out {
            Ok(m) => Ok(MessageView::Hello(m)),
            Err(e) => Err(e),
        }
    } else if header.tag.0 == Tag::HELLO_ACK {
        match HelloAckView::read(v, i).out {
            Ok(m) => Ok(MessageView::HelloAck(m)),
            Err(e) => Err(e),
        }
    } else if header.tag.0 == Tag::REFUSAL {
        match RefusalView::read(v, i).out {
            Ok(m) => Ok(MessageView::Refusal(m)),
            Err(e) => Err(e),
        }
    } else if header.tag.0 == Tag::SCAN_REQUEST {
        match ScanView::read(v, i).out {
            Ok(m) => Ok(MessageView::ScanRequest(m)),
            Err(e) => Err(e),
        }
    } else if header.tag.0 == Tag::RANGE_REQUEST {
        match RangeRequest::read(v, i).out {
            Ok(m) => Ok(MessageView::RangeRequest(m)),
            Err(e) => Err(e),
        }
    } else if header.tag.0 == Tag::BATCH {
        match BatchView::read(v, i).out {
            Ok(m) => Ok(MessageView::Batch(m)),
            Err(e) => Err(e),
        }
    } else {
        Ok(MessageView::Unknown(header))
    }
}

impl Input {
    /// The next record, decoded, with the cursor left at the one after it.
    pub open spec fn message(self) -> Step<MessageView> {
        let rec = self.record();
        match rec.out {
            Err(e) => Step { out: Err(e), at: rec.at },
            Ok((header, payload)) => Step { out: read_payload(header, payload), at: rec.at },
        }
    }
}

impl<'a> Reader<'a> {
    /// Reads the next record and decodes it.
    ///
    /// An unrecognised tag comes back as [`Message::Unknown`], and the reader is left at the record
    /// after it.
    pub fn message(&mut self) -> (r: Result<Message<'a>>)
        requires
            old(self).wf(),
        ensures
            agrees(r, old(self)@.message().out),
            final(self)@ == old(self)@.to(old(self)@.message().at),
            final(self).wf(),
    {
        let (header, mut p) = self.record()?;
        let v: u16 = header.version;
        if header.tag.0 == Tag::HELLO {
            let m = Hello::decode(v, &mut p)?;
            Ok(Message::Hello(m))
        } else if header.tag.0 == Tag::HELLO_ACK {
            let m = HelloAck::decode(v, &mut p)?;
            Ok(Message::HelloAck(m))
        } else if header.tag.0 == Tag::REFUSAL {
            let m = Refusal::decode(v, &mut p)?;
            Ok(Message::Refusal(m))
        } else if header.tag.0 == Tag::SCAN_REQUEST {
            let m = ScanRequest::decode(v, &mut p)?;
            Ok(Message::ScanRequest(m))
        } else if header.tag.0 == Tag::RANGE_REQUEST {
            let m = RangeRequest::decode(v, &mut p)?;
            Ok(Message::RangeRequest(m))
        } else if header.tag.0 == Tag::BATCH {
            let m = Batch::decode(v, &mut p)?;
            Ok(Message::Batch(m))
        } else {
            Ok(Message::Unknown(header))
        }
    }
}

/// Whether a record at a version is one this build can read.
pub open spec fn known_version(tag: Tag, version: u16) -> Result<()> {
    if tag.0 == Tag::HELLO || tag.0 == Tag::HELLO_ACK || tag.0 == Tag::REFUSAL || tag.0
        == Tag::SCAN_REQUEST || tag.0 == Tag::RANGE_REQUEST || tag.0 == Tag::BATCH {
        if version == 1 {
            Ok(())
        } else {
            Err(Error::UnsupportedVersion { tag, version })
        }
    } else {
        Err(Error::Malformed("no version is defined for this tag"))
    }
}

/// Every record is at its first version.
fn expect_version(tag: Tag, version: u16) -> (r: Result<()>)
    ensures
        r == known_version(tag, version),
{
    let known: u16 = if tag.0 == Tag::HELLO {
        Hello::VERSION
    } else if tag.0 == Tag::HELLO_ACK {
        HelloAck::VERSION
    } else if tag.0 == Tag::REFUSAL {
        Refusal::VERSION
    } else if tag.0 == Tag::SCAN_REQUEST {
        ScanRequest::VERSION
    } else if tag.0 == Tag::RANGE_REQUEST {
        RangeRequest::VERSION
    } else if tag.0 == Tag::BATCH {
        Batch::VERSION
    } else {
        return Err(Error::Malformed("no version is defined for this tag"));
    };
    if version == known {
        Ok(())
    } else {
        Err(Error::UnsupportedVersion { tag, version })
    }
}

} // verus!
