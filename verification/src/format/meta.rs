//! The records that make up the footer.
//!
//! Each one is framed as a record of the call protocol is, so it may grow a field at the end and a
//! reader that does not know the field steps over it.
use vstd::prelude::*;
use vstd::string::*;
use vstd::utf8::encode_utf8;

use crate::abi;
use crate::abi::caps::{CapabilitySet, Caps};
use crate::abi::message::{eight, fields, four, two};
use crate::abi::record::Tag;
use crate::abi::wire::{group_run_push, lemma_run_is_flat, Input, Op, Reader, Step, Writer, Wrote};
use crate::format::digest::{hex_text, Digest};
use crate::format::error::{Error, ErrorView, Outcome, Result};
use crate::format::layout::{DecoderLocation, SchemaEncoding, SectionKind, DIGEST_SIZE};
use crate::format::tag;
use crate::text::{decimal, decimal_text};

verus! {

/// What the dataset is and how big it is.
#[derive(PartialEq, Eq, Debug)]
pub struct Dataset {
    /// How many rows there are in total.
    pub rows: u64,
    /// A name for people. Nothing looks it up.
    pub name: String,
}

/// What a [`Dataset`] says.
pub ghost struct DatasetView {
    /// How many rows.
    pub rows: u64,
    /// The name.
    pub name: Seq<char>,
}

impl View for Dataset {
    type V = DatasetView;

    open spec fn view(&self) -> DatasetView {
        DatasetView { rows: self.rows, name: self.name@ }
    }
}

impl Clone for Dataset {
    /// The same rows under the same name.
    fn clone(&self) -> (r: Self)
        ensures
            r@ == self@,
    {
        Dataset { rows: self.rows, name: self.name.clone() }
    }
}

impl DatasetView {
    /// The fields, as they lie in the payload.
    pub open spec fn fields(self) -> Seq<Op> {
        fields().push(eight(self.rows)).push(Op::Var(encode_utf8(self.name)))
    }

    /// What a payload holds.
    pub open spec fn read(i: Input) -> Step<DatasetView> {
        let a = i.u64();
        if a.out is Err {
            a.fail()
        } else {
            let b = i.to(a.at).var_str();
            if b.out is Err {
                b.fail()
            } else {
                Step {
                    out: Ok(DatasetView { rows: a.out->Ok_0, name: b.out->Ok_0 }),
                    at: b.at,
                }
            }
        }
    }
}

impl Dataset {
    /// The record version this build writes.
    pub const VERSION: u16 = 1;

    /// Writes this record's payload.
    pub fn encode(&self, w: &mut Writer<'_>) -> (r: abi::Result<()>)
        requires
            old(w).wf(),
        ensures
            (Wrote { out: r, to: final(w)@ }) == old(w)@.run(self@.fields()),
            final(w).wf(),
            final(w)@.bytes.len() == old(w)@.bytes.len(),
            final(w)@.at >= old(w)@.at,
            final(final(w).buf)@ == final(old(w).buf)@,
    {
        broadcast use group_run_push;

        proof {
            lemma_run_is_flat(w@, self@.fields(), 0);
        }
        w.u64(self.rows)?;
        w.var_str(self.name.as_str())
    }

    /// Writes this record, framed.
    pub(crate) fn record<'w>(&self, w: &mut Writer<'w>) -> (r: abi::Result<()>)
        requires
            old(w).wf(),
        ensures
            (Wrote { out: r, to: final(w)@ }) == old(w)@.record(Tag(tag::DATASET), 1, self@.fields()),
            final(w).wf(),
    {
        w.record(
            Tag(tag::DATASET),
            Dataset::VERSION,
            |w: &mut Writer<'w>| -> (b: abi::Result<()>)
                requires
                    w.wf(),
                ensures
                    (Wrote { out: b, to: final(w)@ }) == old(w)@.run(self@.fields()),
                    final(w).wf(),
                    final(w)@.bytes.len() == old(w)@.bytes.len(),
                    final(w)@.at >= old(w)@.at,
                    final(final(w).buf)@ == final(old(w).buf)@
                {
                    self.encode(w)
                },
        )
    }

    /// Reads this record's payload.
    pub fn decode(p: &mut Reader<'_>) -> (r: abi::Result<Self>)
        requires
            old(p).wf(),
        ensures
            abi::wire::agrees(r, DatasetView::read(old(p)@).out),
            final(p)@ == old(p)@.to(DatasetView::read(old(p)@).at),
            final(p).wf(),
    {
        let rows: u64 = p.u64()?;
        let name = p.var_str()?;
        Ok(Dataset { rows, name: name.to_owned() })
    }
}

/// The schema, carried as bytes that nothing here looks inside.
#[derive(Clone, Copy, PartialEq, Eq, Debug)]
pub struct Schema<'a> {
    /// How the bytes are encoded.
    pub encoding: SchemaEncoding,
    /// The bytes.
    pub bytes: &'a [u8],
}

/// What a [`Schema`] says.
pub ghost struct SchemaView {
    /// How the bytes are encoded.
    pub encoding: SchemaEncoding,
    /// The bytes.
    pub bytes: Seq<u8>,
}

impl<'a> View for Schema<'a> {
    type V = SchemaView;

    open spec fn view(&self) -> SchemaView {
        SchemaView { encoding: self.encoding, bytes: self.bytes@ }
    }
}

impl SchemaView {
    /// The fields, as they lie in the payload.
    pub open spec fn fields(self) -> Seq<Op> {
        fields().push(four(self.encoding.number())).push(Op::Var(self.bytes))
    }

    /// What a payload holds.
    pub open spec fn read(i: Input) -> Step<SchemaView> {
        let a = i.u32();
        if a.out is Err {
            a.fail()
        } else {
            let b = i.to(a.at).var_bytes();
            if b.out is Err {
                b.fail()
            } else {
                Step {
                    out: Ok(
                        SchemaView {
                            encoding: SchemaEncoding::of(a.out->Ok_0),
                            bytes: b.out->Ok_0,
                        },
                    ),
                    at: b.at,
                }
            }
        }
    }
}

impl<'a> Schema<'a> {
    /// The record version this build writes.
    pub const VERSION: u16 = 1;

    /// Writes this record's payload.
    pub fn encode(&self, w: &mut Writer<'_>) -> (r: abi::Result<()>)
        requires
            old(w).wf(),
        ensures
            (Wrote { out: r, to: final(w)@ }) == old(w)@.run(self@.fields()),
            final(w).wf(),
            final(w)@.bytes.len() == old(w)@.bytes.len(),
            final(w)@.at >= old(w)@.at,
            final(final(w).buf)@ == final(old(w).buf)@,
    {
        broadcast use group_run_push;

        proof {
            lemma_run_is_flat(w@, self@.fields(), 0);
        }
        w.u32(self.encoding.code())?;
        w.var_bytes(self.bytes)
    }

    /// Writes this record, framed.
    pub(crate) fn record<'w>(&self, w: &mut Writer<'w>) -> (r: abi::Result<()>)
        requires
            old(w).wf(),
        ensures
            (Wrote { out: r, to: final(w)@ }) == old(w)@.record(Tag(tag::SCHEMA), 1, self@.fields()),
            final(w).wf(),
    {
        w.record(
            Tag(tag::SCHEMA),
            Schema::VERSION,
            |w: &mut Writer<'w>| -> (b: abi::Result<()>)
                requires
                    w.wf(),
                ensures
                    (Wrote { out: b, to: final(w)@ }) == old(w)@.run(self@.fields()),
                    final(w).wf(),
                    final(w)@.bytes.len() == old(w)@.bytes.len(),
                    final(w)@.at >= old(w)@.at,
                    final(final(w).buf)@ == final(old(w).buf)@
                {
                    self.encode(w)
                },
        )
    }

    /// Reads this record's payload.
    pub fn decode(p: &mut Reader<'a>) -> (r: abi::Result<Self>)
        requires
            old(p).wf(),
        ensures
            abi::wire::agrees(r, SchemaView::read(old(p)@).out),
            final(p)@ == old(p)@.to(SchemaView::read(old(p)@).at),
            final(p).wf(),
    {
        let code: u32 = p.u32()?;
        let bytes = p.var_bytes()?;
        Ok(Schema { encoding: SchemaEncoding::from_code(code), bytes })
    }
}

/// Which decoder reads this dataset.
#[derive(Clone, Copy, PartialEq, Eq, Debug)]
pub struct DecoderRef<'a> {
    /// The ABI major version the decoder was built against.
    pub abi_major: u16,
    /// The ABI minor version the decoder was built against.
    pub abi_minor: u16,
    /// Where the module is.
    pub location: DecoderLocation,
    /// The digest of the module, which is the identity of the decoder.
    pub digest: Digest,
    /// What the decoder needs the host to be able to do, so that a host can refuse a dataset before
    /// it has loaded any of the module.
    pub required: CapabilitySet,
    /// A name for messages.
    pub name: &'a str,
}

/// What a [`DecoderRef`] says.
pub ghost struct DecoderView {
    /// The major version.
    pub abi_major: u16,
    /// The minor version.
    pub abi_minor: u16,
    /// Where the module is.
    pub location: DecoderLocation,
    /// Its digest.
    pub digest: Seq<u8>,
    /// What it requires.
    pub required: Caps,
    /// Its name.
    pub name: Seq<char>,
}

impl<'a> View for DecoderRef<'a> {
    type V = DecoderView;

    open spec fn view(&self) -> DecoderView {
        DecoderView {
            abi_major: self.abi_major,
            abi_minor: self.abi_minor,
            location: self.location,
            digest: self.digest@,
            required: self.required@,
            name: self.name@,
        }
    }
}

/// The number a location is written as, and the section beside it.
pub open spec fn location_numbers(location: DecoderLocation) -> (u32, u32) {
    match location {
        DecoderLocation::Embedded { section } => (0, section),
        DecoderLocation::External => (1, 0),
    }
}

/// The location two numbers stand for. Anything that is not embedded is elsewhere.
pub open spec fn location_of(kind: u32, section: u32) -> DecoderLocation {
    if kind == 0 {
        DecoderLocation::Embedded { section }
    } else {
        DecoderLocation::External
    }
}

impl DecoderView {
    /// The fields, as they lie in the payload.
    pub open spec fn fields(self) -> Seq<Op> {
        fields()
            .push(two(self.abi_major))
            .push(two(self.abi_minor))
            .push(four(location_numbers(self.location).0))
            .push(four(location_numbers(self.location).1))
            .push(four(0))
            .push(Op::Raw(self.digest))
            .push(Op::Var(self.required.wire()))
            .push(Op::Var(encode_utf8(self.name)))
    }

    /// What a payload holds.
    pub open spec fn read(i: Input) -> Step<DecoderView> {
        let a = i.u16();
        if a.out is Err {
            a.fail()
        } else {
            let b = i.to(a.at).u16();
            if b.out is Err {
                b.fail()
            } else {
                let c = i.to(b.at).u32();
                if c.out is Err {
                    c.fail()
                } else {
                    let d = i.to(c.at).u32();
                    if d.out is Err {
                        d.fail()
                    } else {
                        let z = i.to(d.at).u32();
                        if z.out is Err {
                            z.fail()
                        } else {
                            Self::read_rest(
                                i.to(z.at),
                                a.out->Ok_0,
                                b.out->Ok_0,
                                location_of(c.out->Ok_0, d.out->Ok_0),
                            )
                        }
                    }
                }
            }
        }
    }

    /// The fields behind the fixed numbers.
    pub open spec fn read_rest(
        i: Input,
        abi_major: u16,
        abi_minor: u16,
        location: DecoderLocation,
    ) -> Step<DecoderView> {
        let e = i.take(DIGEST_SIZE as int);
        if e.out is Err {
            e.fail()
        } else {
            let f = i.to(e.at).capability_set();
            if f.out is Err {
                f.fail()
            } else {
                let g = i.to(f.at).var_str();
                if g.out is Err {
                    g.fail()
                } else {
                    Step {
                        out: Ok(
                            DecoderView {
                                abi_major,
                                abi_minor,
                                location,
                                digest: e.out->Ok_0,
                                required: f.out->Ok_0,
                                name: g.out->Ok_0,
                            },
                        ),
                        at: g.at,
                    }
                }
            }
        }
    }
}

impl<'a> DecoderRef<'a> {
    /// The record version this build writes.
    pub const VERSION: u16 = 1;

    /// Writes this record's payload.
    pub fn encode(&self, w: &mut Writer<'_>) -> (r: abi::Result<()>)
        requires
            old(w).wf(),
        ensures
            (Wrote { out: r, to: final(w)@ }) == old(w)@.run(self@.fields()),
            final(w).wf(),
            final(w)@.bytes.len() == old(w)@.bytes.len(),
            final(w)@.at >= old(w)@.at,
            final(final(w).buf)@ == final(old(w).buf)@,
    {
        broadcast use group_run_push;

        proof {
            lemma_run_is_flat(w@, self@.fields(), 0);
        }
        w.u16(self.abi_major)?;
        w.u16(self.abi_minor)?;
        let (kind, section): (u32, u32) = match self.location {
            DecoderLocation::Embedded { section } => (0, section),
            DecoderLocation::External => (1, 0),
        };
        w.u32(kind)?;
        w.u32(section)?;
        w.u32(0)?;
        w.raw(self.digest.as_bytes().as_slice())?;
        w.var_bytes(self.required.as_bytes())?;
        w.var_str(self.name)
    }

    /// Writes this record, framed.
    pub(crate) fn record<'w>(&self, w: &mut Writer<'w>) -> (r: abi::Result<()>)
        requires
            old(w).wf(),
        ensures
            (Wrote { out: r, to: final(w)@ }) == old(w)@.record(Tag(tag::DECODER), 1, self@.fields()),
            final(w).wf(),
    {
        w.record(
            Tag(tag::DECODER),
            DecoderRef::VERSION,
            |w: &mut Writer<'w>| -> (b: abi::Result<()>)
                requires
                    w.wf(),
                ensures
                    (Wrote { out: b, to: final(w)@ }) == old(w)@.run(self@.fields()),
                    final(w).wf(),
                    final(w)@.bytes.len() == old(w)@.bytes.len(),
                    final(w)@.at >= old(w)@.at,
                    final(final(w).buf)@ == final(old(w).buf)@
                {
                    self.encode(w)
                },
        )
    }

    /// Reads this record's payload.
    ///
    /// An unknown location reads as [`DecoderLocation::External`], because the one thing a reader must
    /// not do with a decoder it cannot place is run something else.
    pub fn decode(p: &mut Reader<'a>) -> (r: abi::Result<Self>)
        requires
            old(p).wf(),
        ensures
            abi::wire::agrees(r, DecoderView::read(old(p)@).out),
            final(p)@ == old(p)@.to(DecoderView::read(old(p)@).at),
            final(p).wf(),
    {
        let abi_major: u16 = p.u16()?;
        let abi_minor: u16 = p.u16()?;
        let kind: u32 = p.u32()?;
        let section: u32 = p.u32()?;
        let _reserved: u32 = p.u32()?;
        let location = if kind == 0 {
            DecoderLocation::Embedded { section }
        } else {
            DecoderLocation::External
        };
        let raw = p.bytes(DIGEST_SIZE)?;
        let digest = Digest::read(raw);
        let required = p.capability_set()?;
        let name = p.var_str()?;
        Ok(DecoderRef { abi_major, abi_minor, location, digest, required, name })
    }
}

/// One run of bytes in the payload area.
#[derive(Clone, Copy, PartialEq, Eq, Debug)]
pub struct Section {
    /// What the rest of the container refers to this section by.
    pub id: u32,
    /// What it holds.
    pub kind: SectionKind,
    /// Where it starts, counted from the start of the file.
    pub offset: u64,
    /// How many bytes long it is.
    pub len: u64,
    /// The digest of those bytes.
    pub digest: Digest,
}

/// What a [`Section`] says.
pub ghost struct SectionView {
    /// Its id.
    pub id: u32,
    /// What it holds.
    pub kind: SectionKind,
    /// Where it starts.
    pub offset: u64,
    /// How long it is.
    pub len: u64,
    /// The digest of its bytes.
    pub digest: Seq<u8>,
}

impl View for Section {
    type V = SectionView;

    open spec fn view(&self) -> SectionView {
        SectionView {
            id: self.id,
            kind: self.kind,
            offset: self.offset,
            len: self.len,
            digest: self.digest@,
        }
    }
}

impl SectionView {
    /// Where the section ends.
    pub open spec fn end(self) -> int {
        self.offset + self.len
    }

    /// What it comes to when the bytes of the section hash to `actual`.
    pub open spec fn hashed(self, actual: Seq<u8>) -> Outcome<()> {
        if actual == self.digest {
            Ok(())
        } else {
            Err(
                ErrorView::DigestMismatch {
                    what: "section "@ + decimal_text(self.id as nat),
                    expected: hex_text(self.digest),
                    actual: hex_text(actual),
                },
            )
        }
    }

    /// The fields, as they lie in the payload.
    pub open spec fn fields(self) -> Seq<Op> {
        fields()
            .push(four(self.id))
            .push(four(self.kind.number()))
            .push(eight(self.offset))
            .push(eight(self.len))
            .push(Op::Raw(self.digest))
    }

    /// What a payload holds.
    pub open spec fn read(i: Input) -> Step<SectionView> {
        let a = i.u32();
        if a.out is Err {
            a.fail()
        } else {
            let b = i.to(a.at).u32();
            if b.out is Err {
                b.fail()
            } else {
                let c = i.to(b.at).u64();
                if c.out is Err {
                    c.fail()
                } else {
                    let d = i.to(c.at).u64();
                    if d.out is Err {
                        d.fail()
                    } else {
                        let e = i.to(d.at).take(DIGEST_SIZE as int);
                        if e.out is Err {
                            e.fail()
                        } else {
                            Step {
                                out: Ok(
                                    SectionView {
                                        id: a.out->Ok_0,
                                        kind: SectionKind::of(b.out->Ok_0),
                                        offset: c.out->Ok_0,
                                        len: d.out->Ok_0,
                                        digest: e.out->Ok_0,
                                    },
                                ),
                                at: e.at,
                            }
                        }
                    }
                }
            }
        }
    }
}

impl Section {
    /// The record version this build writes.
    pub const VERSION: u16 = 1;

    /// Whether what the bytes of the section hash to is what the footer says.
    pub fn hashed(&self, actual: Digest) -> (r: Result<()>)
        ensures
            match self@.hashed(actual@) {
                Ok(_) => r is Ok,
                Err(e) => r is Err && r->Err_0@ == e,
            },
    {
        if actual.matches(&self.digest) {
            return Ok(());
        }
        let mut what = "section ".to_owned();
        what.append(decimal(self.id as u64).as_str());
        Err(Error::DigestMismatch { what, expected: self.digest.text(), actual: actual.text() })
    }

    /// Where the section ends, or `None` if that is more than a file offset can say.
    #[must_use]
    pub fn end(&self) -> (r: Option<u64>)
        ensures
            r == (if self@.end() > u64::MAX {
                None::<u64>
            } else {
                Some(self@.end() as u64)
            }),
    {
        if self.len > u64::MAX - self.offset {
            None
        } else {
            Some(self.offset + self.len)
        }
    }

    /// Writes this record's payload.
    pub fn encode(&self, w: &mut Writer<'_>) -> (r: abi::Result<()>)
        requires
            old(w).wf(),
        ensures
            (Wrote { out: r, to: final(w)@ }) == old(w)@.run(self@.fields()),
            final(w).wf(),
            final(w)@.bytes.len() == old(w)@.bytes.len(),
            final(w)@.at >= old(w)@.at,
            final(final(w).buf)@ == final(old(w).buf)@,
    {
        broadcast use group_run_push;

        proof {
            lemma_run_is_flat(w@, self@.fields(), 0);
        }
        w.u32(self.id)?;
        w.u32(self.kind.code())?;
        w.u64(self.offset)?;
        w.u64(self.len)?;
        w.raw(self.digest.as_bytes().as_slice())
    }

    /// Writes this record, framed.
    pub(crate) fn record<'w>(&self, w: &mut Writer<'w>) -> (r: abi::Result<()>)
        requires
            old(w).wf(),
        ensures
            (Wrote { out: r, to: final(w)@ }) == old(w)@.record(Tag(tag::SECTION), 1, self@.fields()),
            final(w).wf(),
    {
        w.record(
            Tag(tag::SECTION),
            Section::VERSION,
            |w: &mut Writer<'w>| -> (b: abi::Result<()>)
                requires
                    w.wf(),
                ensures
                    (Wrote { out: b, to: final(w)@ }) == old(w)@.run(self@.fields()),
                    final(w).wf(),
                    final(w)@.bytes.len() == old(w)@.bytes.len(),
                    final(w)@.at >= old(w)@.at,
                    final(final(w).buf)@ == final(old(w).buf)@
                {
                    self.encode(w)
                },
        )
    }

    /// Reads this record's payload.
    pub fn decode(p: &mut Reader<'_>) -> (r: abi::Result<Self>)
        requires
            old(p).wf(),
        ensures
            abi::wire::agrees(r, SectionView::read(old(p)@).out),
            final(p)@ == old(p)@.to(SectionView::read(old(p)@).at),
            final(p).wf(),
    {
        let id: u32 = p.u32()?;
        let code: u32 = p.u32()?;
        let offset: u64 = p.u64()?;
        let len: u64 = p.u64()?;
        let raw = p.bytes(DIGEST_SIZE)?;
        Ok(
            Section {
                id,
                kind: SectionKind::from_code(code),
                offset,
                len,
                digest: Digest::read(raw),
            },
        )
    }
}

} // verus!
