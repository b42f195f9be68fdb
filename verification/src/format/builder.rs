//! Writing a container.
//!
//! The directory goes at the end, so nothing written early depends on anything decided late.
use vstd::prelude::*;
use vstd::string::*;

use crate::abi;
use crate::abi::caps::CapabilitySet;
use crate::abi::wire::{pad, Writer, Wrote};
use crate::bytes::{
    append, copied, le_bytes, lemma_le_bytes_len, u16_bytes, u32_bytes, u64_bytes, zeros,
};
use crate::format::digest::{blake3_of, Digest};
use crate::format::directory::listed;
use crate::format::error::{agrees, footer, Error, ErrorView, Outcome, Result};
use crate::format::frames::{
    entries_run, frames, lemma_entries_run, lemma_entries_run_append, writable, Entry,
};
use crate::format::layout::{
    DecoderLocation, SchemaEncoding, SectionKind, FORMAT_MAJOR, FORMAT_MINOR, HEADER_SIZE, MAGIC,
    TRAILER_SIZE,
};
use crate::format::meta::{
    Dataset, DatasetView, DecoderRef, DecoderView, Schema, SchemaView, Section, SectionView,
};
use crate::format::tag;

verus! {

/// A decoder reference before it has been written, holding its own name.
#[derive(Clone, Debug)]
struct PendingDecoder {
    abi_major: u16,
    abi_minor: u16,
    location: DecoderLocation,
    digest: Digest,
    required: CapabilitySet,
    name: String,
}

/// Builds a container.
#[derive(Clone, Debug)]
pub struct Builder {
    dataset: Dataset,
    schema: Option<(SchemaEncoding, Vec<u8>)>,
    decoder: Option<PendingDecoder>,
    sections: Vec<(SectionKind, Vec<u8>)>,
}

/// A section before it has been placed. Its id is its place in the list.
pub ghost struct Pending {
    /// What it holds.
    pub kind: SectionKind,
    /// Its bytes.
    pub bytes: Seq<u8>,
}

/// What a [`Builder`] has been given.
pub ghost struct BuilderView {
    /// What the dataset is.
    pub dataset: DatasetView,
    /// The schema, if one was set.
    pub schema: Option<SchemaView>,
    /// The decoder, if one was set.
    pub decoder: Option<DecoderView>,
    /// The sections, in the order they were added.
    pub sections: Seq<Pending>,
}

impl View for Builder {
    type V = BuilderView;

    closed spec fn view(&self) -> BuilderView {
        BuilderView {
            dataset: self.dataset@,
            schema: match self.schema {
                Some((encoding, bytes)) => Some(SchemaView { encoding, bytes: bytes@ }),
                None => None,
            },
            decoder: match self.decoder {
                Some(d) => Some(
                    DecoderView {
                        abi_major: d.abi_major,
                        abi_minor: d.abi_minor,
                        location: d.location,
                        digest: d.digest@,
                        required: d.required@,
                        name: d.name@,
                    },
                ),
                None => None,
            },
            sections: Seq::new(
                self.sections@.len(),
                |i: int| Pending { kind: self.sections@[i].0, bytes: self.sections@[i].1@ },
            ),
        }
    }
}

/// The sixteen bytes of header that this build writes.
pub open spec fn header_bytes() -> Seq<u8> {
    MAGIC@ + le_bytes(FORMAT_MAJOR as nat, 2) + le_bytes(FORMAT_MINOR as nat, 2) + le_bytes(0, 4)
}

/// The trailer behind a footer: where it starts, how long it is, and the digest over the header and it.
pub open spec fn trailer_bytes(footer_at: nat, footer_len: nat, root: Seq<u8>) -> Seq<u8> {
    le_bytes(footer_at, 8) + le_bytes(footer_len, 4) + le_bytes(0, 4) + root + MAGIC@
}

/// Bytes padded out to a multiple of eight.
pub open spec fn padded(s: Seq<u8>) -> Seq<u8> {
    s + zeros(pad(s.len() as int))
}

impl BuilderView {
    /// The header and the first `n` sections, each padded up to where the next one starts.
    pub open spec fn laid_out(self, n: nat) -> Seq<u8>
        decreases n,
    {
        if n == 0 {
            header_bytes()
        } else {
            padded(self.laid_out((n - 1) as nat)) + self.sections[n - 1].bytes
        }
    }

    /// Where a section starts.
    pub open spec fn offset(self, k: int) -> int {
        padded(self.laid_out(k as nat)).len() as int
    }

    /// The record of a section.
    pub open spec fn placed(self, k: int) -> SectionView {
        SectionView {
            id: k as u32,
            kind: self.sections[k].kind,
            offset: self.offset(k) as u64,
            len: self.sections[k].bytes.len() as u64,
            digest: blake3_of(self.sections[k].bytes),
        }
    }

    /// The records of the first `n` sections.
    pub open spec fn all_placed(self, n: nat) -> Seq<SectionView> {
        Seq::new(n, |k: int| self.placed(k))
    }

    /// Everything in front of the footer.
    pub open spec fn payload_area(self) -> Seq<u8> {
        padded(self.laid_out(self.sections.len()))
    }

    /// The records in front of those of the sections.
    pub open spec fn front_entries(self) -> Seq<Entry> {
        let d = Seq::<Entry>::empty().push(
            Entry { tag: tag::DATASET, fields: self.dataset.fields() },
        );
        let s = match self.schema {
            Some(schema) => d.push(Entry { tag: tag::SCHEMA, fields: schema.fields() }),
            None => d,
        };
        match self.decoder {
            Some(decoder) => s.push(Entry { tag: tag::DECODER, fields: decoder.fields() }),
            None => s,
        }
    }

    /// The records of the footer.
    pub open spec fn entries(self) -> Seq<Entry> {
        self.front_entries() + section_entries(self.all_placed(self.sections.len()))
    }

    /// The footer.
    pub open spec fn footer(self) -> Seq<u8> {
        frames(self.entries())
    }

    /// The trailer.
    pub open spec fn trailer(self) -> Seq<u8> {
        trailer_bytes(
            self.payload_area().len(),
            self.footer().len(),
            blake3_of(header_bytes() + self.footer()),
        )
    }

    /// The whole container, if every length in its footer can be described.
    pub open spec fn built(self) -> Outcome<Seq<u8>> {
        if !writable(self.entries()) || self.footer().len() > u32::MAX {
            Err(ErrorView::Footer(abi::Error::LengthOverflow))
        } else {
            Ok(self.payload_area() + self.footer() + self.trailer())
        }
    }

    /// What has been laid out by the time a container that cannot be built is given up on: everything in
    /// front of the footer and, if it is only too long, the footer and where it starts.
    pub open spec fn left_behind(self) -> Seq<u8> {
        if !writable(self.entries()) {
            self.payload_area()
        } else {
            self.payload_area() + self.footer() + le_bytes(self.payload_area().len(), 8)
        }
    }

    /// Whether there is an id for every section and the container can be held in memory.
    pub open spec fn fits(self) -> bool {
        &&& self.sections.len() <= u32::MAX
        &&& self.payload_area().len() + self.footer().len() + TRAILER_SIZE <= usize::MAX
    }
}

/// The records of some sections.
pub open spec fn section_entries(sections: Seq<SectionView>) -> Seq<Entry> {
    Seq::new(
        sections.len(),
        |k: int| Entry { tag: tag::SECTION, fields: sections[k].fields() },
    )
}

/// What is laid out only grows, and it starts with the header.
pub proof fn lemma_laid_out(b: BuilderView, k: nat, n: nat)
    requires
        k <= n <= b.sections.len(),
    ensures
        HEADER_SIZE <= b.laid_out(k).len() <= b.laid_out(n).len(),
        b.laid_out(n).take(b.laid_out(k).len() as int) == b.laid_out(k),
        k < n ==> padded(b.laid_out(k)).len() + b.sections[k as int].bytes.len() <= b.laid_out(
            n,
        ).len(),
        k < n ==> b.laid_out(n).subrange(
            b.offset(k as int),
            b.offset(k as int) + b.sections[k as int].bytes.len(),
        ) == b.sections[k as int].bytes,
    decreases n,
{
    lemma_le_bytes_len(FORMAT_MAJOR as nat, 2);
    lemma_le_bytes_len(FORMAT_MINOR as nat, 2);
    lemma_le_bytes_len(0, 4);
    if k == n {
        assert(b.laid_out(n).take(b.laid_out(n).len() as int) =~= b.laid_out(n));
        if n > 0 {
            lemma_laid_out(b, (n - 1) as nat, (n - 1) as nat);
        }
    } else {
        let m = (n - 1) as nat;
        lemma_laid_out(b, k, m);
        let before = b.laid_out(m);
        let after = b.laid_out(n);
        assert(after.take(b.laid_out(k).len() as int) =~= before.take(b.laid_out(k).len() as int));
        if k == m {
            assert(after.subrange(
                b.offset(k as int),
                b.offset(k as int) + b.sections[k as int].bytes.len(),
            ) =~= b.sections[k as int].bytes);
        } else {
            assert(after.subrange(
                b.offset(k as int),
                b.offset(k as int) + b.sections[k as int].bytes.len(),
            ) =~= before.subrange(
                b.offset(k as int),
                b.offset(k as int) + b.sections[k as int].bytes.len(),
            ));
        }
    }
}

/// Every section starts on an eight byte boundary behind the header, and so does the footer.
pub proof fn lemma_sections_start_aligned(b: BuilderView, k: int)
    requires
        0 <= k < b.sections.len(),
    ensures
        b.offset(k) % 8 == 0,
        b.offset(k) >= HEADER_SIZE,
        b.payload_area().len() % 8 == 0,
{
    lemma_laid_out(b, k as nat, b.sections.len());
}

/// Appends zeroes up to the next multiple of eight.
fn pad_out(out: &mut Vec<u8>, from: usize)
    requires
        from <= old(out)@.len(),
        old(out)@.len() + 7 <= usize::MAX,
    ensures
        final(out)@ == old(out)@ + zeros(pad(old(out)@.len() - from)),
{
    let n: usize = out.len() - from;
    let fill: usize = (8 - n % 8) % 8;
    let mut i: usize = 0;
    assert(out@ =~= old(out)@ + zeros(0));
    while i < fill
        invariant
            0 <= i <= fill,
            out@ == old(out)@ + zeros(i as nat),
        decreases fill - i,
    {
        out.push(0);
        i = i + 1;
        assert(out@ =~= old(out)@ + zeros(i as nat));
    }
}

impl Builder {
    /// Starts a container for a dataset with this name and this many rows.
    #[must_use]
    pub fn new(name: &str, rows: u64) -> (r: Self)
        ensures
            r@ == (BuilderView {
                dataset: DatasetView { rows, name: name@ },
                schema: None,
                decoder: None,
                sections: Seq::empty(),
            }),
    {
        let r = Builder {
            dataset: Dataset { rows, name: name.to_owned() },
            schema: None,
            decoder: None,
            sections: Vec::new(),
        };
        assert(r@.sections =~= Seq::<Pending>::empty());
        r
    }

    /// Sets the schema.
    pub fn schema(&mut self, encoding: SchemaEncoding, bytes: Vec<u8>) -> (r: &mut Self)
        ensures
            r@ == (BuilderView {
                schema: Some(SchemaView { encoding, bytes: bytes@ }),
                ..old(self)@
            }),
            *final(self) == *final(r),
    {
        self.schema = Some((encoding, bytes));
        assert(self@.sections =~= old(self)@.sections);
        self
    }

    /// Adds a section and returns the id the rest of the container refers to it by.
    pub fn section(&mut self, kind: SectionKind, bytes: Vec<u8>) -> (r: u32)
        requires
            old(self)@.sections.len() < u32::MAX,
        ensures
            r == old(self)@.sections.len(),
            final(self)@ == (BuilderView {
                sections: old(self)@.sections.push(Pending { kind, bytes: bytes@ }),
                ..old(self)@
            }),
    {
        let id: u32 = self.sections.len() as u32;
        let ghost b = bytes@;
        self.sections.push((kind, bytes));
        assert(self@.sections =~= old(self)@.sections.push(Pending { kind, bytes: b }));
        id
    }

    /// Puts a decoder module in the container and points the dataset at it.
    ///
    /// Returns the id of the section the module went into.
    pub fn embed_decoder(
        &mut self,
        name: &str,
        abi: (u16, u16),
        required: CapabilitySet,
        module: Vec<u8>,
    ) -> (r: u32)
        requires
            old(self)@.sections.len() < u32::MAX,
        ensures
            r == old(self)@.sections.len(),
            final(self)@ == (BuilderView {
                sections: old(self)@.sections.push(
                    Pending { kind: SectionKind::Decoder, bytes: module@ },
                ),
                decoder: Some(
                    DecoderView {
                        abi_major: abi.0,
                        abi_minor: abi.1,
                        location: DecoderLocation::Embedded { section: r },
                        digest: blake3_of(module@),
                        required: required@,
                        name: name@,
                    },
                ),
                ..old(self)@
            }),
    {
        let digest = Digest::of(module.as_slice());
        let section: u32 = self.section(SectionKind::Decoder, module);
        let ghost sections = self@.sections;
        self.decoder = Some(
            PendingDecoder {
                abi_major: abi.0,
                abi_minor: abi.1,
                location: DecoderLocation::Embedded { section },
                digest,
                required,
                name: name.to_owned(),
            },
        );
        assert(self@.sections =~= sections);
        section
    }

    /// Points the dataset at a decoder that lives somewhere else, named by its digest.
    pub fn external_decoder(
        &mut self,
        name: &str,
        abi: (u16, u16),
        required: CapabilitySet,
        digest: Digest,
    ) -> (r: &mut Self)
        ensures
            r@ == (BuilderView {
                decoder: Some(
                    DecoderView {
                        abi_major: abi.0,
                        abi_minor: abi.1,
                        location: DecoderLocation::External,
                        digest: digest@,
                        required: required@,
                        name: name@,
                    },
                ),
                ..old(self)@
            }),
            *final(self) == *final(r),
    {
        self.decoder = Some(
            PendingDecoder {
                abi_major: abi.0,
                abi_minor: abi.1,
                location: DecoderLocation::External,
                digest,
                required,
                name: name.to_owned(),
            },
        );
        assert(self@.sections =~= old(self)@.sections);
        self
    }

    /// Lays the container out and returns the bytes.
    pub fn build(&self) -> (r: Result<Vec<u8>>)
        requires
            self@.fits(),
        ensures
            agrees(r, self@.built()),
    {
        let mut out: Vec<u8> = Vec::new();
        self.build_into(&mut out)?;
        proof {
            let all = self@.built()->Ok_0;
            assert(Seq::<u8>::empty() + all =~= all);
        }
        Ok(out)
    }

    /// Lays the container out on the end of `out`, returning how many bytes that was.
    ///
    /// On an error what had been laid out by then stays behind the bytes that were there.
    pub fn build_into(&self, out: &mut Vec<u8>) -> (r: Result<u64>)
        requires
            self@.fits(),
            old(out)@.len() + self@.payload_area().len() + self@.footer().len() + TRAILER_SIZE
                <= usize::MAX,
        ensures
            match self@.built() {
                Ok(bytes) => {
                    &&& r is Ok
                    &&& r->Ok_0 == bytes.len()
                    &&& final(out)@ == old(out)@ + bytes
                },
                Err(e) => {
                    &&& r is Err
                    &&& r->Err_0@ == e
                    &&& final(out)@ == old(out)@ + self@.left_behind()
                },
            },
    {
        let from: usize = out.len();
        let header = header();
        append(out, header.as_slice());
        proof {
            lemma_le_bytes_len(self@.payload_area().len(), 8);
            lemma_le_bytes_len(self@.footer().len(), 4);
            lemma_le_bytes_len(0, 4);
        }

        let total: usize = self.sections.len();
        let mut placed: Vec<Section> = Vec::new();
        let mut i: usize = 0;
        while i < total
            invariant
                0 <= i <= total,
                total == self.sections@.len(),
                total == self@.sections.len(),
                self@.fits(),
                from == old(out)@.len(),
                from + self@.payload_area().len() + self@.footer().len() + TRAILER_SIZE
                    <= usize::MAX,
                out@ == old(out)@ + self@.laid_out(i as nat),
                listed(placed@) == self@.all_placed(i as nat),
                placed@.len() == i,
            decreases total - i,
        {
            proof {
                lemma_laid_out(self@, i as nat, total as nat);
            }
            let ghost before = out@;
            pad_out(out, from);
            assert(out@ =~= old(out)@ + padded(self@.laid_out(i as nat)));
            let offset: usize = out.len() - from;
            let kind = self.sections[i].0;
            let bytes = self.sections[i].1.as_slice();
            assert(bytes@ == self@.sections[i as int].bytes);
            let section = Section {
                id: i as u32,
                kind,
                offset: offset as u64,
                len: bytes.len() as u64,
                digest: Digest::of(bytes),
            };
            assert(section@ == self@.placed(i as int));
            let ghost was = placed@;
            placed.push(section);
            append(out, bytes);
            assert(out@ =~= old(out)@ + self@.laid_out((i + 1) as nat));
            i = i + 1;
            proof {
                assert(listed(placed@) =~= listed(was).push(section@));
                assert(listed(placed@) =~= self@.all_placed(i as nat));
            }
        }
        pad_out(out, from);
        assert(out@ =~= old(out)@ + self@.payload_area());
        let footer_at: usize = out.len() - from;
        let records = self.encode_footer(&placed)?;
        append(out, records.as_slice());
        if records.len() > 0xFFFF_FFFF {
            append(out, &u64_bytes(footer_at as u64));
            assert(out@ =~= old(out)@ + self@.left_behind());
            return Err(Error::Footer(abi::Error::LengthOverflow));
        }
        let footer_len: u32 = records.len() as u32;
        let root = Digest::of_parts(header.as_slice(), records.as_slice());
        append(out, trailer(footer_at as u64, footer_len, &root).as_slice());
        assert(out@ =~= old(out)@ + self@.built()->Ok_0);
        Ok((out.len() - from) as u64)
    }

    /// Encodes the footer, growing the buffer until it fits.
    fn encode_footer(&self, sections: &Vec<Section>) -> (r: Result<Vec<u8>>)
        requires
            self@.fits(),
            listed(sections@) == self@.all_placed(self@.sections.len()),
        ensures
            if writable(self@.entries()) {
                r is Ok && r->Ok_0@ == self@.footer()
            } else {
                r is Err && r->Err_0@ == ErrorView::Footer(abi::Error::LengthOverflow)
            },
    {
        let mut capacity: usize = 1024;
        loop
            invariant
                capacity > 0,
                self@.fits(),
                listed(sections@) == self@.all_placed(self@.sections.len()),
            decreases usize::MAX - capacity,
        {
            let mut buf: Vec<u8> = vec![0u8; capacity];
            let mut w = Writer::new(buf.as_mut_slice());
            let ghost start = w@;
            let done = self.write_footer(&mut w, sections);
            proof {
                lemma_entries_run(start, self@.entries());
                assert(start.written() =~= Seq::<u8>::empty());
            }
            match done {
                Ok(()) => {
                    let bytes = copied(w.written());
                    assert(bytes@ =~= self@.footer());
                    return Ok(bytes);
                },
                Err(abi::Error::BufferFull { .. }) => {
                    capacity = if capacity > usize::MAX / 2 {
                        usize::MAX
                    } else {
                        2 * capacity
                    };
                },
                Err(other) => {
                    return Err(Error::Footer(other));
                },
            }
        }
    }

    /// Writes the records of the footer.
    fn write_footer<'w>(&self, w: &mut Writer<'w>, sections: &Vec<Section>) -> (r: abi::Result<()>)
        requires
            old(w).wf(),
            listed(sections@) == self@.all_placed(self@.sections.len()),
        ensures
            (Wrote { out: r, to: final(w)@ }) == entries_run(old(w)@, self@.entries()),
            final(w).wf(),
    {
        self.write_front(w)?;
        let ghost front = self@.front_entries();
        let ghost views = listed(sections@);
        let ghost start = old(w)@;
        let mut i: usize = 0;
        proof {
            assert(self@.entries() == front + section_entries(views));
            assert(front + section_entries(views).take(0) =~= front);
        }
        while i < sections.len()
            invariant
                0 <= i <= sections@.len(),
                w.wf(),
                views == listed(sections@),
                self@.entries() == front + section_entries(views),
                entries_run(start, front + section_entries(views).take(i as int)) == (Wrote {
                    out: Ok(()),
                    to: w@,
                }),
                start == old(w)@,
            decreases sections@.len() - i,
        {
            let section = &sections[i];
            let ghost e = section_entries(views);
            proof {
                assert(views[i as int] == section@);
                assert((front + e.take(i + 1)) =~= (front + e.take(i as int)).push(e[i as int]));
                if entries_run(start, front + e.take(i + 1)).out is Err {
                    assert(front + e =~= (front + e.take(i + 1)) + e.skip(i + 1));
                    lemma_entries_run_append(start, front + e.take(i + 1), e.skip(i + 1));
                }
                assert((front + e.take(i + 1)).drop_last() =~= front + e.take(i as int));
            }
            section.record(w)?;
            i = i + 1;
        }
        proof {
            let e = section_entries(views);
            assert(e.take(i as int) =~= e);
        }
        Ok(())
    }

    /// Writes the records in front of those of the sections.
    fn write_front<'w>(&self, w: &mut Writer<'w>) -> (r: abi::Result<()>)
        requires
            old(w).wf(),
        ensures
            r is Ok ==> (Wrote { out: r, to: final(w)@ }) == entries_run(
                old(w)@,
                self@.front_entries(),
            ),
            r is Err ==> (Wrote { out: r, to: final(w)@ }) == entries_run(
                old(w)@,
                self@.entries(),
            ),
            final(w).wf(),
    {
        let ghost start = w@;
        let ghost none = Seq::<Entry>::empty();
        let ghost first = none.push(Entry { tag: tag::DATASET, fields: self@.dataset.fields() });
        let ghost all = self@.entries();
        proof {
            assert(first.drop_last() =~= none);
            assert(entries_run(start, none) == (Wrote { out: Ok(()), to: start }));
            assert(first.last().fields == self.dataset@.fields());
            assert(all =~= first + all.skip(1));
            lemma_entries_run_append(start, first, all.skip(1));
        }
        self.dataset.record(w)?;
        let ghost mut so_far = first;
        if let Some((encoding, bytes)) = &self.schema {
            let schema = Schema { encoding: *encoding, bytes: bytes.as_slice() };
            proof {
                let next = so_far.push(Entry { tag: tag::SCHEMA, fields: schema@.fields() });
                assert(next.drop_last() =~= so_far);
                assert(next.last().fields == schema@.fields());
                assert(all =~= next + all.skip(next.len() as int));
                lemma_entries_run_append(start, next, all.skip(next.len() as int));
                so_far = next;
            }
            schema.record(w)?;
        }
        if let Some(decoder) = &self.decoder {
            let reference = DecoderRef {
                abi_major: decoder.abi_major,
                abi_minor: decoder.abi_minor,
                location: decoder.location,
                digest: decoder.digest,
                required: decoder.required,
                name: decoder.name.as_str(),
            };
            proof {
                let next = so_far.push(Entry { tag: tag::DECODER, fields: reference@.fields() });
                assert(next.drop_last() =~= so_far);
                assert(all =~= next + all.skip(next.len() as int));
                lemma_entries_run_append(start, next, all.skip(next.len() as int));
                so_far = next;
            }
            reference.record(w)?;
        }
        assert(so_far == self@.front_entries());
        Ok(())
    }
}

/// The trailer behind a footer.
pub fn trailer(footer_at: u64, footer_len: u32, root: &Digest) -> (r: Vec<u8>)
    ensures
        r@ == trailer_bytes(footer_at as nat, footer_len as nat, root@),
{
    let mut r: Vec<u8> = Vec::new();
    append(&mut r, u64_bytes(footer_at).as_slice());
    append(&mut r, u32_bytes(footer_len).as_slice());
    append(&mut r, u32_bytes(0).as_slice());
    append(&mut r, root.as_bytes().as_slice());
    append(&mut r, MAGIC.as_slice());
    assert(r@ =~= trailer_bytes(footer_at as nat, footer_len as nat, root@));
    r
}

/// The sixteen bytes of header.
fn header() -> (r: Vec<u8>)
    ensures
        r@ == header_bytes(),
{
    let mut r: Vec<u8> = Vec::new();
    append(&mut r, MAGIC.as_slice());
    append(&mut r, u16_bytes(FORMAT_MAJOR).as_slice());
    append(&mut r, u16_bytes(FORMAT_MINOR).as_slice());
    append(&mut r, u32_bytes(0).as_slice());
    assert(r@ =~= header_bytes());
    r
}

} // verus!
