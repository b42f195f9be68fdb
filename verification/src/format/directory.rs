//! Reading a container's metadata without holding the container.
//!
//! [`Placement`] comes from the last bytes of the file and says where the footer is. [`Directory`]
//! comes from the first bytes and the footer, and says what the container holds. A host that can read
//! a range twice can open a container of any size.
//!
//! Nothing is allocated in proportion to a number the file claims: there is no count in the footer, so
//! the number of sections is however many section records it really contains.
use vstd::prelude::*;
use vstd::string::*;

use crate::abi::record::Tag;
use crate::abi::wire::{Input, Reader};
use crate::bytes::{copied, le, lemma_le_2, lemma_le_4, lemma_le_8, same, u16_of, u32_of, u64_of};
use crate::format::digest::{blake3_of, hex_text, Digest};
use crate::format::error::{agrees, equals, footer, Error, ErrorView, Outcome, Result};
use crate::format::layout::{
    DecoderLocation, DIGEST_SIZE, FORMAT_MAJOR, HEADER_SIZE, MAGIC, MIN_SIZE, TRAILER_SIZE,
};
use crate::format::meta::{
    Dataset, DatasetView, DecoderRef, DecoderView, Schema, SchemaView, Section, SectionView,
};
use crate::format::tag;

verus! {

/// The fixed fields at the front of a container.
#[derive(Clone, Copy, PartialEq, Eq, Debug, Structural)]
pub struct FileHeader {
    /// The format major version.
    pub major: u16,
    /// The format minor version.
    pub minor: u16,
}

/// Where the footer is, read from the trailer.
#[derive(Clone, Copy, PartialEq, Eq, Debug)]
pub struct Placement {
    file_len: u64,
    footer_at: u64,
    footer_len: u32,
    root: Digest,
}

/// What a [`Placement`] says.
pub ghost struct PlacementView {
    /// How long the file is.
    pub file_len: u64,
    /// Where the footer starts.
    pub footer_at: u64,
    /// How long it is.
    pub footer_len: u32,
    /// The digest over the header and the footer.
    pub root: Seq<u8>,
}

impl View for Placement {
    type V = PlacementView;

    closed spec fn view(&self) -> PlacementView {
        PlacementView {
            file_len: self.file_len,
            footer_at: self.footer_at,
            footer_len: self.footer_len,
            root: self.root@,
        }
    }
}

/// A part of the file that ran out.
pub open spec fn cut(what: &'static str, needed: u64, available: u64) -> ErrorView {
    ErrorView::Truncated { what, needed, available }
}

/// Where the trailer starts in a file of some length.
pub open spec fn trailer_start(file_len: u64) -> Outcome<u64> {
    if file_len < MIN_SIZE {
        Err(cut("the container", MIN_SIZE as u64, file_len))
    } else {
        Ok((file_len - TRAILER_SIZE) as u64)
    }
}

impl PlacementView {
    /// Where the footer ends.
    pub open spec fn footer_end(self) -> int {
        self.footer_at + self.footer_len
    }

    /// Whether the footer lies between the header and the trailer.
    pub open spec fn wf(self) -> bool {
        &&& HEADER_SIZE <= self.footer_at
        &&& self.footer_end() + TRAILER_SIZE <= self.file_len
        &&& self.root.len() == DIGEST_SIZE
    }

    /// What the numbers in a trailer say.
    pub open spec fn of(t: Seq<u8>, file_len: u64) -> PlacementView {
        PlacementView {
            file_len,
            footer_at: le(t.subrange(0, 8)) as u64,
            footer_len: le(t.subrange(8, 12)) as u32,
            root: t.subrange(16, 48),
        }
    }

    /// What a trailer says of a file of some length.
    pub open spec fn read(trailer: Seq<u8>, file_len: u64) -> Outcome<PlacementView> {
        let p = Self::of(trailer, file_len);
        if trailer_start(file_len) is Err {
            Err(trailer_start(file_len)->Err_0)
        } else if trailer.len() < TRAILER_SIZE {
            Err(cut("the trailer", TRAILER_SIZE as u64, trailer.len() as u64))
        } else if trailer.subrange(48, 56) != MAGIC@ {
            Err(cut("the container, which does not end with the magic", file_len, file_len))
        } else if le(trailer.subrange(12, 16)) != 0 {
            Err(ErrorView::Reserved { what: "trailer" })
        } else if p.footer_end() > u64::MAX {
            Err(cut("the footer", u64::MAX, file_len))
        } else if p.footer_at < HEADER_SIZE || p.footer_end() > file_len - TRAILER_SIZE {
            Err(cut("the footer", p.footer_end() as u64, (file_len - TRAILER_SIZE) as u64))
        } else {
            Ok(p)
        }
    }
}

impl Placement {
    /// How many bytes at the end of the file the trailer occupies.
    pub const TRAILER_LEN: usize = 56;

    /// Where the trailer starts in a file of this length.
    pub fn trailer_at(file_len: u64) -> (r: Result<u64>)
        ensures
            equals(r, trailer_start(file_len)),
    {
        if file_len < MIN_SIZE as u64 {
            return Err(
                Error::Truncated {
                    what: "the container",
                    needed: MIN_SIZE as u64,
                    available: file_len,
                },
            );
        }
        Ok(file_len - TRAILER_SIZE as u64)
    }

    /// Reads the trailer of a file of `file_len` bytes.
    ///
    /// The footer has to sit between the header and the trailer: one that starts inside the header
    /// would let a writer describe its own magic as records, and one that runs into the trailer would
    /// let it describe its own digest.
    pub fn read(trailer: &[u8], file_len: u64) -> (r: Result<Self>)
        ensures
            agrees(r, PlacementView::read(trailer@, file_len)),
            r is Ok ==> r->Ok_0@.wf(),
    {
        let trailer_at: u64 = Placement::trailer_at(file_len)?;
        if trailer.len() < TRAILER_SIZE {
            return Err(
                Error::Truncated {
                    what: "the trailer",
                    needed: TRAILER_SIZE as u64,
                    available: trailer.len() as u64,
                },
            );
        }
        if !same(&trailer[48..56], MAGIC.as_slice()) {
            return Err(
                Error::Truncated {
                    what: "the container, which does not end with the magic",
                    needed: file_len,
                    available: file_len,
                },
            );
        }
        proof {
            lemma_le_8(trailer@.subrange(0, 8));
            lemma_le_4(trailer@.subrange(8, 12));
            lemma_le_4(trailer@.subrange(12, 16));
        }
        let footer_at: u64 = u64_of(&trailer[0..8]);
        let footer_len: u32 = u32_of(&trailer[8..12]);
        let reserved: u32 = u32_of(&trailer[12..16]);
        if reserved != 0 {
            return Err(Error::Reserved { what: "trailer" });
        }
        let root = Digest::read(&trailer[16..48]);
        if footer_len as u64 > u64::MAX - footer_at {
            return Err(
                Error::Truncated { what: "the footer", needed: u64::MAX, available: file_len },
            );
        }
        let footer_end: u64 = footer_at + footer_len as u64;
        if footer_at < HEADER_SIZE as u64 || footer_end > trailer_at {
            return Err(
                Error::Truncated {
                    what: "the footer",
                    needed: footer_end,
                    available: trailer_at,
                },
            );
        }
        Ok(Placement { file_len, footer_at, footer_len, root })
    }

    /// How long the file is.
    #[must_use]
    pub fn file_len(&self) -> (r: u64)
        ensures
            r == self@.file_len,
    {
        self.file_len
    }

    /// Where the footer starts.
    #[must_use]
    pub fn footer_at(&self) -> (r: u64)
        ensures
            r == self@.footer_at,
    {
        self.footer_at
    }

    /// How long the footer is.
    #[must_use]
    pub fn footer_len(&self) -> (r: usize)
        ensures
            r == self@.footer_len,
    {
        self.footer_len as usize
    }

    /// The digest that covers the header and the footer.
    #[must_use]
    pub fn root_digest(&self) -> (r: Digest)
        ensures
            r@ == self@.root,
    {
        self.root
    }
}

/// What the records of a footer have said so far.
pub ghost struct Footer {
    /// The dataset, once it has been seen.
    pub dataset: Option<DatasetView>,
    /// The schema, once it has been seen.
    pub schema: Option<SchemaView>,
    /// The decoder, once it has been seen.
    pub decoder: Option<DecoderView>,
    /// The sections, in the order they were listed.
    pub sections: Seq<SectionView>,
}

impl Footer {
    /// Before any record.
    pub open spec fn start() -> Footer {
        Footer { dataset: None, schema: None, decoder: None, sections: Seq::empty() }
    }

    /// After one more record.
    ///
    /// An unknown record is stepped over. A known one at a later version, or one that may appear once
    /// and appears again, is refused.
    pub open spec fn with(self, tag: Tag, version: u16, payload: Seq<u8>) -> Outcome<Footer> {
        let i = Input::over(payload);
        let known = tag.0 == tag::DATASET || tag.0 == tag::SCHEMA || tag.0 == tag::DECODER || tag.0
            == tag::SECTION;
        let repeated = (tag.0 == tag::DATASET && self.dataset is Some) || (tag.0 == tag::SCHEMA
            && self.schema is Some) || (tag.0 == tag::DECODER && self.decoder is Some);
        if !known {
            Ok(self)
        } else if version > 1 {
            Err(ErrorView::UnsupportedRecord { tag, version })
        } else if repeated {
            Err(ErrorView::RepeatedRecord(tag))
        } else if tag.0 == tag::DATASET {
            match DatasetView::read(i).out {
                Ok(d) => Ok(Footer { dataset: Some(d), ..self }),
                Err(e) => Err(ErrorView::Footer(e)),
            }
        } else if tag.0 == tag::SCHEMA {
            match SchemaView::read(i).out {
                Ok(s) => Ok(Footer { schema: Some(s), ..self }),
                Err(e) => Err(ErrorView::Footer(e)),
            }
        } else if tag.0 == tag::DECODER {
            match DecoderView::read(i).out {
                Ok(d) => Ok(Footer { decoder: Some(d), ..self }),
                Err(e) => Err(ErrorView::Footer(e)),
            }
        } else {
            match SectionView::read(i).out {
                Ok(s) => Ok(Footer { sections: self.sections.push(s), ..self }),
                Err(e) => Err(ErrorView::Footer(e)),
            }
        }
    }

    /// After the record at the cursor and all behind it.
    pub open spec fn rest(self, i: Input) -> Outcome<Footer>
        decreases i.left(),
    {
        if i.left() <= 0 {
            Ok(self)
        } else {
            let rec = i.record();
            match rec.out {
                Err(e) => Err(ErrorView::Footer(e)),
                Ok((header, payload)) => match self.with(header.tag, header.version, payload) {
                    Err(e) => Err(e),
                    Ok(next) => {
                        proof {
                            lemma_record_advances(i);
                        }
                        next.rest(i.to(rec.at))
                    },
                },
            }
        }
    }

    /// What a whole footer says. It has to name a dataset.
    pub open spec fn of(bytes: Seq<u8>) -> Outcome<Footer> {
        match Self::start().rest(Input::over(bytes)) {
            Err(e) => Err(e),
            Ok(f) => if f.dataset is None {
                Err(ErrorView::MissingRecord(Tag(tag::DATASET)))
            } else {
                Ok(f)
            },
        }
    }
}

/// Reading a record moves the cursor on, and no further than the end.
pub proof fn lemma_record_advances(i: Input)
    requires
        i.record().out is Ok,
    ensures
        i.at + 8 <= i.record().at <= i.bytes.len(),
{
}

/// How many bytes the record of a section takes at least.
pub const SECTION_RECORD: usize = 64;

/// A record takes at least its header and its payload.
proof fn lemma_record_takes(i: Input)
    requires
        0 <= i.at,
        i.record().out is Ok,
    ensures
        i.record().at >= i.at + 8 + i.record().out->Ok_0.1.len(),
{
}

/// A section is read out of no fewer bytes than it is written as.
proof fn lemma_section_takes(i: Input)
    requires
        i.at == 0,
        SectionView::read(i).out is Ok,
    ensures
        i.bytes.len() >= SECTION_RECORD - 8,
{
}

/// Records listed from here on are paid for by the bytes they are read from.
proof fn lemma_listed_is_paid_for(f: Footer, i: Input)
    requires
        0 <= i.at,
        f.rest(i) is Ok,
    ensures
        SECTION_RECORD * f.rest(i)->Ok_0.sections.len() <= SECTION_RECORD * f.sections.len() + if i.left()
            > 0 {
            i.left()
        } else {
            0
        },
    decreases i.left(),
{
    if i.left() > 0 {
        let rec = i.record();
        let (header, payload) = rec.out->Ok_0;
        let next = f.with(header.tag, header.version, payload)->Ok_0;
        lemma_record_advances(i);
        lemma_record_takes(i);
        if next.sections.len() > f.sections.len() {
            lemma_section_takes(Input::over(payload));
        }
        lemma_listed_is_paid_for(next, i.to(rec.at));
    }
}

/// A footer is large enough to hold a record for every section it lists, so a file that claims a great
/// many sections is a large file.
pub proof fn lemma_sections_are_paid_for(footer: Seq<u8>)
    requires
        Footer::of(footer) is Ok,
    ensures
        SECTION_RECORD * Footer::of(footer)->Ok_0.sections.len() <= footer.len(),
{
    lemma_listed_is_paid_for(Footer::start(), Input::over(footer));
}

/// What is wrong with a section, given those listed before it.
pub open spec fn section_fault(
    sections: Seq<SectionView>,
    k: int,
    placement: PlacementView,
) -> Option<ErrorView> {
    let s = sections[k];
    if s.offset < HEADER_SIZE || s.end() > placement.footer_at {
        Some(
            ErrorView::SectionOutOfBounds {
                id: s.id,
                offset: s.offset,
                end: if s.end() > u64::MAX {
                    u64::MAX
                } else {
                    s.end() as u64
                },
                file_len: placement.file_len,
            },
        )
    } else if exists|j: int| 0 <= j < k && #[trigger] sections[j].id == s.id {
        Some(ErrorView::DuplicateSection { id: s.id })
    } else {
        None
    }
}

/// The first thing wrong with the first `n` sections.
pub open spec fn sections_fault(
    sections: Seq<SectionView>,
    n: nat,
    placement: PlacementView,
) -> Option<ErrorView>
    decreases n,
{
    if n == 0 {
        None
    } else {
        match sections_fault(sections, (n - 1) as nat, placement) {
            Some(e) => Some(e),
            None => section_fault(sections, n - 1, placement),
        }
    }
}

/// What a [`Directory`] says.
pub ghost struct DirectoryView {
    /// The format version.
    pub header: FileHeader,
    /// The bytes of the header.
    pub raw_header: Seq<u8>,
    /// The bytes of the footer.
    pub footer: Seq<u8>,
    /// Where the footer is.
    pub placement: PlacementView,
    /// What the dataset is.
    pub dataset: DatasetView,
    /// The schema, if there is one.
    pub schema: Option<SchemaView>,
    /// The decoder, if there is one.
    pub decoder: Option<DecoderView>,
    /// The sections, in the order the footer lists them.
    pub sections: Seq<SectionView>,
}

/// What sixteen bytes of header say.
pub open spec fn header_of(raw: Seq<u8>) -> Outcome<FileHeader> {
    let major = le(raw.subrange(8, 10)) as u16;
    let minor = le(raw.subrange(10, 12)) as u16;
    if major != FORMAT_MAJOR {
        Err(ErrorView::UnsupportedFormat { major, minor, supported_major: FORMAT_MAJOR })
    } else if le(raw.subrange(12, 16)) != 0 {
        Err(ErrorView::Reserved { what: "header" })
    } else {
        Ok(FileHeader { major, minor })
    }
}

impl DirectoryView {
    /// What the metadata of a container says, whether or not it is what was written.
    pub open spec fn unsealed(
        header: Seq<u8>,
        footer: Seq<u8>,
        placement: PlacementView,
    ) -> Outcome<DirectoryView> {
        let raw = header.take(HEADER_SIZE as int);
        if header.len() < HEADER_SIZE {
            Err(cut("the header", HEADER_SIZE as u64, header.len() as u64))
        } else if raw.take(8) != MAGIC@ {
            Err(ErrorView::NotAContainer { found: raw.take(8), expected: MAGIC@ })
        } else if footer.len() != placement.footer_len {
            Err(cut("the footer", placement.footer_len as u64, footer.len() as u64))
        } else {
            match header_of(raw) {
                Err(e) => Err(e),
                Ok(h) => match Footer::of(footer) {
                    Err(e) => Err(e),
                    Ok(f) => match sections_fault(f.sections, f.sections.len(), placement) {
                        Some(e) => Err(e),
                        None => Ok(
                            DirectoryView {
                                header: h,
                                raw_header: raw,
                                footer,
                                placement,
                                dataset: f.dataset->Some_0,
                                schema: f.schema,
                                decoder: f.decoder,
                                sections: f.sections,
                            },
                        ),
                    },
                },
            }
        }
    }

    /// What the metadata hashes to.
    pub open spec fn root(self) -> Seq<u8> {
        blake3_of(self.raw_header + self.footer)
    }

    /// What the metadata of a container says, if it hashes to the digest in the trailer.
    pub open spec fn sealed(
        header: Seq<u8>,
        footer: Seq<u8>,
        placement: PlacementView,
    ) -> Outcome<DirectoryView> {
        match Self::unsealed(header, footer, placement) {
            Err(e) => Err(e),
            Ok(d) => d.sealed_with(d.root()),
        }
    }

    /// This metadata, if what it hashes to is the digest in the trailer.
    pub open spec fn sealed_with(self, actual: Seq<u8>) -> Outcome<DirectoryView> {
        if actual != self.placement.root {
            Err(
                ErrorView::DigestMismatch {
                    what: "footer"@,
                    expected: hex_text(self.placement.root),
                    actual: hex_text(actual),
                },
            )
        } else {
            Ok(self)
        }
    }

    /// Whether an index is that of the section with an id.
    pub open spec fn is_section(self, id: u32, k: int) -> bool {
        &&& 0 <= k < self.sections.len()
        &&& self.sections[k].id == id
        &&& forall|j: int| 0 <= j < k ==> (#[trigger] self.sections[j]).id != id
    }

    /// The section with an id.
    pub open spec fn section(self, id: u32) -> Option<SectionView> {
        if exists|k: int| self.is_section(id, k) {
            Some(self.sections[choose|k: int| self.is_section(id, k)])
        } else {
            None
        }
    }

    /// The section the decoder module is in, if it is in one.
    pub open spec fn decoder_section(self) -> Option<SectionView> {
        match self.decoder {
            None => None,
            Some(d) => match d.location {
                DecoderLocation::Embedded { section } => self.section(section),
                DecoderLocation::External => None,
            },
        }
    }

    /// Whether every section lies between the header and the footer under an id of its own.
    pub open spec fn wf(self) -> bool {
        &&& forall|k: int|
            0 <= k < self.sections.len() ==> HEADER_SIZE <= (#[trigger] self.sections[k]).offset
                && self.sections[k].end() <= self.placement.footer_at
        &&& forall|j: int, k: int|
            0 <= j < k < self.sections.len() ==> (#[trigger] self.sections[j]).id != (
            #[trigger] self.sections[k]).id
    }
}

/// Sections with nothing wrong lie inside the payload area under ids of their own.
pub proof fn lemma_faultless_sections(
    sections: Seq<SectionView>,
    n: nat,
    placement: PlacementView,
)
    requires
        n <= sections.len(),
        sections_fault(sections, n, placement) is None,
    ensures
        forall|k: int|
            0 <= k < n ==> HEADER_SIZE <= (#[trigger] sections[k]).offset && sections[k].end()
                <= placement.footer_at,
        forall|j: int, k: int|
            0 <= j < k < n ==> (#[trigger] sections[j]).id != (#[trigger] sections[k]).id,
    decreases n,
{
    if n > 0 {
        lemma_faultless_sections(sections, (n - 1) as nat, placement);
        assert(section_fault(sections, n - 1, placement) is None);
        assert forall|j: int, k: int| 0 <= j < k < n implies (#[trigger] sections[j]).id != (
        #[trigger] sections[k]).id by {
            if k == n - 1 && sections[j].id == sections[k].id {
                assert(0 <= j < n - 1 && sections[j].id == sections[n - 1].id);
            }
        }
    }
}

/// A directory that was read has every section inside the payload area, under an id of its own.
pub proof fn lemma_directory_wf(header: Seq<u8>, footer: Seq<u8>, placement: PlacementView)
    requires
        DirectoryView::unsealed(header, footer, placement) is Ok,
    ensures
        DirectoryView::unsealed(header, footer, placement)->Ok_0.wf(),
{
    let f = Footer::of(footer)->Ok_0;
    lemma_faultless_sections(f.sections, f.sections.len(), placement);
}

/// A fault early on is the fault of the whole list.
proof fn lemma_fault_stays(
    sections: Seq<SectionView>,
    k: nat,
    n: nat,
    placement: PlacementView,
)
    requires
        k <= n,
        sections_fault(sections, k, placement) is Some,
    ensures
        sections_fault(sections, n, placement) == sections_fault(sections, k, placement),
    decreases n,
{
    if k < n {
        lemma_fault_stays(sections, k, (n - 1) as nat, placement);
    }
}

/// Sections, taken for what they say.
pub open spec fn listed(sections: Seq<Section>) -> Seq<SectionView> {
    Seq::new(sections.len(), |i: int| sections[i]@)
}

/// What a container holds, without the bytes it holds.
#[derive(Clone, Debug)]
pub struct Directory<'a> {
    header: FileHeader,
    raw_header: [u8; 16],
    footer: &'a [u8],
    placement: Placement,
    dataset: Dataset,
    schema: Option<Schema<'a>>,
    decoder: Option<DecoderRef<'a>>,
    sections: Vec<Section>,
}

/// An optional value, taken for what it says.
pub open spec fn seen<T: View>(v: Option<T>) -> Option<T::V> {
    match v {
        Some(t) => Some(t@),
        None => None,
    }
}

impl<'a> View for Directory<'a> {
    type V = DirectoryView;

    closed spec fn view(&self) -> DirectoryView {
        DirectoryView {
            header: self.header,
            raw_header: self.raw_header@,
            footer: self.footer@,
            placement: self.placement@,
            dataset: self.dataset@,
            schema: seen(self.schema),
            decoder: seen(self.decoder),
            sections: listed(self.sections@),
        }
    }
}

/// What the records of a footer have said so far, in hand.
struct Records<'a> {
    dataset: Option<Dataset>,
    schema: Option<Schema<'a>>,
    decoder: Option<DecoderRef<'a>>,
    sections: Vec<Section>,
}

impl<'a> Records<'a> {
    /// What they have said.
    spec fn said(&self) -> Footer {
        Footer {
            dataset: seen(self.dataset),
            schema: seen(self.schema),
            decoder: seen(self.decoder),
            sections: listed(self.sections@),
        }
    }

    /// Takes in one more record.
    fn take(&mut self, tag: Tag, version: u16, body: &mut Reader<'a>) -> (r: Result<()>)
        requires
            old(body).wf(),
            old(body)@.at == 0,
        ensures
            match old(self).said().with(tag, version, old(body)@.bytes) {
                Ok(f) => r is Ok && final(self).said() == f,
                Err(e) => r is Err && r->Err_0@ == e,
            },
    {
        assert(body@ == Input::over(body@.bytes));
        if tag.0 == tag::DATASET {
            expect_version(tag, version, Dataset::VERSION)?;
            if self.dataset.is_some() {
                return Err(Error::RepeatedRecord(tag));
            }
            let dataset = footer(Dataset::decode(body))?;
            self.dataset = Some(dataset);
        } else if tag.0 == tag::SCHEMA {
            expect_version(tag, version, Schema::VERSION)?;
            if self.schema.is_some() {
                return Err(Error::RepeatedRecord(tag));
            }
            let schema = footer(Schema::decode(body))?;
            self.schema = Some(schema);
        } else if tag.0 == tag::DECODER {
            expect_version(tag, version, DecoderRef::VERSION)?;
            if self.decoder.is_some() {
                return Err(Error::RepeatedRecord(tag));
            }
            let decoder = footer(DecoderRef::decode(body))?;
            self.decoder = Some(decoder);
        } else if tag.0 == tag::SECTION {
            expect_version(tag, version, Section::VERSION)?;
            let section = footer(Section::decode(body))?;
            let ghost before = self.sections@;
            self.sections.push(section);
            assert(listed(self.sections@) =~= listed(before).push(section@));
        }
        Ok(())
    }
}

/// Reads the records of a footer.
fn parse_footer<'a>(bytes: &'a [u8]) -> (r: Result<Records<'a>>)
    ensures
        match Footer::of(bytes@) {
            Ok(f) => r is Ok && r->Ok_0.said() == f,
            Err(e) => r is Err && r->Err_0@ == e,
        },
{
    let mut records = Records { dataset: None, schema: None, decoder: None, sections: Vec::new() };
    assert(records.said().sections =~= Seq::<SectionView>::empty());
    let mut p = Reader::new(bytes);
    while !p.is_empty()
        invariant
            p.wf(),
            p@.bytes == bytes@,
            Footer::start().rest(Input::over(bytes@)) == records.said().rest(p@),
        decreases p@.left(),
    {
        let ghost before = p@;
        let (header, mut body) = footer(p.record())?;
        proof {
            lemma_record_advances(before);
        }
        records.take(header.tag, header.version, &mut body)?;
    }
    if records.dataset.is_none() {
        return Err(Error::MissingRecord(Tag(tag::DATASET)));
    }
    Ok(records)
}

/// Checks that every section lies inside the payload area under an id of its own.
fn check_sections(sections: &Vec<Section>, placement: &Placement) -> (r: Result<()>)
    ensures
        match sections_fault(listed(sections@), sections@.len(), placement@) {
            Some(e) => r is Err && r->Err_0@ == e,
            None => r is Ok,
        },
{
    let ghost all = listed(sections@);
    let file_len: u64 = placement.file_len;
    let mut i: usize = 0;
    while i < sections.len()
        invariant
            0 <= i <= sections@.len(),
            all == listed(sections@),
            file_len == placement@.file_len,
            sections_fault(all, i as nat, placement@) is None,
        decreases sections@.len() - i,
    {
        let section = sections[i];
        assert(all[i as int] == section@);
        proof {
            if sections_fault(all, (i + 1) as nat, placement@) is Some {
                lemma_fault_stays(all, (i + 1) as nat, sections@.len(), placement@);
            }
        }
        let end: u64 = match section.end() {
            Some(end) => end,
            None => {
                return Err(
                    Error::SectionOutOfBounds {
                        id: section.id,
                        offset: section.offset,
                        end: u64::MAX,
                        file_len,
                    },
                );
            },
        };
        if section.offset < HEADER_SIZE as u64 || end > placement.footer_at {
            return Err(
                Error::SectionOutOfBounds {
                    id: section.id,
                    offset: section.offset,
                    end,
                    file_len,
                },
            );
        }
        let mut j: usize = 0;
        while j < i
            invariant
                0 <= j <= i < sections@.len(),
                all == listed(sections@),
                section@ == all[i as int],
                section.offset >= HEADER_SIZE,
                section@.end() <= placement@.footer_at,
                sections_fault(all, i as nat, placement@) is None,
                sections_fault(all, (i + 1) as nat, placement@) is Some ==> sections_fault(
                    all,
                    sections@.len(),
                    placement@,
                ) == sections_fault(all, (i + 1) as nat, placement@),
                forall|k: int| 0 <= k < j ==> (#[trigger] all[k]).id != section.id,
            decreases i - j,
        {
            if sections[j].id == section.id {
                assert(all[j as int].id == section.id);
                return Err(Error::DuplicateSection { id: section.id });
            }
            assert(all[j as int].id != section.id);
            j = j + 1;
        }
        i = i + 1;
    }
    Ok(())
}

/// Reads the version out of sixteen bytes of header.
fn parse_header(header: &[u8]) -> (r: Result<FileHeader>)
    requires
        header@.len() == HEADER_SIZE,
    ensures
        equals(r, header_of(header@)),
{
    let major: u16 = u16_of(&header[8..10]);
    let minor: u16 = u16_of(&header[10..12]);
    proof {
        lemma_le_2(header@.subrange(8, 10));
        lemma_le_2(header@.subrange(10, 12));
        lemma_le_4(header@.subrange(12, 16));
    }
    if major != FORMAT_MAJOR {
        return Err(Error::UnsupportedFormat { major, minor, supported_major: FORMAT_MAJOR });
    }
    if u32_of(&header[12..16]) != 0 {
        return Err(Error::Reserved { what: "header" });
    }
    Ok(FileHeader { major, minor })
}

/// A record at a later version than the one supported is refused.
fn expect_version(tag: Tag, found: u16, supported: u16) -> (r: Result<()>)
    ensures
        found <= supported ==> r is Ok,
        found > supported ==> r is Err && r->Err_0@ == (ErrorView::UnsupportedRecord {
            tag,
            version: found,
        }),
{
    if found > supported {
        return Err(Error::UnsupportedRecord { tag, version: found });
    }
    Ok(())
}

impl<'a> Directory<'a> {
    /// Parses the metadata and checks that it is the metadata that was written.
    ///
    /// `header` is the first bytes of the file and `footer` is the bytes that `placement` names. The
    /// root digest covers exactly those two ranges.
    pub fn parse(header: &[u8], footer: &'a [u8], placement: Placement) -> (r: Result<Self>)
        ensures
            agrees(r, DirectoryView::sealed(header@, footer@, placement@)),
            r is Ok ==> r->Ok_0@.wf(),
    {
        let directory = Directory::parse_without_root_digest(header, footer, placement)?;
        let actual = directory.compute_root();
        directory.sealed_with(actual)
    }

    /// This metadata, if what it hashes to is the digest in the trailer.
    pub fn sealed_with(self, actual: Digest) -> (r: Result<Self>)
        ensures
            agrees(r, self@.sealed_with(actual@)),
    {
        if !actual.matches(&self.placement.root) {
            return Err(
                Error::DigestMismatch {
                    what: "footer".to_owned(),
                    expected: self.placement.root.text(),
                    actual: actual.text(),
                },
            );
        }
        Ok(self)
    }

    /// Parses the metadata without checking the root digest.
    pub fn parse_without_root_digest(
        header: &[u8],
        footer: &'a [u8],
        placement: Placement,
    ) -> (r: Result<Self>)
        ensures
            agrees(r, DirectoryView::unsealed(header@, footer@, placement@)),
            r is Ok ==> r->Ok_0@.wf(),
    {
        if header.len() < HEADER_SIZE {
            return Err(
                Error::Truncated {
                    what: "the header",
                    needed: HEADER_SIZE as u64,
                    available: header.len() as u64,
                },
            );
        }
        let raw = &header[0..HEADER_SIZE];
        assert(raw@ =~= header@.take(HEADER_SIZE as int));
        let front = &raw[0..8];
        assert(front@ =~= raw@.take(8));
        if !same(front, MAGIC.as_slice()) {
            return Err(
                Error::NotAContainer { found: copied(front), expected: copied(MAGIC.as_slice()) },
            );
        }
        if footer.len() != placement.footer_len() {
            return Err(
                Error::Truncated {
                    what: "the footer",
                    needed: placement.footer_len() as u64,
                    available: footer.len() as u64,
                },
            );
        }
        let version = parse_header(raw)?;
        let records = parse_footer(footer)?;
        check_sections(&records.sections, &placement)?;
        let mut raw_header: [u8; 16] = [0u8;16];
        let mut i: usize = 0;
        while i < 16
            invariant
                0 <= i <= 16,
                raw@.len() == 16,
                forall|j: int| 0 <= j < i ==> raw_header@[j] == raw@[j],
            decreases 16 - i,
        {
            raw_header[i] = raw[i];
            i = i + 1;
        }
        assert(raw_header@ =~= raw@);
        proof {
            lemma_directory_wf(header@, footer@, placement@);
        }
        let dataset = match records.dataset {
            Some(dataset) => dataset,
            None => return Err(Error::MissingRecord(Tag(tag::DATASET))),
        };
        Ok(
            Directory {
                header: version,
                raw_header,
                footer,
                placement,
                dataset,
                schema: records.schema,
                decoder: records.decoder,
                sections: records.sections,
            },
        )
    }

    fn compute_root(&self) -> (r: Digest)
        ensures
            r@ == self@.root(),
    {
        Digest::of_parts(self.raw_header.as_slice(), self.footer)
    }

    /// The format version this container was written at.
    #[must_use]
    pub fn header(&self) -> (r: FileHeader)
        ensures
            r == self@.header,
    {
        self.header
    }

    /// Where the footer is and how long the file is.
    #[must_use]
    pub fn placement(&self) -> (r: Placement)
        ensures
            r@ == self@.placement,
    {
        self.placement
    }

    /// The digest that covers the header and the footer.
    #[must_use]
    pub fn root_digest(&self) -> (r: Digest)
        ensures
            r@ == self@.placement.root,
    {
        self.placement.root_digest()
    }

    /// What the dataset is.
    #[must_use]
    pub fn dataset(&self) -> (r: &Dataset)
        ensures
            r@ == self@.dataset,
    {
        &self.dataset
    }

    /// The schema, if there is one.
    #[must_use]
    pub fn schema(&self) -> (r: Option<&Schema<'a>>)
        ensures
            match self@.schema {
                Some(s) => r is Some && r->Some_0@ == s,
                None => r is None,
            },
    {
        self.schema.as_ref()
    }

    /// The decoder reference, if there is one.
    #[must_use]
    pub fn decoder(&self) -> (r: Option<&DecoderRef<'a>>)
        ensures
            match self@.decoder {
                Some(d) => r is Some && r->Some_0@ == d,
                None => r is None,
            },
    {
        self.decoder.as_ref()
    }

    /// Every section, in the order the footer listed them.
    #[must_use]
    pub fn sections(&self) -> (r: &[Section])
        ensures
            listed(r@) == self@.sections,
    {
        self.sections.as_slice()
    }

    /// The section with this id.
    #[must_use]
    pub fn section(&self, id: u32) -> (r: Option<&Section>)
        ensures
            match self@.section(id) {
                Some(s) => r is Some && r->Some_0@ == s,
                None => r is None,
            },
    {
        let mut i: usize = 0;
        while i < self.sections.len()
            invariant
                0 <= i <= self.sections@.len(),
                forall|j: int| 0 <= j < i ==> (#[trigger] self@.sections[j]).id != id,
            decreases self.sections@.len() - i,
        {
            if self.sections[i].id == id {
                proof {
                    assert(self@.sections[i as int] == self.sections@[i as int]@);
                    assert(self@.is_section(id, i as int));
                    let k = choose|k: int| self@.is_section(id, k);
                    assert(self@.is_section(id, k));
                    assert(k == i) by {
                        if k < i {
                            assert(self@.sections[k].id != id);
                        }
                        if i < k {
                            assert(self@.sections[i as int].id != id);
                        }
                    }
                }
                return Some(&self.sections[i]);
            }
            assert(self@.sections[i as int] == self.sections@[i as int]@);
            i = i + 1;
        }
        None
    }

    /// The section the decoder module is in, if the decoder is embedded and that section exists.
    #[must_use]
    pub fn decoder_section(&self) -> (r: Option<&Section>)
        ensures
            match self@.decoder_section() {
                Some(s) => r is Some && r->Some_0@ == s,
                None => r is None,
            },
    {
        match &self.decoder {
            None => None,
            Some(decoder) => match decoder.location {
                DecoderLocation::Embedded { section } => self.section(section),
                DecoderLocation::External => None,
            },
        }
    }
}

} // verus!
