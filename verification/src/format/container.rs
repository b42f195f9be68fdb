//! Reading a container that is all in memory.
//!
//! A [`Container`] is a [`Directory`] and the payload it describes. Parsing does not read the payload.
use vstd::prelude::*;

use crate::bytes::{copied, same};
use crate::format::digest::{blake3_of, Digest};
use crate::format::directory::{
    cut, listed, Directory, DirectoryView, FileHeader, Placement, PlacementView,
};
use crate::format::error::{agrees, Error, ErrorView, Outcome, Result};
use crate::format::layout::{HEADER_SIZE, MAGIC, MIN_SIZE, TRAILER_SIZE};
use crate::format::meta::{Dataset, DecoderRef, Schema, Section, SectionView};

verus! {

/// A parsed container, borrowing the bytes it was parsed from.
#[derive(Clone, Debug)]
pub struct Container<'a> {
    bytes: &'a [u8],
    directory: Directory<'a>,
}

/// What a [`Container`] holds.
pub ghost struct ContainerView {
    /// The whole file.
    pub bytes: Seq<u8>,
    /// The metadata.
    pub directory: DirectoryView,
}

impl<'a> View for Container<'a> {
    type V = ContainerView;

    closed spec fn view(&self) -> ContainerView {
        ContainerView { bytes: self.bytes@, directory: self.directory@ }
    }
}

/// Where a file says its footer is.
///
/// A file that is not a container is told apart from one that was cut short by how it starts.
pub open spec fn placement_in(bytes: Seq<u8>) -> Outcome<PlacementView> {
    let len = bytes.len();
    let head = if len < 8 {
        bytes
    } else {
        bytes.take(8)
    };
    if head != MAGIC@.take(head.len() as int) {
        Err(ErrorView::NotAContainer { found: head, expected: MAGIC@ })
    } else if len < MIN_SIZE {
        Err(cut("the container", MIN_SIZE as u64, len as u64))
    } else {
        PlacementView::read(bytes.skip(len - TRAILER_SIZE), len as u64)
    }
}

impl ContainerView {
    /// The metadata of a file, with the root digest checked or not.
    pub open spec fn of(bytes: Seq<u8>, checked: bool) -> Outcome<ContainerView> {
        match placement_in(bytes) {
            Err(e) => Err(e),
            Ok(p) => {
                let header = bytes.take(HEADER_SIZE as int);
                let footer = bytes.subrange(p.footer_at as int, p.footer_end());
                let directory = if checked {
                    DirectoryView::sealed(header, footer, p)
                } else {
                    DirectoryView::unsealed(header, footer, p)
                };
                match directory {
                    Err(e) => Err(e),
                    Ok(directory) => Ok(ContainerView { bytes, directory }),
                }
            },
        }
    }

    /// The bytes of a section, or none if it lies outside the file.
    pub open spec fn section_bytes(self, section: SectionView) -> Seq<u8> {
        if section.end() <= self.bytes.len() {
            self.bytes.subrange(section.offset as int, section.end())
        } else {
            Seq::empty()
        }
    }

    /// Whether a section's bytes hash to what the footer says.
    pub open spec fn intact(self, section: SectionView) -> bool {
        blake3_of(self.section_bytes(section)) == section.digest
    }

    /// What hashing the sections comes to: the first that does not match, if there is one.
    pub open spec fn verified(self, n: nat) -> Outcome<()>
        decreases n,
    {
        if n == 0 {
            Ok(())
        } else {
            match self.verified((n - 1) as nat) {
                Err(e) => Err(e),
                Ok(_) => self.directory.sections[n - 1].hashed(
                    blake3_of(self.section_bytes(self.directory.sections[n - 1])),
                ),
            }
        }
    }

    /// Whether every section lies inside the file.
    pub open spec fn wf(self) -> bool {
        &&& self.directory.wf()
        &&& self.directory.placement.wf()
        &&& self.directory.placement.file_len == self.bytes.len()
        &&& self.bytes.len() <= usize::MAX
    }
}

/// A container that verifies has every section hash to what the footer says, and the other way round.
pub proof fn lemma_verified_is_intact(c: ContainerView, n: nat)
    requires
        n <= c.directory.sections.len(),
    ensures
        c.verified(n) is Ok <==> forall|k: int|
            0 <= k < n ==> c.intact(#[trigger] c.directory.sections[k]),
    decreases n,
{
    if n > 0 {
        lemma_verified_is_intact(c, (n - 1) as nat);
        if forall|k: int| 0 <= k < n ==> c.intact(#[trigger] c.directory.sections[k]) {
            assert(c.intact(c.directory.sections[n - 1]));
        }
        if c.verified(n) is Ok {
            assert forall|k: int| 0 <= k < n implies c.intact(
                #[trigger] c.directory.sections[k],
            ) by {}
        }
    }
}

/// A mismatch early on is what verifying comes to.
proof fn lemma_mismatch_stays(c: ContainerView, k: nat, n: nat)
    requires
        k <= n,
        c.verified(k) is Err,
    ensures
        c.verified(n) == c.verified(k),
    decreases n,
{
    if k < n {
        lemma_mismatch_stays(c, k, (n - 1) as nat);
    }
}

/// Every section of a parsed container is inside the file, so its bytes are exactly as many as it
/// says.
pub proof fn lemma_sections_are_in_the_file(c: ContainerView, k: int)
    requires
        c.wf(),
        0 <= k < c.directory.sections.len(),
    ensures
        c.directory.sections[k].end() <= c.bytes.len(),
        c.section_bytes(c.directory.sections[k]).len() == c.directory.sections[k].len,
{
}

impl<'a> Container<'a> {
    /// Parses a container and checks that the footer is the footer that was written.
    ///
    /// The root digest covers the header and the footer. Section contents are not read here: see
    /// [`Container::verify`].
    pub fn parse(bytes: &'a [u8]) -> (r: Result<Self>)
        ensures
            agrees(r, ContainerView::of(bytes@, true)),
            r is Ok ==> r->Ok_0@.wf(),
    {
        Container::open(bytes, true)
    }

    /// Parses a container without checking the root digest.
    pub fn parse_without_root_digest(bytes: &'a [u8]) -> (r: Result<Self>)
        ensures
            agrees(r, ContainerView::of(bytes@, false)),
            r is Ok ==> r->Ok_0@.wf(),
    {
        Container::open(bytes, false)
    }

    /// Finds the three ranges the metadata lives in and parses them.
    fn open(bytes: &'a [u8], checked: bool) -> (r: Result<Self>)
        ensures
            agrees(r, ContainerView::of(bytes@, checked)),
            r is Ok ==> r->Ok_0@.wf(),
    {
        let len: usize = bytes.len();
        let n: usize = if len < 8 {
            len
        } else {
            8
        };
        let head = &bytes[0..n];
        let magic = MAGIC;
        let front = &magic.as_slice()[0..n];
        proof {
            assert(front@ =~= MAGIC@.take(n as int));
            if len < 8 {
                assert(head@ =~= bytes@);
            } else {
                assert(head@ =~= bytes@.take(8));
            }
        }
        if !same(head, front) {
            return Err(
                Error::NotAContainer {
                    found: copied(head),
                    expected: copied(MAGIC.as_slice()),
                },
            );
        }
        if len < MIN_SIZE {
            return Err(
                Error::Truncated {
                    what: "the container",
                    needed: MIN_SIZE as u64,
                    available: len as u64,
                },
            );
        }
        let trailer = &bytes[len - TRAILER_SIZE..len];
        assert(trailer@ =~= bytes@.skip(len - TRAILER_SIZE));
        let placement = Placement::read(trailer, len as u64)?;
        let start: usize = placement.footer_at() as usize;
        let end: usize = start + placement.footer_len();
        let footer = &bytes[start..end];
        let header = &bytes[0..HEADER_SIZE];
        assert(header@ =~= bytes@.take(HEADER_SIZE as int));
        let directory = if checked {
            Directory::parse(header, footer, placement)?
        } else {
            Directory::parse_without_root_digest(header, footer, placement)?
        };
        Ok(Container { bytes, directory })
    }

    /// The metadata, without the payload.
    #[must_use]
    pub fn directory(&self) -> (r: &Directory<'a>)
        ensures
            r@ == self@.directory,
    {
        &self.directory
    }

    /// The format version this container was written at.
    #[must_use]
    pub fn header(&self) -> (r: FileHeader)
        ensures
            r == self@.directory.header,
    {
        self.directory.header()
    }

    /// The digest that covers the header and the footer.
    #[must_use]
    pub fn root_digest(&self) -> (r: Digest)
        ensures
            r@ == self@.directory.placement.root,
    {
        self.directory.root_digest()
    }

    /// What the dataset is.
    #[must_use]
    pub fn dataset(&self) -> (r: &Dataset)
        ensures
            r@ == self@.directory.dataset,
    {
        self.directory.dataset()
    }

    /// The schema, if there is one.
    #[must_use]
    pub fn schema(&self) -> (r: Option<&Schema<'a>>)
        ensures
            match self@.directory.schema {
                Some(s) => r is Some && r->Some_0@ == s,
                None => r is None,
            },
    {
        self.directory.schema()
    }

    /// The decoder reference, if there is one.
    #[must_use]
    pub fn decoder(&self) -> (r: Option<&DecoderRef<'a>>)
        ensures
            match self@.directory.decoder {
                Some(d) => r is Some && r->Some_0@ == d,
                None => r is None,
            },
    {
        self.directory.decoder()
    }

    /// Every section, in the order the footer listed them.
    #[must_use]
    pub fn sections(&self) -> (r: &[Section])
        ensures
            listed(r@) == self@.directory.sections,
    {
        self.directory.sections()
    }

    /// The section with this id.
    #[must_use]
    pub fn section(&self, id: u32) -> (r: Option<&Section>)
        ensures
            match self@.directory.section(id) {
                Some(s) => r is Some && r->Some_0@ == s,
                None => r is None,
            },
    {
        self.directory.section(id)
    }

    /// The bytes of a section.
    ///
    /// The bounds of this container's own sections were checked while parsing. A section that lies
    /// outside the file has no bytes.
    #[must_use]
    pub fn section_bytes(&self, section: &Section) -> (r: &'a [u8])
        ensures
            r@ == self@.section_bytes(section@),
    {
        let len: usize = self.bytes.len();
        let end: u64 = match section.end() {
            Some(end) => end,
            None => u64::MAX,
        };
        if section.offset > end || end > len as u64 || section.end().is_none() {
            let none: &'a [u8] = &[];
            assert(none@ =~= Seq::<u8>::empty());
            return none;
        }
        &self.bytes[section.offset as usize..end as usize]
    }

    /// The bytes of the embedded decoder module, if the decoder is embedded and the section it names
    /// exists.
    #[must_use]
    pub fn decoder_bytes(&self) -> (r: Option<&'a [u8]>)
        ensures
            match self@.directory.decoder_section() {
                Some(s) => r is Some && r->Some_0@ == self@.section_bytes(s),
                None => r is None,
            },
    {
        match self.directory.decoder_section() {
            Some(section) => Some(self.section_bytes(section)),
            None => None,
        }
    }

    /// Hashes every section and checks it against the footer.
    ///
    /// This reads the whole file. It stops at the first section whose bytes do not hash to what the
    /// footer says.
    pub fn verify(&self) -> (r: Result<()>)
        ensures
            match self@.verified(self@.directory.sections.len()) {
                Ok(_) => r is Ok,
                Err(e) => r is Err && r->Err_0@ == e,
            },
    {
        let sections = self.directory.sections();
        let mut i: usize = 0;
        while i < sections.len()
            invariant
                0 <= i <= sections@.len(),
                listed(sections@) == self@.directory.sections,
                sections@.len() == self@.directory.sections.len(),
                self@.verified(i as nat) is Ok,
            decreases sections@.len() - i,
        {
            let section = &sections[i];
            assert(self@.directory.sections[i as int] == section@);
            proof {
                if self@.verified((i + 1) as nat) is Err {
                    lemma_mismatch_stays(self@, (i + 1) as nat, sections@.len());
                }
            }
            let actual = Digest::of(self.section_bytes(section));
            section.hashed(actual)?;
            i = i + 1;
        }
        Ok(())
    }
}

} // verus!
