//! Where everything lies in the file.
use vstd::prelude::*;
use vstd::utf8::{decode_utf8, valid_utf8};

use crate::abi::caps::Caps;
use crate::abi::layout_laws::{behind, field, lemma_var, number};
use crate::abi::record::Tag;
use crate::abi::wire::Input;
use crate::bytes::{lemma_le_2, lemma_le_4, lemma_le_8, lemma_le_bytes_len};
use crate::format::builder::BuilderView;
use crate::format::container::{placement_in, ContainerView};
use crate::format::digest::blake3_of;
use crate::format::directory::{
    lemma_directory_wf, lemma_faultless_sections, section_fault, sections_fault, trailer_start,
    DirectoryView, Footer, PlacementView,
};
use crate::format::frames::writable;
use crate::format::layout::DecoderLocation;
use crate::format::meta::{DatasetView, DecoderView, SchemaView, SectionView};

verus! {

/// The eight bytes that a container starts and ends with: the letters IRIS, and what a transfer that
/// changes line ends or stops at an end of file would damage.
pub open spec fn magic() -> Seq<u8> {
    seq![73u8, 82, 73, 83, 13, 10, 26, 10]
}

/// A trailer lies as where the footer starts at 0, how long it is at 8, four zero bytes at 12, the root
/// digest at 16 and the magic at 48; and the footer it places lies between the header and it.
pub proof fn lemma_trailer_layout(trailer: Seq<u8>, file_len: u64)
    requires
        PlacementView::read(trailer, file_len) is Ok,
    ensures
        ({
            let p = PlacementView::read(trailer, file_len)->Ok_0;
            &&& trailer.len() >= 56
            &&& trailer.subrange(48, 56) == magic()
            &&& number(trailer, 12, 4) == 0
            &&& p.file_len == file_len
            &&& p.footer_at == number(trailer, 0, 8)
            &&& p.footer_len == number(trailer, 8, 4)
            &&& p.root == trailer.subrange(16, 48)
            &&& 16 <= p.footer_at
            &&& p.footer_at + p.footer_len + 56 <= file_len
        }),
{
    lemma_le_8(trailer.subrange(0, 8));
    lemma_le_4(trailer.subrange(8, 12));
    assert(crate::format::layout::MAGIC@ =~= magic());
}

/// A container that is read starts with the magic, its major version, which is nought, its minor version
/// and four zero bytes; ends with its trailer; and has its footer where the trailer says. Where its root
/// digest is checked, that is the digest of the sixteen bytes of header and the footer.
pub proof fn lemma_container_layout(bytes: Seq<u8>, checked: bool)
    requires
        bytes.len() <= u64::MAX,
        ContainerView::of(bytes, checked) is Ok,
    ensures
        ({
            let c = ContainerView::of(bytes, checked)->Ok_0;
            let p = c.directory.placement;
            let n = bytes.len() as int;
            &&& n >= 72
            &&& c.bytes == bytes
            &&& bytes.take(8) == magic()
            &&& c.directory.header.major == 0
            &&& number(bytes, 8, 2) == 0
            &&& c.directory.header.minor == number(bytes, 10, 2)
            &&& number(bytes, 12, 4) == 0
            &&& PlacementView::read(bytes.subrange(n - 56, n), n as u64) == Ok::<
                PlacementView,
                crate::format::error::ErrorView,
            >(p)
            &&& c.directory.footer == bytes.subrange(
                p.footer_at as int,
                p.footer_at + p.footer_len,
            )
            &&& checked ==> blake3_of(bytes.take(16) + c.directory.footer) == p.root
            &&& Footer::of(c.directory.footer) is Ok
            &&& c.directory.sections == Footer::of(c.directory.footer)->Ok_0.sections
            &&& Some(c.directory.dataset) == Footer::of(c.directory.footer)->Ok_0.dataset
            &&& c.directory.schema == Footer::of(c.directory.footer)->Ok_0.schema
            &&& c.directory.decoder == Footer::of(c.directory.footer)->Ok_0.decoder
        }),
{
    let n = bytes.len() as int;
    let raw = bytes.take(16);
    assert(crate::format::layout::MAGIC@ =~= magic());
    assert(bytes.skip(n - 56) =~= bytes.subrange(n - 56, n));
    assert(raw.take(16) =~= raw);
    assert(raw.take(8) =~= bytes.take(8));
    assert(raw.subrange(8, 10) =~= bytes.subrange(8, 10));
    assert(raw.subrange(10, 12) =~= bytes.subrange(10, 12));
    assert(raw.subrange(12, 16) =~= bytes.subrange(12, 16));
    lemma_le_2(bytes.subrange(8, 10));
    lemma_le_2(bytes.subrange(10, 12));
}

/// The record of a dataset lies as its rows at 0 and its name at 8.
pub proof fn lemma_dataset_layout(p: Seq<u8>)
    requires
        p.len() <= usize::MAX,
        DatasetView::read(Input::over(p)).out is Ok,
    ensures
        ({
            let d = DatasetView::read(Input::over(p)).out->Ok_0;
            &&& d.rows == number(p, 0, 8)
            &&& valid_utf8(field(p, 8))
            &&& d.name == decode_utf8(field(p, 8))
        }),
{
    lemma_le_8(p.subrange(0, 8));
    lemma_var(p, 8);
}

/// The record of a schema lies as its encoding at 0, which is 1 for an Arrow message, and its bytes at 4.
pub proof fn lemma_schema_layout(p: Seq<u8>)
    requires
        p.len() <= usize::MAX,
        SchemaView::read(Input::over(p)).out is Ok,
    ensures
        ({
            let s = SchemaView::read(Input::over(p)).out->Ok_0;
            &&& s.encoding is ArrowIpc <==> number(p, 0, 4) == 1
            &&& s.encoding is Unknown ==> s.encoding->Unknown_0 == number(p, 0, 4)
            &&& s.bytes == field(p, 4)
        }),
{
    lemma_le_4(p.subrange(0, 4));
    lemma_var(p, 4);
}

/// The record of a decoder lies as its major version at 0, its minor at 2, whether it is outside the file
/// at 4, its section at 8, its digest at 16, what it requires at 48 and its name behind that.
pub proof fn lemma_decoder_layout(p: Seq<u8>)
    requires
        p.len() <= usize::MAX,
        DecoderView::read(Input::over(p)).out is Ok,
    ensures
        ({
            let d = DecoderView::read(Input::over(p)).out->Ok_0;
            &&& d.abi_major == number(p, 0, 2)
            &&& d.abi_minor == number(p, 2, 2)
            &&& d.location is Embedded <==> number(p, 4, 4) == 0
            &&& d.location is Embedded ==> d.location->section == number(p, 8, 4)
            &&& d.digest == p.subrange(16, 48)
            &&& d.required == Caps::of(field(p, 48))
            &&& valid_utf8(field(p, behind(p, 48)))
            &&& d.name == decode_utf8(field(p, behind(p, 48)))
        }),
{
    lemma_le_2(p.subrange(0, 2));
    lemma_le_2(p.subrange(2, 4));
    lemma_le_4(p.subrange(4, 8));
    lemma_le_4(p.subrange(8, 12));
    lemma_var(p, 48);
    lemma_var(p, behind(p, 48));
}

/// The record of a section lies as its id at 0, its kind at 4, which is 1 for data, 2 for a decoder and 3
/// for a sidecar, where it starts at 8, how long it is at 16 and its digest at 24.
pub proof fn lemma_section_layout(p: Seq<u8>)
    requires
        p.len() <= usize::MAX,
        SectionView::read(Input::over(p)).out is Ok,
    ensures
        ({
            let s = SectionView::read(Input::over(p)).out->Ok_0;
            &&& s.id == number(p, 0, 4)
            &&& s.kind is Data <==> number(p, 4, 4) == 1
            &&& s.kind is Decoder <==> number(p, 4, 4) == 2
            &&& s.kind is Sidecar <==> number(p, 4, 4) == 3
            &&& s.kind is Unknown ==> s.kind->Unknown_0 == number(p, 4, 4)
            &&& s.offset == number(p, 8, 8)
            &&& s.len == number(p, 16, 8)
            &&& s.digest == p.subrange(24, 56)
        }),
{
    lemma_le_4(p.subrange(0, 4));
    lemma_le_4(p.subrange(4, 8));
    lemma_le_8(p.subrange(8, 16));
    lemma_le_8(p.subrange(16, 24));
}

/// A footer record says what its tag says: a dataset is 256, a schema 257, a decoder 258 and a section
/// 259. Each changes what it is about and nothing else, a section coming behind those before it. A second
/// dataset, schema or decoder is refused, and so is a known record at a version past the first. Any other
/// record changes nothing.
pub proof fn lemma_footer_record(f: Footer, tag: Tag, version: u16, payload: Seq<u8>)
    ensures
        ({
            let i = Input::over(payload);
            let next = f.with(tag, version, payload);
            let known = tag.0 == 256 || tag.0 == 257 || tag.0 == 258 || tag.0 == 259;
            &&& !known ==> next is Ok && next->Ok_0 == f
            &&& known && version > 1 ==> next is Err
            &&& tag.0 == 256 && f.dataset is Some ==> next is Err
            &&& tag.0 == 257 && f.schema is Some ==> next is Err
            &&& tag.0 == 258 && f.decoder is Some ==> next is Err
            &&& next is Ok && tag.0 == 256 ==> next->Ok_0 == (Footer {
                dataset: Some(DatasetView::read(i).out->Ok_0),
                ..f
            }) && DatasetView::read(i).out is Ok
            &&& next is Ok && tag.0 == 257 ==> next->Ok_0 == (Footer {
                schema: Some(SchemaView::read(i).out->Ok_0),
                ..f
            }) && SchemaView::read(i).out is Ok
            &&& next is Ok && tag.0 == 258 ==> next->Ok_0 == (Footer {
                decoder: Some(DecoderView::read(i).out->Ok_0),
                ..f
            }) && DecoderView::read(i).out is Ok
            &&& next is Ok && tag.0 == 259 ==> next->Ok_0 == (Footer {
                sections: f.sections.push(SectionView::read(i).out->Ok_0),
                ..f
            }) && SectionView::read(i).out is Ok
        }),
{
}

/// Sections are taken exactly when each lies behind the sixteen bytes of header and in front of the
/// footer, and no two have the same id.
pub proof fn lemma_sections_pass(sections: Seq<SectionView>, n: nat, placement: PlacementView)
    requires
        n <= sections.len(),
    ensures
        sections_fault(sections, n, placement) is None <==> (forall|k: int|
            0 <= k < n ==> 16 <= (#[trigger] sections[k]).offset && sections[k].offset
                + sections[k].len <= placement.footer_at) && (forall|j: int, k: int|
            0 <= j < k < n ==> (#[trigger] sections[j]).id != (#[trigger] sections[k]).id),
    decreases n,
{
    if sections_fault(sections, n, placement) is None {
        lemma_faultless_sections(sections, n, placement);
    }
    if n > 0 {
        lemma_sections_pass(sections, (n - 1) as nat, placement);
        if (forall|k: int|
            0 <= k < n ==> 16 <= (#[trigger] sections[k]).offset && sections[k].offset
                + sections[k].len <= placement.footer_at) && (forall|j: int, k: int|
            0 <= j < k < n ==> (#[trigger] sections[j]).id != (#[trigger] sections[k]).id) {
            assert(16 <= sections[n - 1].offset);
            assert(section_fault(sections, n - 1, placement) is None);
        }
    }
}

/// Looking up an id finds the section that has it, if one does, and a decoder's section is the one under
/// the id that its record gives.
pub proof fn lemma_sections_are_found_by_id(d: DirectoryView, id: u32)
    requires
        d.wf(),
    ensures
        d.section(id) is Some <==> exists|k: int|
            0 <= k < d.sections.len() && (#[trigger] d.sections[k]).id == id,
        forall|k: int|
            0 <= k < d.sections.len() && (#[trigger] d.sections[k]).id == id ==> d.section(id)
                == Some(d.sections[k]),
        d.decoder is Some && d.decoder->Some_0.location == (DecoderLocation::Embedded {
            section: id,
        }) ==> d.decoder_section() == d.section(id),
        d.decoder is None ==> d.decoder_section() is None,
        d.decoder is Some && d.decoder->Some_0.location is External ==> d.decoder_section() is None,
{
    if exists|k: int| 0 <= k < d.sections.len() && (#[trigger] d.sections[k]).id == id {
        let k = choose|k: int| 0 <= k < d.sections.len() && (#[trigger] d.sections[k]).id == id;
        assert(d.is_section(id, k)) by {
            assert forall|j: int| 0 <= j < k implies (#[trigger] d.sections[j]).id != id by {}
        }
    }
}

/// The bytes of a section are those of the file from where it starts, as many as it is long.
pub proof fn lemma_section_bytes_come_from_the_file(bytes: Seq<u8>, checked: bool, k: int)
    requires
        bytes.len() <= u64::MAX,
        ContainerView::of(bytes, checked) is Ok,
        0 <= k < ContainerView::of(bytes, checked)->Ok_0.directory.sections.len(),
    ensures
        ({
            let c = ContainerView::of(bytes, checked)->Ok_0;
            let s = c.directory.sections[k];
            &&& 16 <= s.offset
            &&& s.offset + s.len + 56 <= bytes.len()
            &&& c.section_bytes(s) == bytes.subrange(s.offset as int, s.offset + s.len)
        }),
{
    lemma_container_layout(bytes, checked);
    let c = ContainerView::of(bytes, checked)->Ok_0;
    let n = bytes.len() as int;
    lemma_trailer_layout(bytes.subrange(n - 56, n), n as u64);
    let p = placement_in(bytes)->Ok_0;
    lemma_directory_wf(
        bytes.take(16),
        bytes.subrange(p.footer_at as int, p.footer_end()),
        p,
    );
    assert(c.directory.wf());
    assert(c.directory.sections[k].end() <= c.directory.placement.footer_at);
}

/// The trailer is the last fifty six bytes of a file, which is never shorter than seventy two. It is read
/// exactly when it is all there, ends with the magic, has its zero bytes, and places the footer between
/// the sixteen bytes of header and itself.
pub proof fn lemma_a_trailer_is_read_exactly_when_it_places_the_footer(
    trailer: Seq<u8>,
    file_len: u64,
)
    ensures
        trailer_start(file_len) is Ok <==> file_len >= 72,
        file_len >= 72 ==> trailer_start(file_len)->Ok_0 == file_len - 56,
        PlacementView::read(trailer, file_len) is Ok <==> {
            &&& file_len >= 72
            &&& trailer.len() >= 56
            &&& trailer.subrange(48, 56) == magic()
            &&& number(trailer, 12, 4) == 0
            &&& 16 <= number(trailer, 0, 8)
            &&& number(trailer, 0, 8) + number(trailer, 8, 4) + 56 <= file_len
        },
{
    assert(crate::format::layout::MAGIC@ =~= magic());
    if trailer.len() >= 56 {
        lemma_le_8(trailer.subrange(0, 8));
        lemma_le_4(trailer.subrange(8, 12));
    }
}

/// Metadata is read exactly when the header starts with the magic and the major version nought and has
/// its zero bytes, the footer is as long as the trailer says and can be read, and its sections lie where
/// they may.
pub proof fn lemma_metadata_is_read_exactly_when_it_is_whole(
    header: Seq<u8>,
    footer: Seq<u8>,
    placement: PlacementView,
)
    ensures
        DirectoryView::unsealed(header, footer, placement) is Ok <==> {
            &&& header.len() >= 16
            &&& header.take(8) == magic()
            &&& number(header, 8, 2) == 0
            &&& number(header, 12, 4) == 0
            &&& footer.len() == placement.footer_len
            &&& Footer::of(footer) is Ok
            &&& sections_fault(
                Footer::of(footer)->Ok_0.sections,
                Footer::of(footer)->Ok_0.sections.len(),
                placement,
            ) is None
        },
{
    assert(crate::format::layout::MAGIC@ =~= magic());
    if header.len() >= 16 {
        let raw = header.take(16);
        assert(raw.take(8) =~= header.take(8));
        assert(raw.subrange(8, 10) =~= header.subrange(8, 10));
        assert(raw.subrange(12, 16) =~= header.subrange(12, 16));
        lemma_le_2(header.subrange(8, 10));
    }
}

/// A file that does not start as a container starts is not one, however long it is; and one that does and
/// is shorter than seventy two bytes was cut short.
pub proof fn lemma_what_is_no_container_is_told_from_what_was_cut(bytes: Seq<u8>)
    ensures
        ({
            let n = if bytes.len() < 8 {
                bytes.len() as int
            } else {
                8
            };
            &&& bytes.take(n) != magic().take(n) ==> placement_in(bytes) is Err && placement_in(
                bytes,
            )->Err_0 is NotAContainer
            &&& bytes.take(n) == magic().take(n) && bytes.len() < 72 ==> placement_in(bytes) is Err
                && placement_in(bytes)->Err_0 is Truncated
        }),
{
    assert(crate::format::layout::MAGIC@ =~= magic());
    if bytes.len() < 8 {
        assert(bytes.take(bytes.len() as int) =~= bytes);
    }
}

/// What is left of a container that cannot be built is the front of what it would have been: everything
/// before the footer and, where only the footer is too long, the footer and the first number of the
/// trailer.
pub proof fn lemma_what_is_left_is_the_front(b: BuilderView)
    ensures
        ({
            let whole = b.payload_area() + b.footer() + b.trailer();
            let left = b.left_behind();
            &&& left.len() <= whole.len()
            &&& left == whole.take(left.len() as int)
            &&& !writable(b.entries()) ==> left.len() == b.payload_area().len()
            &&& writable(b.entries()) ==> left.len() == b.payload_area().len() + b.footer().len() + 8
        }),
{
    let whole = b.payload_area() + b.footer() + b.trailer();
    let left = b.left_behind();
    lemma_le_bytes_len(b.payload_area().len(), 8);
    if writable(b.entries()) {
        assert(left =~= whole.take(left.len() as int));
    } else {
        assert(left =~= whole.take(left.len() as int));
    }
}

} // verus!
