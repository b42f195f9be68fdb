//! What a reader makes of a container that was built.
use vstd::prelude::*;
use vstd::utf8::encode_utf8;

use crate::abi::caps::lemma_wire_form_reads_back;
use crate::abi::error::Error;
use crate::abi::record::{Header, Tag};
use crate::abi::roundtrip::{
    carried, lemma_field_number, lemma_field_raw, lemma_field_var, lemma_five_parts,
    lemma_reads_number, lemma_text_reads_back,
};
use crate::abi::wire::{all_describable, flat, pad, Input, Op, Step};
use crate::bytes::{le_bytes, lemma_le_bytes_len, lemma_le_of_le_bytes, lemma_pow_widths, zeros};
use crate::format::builder::{header_bytes, lemma_laid_out, padded, BuilderView};
use crate::format::container::{lemma_verified_is_intact, placement_in, ContainerView};
use crate::format::digest::blake3_of;
use crate::format::directory::{
    header_of, lemma_record_advances, sections_fault, DirectoryView, FileHeader, Footer,
    PlacementView,
};
use crate::format::error::ErrorView;
use crate::format::frames::{frame, frames, lemma_frame_len, writable, Entry};
use crate::format::layout::{
    SchemaEncoding, SectionKind, FORMAT_MAJOR, FORMAT_MINOR, HEADER_SIZE, MAGIC, TRAILER_SIZE,
};
use crate::format::meta::{
    location_numbers, location_of, DatasetView, DecoderView, SchemaView, SectionView,
};
use crate::format::tag;

verus! {

/// A record reads back as its header and its payload wherever it stands.
pub proof fn lemma_frame_reads(
    prefix: Seq<u8>,
    tag: Tag,
    version: u16,
    payload: Seq<u8>,
    tail: Seq<u8>,
)
    requires
        payload.len() <= u32::MAX,
    ensures
        (Input {
            bytes: prefix + frame(tag, version, payload) + tail,
            at: prefix.len() as int,
        }).record() == (Step {
            out: Ok::<(Header, Seq<u8>), Error>(
                (Header { tag, version, len: payload.len() as u32 }, payload),
            ),
            at: (prefix.len() + frame(tag, version, payload).len()) as int,
        }),
{
    lemma_pow_widths();
    let t2 = le_bytes(tag.0 as nat, 2);
    let v2 = le_bytes(version as nat, 2);
    let l4 = le_bytes(payload.len(), 4);
    let z = zeros(pad(payload.len() as int));
    lemma_le_bytes_len(tag.0 as nat, 2);
    lemma_le_bytes_len(version as nat, 2);
    lemma_le_bytes_len(payload.len(), 4);
    lemma_five_parts(prefix, t2, v2, l4, payload, z + tail);
    let all = prefix + frame(tag, version, payload) + tail;
    assert(prefix + t2 + v2 + l4 + payload + (z + tail) =~= all);
    let at = prefix.len() as int;
    let i = Input { bytes: all, at };
    lemma_reads_number(i, tag.0 as nat, 2);
    lemma_reads_number(i.to(at + 2), version as nat, 2);
    lemma_reads_number(i.to(at + 4), payload.len(), 4);
}

/// Where a record lies in a run of them.
proof fn lemma_frames_split(entries: Seq<Entry>, k: int)
    requires
        0 <= k < entries.len(),
    ensures
        frames(entries.take(k + 1)) == frames(entries.take(k)) + entries[k].frame(),
        frames(entries) == frames(entries.take(k + 1)) + frames_behind(entries, k + 1),
{
    assert(entries.take(k + 1).drop_last() =~= entries.take(k));
    lemma_frames_behind(entries, k + 1);
}

/// The records behind the first `k`, as bytes.
spec fn frames_behind(entries: Seq<Entry>, k: int) -> Seq<u8> {
    frames(entries).skip(frames(entries.take(k)).len() as int)
}

/// A run of records starts with its first ones.
proof fn lemma_frames_behind(entries: Seq<Entry>, k: int)
    requires
        0 <= k <= entries.len(),
    ensures
        frames(entries) == frames(entries.take(k)) + frames_behind(entries, k),
        frames(entries.take(k)).len() <= frames(entries).len(),
    decreases entries.len(),
{
    if k == entries.len() {
        assert(entries.take(k) =~= entries);
        assert(frames(entries) =~= frames(entries) + frames_behind(entries, k));
    } else {
        let init = entries.drop_last();
        lemma_frames_behind(init, k);
        assert(init.take(k) =~= entries.take(k));
        assert(frames(entries) =~= frames(entries.take(k)) + frames_behind(entries, k));
    }
}

/// The cursor in a run of records, at the `k`th one.
spec fn cursor(entries: Seq<Entry>, k: int) -> Input {
    Input { bytes: frames(entries), at: frames(entries.take(k)).len() as int }
}

/// One more record taken in moves the cursor to the next one.
proof fn lemma_rest_step(entries: Seq<Entry>, k: int, st: Footer, next: Footer)
    requires
        0 <= k < entries.len(),
        entries[k].payload().len() <= u32::MAX,
        st.with(Tag(entries[k].tag), 1, entries[k].payload()) == Ok::<Footer, ErrorView>(next),
    ensures
        st.rest(cursor(entries, k)) == next.rest(cursor(entries, k + 1)),
{
    lemma_frames_split(entries, k);
    let e = entries[k];
    let prefix = frames(entries.take(k));
    let tail = frames_behind(entries, k + 1);
    lemma_frame_reads(prefix, Tag(e.tag), 1, e.payload(), tail);
    assert(prefix + frame(Tag(e.tag), 1, e.payload()) + tail =~= frames(entries));
    lemma_frame_len(e);
    lemma_record_advances(cursor(entries, k));
}

/// At the end of the records there is nothing more to take in.
proof fn lemma_rest_end(entries: Seq<Entry>, st: Footer)
    ensures
        st.rest(cursor(entries, entries.len() as int)) == Ok::<Footer, ErrorView>(st),
{
    assert(entries.take(entries.len() as int) =~= entries);
}

/// A dataset record reads back.
pub proof fn lemma_dataset_reads_back(d: DatasetView)
    requires
        all_describable(d.fields()),
    ensures
        DatasetView::read(Input::over(flat(d.fields(), 0))).out == Ok::<DatasetView, Error>(d),
{
    let ops = d.fields();
    let none = Seq::<u8>::empty();
    lemma_pow_widths();
    lemma_text_reads_back(d.name);
    assert(ops.take(0) =~= Seq::<Op>::empty());
    assert(flat(ops, 0) + none =~= flat(ops, 0));
    lemma_field_number(ops, 0, none, d.rows as nat, 8);
    lemma_field_var(ops, 1, none, encode_utf8(d.name));
}

/// A schema record reads back, when its encoding is written under the number it has a name for.
pub proof fn lemma_schema_reads_back(s: SchemaView)
    requires
        all_describable(s.fields()),
        SchemaEncoding::of(s.encoding.number()) == s.encoding,
    ensures
        SchemaView::read(Input::over(flat(s.fields(), 0))).out == Ok::<SchemaView, Error>(s),
{
    let ops = s.fields();
    let none = Seq::<u8>::empty();
    lemma_pow_widths();
    assert(ops.take(0) =~= Seq::<Op>::empty());
    assert(flat(ops, 0) + none =~= flat(ops, 0));
    lemma_field_number(ops, 0, none, s.encoding.number() as nat, 4);
    lemma_field_var(ops, 1, none, s.bytes);
}

/// Where the `k`th field of a payload starts.
spec fn starts(ops: Seq<Op>, k: int) -> int {
    flat(ops.take(k), 0).len() as int
}

/// A decoder record reads back.
#[verifier::spinoff_prover]
pub proof fn lemma_decoder_reads_back(d: DecoderView)
    requires
        all_describable(d.fields()),
        carried(d.required),
        d.digest.len() == 32,
    ensures
        DecoderView::read(Input::over(flat(d.fields(), 0))).out == Ok::<DecoderView, Error>(d),
{
    let ops = d.fields();
    let none = Seq::<u8>::empty();
    let i = Input::over(flat(ops, 0));
    lemma_pow_widths();
    assert(ops.take(0) =~= Seq::<Op>::empty());
    assert(flat(ops, 0) + none =~= flat(ops, 0));
    let (kind, section) = location_numbers(d.location);
    lemma_field_number(ops, 0, none, d.abi_major as nat, 2);
    assert(i.u16() == (Step { out: Ok::<u16, Error>(d.abi_major), at: starts(ops, 1) }));
    lemma_field_number(ops, 1, none, d.abi_minor as nat, 2);
    assert(i.to(starts(ops, 1)).u16() == (Step {
        out: Ok::<u16, Error>(d.abi_minor),
        at: starts(ops, 2),
    }));
    lemma_field_number(ops, 2, none, kind as nat, 4);
    assert(i.to(starts(ops, 2)).u32() == (Step {
        out: Ok::<u32, Error>(kind),
        at: starts(ops, 3),
    }));
    lemma_field_number(ops, 3, none, section as nat, 4);
    assert(i.to(starts(ops, 3)).u32() == (Step {
        out: Ok::<u32, Error>(section),
        at: starts(ops, 4),
    }));
    lemma_field_number(ops, 4, none, 0, 4);
    assert(i.to(starts(ops, 4)).u32() == (Step { out: Ok::<u32, Error>(0), at: starts(ops, 5) }));
    lemma_decoder_rest_reads_back(d);
    assert(location_of(kind, section) == d.location);
}

/// The end of a decoder record reads back.
#[verifier::spinoff_prover]
proof fn lemma_decoder_rest_reads_back(d: DecoderView)
    requires
        all_describable(d.fields()),
        carried(d.required),
        d.digest.len() == 32,
    ensures
        DecoderView::read_rest(
            Input::over(flat(d.fields(), 0)).to(starts(d.fields(), 5)),
            d.abi_major,
            d.abi_minor,
            d.location,
        ).out == Ok::<DecoderView, Error>(d),
{
    let ops = d.fields();
    let none = Seq::<u8>::empty();
    lemma_text_reads_back(d.name);
    lemma_wire_form_reads_back(d.required);
    assert(flat(ops, 0) + none =~= flat(ops, 0));
    lemma_field_raw(ops, 5, none, d.digest);
    lemma_field_var(ops, 6, none, d.required.wire());
    lemma_field_var(ops, 7, none, encode_utf8(d.name));
}

/// A section record reads back, when its kind is written under the number it has a name for.
pub proof fn lemma_section_reads_back(s: SectionView)
    requires
        SectionKind::of(s.kind.number()) == s.kind,
        s.digest.len() == 32,
    ensures
        SectionView::read(Input::over(flat(s.fields(), 0))).out == Ok::<SectionView, Error>(s),
{
    let ops = s.fields();
    let none = Seq::<u8>::empty();
    lemma_pow_widths();
    assert(ops.take(0) =~= Seq::<Op>::empty());
    assert(flat(ops, 0) + none =~= flat(ops, 0));
    lemma_field_number(ops, 0, none, s.id as nat, 4);
    lemma_field_number(ops, 1, none, s.kind.number() as nat, 4);
    lemma_field_number(ops, 2, none, s.offset as nat, 8);
    lemma_field_number(ops, 3, none, s.len as nat, 8);
    lemma_field_raw(ops, 4, none, s.digest);
}

impl BuilderView {
    /// Whether what was given survives being written: a number that has a name is not given under
    /// another, no capability is past what a set can hold, and digests are digests.
    pub open spec fn plain(self) -> bool {
        &&& self.schema matches Some(s) ==> SchemaEncoding::of(s.encoding.number()) == s.encoding
        &&& self.decoder matches Some(d) ==> carried(d.required) && d.digest.len() == 32
        &&& forall|k: int|
            0 <= k < self.sections.len() ==> SectionKind::of(
                (#[trigger] self.sections[k]).kind.number(),
            ) == self.sections[k].kind
    }

    /// What the footer says once the first `n` sections have been read.
    spec fn said(self, n: nat) -> Footer {
        Footer {
            dataset: Some(self.dataset),
            schema: self.schema,
            decoder: self.decoder,
            sections: self.all_placed(n),
        }
    }
}

/// The record of a section says what was placed.
#[verifier::spinoff_prover]
proof fn lemma_section_is_said(b: BuilderView, j: nat)
    requires
        b.plain(),
        j < b.sections.len(),
    ensures
        ({
            let e = b.entries()[b.front_entries().len() as int + j];
            b.said(j).with(Tag(e.tag), 1, e.payload()) == Ok::<Footer, ErrorView>(b.said(j + 1))
        }),
{
    let k = b.front_entries().len() as int + j;
    assert(b.sections[j as int].kind == b.placed(j as int).kind);
    lemma_section_reads_back(b.placed(j as int));
    assert(b.entries()[k] == (Entry { tag: tag::SECTION, fields: b.placed(j as int).fields() }));
    assert(b.said(j).sections.push(b.placed(j as int)) =~= b.said(j + 1).sections);
}

/// The section records read back one after the other.
#[verifier::spinoff_prover]
proof fn lemma_sections_read_back(b: BuilderView, j: nat)
    requires
        b.plain(),
        writable(b.entries()),
        j <= b.sections.len(),
    ensures
        b.said(j).rest(cursor(b.entries(), b.front_entries().len() as int + j)) == Ok::<
            Footer,
            ErrorView,
        >(b.said(b.sections.len())),
    decreases b.sections.len() - j,
{
    let entries = b.entries();
    let k = b.front_entries().len() as int + j;
    if j == b.sections.len() {
        lemma_rest_end(entries, b.said(j));
    } else {
        assert(entries[k].writable());
        lemma_section_is_said(b, j);
        lemma_rest_step(entries, k, b.said(j), b.said(j + 1));
        lemma_sections_read_back(b, j + 1);
    }
}

/// The footer of a built container says what the builder was given.
proof fn lemma_footer_reads_back(b: BuilderView)
    requires
        b.plain(),
        writable(b.entries()),
    ensures
        Footer::of(b.footer()) == Ok::<Footer, ErrorView>(b.said(b.sections.len())),
{
    let entries = b.entries();
    let none = Seq::<SectionView>::empty();
    let st0 = Footer::start();
    let st1 = Footer { dataset: Some(b.dataset), schema: None, decoder: None, sections: none };
    assert(entries.take(0) =~= Seq::<Entry>::empty());
    assert(cursor(entries, 0) == Input::over(b.footer()));
    assert(entries[0] == (Entry { tag: tag::DATASET, fields: b.dataset.fields() }));
    assert(entries[0].writable());
    lemma_dataset_reads_back(b.dataset);
    lemma_rest_step(entries, 0, st0, st1);
    let st2 = Footer { schema: b.schema, ..st1 };
    let k2 = if b.schema is Some {
        2int
    } else {
        1int
    };
    if b.schema is Some {
        let s = b.schema->Some_0;
        assert(entries[1] == (Entry { tag: tag::SCHEMA, fields: s.fields() }));
        assert(entries[1].writable());
        lemma_schema_reads_back(s);
        lemma_rest_step(entries, 1, st1, st2);
    }
    let st3 = Footer { decoder: b.decoder, ..st2 };
    if b.decoder is Some {
        let d = b.decoder->Some_0;
        assert(entries[k2] == (Entry { tag: tag::DECODER, fields: d.fields() }));
        assert(entries[k2].writable());
        lemma_decoder_reads_back(d);
        lemma_rest_step(entries, k2, st2, st3);
    }
    assert(b.said(0).sections =~= none);
    assert(st3 == b.said(0));
    lemma_sections_read_back(b, 0);
}

/// The placed sections lie inside the payload area under ids of their own.
proof fn lemma_placed_faultless(b: BuilderView, n: nat, placement: PlacementView)
    requires
        b.fits(),
        n <= b.sections.len(),
        placement.footer_at == b.payload_area().len(),
    ensures
        sections_fault(b.all_placed(b.sections.len()), n, placement) is None,
    decreases n,
{
    if n > 0 {
        lemma_placed_faultless(b, (n - 1) as nat, placement);
        let all = b.all_placed(b.sections.len());
        let k = n - 1;
        lemma_laid_out(b, k as nat, b.sections.len());
        assert(all[k] == b.placed(k));
        assert forall|j: int| 0 <= j < k implies (#[trigger] all[j]).id != all[k].id by {
            assert(all[j] == b.placed(j));
        }
    }
}

/// What the trailer of a built container says.
proof fn lemma_trailer_reads_back(b: BuilderView, file_len: u64)
    requires
        b.fits(),
        b.footer().len() <= u32::MAX,
        file_len == b.payload_area().len() + b.footer().len() + TRAILER_SIZE,
    ensures
        b.trailer().len() == TRAILER_SIZE,
        PlacementView::read(b.trailer(), file_len) == Ok::<PlacementView, ErrorView>(
            PlacementView {
                file_len,
                footer_at: b.payload_area().len() as u64,
                footer_len: b.footer().len() as u32,
                root: blake3_of(header_bytes() + b.footer()),
            },
        ),
{
    let at = le_bytes(b.payload_area().len(), 8);
    let len = le_bytes(b.footer().len(), 4);
    let zero = le_bytes(0, 4);
    let root = blake3_of(header_bytes() + b.footer());
    lemma_le_bytes_len(b.payload_area().len(), 8);
    lemma_le_bytes_len(b.footer().len(), 4);
    lemma_le_bytes_len(0, 4);
    lemma_pow_widths();
    lemma_le_of_le_bytes(b.payload_area().len(), 8);
    lemma_le_of_le_bytes(b.footer().len(), 4);
    lemma_le_of_le_bytes(0, 4);
    lemma_laid_out(b, 0, b.sections.len());
    lemma_laid_out(b, b.sections.len(), b.sections.len());
    let t = b.trailer();
    assert(t.subrange(0, 8) =~= at);
    assert(t.subrange(8, 12) =~= len);
    assert(t.subrange(12, 16) =~= zero);
    assert(t.subrange(16, 48) =~= root);
    assert(t.subrange(48, 56) =~= MAGIC@);
}

/// What the header of a built container says.
proof fn lemma_header_reads_back()
    ensures
        header_bytes().len() == HEADER_SIZE,
        header_bytes().take(8) == MAGIC@,
        header_of(header_bytes()) == Ok::<FileHeader, ErrorView>(
            FileHeader { major: FORMAT_MAJOR, minor: FORMAT_MINOR },
        ),
{
    let major = le_bytes(FORMAT_MAJOR as nat, 2);
    let minor = le_bytes(FORMAT_MINOR as nat, 2);
    let zero = le_bytes(0, 4);
    lemma_le_bytes_len(FORMAT_MAJOR as nat, 2);
    lemma_le_bytes_len(FORMAT_MINOR as nat, 2);
    lemma_le_bytes_len(0, 4);
    lemma_pow_widths();
    lemma_le_of_le_bytes(FORMAT_MAJOR as nat, 2);
    lemma_le_of_le_bytes(FORMAT_MINOR as nat, 2);
    lemma_le_of_le_bytes(0, 4);
    let h = header_bytes();
    assert(h.take(8) =~= MAGIC@);
    assert(h.subrange(8, 10) =~= major);
    assert(h.subrange(10, 12) =~= minor);
    assert(h.subrange(12, 16) =~= zero);
}

/// Where a built container says its footer is.
spec fn placement_of(b: BuilderView) -> PlacementView {
    PlacementView {
        file_len: (b.payload_area().len() + b.footer().len() + TRAILER_SIZE) as u64,
        footer_at: b.payload_area().len() as u64,
        footer_len: b.footer().len() as u32,
        root: blake3_of(header_bytes() + b.footer()),
    }
}

/// The parts of a built container are where its reader looks for them.
proof fn lemma_built_parts(b: BuilderView)
    requires
        b.fits(),
        b.built() is Ok,
    ensures
        ({
            let all = b.built()->Ok_0;
            let p = placement_of(b);
            &&& all.len() == p.file_len
            &&& all.take(HEADER_SIZE as int) == header_bytes()
            &&& all.subrange(p.footer_at as int, p.footer_end()) == b.footer()
            &&& placement_in(all) == Ok::<PlacementView, ErrorView>(p)
        }),
{
    let all = b.built()->Ok_0;
    let area = b.payload_area();
    let footer = b.footer();
    let trailer = b.trailer();
    let n = b.sections.len();
    let p = placement_of(b);
    lemma_trailer_reads_back(b, p.file_len);
    lemma_header_reads_back();
    lemma_laid_out(b, 0, n);
    lemma_laid_out(b, n, n);
    assert(all.skip(all.len() - TRAILER_SIZE) =~= trailer);
    assert(all.take(HEADER_SIZE as int) =~= b.laid_out(n).take(HEADER_SIZE as int));
    assert(all.subrange(p.footer_at as int, p.footer_end()) =~= footer);
    assert(all.take(8) =~= all.take(HEADER_SIZE as int).take(8));
    assert(header_bytes().take(8) =~= MAGIC@);
    assert(MAGIC@.take(8) =~= MAGIC@);
}

/// A built container parses to what the builder was given.
proof fn lemma_built_parses(b: BuilderView)
    requires
        b.fits(),
        b.plain(),
        b.built() is Ok,
    ensures
        ({
            let r = ContainerView::of(b.built()->Ok_0, true);
            let c = r->Ok_0;
            &&& r is Ok
            &&& c.bytes == b.built()->Ok_0
            &&& c.directory.header == (FileHeader { major: FORMAT_MAJOR, minor: FORMAT_MINOR })
            &&& c.directory.dataset == b.dataset
            &&& c.directory.schema == b.schema
            &&& c.directory.decoder == b.decoder
            &&& c.directory.sections == b.all_placed(b.sections.len())
        }),
{
    lemma_built_parts(b);
    lemma_header_reads_back();
    lemma_footer_reads_back(b);
    lemma_placed_faultless(b, b.sections.len(), placement_of(b));
    assert(header_bytes().take(HEADER_SIZE as int) =~= header_bytes());
    let d = DirectoryView::unsealed(header_bytes(), b.footer(), placement_of(b));
    assert(d is Ok);
    assert(d->Ok_0.root() == placement_of(b).root);
}

/// A section's bytes are where its record says.
#[verifier::spinoff_prover]
proof fn lemma_built_section(b: BuilderView, k: int)
    requires
        b.fits(),
        b.built() is Ok,
        0 <= k < b.sections.len(),
    ensures
        b.placed(k).end() <= b.built()->Ok_0.len(),
        b.built()->Ok_0.subrange(b.placed(k).offset as int, b.placed(k).end())
            == b.sections[k].bytes,
        b.placed(k).offset % 8 == 0,
{
    let n = b.sections.len();
    lemma_laid_out(b, k as nat, n);
    let at = b.offset(k);
    let len = b.sections[k].bytes.len() as int;
    lemma_padded(b.laid_out(k as nat));
    lemma_padded(b.laid_out(n));
    assert(b.placed(k).offset == at && b.placed(k).len == len);
    let area = b.payload_area();
    let rest = b.footer() + b.trailer();
    assert(b.built()->Ok_0 =~= area + rest);
    lemma_subrange_of_front(area, rest, at, at + len);
    lemma_subrange_of_front(
        b.laid_out(n),
        zeros(pad(b.laid_out(n).len() as int)),
        at,
        at + len,
    );
}

/// Padding brings a length to a multiple of eight and takes nothing away.
proof fn lemma_padded(s: Seq<u8>)
    ensures
        padded(s).len() % 8 == 0,
        padded(s).len() >= s.len(),
{
}

/// A range of the front of a byte string.
proof fn lemma_subrange_of_front(a: Seq<u8>, b: Seq<u8>, i: int, j: int)
    requires
        0 <= i <= j <= a.len(),
    ensures
        (a + b).subrange(i, j) == a.subrange(i, j),
{
    assert((a + b).subrange(i, j) =~= a.subrange(i, j));
}

/// A container that was built parses, says what the builder was given, verifies, and hands back every
/// section's bytes, each from an offset that is a multiple of eight.
pub proof fn lemma_container_round_trip(b: BuilderView)
    requires
        b.fits(),
        b.plain(),
        b.built() is Ok,
    ensures
        ({
            let r = ContainerView::of(b.built()->Ok_0, true);
            let c = r->Ok_0;
            &&& r is Ok
            &&& c.bytes == b.built()->Ok_0
            &&& c.directory.header == (FileHeader { major: FORMAT_MAJOR, minor: FORMAT_MINOR })
            &&& c.directory.dataset == b.dataset
            &&& c.directory.schema == b.schema
            &&& c.directory.decoder == b.decoder
            &&& c.directory.sections == b.all_placed(b.sections.len())
            &&& c.verified(c.directory.sections.len()) is Ok
            &&& forall|k: int|
                0 <= k < b.sections.len() ==> c.section_bytes(#[trigger] b.placed(k))
                    == b.sections[k].bytes && b.placed(k).offset % 8 == 0
        }),
{
    lemma_built_parses(b);
    let c = ContainerView::of(b.built()->Ok_0, true)->Ok_0;
    let n = b.sections.len();
    assert forall|k: int| 0 <= k < n implies c.section_bytes(#[trigger] b.placed(k))
        == b.sections[k].bytes && b.placed(k).offset % 8 == 0 by {
        lemma_built_section(b, k);
    }
    assert forall|k: int| 0 <= k < n implies c.intact(#[trigger] c.directory.sections[k]) by {
        assert(c.directory.sections[k] == b.placed(k));
    }
    lemma_verified_is_intact(c, n);
}

/// A decoder module that was embedded comes back as its own bytes, and its digest is theirs.
pub proof fn lemma_embedded_decoder_comes_back(b: BuilderView, id: u32)
    requires
        b.fits(),
        b.plain(),
        b.built() is Ok,
        id < b.sections.len(),
        b.decoder is Some,
        b.decoder->Some_0.location == (crate::format::layout::DecoderLocation::Embedded {
            section: id,
        }),
        b.decoder->Some_0.digest == blake3_of(b.sections[id as int].bytes),
    ensures
        ({
            let c = ContainerView::of(b.built()->Ok_0, true)->Ok_0;
            let s = c.directory.decoder_section();
            &&& s is Some
            &&& c.section_bytes(s->Some_0) == b.sections[id as int].bytes
            &&& blake3_of(c.section_bytes(s->Some_0)) == c.directory.decoder->Some_0.digest
        }),
{
    lemma_container_round_trip(b);
    let c = ContainerView::of(b.built()->Ok_0, true)->Ok_0;
    let d = c.directory;
    assert(d.sections[id as int] == b.placed(id as int));
    assert forall|j: int| 0 <= j < id implies (#[trigger] d.sections[j]).id != id by {
        assert(d.sections[j] == b.placed(j));
    }
    assert(d.is_section(id, id as int));
    let k = choose|k: int| d.is_section(id, k);
    assert(d.is_section(id, k));
    assert(d.sections[k] == b.placed(k));
    assert(k == id);
}

} // verus!
