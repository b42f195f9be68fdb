//! Where everything lies on the wire.
use vstd::prelude::*;
use vstd::utf8::{decode_utf8, valid_utf8};

use crate::abi::caps::{Capability, Caps};
use crate::abi::error::Error;
use crate::abi::message::{
    buffers_of, indices, nodes_of, read_payload, BatchView, HelloAckView, HelloView, MessageView,
    RangeRequest, RefusalView, ScanView,
};
use crate::abi::record::Header;
use crate::abi::wire::{pad, Input, Output};
use crate::bytes::{
    bit, le, le_bytes, lemma_le_2, lemma_le_4, lemma_le_8, lemma_le_bytes_len, lemma_le_of_le_bytes,
    lemma_pow_widths,
};

verus! {

/// The number that `n` bytes from an offset on hold, the lowest first.
pub open spec fn number(b: Seq<u8>, at: int, n: int) -> nat {
    le(b.subrange(at, at + n))
}

/// The bytes of a variable-length field at an offset: as many as the four bytes in front of them say.
pub open spec fn field(b: Seq<u8>, at: int) -> Seq<u8> {
    b.subrange(at + 4, at + 4 + number(b, at, 4))
}

/// The first multiple of eight at or behind a number.
pub open spec fn round_up(n: int) -> int {
    (n + 7) / 8 * 8
}

/// Where a variable-length field at an offset ends, with the padding that puts what follows it on a
/// multiple of eight.
pub open spec fn behind(b: Seq<u8>, at: int) -> int {
    round_up(at + 4 + number(b, at, 4))
}

/// Padding goes up to the next multiple of eight.
pub proof fn lemma_padding_rounds_up(n: int)
    requires
        0 <= n,
    ensures
        n + pad(n) == round_up(n),
        round_up(n) % 8 == 0,
        n <= round_up(n) < n + 8,
{
}

/// A record is its tag, its version, the length of its payload and the payload, in two, two, four and
/// that many bytes; and the next one starts at the next multiple of eight, or where the bytes end.
pub proof fn lemma_record_layout(i: Input)
    requires
        i.wf(),
        i.record().out is Ok,
    ensures
        ({
            let (header, payload) = i.record().out->Ok_0;
            let end = i.at + 8 + header.len;
            let next = i.at + 8 + round_up(header.len as int);
            &&& end <= i.bytes.len()
            &&& header.tag.0 == number(i.bytes, i.at, 2)
            &&& header.version == number(i.bytes, i.at + 2, 2)
            &&& header.len == number(i.bytes, i.at + 4, 4)
            &&& payload == i.bytes.subrange(i.at + 8, end)
            &&& i.record().at == if next < i.bytes.len() {
                next
            } else {
                i.bytes.len() as int
            }
        }),
{
    lemma_le_2(i.bytes.subrange(i.at, i.at + 2));
    lemma_le_2(i.bytes.subrange(i.at + 2, i.at + 4));
    lemma_le_4(i.bytes.subrange(i.at + 4, i.at + 8));
    lemma_padding_rounds_up(i.record().out->Ok_0.0.len as int);
}

/// A variable-length field is read from behind its length, and reading goes on behind its padding.
pub proof fn lemma_var(b: Seq<u8>, at: int)
    requires
        0 <= at <= b.len(),
    ensures
        ({
            let s = (Input { bytes: b, at }).var_bytes();
            &&& s.out is Ok <==> at + 4 <= b.len() && behind(b, at) <= b.len()
            &&& s.out is Ok ==> s.out->Ok_0 == field(b, at) && s.at == behind(b, at)
        }),
{
    if at + 4 <= b.len() {
        lemma_le_4(b.subrange(at, at + 4));
        lemma_padding_rounds_up(at + 4 + number(b, at, 4));
    }
}

/// A capability set holds a capability exactly when its bit is set in the bytes it was read from, the
/// lowest of a byte first, among the first 256 bits. Whether any bit past those is set, it remembers.
pub proof fn lemma_capability_bits(b: Seq<u8>, cap: Capability)
    ensures
        Caps::of(b).has(cap) <==> cap.0 < 256 && cap.0 as int / 8 < b.len() && bit(
            b[cap.0 as int / 8],
            (cap.0 % 8) as u8,
        ),
        Caps::of(b).beyond <==> exists|i: int| 32 <= i < b.len() && b[i] != 0,
{
    crate::bytes::lemma_bit_zero((cap.0 % 8) as u8);
}

/// A greeting lies as the major version at 0, the minor at 2, the window at 8, the largest batch at 16
/// and what is offered at 24; and the size of the source, where it is there, behind that.
pub proof fn lemma_hello_layout(version: u16, p: Seq<u8>)
    requires
        p.len() <= usize::MAX,
    ensures
        HelloView::read(version, Input::over(p)).out is Ok <==> version == 1 && p.len() >= 28
            && behind(p, 24) <= p.len(),
        HelloView::read(version, Input::over(p)).out is Ok ==> {
            let m = HelloView::read(version, Input::over(p)).out->Ok_0;
            &&& m.abi_major == number(p, 0, 2)
            &&& m.abi_minor == number(p, 2, 2)
            &&& m.window_bytes == number(p, 8, 8)
            &&& m.max_batch_rows == number(p, 16, 8)
            &&& m.offered == Caps::of(field(p, 24))
            &&& HelloView::read_sized(version, Input::over(p)).out is Ok <==> p.len() == behind(
                p,
                24,
            ) || p.len() >= behind(p, 24) + 8
            &&& p.len() == behind(p, 24) ==> HelloView::read_sized(
                version,
                Input::over(p),
            ).out->Ok_0 == (m, 0u64)
            &&& p.len() >= behind(p, 24) + 8 ==> HelloView::read_sized(
                version,
                Input::over(p),
            ).out->Ok_0.1 == number(p, behind(p, 24), 8)
        },
{
    if p.len() >= 28 {
        lemma_le_2(p.subrange(0, 2));
        lemma_le_2(p.subrange(2, 4));
        lemma_le_8(p.subrange(8, 16));
        lemma_le_8(p.subrange(16, 24));
        lemma_var(p, 24);
        let at = behind(p, 24);
        if at + 8 <= p.len() {
            lemma_le_8(p.subrange(at, at + 8));
        }
    }
    if p.len() >= 24 {
        lemma_var(p, 24);
    }
}

/// An answer lies as the major version at 0, the minor at 2, what is required at 8, what is optional
/// behind that, and the name of the decoder behind that.
pub proof fn lemma_hello_ack_layout(version: u16, p: Seq<u8>)
    requires
        p.len() <= usize::MAX,
        HelloAckView::read(version, Input::over(p)).out is Ok,
    ensures
        ({
            let m = HelloAckView::read(version, Input::over(p)).out->Ok_0;
            let second = behind(p, 8);
            let third = behind(p, second);
            &&& version == 1
            &&& m.abi_major == number(p, 0, 2)
            &&& m.abi_minor == number(p, 2, 2)
            &&& m.required == Caps::of(field(p, 8))
            &&& m.optional == Caps::of(field(p, second))
            &&& valid_utf8(field(p, third))
            &&& m.decoder_id == decode_utf8(field(p, third))
        }),
{
    lemma_le_2(p.subrange(0, 2));
    lemma_le_2(p.subrange(2, 4));
    lemma_var(p, 8);
    lemma_var(p, behind(p, 8));
    lemma_var(p, behind(p, behind(p, 8)));
}

/// A refusal lies as its reason at 0, its capability at 2 and its detail at 8.
pub proof fn lemma_refusal_layout(version: u16, p: Seq<u8>)
    requires
        p.len() <= usize::MAX,
        RefusalView::read(version, Input::over(p)).out is Ok,
    ensures
        ({
            let m = RefusalView::read(version, Input::over(p)).out->Ok_0;
            &&& version == 1
            &&& m.reason.0 == number(p, 0, 2)
            &&& m.capability.0 == number(p, 2, 2)
            &&& valid_utf8(field(p, 8))
            &&& m.detail == decode_utf8(field(p, 8))
        }),
{
    lemma_le_2(p.subrange(0, 2));
    lemma_le_2(p.subrange(2, 4));
    lemma_var(p, 8);
}

/// A request for rows lies as the first row at 0, how many at 8, the flags at 16, the columns at 24 and
/// the filter behind them.
pub proof fn lemma_scan_layout(version: u16, p: Seq<u8>)
    requires
        p.len() <= usize::MAX,
        ScanView::read(version, Input::over(p)).out is Ok,
    ensures
        ({
            let m = ScanView::read(version, Input::over(p)).out->Ok_0;
            &&& version == 1
            &&& m.row_start == number(p, 0, 8)
            &&& m.row_count == number(p, 8, 8)
            &&& m.flags == number(p, 16, 8)
            &&& m.projection == field(p, 24)
            &&& m.filter == field(p, behind(p, 24))
        }),
{
    lemma_le_8(p.subrange(0, 8));
    lemma_le_8(p.subrange(8, 16));
    lemma_le_8(p.subrange(16, 24));
    lemma_var(p, 24);
    lemma_var(p, behind(p, 24));
}

/// A request for bytes lies as where they start at 0 and how many at 8.
pub proof fn lemma_range_layout(version: u16, p: Seq<u8>)
    requires
        p.len() <= usize::MAX,
        RangeRequest::read(version, Input::over(p)).out is Ok,
    ensures
        ({
            let m = RangeRequest::read(version, Input::over(p)).out->Ok_0;
            &&& version == 1
            &&& m.offset == number(p, 0, 8)
            &&& m.len == number(p, 8, 8)
        }),
{
    lemma_le_8(p.subrange(0, 8));
    lemma_le_8(p.subrange(8, 16));
}

/// A batch lies as its rows at 0, its flags at 8, its arrays at 16 and its buffers behind them.
pub proof fn lemma_batch_layout(version: u16, p: Seq<u8>)
    requires
        p.len() <= usize::MAX,
        BatchView::read(version, Input::over(p)).out is Ok,
    ensures
        ({
            let m = BatchView::read(version, Input::over(p)).out->Ok_0;
            &&& version == 1
            &&& m.rows == number(p, 0, 8)
            &&& m.flags == number(p, 8, 8)
            &&& m.nodes == field(p, 16)
            &&& m.buffers == field(p, behind(p, 16))
        }),
{
    lemma_le_8(p.subrange(0, 8));
    lemma_le_8(p.subrange(8, 16));
    lemma_var(p, 16);
    lemma_var(p, behind(p, 16));
}

/// Columns are listed in four bytes each. Arrays are listed as their length and their nulls, and buffers
/// as where they start and how long they are, in eight bytes each.
pub proof fn lemma_list_layout(raw: Seq<u8>, i: int)
    requires
        0 <= i,
    ensures
        indices(raw).len() == raw.len() / 4,
        nodes_of(raw).len() == raw.len() / 16,
        buffers_of(raw).len() == raw.len() / 16,
        4 * i + 4 <= raw.len() ==> indices(raw)[i] == number(raw, 4 * i, 4),
        16 * i + 16 <= raw.len() ==> {
            &&& nodes_of(raw)[i].length == number(raw, 16 * i, 8)
            &&& nodes_of(raw)[i].null_count == number(raw, 16 * i + 8, 8)
            &&& buffers_of(raw)[i].offset == number(raw, 16 * i, 8)
            &&& buffers_of(raw)[i].len == number(raw, 16 * i + 8, 8)
        },
{
    if 4 * i + 4 <= raw.len() {
        lemma_le_4(raw.subrange(4 * i, 4 * i + 4));
    }
    if 16 * i + 16 <= raw.len() {
        let one = raw.subrange(16 * i, 16 * i + 16);
        assert(one.subrange(0, 8) =~= raw.subrange(16 * i, 16 * i + 8));
        assert(one.subrange(8, 16) =~= raw.subrange(16 * i + 8, 16 * i + 16));
        lemma_le_8(one.subrange(0, 8));
        lemma_le_8(one.subrange(8, 16));
    }
}

/// The number at the front of a record says what it is: a greeting is 1, an answer 2, a refusal 3, a
/// request for rows 16, one for bytes 32 and a batch 48. Anything else is handed on unread.
pub proof fn lemma_a_record_is_what_its_tag_says(i: Input)
    requires
        i.wf(),
        i.message().out is Ok,
    ensures
        ({
            let tag = number(i.bytes, i.at, 2);
            let m = i.message().out->Ok_0;
            &&& m is Hello <==> tag == 1
            &&& m is HelloAck <==> tag == 2
            &&& m is Refusal <==> tag == 3
            &&& m is ScanRequest <==> tag == 16
            &&& m is RangeRequest <==> tag == 32
            &&& m is Batch <==> tag == 48
            &&& m is Unknown ==> m == MessageView::Unknown(i.record().out->Ok_0.0)
            &&& i.message().at == i.record().at
        }),
{
    lemma_record_layout(i);
}

/// Whatever a record that is not known holds, it is stepped over and not refused; and a known one is
/// refused at any version but the first.
pub proof fn lemma_unknown_tags_pass_and_unknown_versions_do_not(header: Header, payload: Seq<u8>)
    ensures
        ({
            let tag = header.tag.0;
            let known = tag == 1 || tag == 2 || tag == 3 || tag == 16 || tag == 32 || tag == 48;
            &&& !known ==> read_payload(header, payload) == Ok::<MessageView, Error>(
                MessageView::Unknown(header),
            )
            &&& known && header.version != 1 ==> read_payload(header, payload) is Err
        }),
{
}

/// A number filled in later goes over four bytes that were written, and only those: it is refused exactly
/// when they were not all written.
pub proof fn lemma_filling_in_changes_four_bytes(o: Output, at: int, v: u32)
    requires
        o.wf(),
        0 <= at,
    ensures
        o.patch(at, v).out is Ok <==> at + 4 <= o.at,
        o.patch(at, v).out is Err ==> o.patch(at, v).to == o,
        o.patch(at, v).out is Ok ==> {
            let to = o.patch(at, v).to;
            &&& to.at == o.at
            &&& to.bytes.len() == o.bytes.len()
            &&& number(to.bytes, at, 4) == v
            &&& forall|i: int|
                0 <= i < o.bytes.len() && (i < at || i >= at + 4) ==> #[trigger] to.bytes[i]
                    == o.bytes[i]
        },
{
    reveal(Output::laid);
    lemma_pow_widths();
    lemma_le_bytes_len(v as nat, 4);
    lemma_le_of_le_bytes(v as nat, 4);
    if at + 4 <= o.at {
        let to = o.patch(at, v).to;
        assert(to.bytes.subrange(at, at + 4) =~= le_bytes(v as nat, 4));
    }
}

} // verus!
