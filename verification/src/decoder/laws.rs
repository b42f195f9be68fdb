//! What a host reads out of a decoder's answers.
use vstd::prelude::*;

use crate::abi::error::Error;
use crate::abi::message::{
    buffers_of, nodes_of, BatchView, BufferRef, HelloAckView, HelloView, MessageView, Node,
    RefusalView,
};
use crate::abi::range::RangeStatus;
use crate::abi::record::Tag;
use crate::abi::roundtrip::{
    carried, lemma_batch_round_trip, lemma_hello_ack_round_trip, lemma_refusal_round_trip,
};
use crate::abi::wire::{all_describable, Input, Op, Output, Step};
use crate::bytes::{le_bytes, lemma_le_bytes_len, lemma_le_of_le_bytes, lemma_pow_widths, zeros};
use crate::decoder::batch::{
    lemma_reference_len, node_bytes, reference_bytes, sendable, too_large, unsendable, Contents,
};
use crate::decoder::error::refusal_for;
use crate::decoder::guest::{found, served_as};
use crate::decoder::harness::{recorded, total_rows, RecordedView};
use crate::decoder::instance::{ack_entry, asked, greeting, refusal_entry, refused};
use crate::decoder::source::range_of;
use crate::format::frames::{lemma_record_run, Entry};

verus! {

/// A record whose lengths can be described is what a writer puts in a buffer of its size.
proof fn lemma_frame_written(e: Entry) -> (o: Output)
    requires
        e.writable(),
        e.frame().len() <= usize::MAX,
    ensures
        o == Output::over(zeros(e.frame().len())),
        o.wf(),
        o.record(Tag(e.tag), 1, e.fields).out is Ok,
        o.record(Tag(e.tag), 1, e.fields).to.written() == e.frame(),
        o.record(Tag(e.tag), 1, e.fields).to.at == e.frame().len(),
{
    let o = Output::over(zeros(e.frame().len()));
    lemma_record_run(o, e);
    assert(o.written() + e.frame() =~= e.frame());
    o
}

/// An answer that refuses reads as the refusal, with its reason, its capability and its text, and
/// nothing behind it.
pub proof fn lemma_refusal_reads_back(e: RefusalView)
    requires
        sendable(refusal_entry(e)),
    ensures
        Input::over(refused(e)).message() == (Step {
            out: Ok::<MessageView, Error>(MessageView::Refusal(e)),
            at: refused(e).len() as int,
        }),
{
    let entry = refusal_entry(e);
    let o = lemma_frame_written(entry);
    let none = Seq::<Op>::empty();
    assert(e.fields() + none =~= e.fields());
    lemma_refusal_round_trip(o, e, none, Seq::empty());
    assert(entry.frame() + Seq::<u8>::empty() =~= entry.frame());
}

/// An answer that acknowledges reads as what the decoder said of itself.
pub proof fn lemma_acknowledgement_reads_back(ack: HelloAckView)
    requires
        sendable(ack_entry(ack)),
        carried(ack.required),
        carried(ack.optional),
    ensures
        Input::over(ack_entry(ack).frame()).message() == (Step {
            out: Ok::<MessageView, Error>(MessageView::HelloAck(ack)),
            at: ack_entry(ack).frame().len() as int,
        }),
{
    let entry = ack_entry(ack);
    let o = lemma_frame_written(entry);
    let none = Seq::<Op>::empty();
    assert(ack.fields() + none =~= ack.fields());
    lemma_hello_ack_round_trip(o, ack, none, Seq::empty());
    assert(entry.frame() + Seq::<u8>::empty() =~= entry.frame());
}

/// The record of a batch reads as its rows, its arrays, and one reference per buffer with that
/// buffer's address and length.
pub proof fn lemma_batch_reads_back(batch: Contents, addresses: Seq<u64>)
    requires
        batch.wf(),
        addresses.len() == batch.buffers.len(),
        sendable(batch.entry(addresses)),
    ensures
        Input::over(batch.entry(addresses).frame()).message().out == Ok::<MessageView, Error>(
            MessageView::Batch(
                BatchView {
                    rows: batch.rows,
                    flags: 0,
                    nodes: batch.nodes,
                    buffers: reference_bytes(batch.buffers, addresses, batch.buffers.len()),
                },
            ),
        ),
{
    let entry = batch.entry(addresses);
    let m = BatchView {
        rows: batch.rows,
        flags: 0,
        nodes: batch.nodes,
        buffers: reference_bytes(batch.buffers, addresses, batch.buffers.len()),
    };
    let o = lemma_frame_written(entry);
    let none = Seq::<Op>::empty();
    assert(m.fields() + none =~= m.fields());
    lemma_reference_len(batch.buffers, addresses, batch.buffers.len());
    lemma_batch_round_trip(o, m, none, Seq::empty());
    assert(entry.frame() + Seq::<u8>::empty() =~= entry.frame());
}

/// The references of a batch list, for each buffer in order, where it lies and how long it is; and an
/// array lists as its length and its nulls.
pub proof fn lemma_references_list_the_buffers(
    buffers: Seq<Seq<u8>>,
    addresses: Seq<u64>,
    n: nat,
    i: int,
)
    requires
        0 <= i < n <= buffers.len(),
        addresses.len() == buffers.len(),
        forall|k: int| 0 <= k < buffers.len() ==> (#[trigger] buffers[k]).len() <= u64::MAX,
    ensures
        buffers_of(reference_bytes(buffers, addresses, n)).len() == n,
        buffers_of(reference_bytes(buffers, addresses, n))[i] == (BufferRef {
            offset: addresses[i],
            len: buffers[i].len() as u64,
        }),
    decreases n,
{
    let all = reference_bytes(buffers, addresses, n);
    let front = reference_bytes(buffers, addresses, (n - 1) as nat);
    lemma_reference_len(buffers, addresses, n);
    lemma_reference_len(buffers, addresses, (n - 1) as nat);
    lemma_le_bytes_len(addresses[n - 1] as nat, 8);
    lemma_le_bytes_len(buffers[n - 1].len(), 8);
    let one = all.subrange(16 * i, 16 * i + 16);
    if i < n - 1 {
        lemma_references_list_the_buffers(buffers, addresses, (n - 1) as nat, i);
        assert(one =~= front.subrange(16 * i, 16 * i + 16));
    } else {
        lemma_pow_widths();
        lemma_le_of_le_bytes(addresses[i] as nat, 8);
        assert(buffers[i].len() <= u64::MAX);
        lemma_le_of_le_bytes(buffers[i].len(), 8);
        assert(one.subrange(0, 8) =~= le_bytes(addresses[i] as nat, 8));
        assert(one.subrange(8, 16) =~= le_bytes(buffers[i].len(), 8));
    }
}

/// An array that was put on the end of a batch is the last one listed, and those before it stay.
pub proof fn lemma_arrays_are_listed_in_order(nodes: Seq<u8>, length: u64, null_count: u64)
    requires
        nodes.len() % 16 == 0,
    ensures
        nodes_of(nodes + node_bytes(length, null_count)) == nodes_of(nodes).push(
            Node { length, null_count },
        ),
{
    let all = nodes + node_bytes(length, null_count);
    let n = nodes.len() as int / 16;
    lemma_le_bytes_len(length as nat, 8);
    lemma_le_bytes_len(null_count as nat, 8);
    lemma_pow_widths();
    lemma_le_of_le_bytes(length as nat, 8);
    lemma_le_of_le_bytes(null_count as nat, 8);
    assert forall|i: int| 0 <= i <= n implies #[trigger] nodes_of(all)[i] == nodes_of(nodes).push(
        Node { length, null_count },
    )[i] by {
        let one = all.subrange(16 * i, 16 * i + 16);
        if i < n {
            assert(one =~= nodes.subrange(16 * i, 16 * i + 16));
        } else {
            assert(one.subrange(0, 8) =~= le_bytes(length as nat, 8));
            assert(one.subrange(8, 16) =~= le_bytes(null_count as nat, 8));
        }
    }
    assert(nodes_of(all) =~= nodes_of(nodes).push(Node { length, null_count }));
}

/// A range is served out of bytes that are there exactly when it ends inside them, and then it is as long
/// as was asked and starts where was asked. What is not there is asked for at the same length.
pub proof fn lemma_a_range_is_the_bytes_asked_for(bytes: Seq<u8>, offset: u64, len: u64)
    requires
        bytes.len() <= usize::MAX,
    ensures
        range_of(bytes, offset, len) is Ok <==> offset + len <= bytes.len(),
        range_of(bytes, offset, len) is Ok ==> {
            let s = range_of(bytes, offset, len)->Ok_0;
            &&& s.len() == len
            &&& forall|i: int| 0 <= i < len ==> #[trigger] s[i] == bytes[offset + i]
        },
        found(bytes, offset, len) is Here <==> range_of(bytes, offset, len) is Ok,
        found(bytes, offset, len) is Here ==> found(bytes, offset, len)->Here_0 == range_of(
            bytes,
            offset,
            len,
        )->Ok_0,
        found(bytes, offset, len) is Ask ==> found(bytes, offset, len)->Ask_0 == len,
        found(bytes, offset, len) is TooLong <==> len > usize::MAX,
{
}

/// A range arrived exactly when its status is nought. One off the end of the source makes for a malformed
/// request, one that is too large runs into a limit, and anything else is up to the host.
pub proof fn lemma_only_nought_is_served(status: RangeStatus)
    ensures
        served_as(status) is None <==> status.0 == 0,
        status.0 == 1 ==> served_as(status)->Some_0.reason.0 == 5,
        status.0 == 2 ==> served_as(status)->Some_0.reason.0 == 6,
        status.0 > 2 ==> served_as(status)->Some_0.reason.0 == 7,
{
}

/// A record that does not fit runs into a limit, and one that cannot be read is malformed. Neither is
/// about a capability.
pub proof fn lemma_a_failure_is_a_limit_or_malformed(err: Error)
    ensures
        refusal_for(err).reason.0 == if err is BufferFull || err is LengthOverflow {
            6u16
        } else {
            5u16
        },
        refusal_for(err).capability.0 == 0xFFFF,
{
}

/// A scan is asked for by exactly a request for rows that sets no flag, and what is asked for is what
/// the request says.
pub proof fn lemma_a_scan_is_what_was_asked_for(input: Seq<u8>)
    ensures
        ({
            let m = Input::over(input).message().out;
            let r = asked(input);
            &&& r is Ok <==> m is Ok && m->Ok_0 is ScanRequest && m->Ok_0->ScanRequest_0.flags == 0
            &&& r is Ok ==> {
                let scan = m->Ok_0->ScanRequest_0;
                &&& r->Ok_0.row_start == scan.row_start
                &&& r->Ok_0.row_count == scan.row_count
                &&& r->Ok_0.projection == scan.projection
                &&& r->Ok_0.filter == scan.filter
            }
        }),
{
}

/// A decoder is opened by exactly a greeting that can be read with the size of the source behind it, and
/// by what that says.
pub proof fn lemma_a_decoder_is_greeted_first(input: Seq<u8>)
    ensures
        ({
            let m = Input::over(input).message().out;
            let (header, payload) = Input::over(input).record().out->Ok_0;
            let sized = HelloView::read_sized(header.version, Input::over(payload)).out;
            &&& greeting(input) is Ok <==> m is Ok && m->Ok_0 is Hello && sized is Ok
            &&& greeting(input) is Ok ==> greeting(input)->Ok_0 == sized->Ok_0
                && greeting(input)->Ok_0.0 == m->Ok_0->Hello_0
        }),
{
}

/// Rows add up: those of two runs of batches are those of one and those of the other, and those of one
/// batch are its own.
pub proof fn lemma_rows_add_up(a: Seq<RecordedView>, b: Seq<RecordedView>)
    ensures
        total_rows(a + b) == total_rows(a) + total_rows(b),
        b.len() == 1 ==> total_rows(b) == b[0].rows,
    decreases b.len(),
{
    if b.len() == 0 {
        assert(a + b =~= a);
    } else {
        lemma_rows_add_up(a, b.drop_last());
        assert((a + b).drop_last() =~= a + b.drop_last());
        if b.len() == 1 {
            assert(total_rows(b.drop_last()) == 0);
        }
    }
}

/// A record is sent exactly when its lengths can be described and it is no larger than a mebibyte.
pub proof fn lemma_a_record_is_at_most_a_mebibyte(e: Entry)
    ensures
        sendable(e) <==> e.writable() && e.frame().len() <= 0x10_0000,
{
}

/// A batch is kept as it was: its rows, its arrays and its buffers, in the order they came.
pub proof fn lemma_a_batch_is_kept_as_it_was(batch: Contents)
    ensures
        recorded(batch).rows == batch.rows,
        recorded(batch).nodes.len() == batch.nodes.len() / 16,
        forall|i: int|
            0 <= i < batch.nodes.len() / 16 ==> #[trigger] recorded(batch).nodes[i] == nodes_of(
                batch.nodes,
            )[i],
        recorded(batch).buffers.len() == batch.buffers.len(),
        forall|i: int|
            0 <= i < batch.buffers.len() ==> #[trigger] recorded(batch).buffers[i]
                == batch.buffers[i],
{
}

/// A record whose lengths can all be described is refused for its size alone.
pub proof fn lemma_what_can_be_described_is_only_too_large(e: Entry)
    requires
        all_describable(e.fields),
    ensures
        unsendable(e) == too_large(),
        too_large().reason.0 == 6,
{
}

} // verus!
