//! What a reader makes of what a writer wrote.
use vstd::arithmetic::power::pow;
use vstd::prelude::*;
use vstd::utf8::{
    decode_utf8, encode_utf8, encode_utf8_decode_utf8, encode_utf8_valid_utf8, valid_utf8,
};

use crate::abi::caps::{lemma_wire_form_reads_back, CapabilitySet, Caps};
use crate::abi::error::Error;
use crate::abi::message::{
    eight, BatchView, HelloAckView, HelloView, MessageView, RangeRequest, RefusalView, ScanView,
};
use crate::abi::record::{header_ops, tag_name, Header, Tag};
use crate::abi::wire::{
    all_describable, flat, lemma_flat_push, lemma_laid_len, lemma_run_is_flat, pad, var_field,
    Input, Op, Output, Step,
};
use crate::bytes::{le, le_bytes, lemma_le_bytes_len, lemma_le_of_le_bytes, lemma_pow_widths, zeros};

verus! {

/// Padding depends on an offset only up to a multiple of eight.
pub proof fn lemma_pad_shift(n: int, by: int)
    requires
        by % 8 == 0,
    ensures
        pad(n + by) == pad(n),
{
}

/// What one write puts down depends on where it stands only up to a multiple of eight.
proof fn lemma_bytes_at_shift(op: Op, n: int, by: int)
    requires
        by % 8 == 0,
    ensures
        op.bytes_at(n + by) == op.bytes_at(n),
{
    match op {
        Op::Var(b) => {
            lemma_pad_shift(n + 4 + b.len(), by);
            assert(n + by + 4 + b.len() == n + 4 + b.len() + by);
        },
        Op::Align => {
            lemma_pad_shift(n, by);
        },
        Op::Raw(b) => {},
    }
}

/// What a list of writes puts down depends on where it starts only up to a multiple of eight.
pub proof fn lemma_flat_shift(ops: Seq<Op>, at: int, by: int)
    requires
        by % 8 == 0,
    ensures
        flat(ops, at + by) == flat(ops, at),
    decreases ops.len(),
{
    if ops.len() > 0 {
        lemma_flat_shift(ops.drop_last(), at, by);
        let n = at + flat(ops.drop_last(), at).len();
        lemma_bytes_at_shift(ops.last(), n, by);
        assert(at + by + flat(ops.drop_last(), at + by).len() == n + by);
    }
}

/// Where the `k`th field of a list lies, and that its bytes are there.
pub proof fn lemma_piece(ops: Seq<Op>, k: int, rest: Seq<u8>)
    requires
        0 <= k < ops.len(),
    ensures
        ({
            let all = flat(ops, 0) + rest;
            let off = flat(ops.take(k), 0).len() as int;
            let b = ops[k].bytes_at(off);
            &&& off + b.len() <= all.len()
            &&& all.subrange(off, off + b.len()) == b
            &&& flat(ops.take(k + 1), 0).len() == off + b.len()
        }),
    decreases ops.len(),
{
    let init = ops.drop_last();
    let n = flat(init, 0).len() as int;
    let x = ops.last().bytes_at(n);
    if k == ops.len() - 1 {
        assert(ops.take(k) =~= init);
        assert(ops.take(k + 1) =~= ops);
        let all = flat(ops, 0) + rest;
        assert(all.subrange(n, n + x.len()) =~= x);
    } else {
        lemma_piece(init, k, x + rest);
        assert(init.take(k) =~= ops.take(k));
        assert(init.take(k + 1) =~= ops.take(k + 1));
        assert(flat(init, 0) + (x + rest) =~= flat(ops, 0) + rest);
    }
}

/// Reading a number where one was written.
pub proof fn lemma_reads_number(i: Input, v: nat, n: nat)
    requires
        0 <= i.at,
        i.at + n <= i.bytes.len(),
        i.bytes.subrange(i.at, i.at + n) == le_bytes(v, n),
        v < pow(256, n),
    ensures
        i.take(n as int).out == Ok::<Seq<u8>, Error>(le_bytes(v, n)),
        i.take(n as int).at == i.at + n,
        le(le_bytes(v, n)) == v,
{
    lemma_le_of_le_bytes(v, n);
}

/// Reading a variable-length field where one was written.
pub proof fn lemma_reads_var(i: Input, b: Seq<u8>)
    requires
        0 <= i.at,
        b.len() <= u32::MAX,
        i.at + var_field(b, i.at).len() <= i.bytes.len(),
        i.bytes.subrange(i.at, i.at + var_field(b, i.at).len()) == var_field(b, i.at),
    ensures
        i.var_bytes() == (Step {
            out: Ok::<Seq<u8>, Error>(b),
            at: i.at + var_field(b, i.at).len(),
        }),
{
    let f = var_field(b, i.at);
    let n = le_bytes(b.len(), 4);
    lemma_le_bytes_len(b.len(), 4);
    lemma_pow_widths();
    assert(i.bytes.subrange(i.at, i.at + 4) =~= n) by {
        assert(i.bytes.subrange(i.at, i.at + 4) =~= f.subrange(0, 4));
    }
    lemma_reads_number(i, b.len(), 4);
    let mid = i.to(i.at + 4);
    assert(mid.bytes.subrange(mid.at, mid.at + b.len()) =~= b) by {
        assert(mid.bytes.subrange(mid.at, mid.at + b.len()) =~= f.subrange(4, (4 + b.len()) as int));
    }
}

/// What a finished record left in the buffer.
pub proof fn lemma_record_bytes(o: Output, tag: Tag, version: u16, ops: Seq<Op>)
    requires
        o.wf(),
        o.record(tag, version, ops).out is Ok,
    ensures
        ({
            let w = o.record(tag, version, ops).to;
            let p = flat(ops, o.at + 8);
            &&& p.len() <= u32::MAX
            &&& all_describable(ops)
            &&& w.wf()
            &&& w.at == o.at + 8 + p.len() + pad(o.at + 8 + p.len())
            &&& w.written() == o.written() + le_bytes(tag.0 as nat, 2) + le_bytes(version as nat, 2)
                + le_bytes(p.len(), 4) + p + zeros(pad(o.at + 8 + p.len()))
        }),
{
    broadcast use {lemma_flat_push, lemma_le_bytes_len, lemma_laid_len};

    let head = header_ops(tag, version, 0);
    let h = o.begin(tag, version);
    lemma_run_is_flat(o, head, 0);
    let t2 = le_bytes(tag.0 as nat, 2);
    let v2 = le_bytes(version as nat, 2);
    let z4 = le_bytes(0, 4);
    assert(flat(head, o.at) =~= t2 + v2 + z4);
    let b = h.to.run(ops);
    lemma_run_is_flat(h.to, ops, 0);
    let p = flat(ops, o.at + 8);
    let l4 = le_bytes(p.len(), 4);
    let q = b.to.patch(h.to.at - 4, p.len() as u32);
    let w = q.to.align();
    let z = zeros(pad(o.at + 8 + p.len()));
    reveal(Output::laid);
    assert(q.to.bytes.take(q.to.at) =~= o.written() + t2 + v2 + l4 + p);
    assert(w.to.written() =~= q.to.bytes.take(q.to.at) + z);
}

/// Where five parts of a byte string lie.
pub proof fn lemma_five_parts(
    a: Seq<u8>,
    b: Seq<u8>,
    c: Seq<u8>,
    d: Seq<u8>,
    e: Seq<u8>,
    f: Seq<u8>,
)
    requires
        b.len() == 2,
        c.len() == 2,
        d.len() == 4,
    ensures
        ({
            let all = a + b + c + d + e + f;
            let n = a.len() as int;
            &&& all.subrange(n, n + 2) == b
            &&& all.subrange(n + 2, n + 4) == c
            &&& all.subrange(n + 4, n + 8) == d
            &&& all.subrange(n + 8, n + 8 + e.len()) == e
        }),
{
    let all = a + b + c + d + e + f;
    let n = a.len() as int;
    assert(all.subrange(n, n + 2) =~= b);
    assert(all.subrange(n + 2, n + 4) =~= c);
    assert(all.subrange(n + 4, n + 8) =~= d);
    assert(all.subrange(n + 8, n + 8 + e.len()) =~= e);
}

/// A record reads back as its header and its payload, and the reader is left at the next record.
pub proof fn lemma_record_reads_back(
    o: Output,
    tag: Tag,
    version: u16,
    ops: Seq<Op>,
    tail: Seq<u8>,
)
    requires
        o.wf(),
        o.at % 8 == 0,
        o.record(tag, version, ops).out is Ok,
    ensures
        ({
            let w = o.record(tag, version, ops).to;
            let p = flat(ops, 0);
            let i = Input { bytes: w.written() + tail, at: o.at };
            &&& p.len() <= u32::MAX
            &&& all_describable(ops)
            &&& i.record().out == Ok::<(Header, Seq<u8>), Error>(
                (Header { tag, version, len: p.len() as u32 }, p),
            )
            &&& i.record().at == w.at
        }),
{
    broadcast use lemma_le_bytes_len;

    lemma_record_bytes(o, tag, version, ops);
    lemma_flat_shift(ops, 0, o.at + 8);
    lemma_pow_widths();
    let w = o.record(tag, version, ops).to;
    let p = flat(ops, 0);
    let t2 = le_bytes(tag.0 as nat, 2);
    let v2 = le_bytes(version as nat, 2);
    let l4 = le_bytes(p.len(), 4);
    let all = w.written() + tail;
    let at = o.at;
    let z = zeros(pad(o.at + 8 + p.len()));
    lemma_five_parts(o.written(), t2, v2, l4, p, z + tail);
    assert(o.written() + t2 + v2 + l4 + p + (z + tail) =~= all);
    assert(o.written().len() == at);
    let i = Input { bytes: all, at };
    lemma_reads_number(i, tag.0 as nat, 2);
    lemma_reads_number(i.to(at + 2), version as nat, 2);
    lemma_reads_number(i.to(at + 4), p.len(), 4);
    lemma_pad_shift(p.len() as int, at + 8);
    assert(p.len() + (at + 8) == at + 8 + p.len());
}

/// The number at field `k` of a payload.
pub proof fn lemma_field_number(ops: Seq<Op>, k: int, rest: Seq<u8>, v: nat, n: nat)
    requires
        0 <= k < ops.len(),
        ops[k] == Op::Raw(le_bytes(v, n)),
        v < pow(256, n),
    ensures
        ({
            let i = Input { bytes: flat(ops, 0) + rest, at: flat(ops.take(k), 0).len() as int };
            &&& i.take(n as int).out == Ok::<Seq<u8>, Error>(le_bytes(v, n))
            &&& i.take(n as int).at == flat(ops.take(k + 1), 0).len()
            &&& le(le_bytes(v, n)) == v
        }),
{
    lemma_le_bytes_len(v, n);
    lemma_piece(ops, k, rest);
    let i = Input { bytes: flat(ops, 0) + rest, at: flat(ops.take(k), 0).len() as int };
    lemma_reads_number(i, v, n);
}

/// The variable-length field at field `k` of a payload.
pub proof fn lemma_field_var(ops: Seq<Op>, k: int, rest: Seq<u8>, b: Seq<u8>)
    requires
        0 <= k < ops.len(),
        ops[k] == Op::Var(b),
        all_describable(ops),
    ensures
        ({
            let i = Input { bytes: flat(ops, 0) + rest, at: flat(ops.take(k), 0).len() as int };
            i.var_bytes() == (Step {
                out: Ok::<Seq<u8>, Error>(b),
                at: flat(ops.take(k + 1), 0).len() as int,
            })
        }),
{
    assert(ops[k].describable());
    lemma_piece(ops, k, rest);
    let i = Input { bytes: flat(ops, 0) + rest, at: flat(ops.take(k), 0).len() as int };
    lemma_reads_var(i, b);
}

/// The plain bytes at field `k` of a payload.
pub proof fn lemma_field_raw(ops: Seq<Op>, k: int, rest: Seq<u8>, b: Seq<u8>)
    requires
        0 <= k < ops.len(),
        ops[k] == Op::Raw(b),
    ensures
        ({
            let i = Input { bytes: flat(ops, 0) + rest, at: flat(ops.take(k), 0).len() as int };
            i.take(b.len() as int) == (Step {
                out: Ok::<Seq<u8>, Error>(b),
                at: flat(ops.take(k + 1), 0).len() as int,
            })
        }),
{
    lemma_piece(ops, k, rest);
}

/// Text comes back from the bytes that encode it.
pub proof fn lemma_text_reads_back(s: Seq<char>)
    ensures
        valid_utf8(encode_utf8(s)),
        decode_utf8(encode_utf8(s)) == s,
{
    encode_utf8_valid_utf8(s);
    encode_utf8_decode_utf8(s);
}

/// Whether a set is one the wire form can carry whole.
pub open spec fn carried(c: Caps) -> bool {
    c.bits.len() == CapabilitySet::BYTES && !c.beyond
}

/// A payload that starts with the fields of a [`HelloView`] reads as it, whatever follows them.
proof fn lemma_hello_payload(m: HelloView, more: Seq<Op>)
    requires
        carried(m.offered),
        all_describable(m.fields() + more),
    ensures
        ({
            let ops = m.fields() + more;
            let i = Input::over(flat(ops, 0));
            &&& HelloView::read(1, i).out == Ok::<HelloView, Error>(m)
            &&& HelloView::read(1, i).at == flat(ops.take(6), 0).len()
        }),
{
    let ops = m.fields() + more;
    let none = Seq::<u8>::empty();
    lemma_pow_widths();
    lemma_wire_form_reads_back(m.offered);
    assert(ops.take(0) =~= Seq::<Op>::empty());
    assert(flat(ops, 0) + none =~= flat(ops, 0));
    lemma_field_number(ops, 0, none, m.abi_major as nat, 2);
    lemma_field_number(ops, 1, none, m.abi_minor as nat, 2);
    lemma_field_number(ops, 2, none, 0, 4);
    lemma_field_number(ops, 3, none, m.window_bytes as nat, 8);
    lemma_field_number(ops, 4, none, m.max_batch_rows as nat, 8);
    lemma_field_var(ops, 5, none, m.offered.wire());
}

/// A hello that was written reads back as it was, past any fields that a later version appended, and
/// the reader is left at the next record.
pub proof fn lemma_hello_round_trip(o: Output, m: HelloView, more: Seq<Op>, tail: Seq<u8>)
    requires
        o.wf(),
        o.at % 8 == 0,
        carried(m.offered),
        o.record(Tag(Tag::HELLO), 1, m.fields() + more).out is Ok,
    ensures
        ({
            let w = o.record(Tag(Tag::HELLO), 1, m.fields() + more).to;
            (Input { bytes: w.written() + tail, at: o.at }).message() == (Step {
                out: Ok::<MessageView, Error>(MessageView::Hello(m)),
                at: w.at,
            })
        }),
{
    lemma_record_reads_back(o, Tag(Tag::HELLO), 1, m.fields() + more, tail);
    lemma_hello_payload(m, more);
}

/// A hello that was written with the size of the source reads back with it, and one written without
/// it reads back with zero.
pub proof fn lemma_sized_hello_round_trip(m: HelloView, source_bytes: u64)
    requires
        carried(m.offered),
    ensures
        HelloView::read_sized(1, Input::over(flat(m.sized_fields(source_bytes), 0))).out == Ok::<
            (HelloView, u64),
            Error,
        >((m, source_bytes)),
        HelloView::read_sized(1, Input::over(flat(m.fields(), 0))).out == Ok::<
            (HelloView, u64),
            Error,
        >((m, 0)),
{
    lemma_wire_form_reads_back(m.offered);
    lemma_pow_widths();
    let none = Seq::<u8>::empty();
    let last = Seq::<Op>::empty().push(eight(source_bytes));
    let ops = m.sized_fields(source_bytes);
    assert(m.fields() + last =~= ops);
    assert(m.fields() + Seq::<Op>::empty() =~= m.fields());
    assert(all_describable(ops));
    lemma_hello_payload(m, last);
    assert(flat(ops, 0) + none =~= flat(ops, 0));
    lemma_le_bytes_len(source_bytes as nat, 8);
    lemma_field_number(ops, 6, none, source_bytes as nat, 8);
    assert(ops.take(7) =~= ops);
    assert(all_describable(m.fields()));
    lemma_hello_payload(m, Seq::empty());
    assert(m.fields().take(6) =~= m.fields());
}

/// A hello acknowledgement that was written reads back as it was, past any appended fields, and the
/// reader is left at the next record.
pub proof fn lemma_hello_ack_round_trip(o: Output, m: HelloAckView, more: Seq<Op>, tail: Seq<u8>)
    requires
        o.wf(),
        o.at % 8 == 0,
        carried(m.required),
        carried(m.optional),
        o.record(Tag(Tag::HELLO_ACK), 1, m.fields() + more).out is Ok,
    ensures
        ({
            let w = o.record(Tag(Tag::HELLO_ACK), 1, m.fields() + more).to;
            (Input { bytes: w.written() + tail, at: o.at }).message() == (Step {
                out: Ok::<MessageView, Error>(MessageView::HelloAck(m)),
                at: w.at,
            })
        }),
{
    let ops = m.fields() + more;
    let none = Seq::<u8>::empty();
    lemma_record_reads_back(o, Tag(Tag::HELLO_ACK), 1, ops, tail);
    lemma_pow_widths();
    lemma_wire_form_reads_back(m.required);
    lemma_wire_form_reads_back(m.optional);
    lemma_text_reads_back(m.decoder_id);
    assert(ops.take(0) =~= Seq::<Op>::empty());
    assert(flat(ops, 0) + none =~= flat(ops, 0));
    lemma_field_number(ops, 0, none, m.abi_major as nat, 2);
    lemma_field_number(ops, 1, none, m.abi_minor as nat, 2);
    lemma_field_number(ops, 2, none, 0, 4);
    lemma_field_var(ops, 3, none, m.required.wire());
    lemma_field_var(ops, 4, none, m.optional.wire());
    lemma_field_var(ops, 5, none, encode_utf8(m.decoder_id));
}

/// A refusal that was written reads back as it was, past any appended fields, and the reader is left
/// at the next record.
pub proof fn lemma_refusal_round_trip(o: Output, m: RefusalView, more: Seq<Op>, tail: Seq<u8>)
    requires
        o.wf(),
        o.at % 8 == 0,
        o.record(Tag(Tag::REFUSAL), 1, m.fields() + more).out is Ok,
    ensures
        ({
            let w = o.record(Tag(Tag::REFUSAL), 1, m.fields() + more).to;
            (Input { bytes: w.written() + tail, at: o.at }).message() == (Step {
                out: Ok::<MessageView, Error>(MessageView::Refusal(m)),
                at: w.at,
            })
        }),
{
    let ops = m.fields() + more;
    let none = Seq::<u8>::empty();
    lemma_record_reads_back(o, Tag(Tag::REFUSAL), 1, ops, tail);
    lemma_pow_widths();
    lemma_text_reads_back(m.detail);
    assert(ops.take(0) =~= Seq::<Op>::empty());
    assert(flat(ops, 0) + none =~= flat(ops, 0));
    lemma_field_number(ops, 0, none, m.reason.0 as nat, 2);
    lemma_field_number(ops, 1, none, m.capability.0 as nat, 2);
    lemma_field_number(ops, 2, none, 0, 4);
    lemma_field_var(ops, 3, none, encode_utf8(m.detail));
}

/// A scan request that was written reads back as it was, past any appended fields, and the reader is
/// left at the next record.
pub proof fn lemma_scan_round_trip(o: Output, m: ScanView, more: Seq<Op>, tail: Seq<u8>)
    requires
        o.wf(),
        o.at % 8 == 0,
        m.wf(),
        o.record(Tag(Tag::SCAN_REQUEST), 1, m.fields() + more).out is Ok,
    ensures
        ({
            let w = o.record(Tag(Tag::SCAN_REQUEST), 1, m.fields() + more).to;
            (Input { bytes: w.written() + tail, at: o.at }).message() == (Step {
                out: Ok::<MessageView, Error>(MessageView::ScanRequest(m)),
                at: w.at,
            })
        }),
{
    let ops = m.fields() + more;
    let none = Seq::<u8>::empty();
    lemma_record_reads_back(o, Tag(Tag::SCAN_REQUEST), 1, ops, tail);
    lemma_pow_widths();
    assert(ops.take(0) =~= Seq::<Op>::empty());
    assert(flat(ops, 0) + none =~= flat(ops, 0));
    lemma_field_number(ops, 0, none, m.row_start as nat, 8);
    lemma_field_number(ops, 1, none, m.row_count as nat, 8);
    lemma_field_number(ops, 2, none, m.flags as nat, 8);
    lemma_field_var(ops, 3, none, m.projection);
    lemma_field_var(ops, 4, none, m.filter);
}

/// A range request that was written reads back as it was, past any appended fields, and the reader is
/// left at the next record.
pub proof fn lemma_range_round_trip(o: Output, m: RangeRequest, more: Seq<Op>, tail: Seq<u8>)
    requires
        o.wf(),
        o.at % 8 == 0,
        o.record(Tag(Tag::RANGE_REQUEST), 1, m.fields() + more).out is Ok,
    ensures
        ({
            let w = o.record(Tag(Tag::RANGE_REQUEST), 1, m.fields() + more).to;
            (Input { bytes: w.written() + tail, at: o.at }).message() == (Step {
                out: Ok::<MessageView, Error>(MessageView::RangeRequest(m)),
                at: w.at,
            })
        }),
{
    let ops = m.fields() + more;
    let none = Seq::<u8>::empty();
    lemma_record_reads_back(o, Tag(Tag::RANGE_REQUEST), 1, ops, tail);
    lemma_pow_widths();
    assert(ops.take(0) =~= Seq::<Op>::empty());
    assert(flat(ops, 0) + none =~= flat(ops, 0));
    lemma_field_number(ops, 0, none, m.offset as nat, 8);
    lemma_field_number(ops, 1, none, m.len as nat, 8);
}

/// A batch that was written reads back as it was, past any appended fields, and the reader is left at
/// the next record.
pub proof fn lemma_batch_round_trip(o: Output, m: BatchView, more: Seq<Op>, tail: Seq<u8>)
    requires
        o.wf(),
        o.at % 8 == 0,
        m.wf(),
        o.record(Tag(Tag::BATCH), 1, m.fields() + more).out is Ok,
    ensures
        ({
            let w = o.record(Tag(Tag::BATCH), 1, m.fields() + more).to;
            (Input { bytes: w.written() + tail, at: o.at }).message() == (Step {
                out: Ok::<MessageView, Error>(MessageView::Batch(m)),
                at: w.at,
            })
        }),
{
    let ops = m.fields() + more;
    let none = Seq::<u8>::empty();
    lemma_record_reads_back(o, Tag(Tag::BATCH), 1, ops, tail);
    lemma_pow_widths();
    assert(ops.take(0) =~= Seq::<Op>::empty());
    assert(flat(ops, 0) + none =~= flat(ops, 0));
    lemma_field_number(ops, 0, none, m.rows as nat, 8);
    lemma_field_number(ops, 1, none, m.flags as nat, 8);
    lemma_field_var(ops, 2, none, m.nodes);
    lemma_field_var(ops, 3, none, m.buffers);
}

/// A record with a tag that was never assigned is stepped over, whatever it holds.
pub proof fn lemma_unknown_record_is_stepped_over(
    o: Output,
    tag: Tag,
    version: u16,
    ops: Seq<Op>,
    tail: Seq<u8>,
)
    requires
        o.wf(),
        o.at % 8 == 0,
        tag_name(tag) is None,
        o.record(tag, version, ops).out is Ok,
    ensures
        ({
            let w = o.record(tag, version, ops).to;
            let i = Input { bytes: w.written() + tail, at: o.at };
            &&& i.message().out is Ok
            &&& i.message().out->Ok_0 is Unknown
            &&& i.message().out->Ok_0->Unknown_0.tag == tag
            &&& i.message().at == w.at
        }),
{
    lemma_record_reads_back(o, tag, version, ops, tail);
}

/// A record that was written where it fits takes a multiple of eight bytes, so the next one starts
/// aligned.
pub proof fn lemma_records_stay_aligned(o: Output, tag: Tag, version: u16, ops: Seq<Op>)
    requires
        o.wf(),
        o.record(tag, version, ops).out is Ok,
    ensures
        o.record(tag, version, ops).to.at % 8 == 0,
        o.record(tag, version, ops).to.wf(),
{
    lemma_record_bytes(o, tag, version, ops);
}

} // verus!
