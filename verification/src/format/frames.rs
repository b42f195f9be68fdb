//! A run of records, as the bytes it takes and as what a writer makes of it.
use vstd::prelude::*;

use crate::abi::error::Error;
use crate::abi::record::{header_ops, Tag};
use crate::abi::roundtrip::{lemma_flat_shift, lemma_pad_shift, lemma_record_bytes};
use crate::abi::wire::{
    all_describable, flat, lemma_flat_push, lemma_laid_len, lemma_run_is_flat, lemma_step_is_flat,
    pad, Op, Output, Wrote,
};
use crate::bytes::{le_bytes, lemma_le_bytes_len, zeros};

verus! {

/// One record of a footer, at its first version.
pub ghost struct Entry {
    /// Which record it is.
    pub tag: u16,
    /// What is in its payload.
    pub fields: Seq<Op>,
}

/// A record as bytes: a header, the payload and its padding.
pub open spec fn frame(tag: Tag, version: u16, payload: Seq<u8>) -> Seq<u8> {
    le_bytes(tag.0 as nat, 2) + le_bytes(version as nat, 2) + le_bytes(payload.len(), 4) + payload
        + zeros(pad(payload.len() as int))
}

impl Entry {
    /// The payload of the record.
    pub open spec fn payload(self) -> Seq<u8> {
        flat(self.fields, 0)
    }

    /// The record as bytes.
    pub open spec fn frame(self) -> Seq<u8> {
        frame(Tag(self.tag), 1, self.payload())
    }

    /// Whether every length in the record can be described.
    pub open spec fn writable(self) -> bool {
        all_describable(self.fields) && self.payload().len() <= u32::MAX
    }
}

/// Records as bytes, one after the other.
pub open spec fn frames(entries: Seq<Entry>) -> Seq<u8>
    decreases entries.len(),
{
    if entries.len() == 0 {
        Seq::empty()
    } else {
        frames(entries.drop_last()) + entries.last().frame()
    }
}

/// Whether every length in a run of records can be described.
pub open spec fn writable(entries: Seq<Entry>) -> bool {
    forall|i: int| 0 <= i < entries.len() ==> (#[trigger] entries[i]).writable()
}

/// What a writer makes of a run of records.
pub open spec fn entries_run(o: Output, entries: Seq<Entry>) -> Wrote
    decreases entries.len(),
{
    if entries.len() == 0 {
        Wrote { out: Ok(()), to: o }
    } else {
        let front = entries_run(o, entries.drop_last());
        if front.out is Err {
            front
        } else {
            front.to.record(Tag(entries.last().tag), 1, entries.last().fields)
        }
    }
}

/// A run of records that stops early stops there whatever follows.
pub proof fn lemma_entries_run_append(o: Output, a: Seq<Entry>, b: Seq<Entry>)
    ensures
        entries_run(o, a).out is Err ==> entries_run(o, a + b) == entries_run(o, a),
    decreases b.len(),
{
    if b.len() == 0 {
        assert(a + b =~= a);
    } else {
        lemma_entries_run_append(o, a, b.drop_last());
        assert((a + b).drop_last() =~= a + b.drop_last());
    }
}

/// A run of records is a whole number of eight byte words.
pub proof fn lemma_frame_len(e: Entry)
    ensures
        e.frame().len() == 8 + e.payload().len() + pad(e.payload().len() as int),
        e.frame().len() % 8 == 0,
{
    lemma_le_bytes_len(e.tag as nat, 2);
    lemma_le_bytes_len(1, 2);
    lemma_le_bytes_len(e.payload().len(), 4);
}

/// Whether a length that cannot be described is come to before the room runs out, writing from offset
/// `at` on.
pub open spec fn undescribed(ops: Seq<Op>, at: int, room: int) -> bool {
    exists|i: int|
        {
            &&& 0 <= i < ops.len()
            &&& !(#[trigger] ops[i]).describable()
            &&& all_describable(ops.take(i))
            &&& flat(ops.take(i), at).len() <= room
        }
}

/// A list of writes is stopped by a length that cannot be described exactly when there is one in reach.
pub proof fn lemma_run_undescribed(o: Output, ops: Seq<Op>)
    requires
        o.wf(),
    ensures
        o.run(ops).out == Err::<(), Error>(Error::LengthOverflow) <==> undescribed(
            ops,
            o.at,
            o.left(),
        ),
    decreases ops.len(),
{
    if ops.len() > 0 {
        let init = ops.drop_last();
        let n = init.len() as int;
        lemma_run_undescribed(o, init);
        lemma_run_is_flat(o, init, 0);
        assert forall|i: int| 0 <= i <= n implies #[trigger] ops.take(i) == init.take(i) by {
            assert(ops.take(i) =~= init.take(i));
        }
        assert(init.take(n) =~= init);
        if o.run(init).out is Ok {
            reveal(Output::step);
            assert(ops.take(n) == init);
            if undescribed(ops, o.at, o.left()) {
                let i = choose|i: int|
                    {
                        &&& 0 <= i < ops.len()
                        &&& !(#[trigger] ops[i]).describable()
                        &&& all_describable(ops.take(i))
                        &&& flat(ops.take(i), o.at).len() <= o.left()
                    };
                assert(i < n ==> !init[i].describable());
            }
            if o.run(ops).out == Err::<(), Error>(Error::LengthOverflow) {
                assert(!ops[n].describable());
            }
        } else {
            if undescribed(init, o.at, o.left()) {
                let i = choose|i: int|
                    {
                        &&& 0 <= i < init.len()
                        &&& !(#[trigger] init[i]).describable()
                        &&& all_describable(init.take(i))
                        &&& flat(init.take(i), o.at).len() <= o.left()
                    };
                assert(!ops[i].describable());
                assert(ops.take(i) == init.take(i));
            }
            if undescribed(ops, o.at, o.left()) {
                let i = choose|i: int|
                    {
                        &&& 0 <= i < ops.len()
                        &&& !(#[trigger] ops[i]).describable()
                        &&& all_describable(ops.take(i))
                        &&& flat(ops.take(i), o.at).len() <= o.left()
                    };
                assert(ops.take(i) == init.take(i));
                assert(i < n);
                assert(!init[i].describable());
            }
        }
    }
}

/// What is wrong when a list of writes does not go through: a length that cannot be described, or not
/// enough room for the bytes.
proof fn lemma_run_fault(o: Output, ops: Seq<Op>)
    requires
        o.wf(),
        o.run(ops).out is Err,
    ensures
        o.run(ops).out == Err::<(), Error>(Error::LengthOverflow) ==> !all_describable(ops),
        o.run(ops).out != Err::<(), Error>(Error::LengthOverflow) ==> o.run(
            ops,
        ).out->Err_0 is BufferFull && flat(ops, o.at).len() > o.left(),
    decreases ops.len(),
{
    let init = ops.drop_last();
    lemma_run_is_flat(o, init, 0);
    if o.run(init).out is Err {
        lemma_run_fault(o, init);
        if !all_describable(init) {
            let i = choose|i: int| 0 <= i < init.len() && !(#[trigger] init[i]).describable();
            assert(!ops[i].describable());
        }
    } else {
        let front = o.run(init).to;
        lemma_step_is_flat(front, ops.last(), 0);
        lemma_step_fault(front, ops.last());
        if !ops.last().describable() {
            assert(!ops[ops.len() - 1].describable());
        }
    }
}

/// What is wrong when one write does not go through.
proof fn lemma_step_fault(o: Output, op: Op)
    requires
        o.wf(),
        o.step(op).out is Err,
    ensures
        o.step(op).out == Err::<(), Error>(Error::LengthOverflow) ==> !op.describable(),
        o.step(op).out != Err::<(), Error>(Error::LengthOverflow) ==> o.step(
            op,
        ).out->Err_0 is BufferFull && op.bytes_at(o.at).len() > o.left(),
{
    reveal(Output::step);
    match op {
        Op::Var(b) => {
            broadcast use lemma_laid_len;

            lemma_le_bytes_len(b.len(), 4);
            lemma_step_is_flat(o, op, 0);
        },
        _ => {},
    }
}

/// What a writer makes of one record: its bytes, or why they did not go down.
#[verifier::spinoff_prover]
pub proof fn lemma_record_run(o: Output, e: Entry)
    requires
        o.wf(),
        o.at % 8 == 0,
    ensures
        ({
            let w = o.record(Tag(e.tag), 1, e.fields);
            &&& w.out is Ok ==> {
                &&& e.writable()
                &&& w.to.wf()
                &&& w.to.at == o.at + e.frame().len()
                &&& w.to.at % 8 == 0
                &&& w.to.written() == o.written() + e.frame()
            }
            &&& w.out is Err ==> {
                ||| w.out->Err_0 == Error::LengthOverflow && !e.writable()
                ||| w.out->Err_0 is BufferFull && e.frame().len() > o.left()
            }
        }),
{
    if o.record(Tag(e.tag), 1, e.fields).out is Ok {
        lemma_record_goes_down(o, e);
    } else {
        lemma_record_fault(o, e);
    }
}

/// Five parts behind another are one part behind it.
proof fn lemma_regrouped(
    a: Seq<u8>,
    b: Seq<u8>,
    c: Seq<u8>,
    d: Seq<u8>,
    e: Seq<u8>,
    f: Seq<u8>,
)
    ensures
        a + b + c + d + e + f == a + (b + c + d + e + f),
{
    assert(a + b + c =~= a + (b + c));
    assert(a + (b + c) + d =~= a + (b + c + d));
    assert(a + (b + c + d) + e =~= a + (b + c + d + e));
    assert(a + (b + c + d + e) + f =~= a + (b + c + d + e + f));
}

/// What one record leaves behind when it goes down.
#[verifier::spinoff_prover]
proof fn lemma_record_goes_down(o: Output, e: Entry)
    requires
        o.wf(),
        o.at % 8 == 0,
        o.record(Tag(e.tag), 1, e.fields).out is Ok,
    ensures
        ({
            let w = o.record(Tag(e.tag), 1, e.fields);
            &&& e.writable()
            &&& w.to.wf()
            &&& w.to.at == o.at + e.frame().len()
            &&& w.to.at % 8 == 0
            &&& w.to.written() == o.written() + e.frame()
        }),
{
    lemma_frame_len(e);
    lemma_flat_shift(e.fields, 0, o.at + 8);
    lemma_pad_shift(e.payload().len() as int, o.at + 8);
    assert(e.payload().len() + (o.at + 8) == o.at + 8 + e.payload().len());
    lemma_record_bytes(o, Tag(e.tag), 1, e.fields);
    lemma_regrouped(
        o.written(),
        le_bytes(e.tag as nat, 2),
        le_bytes(1, 2),
        le_bytes(e.payload().len(), 4),
        e.payload(),
        zeros(pad(e.payload().len() as int)),
    );
}

/// What is wrong when one record does not go down.
#[verifier::spinoff_prover]
proof fn lemma_record_fault(o: Output, e: Entry)
    requires
        o.wf(),
        o.at % 8 == 0,
        o.record(Tag(e.tag), 1, e.fields).out is Err,
    ensures
        ({
            let w = o.record(Tag(e.tag), 1, e.fields);
            ||| w.out->Err_0 == Error::LengthOverflow && !e.writable()
            ||| w.out->Err_0 is BufferFull && e.frame().len() > o.left()
        }),
{
    broadcast use {lemma_flat_push, lemma_le_bytes_len};

    let tag = Tag(e.tag);
    lemma_frame_len(e);
    lemma_flat_shift(e.fields, 0, o.at + 8);
    let p = e.payload();
    lemma_pad_shift(p.len() as int, o.at + 8);
    assert(p.len() + (o.at + 8) == o.at + 8 + p.len());
    let head = header_ops(tag, 1, 0);
    let h = o.begin(tag, 1);
    lemma_run_is_flat(o, head, 0);
    assert(flat(head, o.at).len() == 8);
    if h.out is Err {
        lemma_run_fault(o, head);
        assert(all_describable(head));
    } else {
        let b = h.to.run(e.fields);
        lemma_run_is_flat(h.to, e.fields, 0);
        if b.out is Err {
            lemma_run_fault(h.to, e.fields);
        } else {
            lemma_laid_len(b.to.bytes, h.to.at - 4, le_bytes(p.len(), 4));
        }
    }
}

/// A record at the front of a buffer is stopped by a length that cannot be described exactly when there
/// is one in reach. The length of the record itself is no such length: a buffer holds no more of it.
#[verifier::spinoff_prover]
pub proof fn lemma_record_undescribed(o: Output, e: Entry)
    requires
        o.wf(),
        o.at == 0,
        o.bytes.len() <= u32::MAX,
    ensures
        o.record(Tag(e.tag), 1, e.fields).out == Err::<(), Error>(Error::LengthOverflow)
            <==> undescribed(e.fields, 8, o.bytes.len() - 8),
{
    broadcast use {lemma_flat_push, lemma_le_bytes_len};

    let tag = Tag(e.tag);
    let head = header_ops(tag, 1, 0);
    let h = o.begin(tag, 1);
    lemma_run_is_flat(o, head, 0);
    assert(flat(head, o.at).len() == 8);
    if h.out is Err {
        lemma_run_fault(o, head);
        assert(all_describable(head));
    } else {
        assert(h.to.at == 8);
        lemma_run_is_flat(h.to, e.fields, 0);
        lemma_run_undescribed(h.to, e.fields);
        if h.to.run(e.fields).out is Ok && undescribed(e.fields, 8, o.bytes.len() - 8) {
            assert(false);
        }
    }
}

/// What a writer makes of a run of records from the front of a buffer: their bytes if every length can
/// be described and they fit, and otherwise which of the two is wrong.
pub proof fn lemma_entries_run(o: Output, entries: Seq<Entry>)
    requires
        o.wf(),
        o.at % 8 == 0,
    ensures
        ({
            let w = entries_run(o, entries);
            &&& w.out is Ok ==> {
                &&& writable(entries)
                &&& w.to.wf()
                &&& w.to.at == o.at + frames(entries).len()
                &&& w.to.at % 8 == 0
                &&& w.to.written() == o.written() + frames(entries)
            }
            &&& w.out is Err ==> {
                ||| w.out->Err_0 == Error::LengthOverflow && !writable(entries)
                ||| w.out->Err_0 is BufferFull && o.at + frames(entries).len() > o.bytes.len()
            }
            &&& w.to.bytes.len() == o.bytes.len() || w.out is Err
        }),
    decreases entries.len(),
{
    if entries.len() == 0 {
        assert(o.written() + frames(entries) =~= o.written());
    } else {
        let init = entries.drop_last();
        let last = entries.last();
        lemma_entries_run(o, init);
        let front = entries_run(o, init);
        if front.out is Ok {
            lemma_record_run(front.to, last);
            let w = entries_run(o, entries);
            if w.out is Ok {
                lemma_record_keeps_size(front.to, last);
                assert(w.to.written() =~= o.written() + frames(entries));
                assert forall|i: int| 0 <= i < entries.len() implies (
                #[trigger] entries[i]).writable() by {
                    if i < init.len() {
                        assert(init[i].writable());
                    }
                }
            } else if !last.writable() {
                assert(!entries[entries.len() - 1].writable());
            }
        } else {
            if !writable(init) {
                let i = choose|i: int| 0 <= i < init.len() && !(#[trigger] init[i]).writable();
                assert(!entries[i].writable());
            }
        }
    }
}

/// A record that goes down leaves the size of the buffer alone.
pub proof fn lemma_record_keeps_size(o: Output, e: Entry)
    requires
        o.wf(),
        o.record(Tag(e.tag), 1, e.fields).out is Ok,
    ensures
        o.record(Tag(e.tag), 1, e.fields).to.bytes.len() == o.bytes.len(),
{
    broadcast use {lemma_laid_len, lemma_le_bytes_len};

    let tag = Tag(e.tag);
    let h = o.begin(tag, 1);
    lemma_run_is_flat(o, header_ops(tag, 1, 0), 0);
    let b = h.to.run(e.fields);
    lemma_run_is_flat(h.to, e.fields, 0);
}

} // verus!
