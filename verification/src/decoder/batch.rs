//! Building a batch of rows to hand back.
use vstd::prelude::*;

use crate::abi;
use crate::abi::message::{BatchView, Buffers, Nodes, RefusalReason, RefusalView};
use crate::abi::record::Tag;
use crate::abi::wire::{all_describable, flat, Output, Writer, Wrote};
use crate::bytes::{append, copied, le_bytes, lemma_le_bytes_len, u64_bytes};
use crate::decoder::error::{refusal_for, Error, Result};
use crate::format::frames::{
    lemma_record_keeps_size, lemma_record_run, lemma_record_undescribed, undescribed, Entry,
};

verus! {

/// How large an encoded record is allowed to get.
///
/// The data itself is not in the record, so this limits how many arrays and buffers one batch can
/// describe.
pub const RECORD_LIMIT: usize = 1048576;

/// A batch of decoded rows, laid out the way Arrow wants them.
///
/// A decoder fills one in schema pre-order: for each array, one call to [`Batch::array`], then one call
/// to [`Batch::buffer`] for each buffer that array needs. A buffer with no bytes is still a buffer,
/// because the position in the list is what identifies it.
#[derive(PartialEq, Eq, Debug)]
pub struct Batch {
    rows: u64,
    nodes: Vec<u8>,
    buffers: Vec<Vec<u8>>,
}

/// What a [`Batch`] holds.
pub ghost struct Contents {
    /// How many rows it describes.
    pub rows: u64,
    /// The arrays, encoded.
    pub nodes: Seq<u8>,
    /// The buffers.
    pub buffers: Seq<Seq<u8>>,
}

/// Buffers, taken for what they hold.
pub open spec fn held(buffers: Seq<Vec<u8>>) -> Seq<Seq<u8>> {
    Seq::new(buffers.len(), |i: int| buffers[i]@)
}

impl View for Batch {
    type V = Contents;

    closed spec fn view(&self) -> Contents {
        Contents { rows: self.rows, nodes: self.nodes@, buffers: held(self.buffers@) }
    }
}

/// One array, encoded.
pub open spec fn node_bytes(length: u64, null_count: u64) -> Seq<u8> {
    le_bytes(length as nat, 8) + le_bytes(null_count as nat, 8)
}

/// The references to some buffers, given where each of them lies.
pub open spec fn reference_bytes(buffers: Seq<Seq<u8>>, addresses: Seq<u64>, n: nat) -> Seq<u8>
    decreases n,
{
    if n == 0 {
        Seq::empty()
    } else {
        reference_bytes(buffers, addresses, (n - 1) as nat) + le_bytes(
            addresses[n - 1] as nat,
            8,
        ) + le_bytes(buffers[n - 1].len(), 8)
    }
}

impl Contents {
    /// Whether the arrays are a whole number of nodes.
    pub open spec fn wf(self) -> bool {
        self.nodes.len() % 16 == 0
    }

    /// The record of the batch, given where each of its buffers lies.
    pub open spec fn entry(self, addresses: Seq<u64>) -> Entry {
        Entry {
            tag: Tag::BATCH,
            fields: (BatchView {
                rows: self.rows,
                flags: 0,
                nodes: self.nodes,
                buffers: reference_bytes(self.buffers, addresses, self.buffers.len()),
            }).fields(),
        }
    }
}

/// A reference takes sixteen bytes.
pub proof fn lemma_reference_len(buffers: Seq<Seq<u8>>, addresses: Seq<u64>, n: nat)
    ensures
        reference_bytes(buffers, addresses, n).len() == 16 * n,
    decreases n,
{
    if n > 0 {
        lemma_reference_len(buffers, addresses, (n - 1) as nat);
        lemma_le_bytes_len(addresses[n - 1] as nat, 8);
        lemma_le_bytes_len(buffers[n - 1].len(), 8);
    }
}

/// `<[u8]>::as_ptr`: the address of the first of some bytes.
///
/// Nothing is believed of it: where a buffer lies is up to the machine.
#[verifier::external_body]
fn address(bytes: &Vec<u8>) -> (r: u64) {
    bytes.as_ptr() as usize as u64
}

impl Clone for Batch {
    /// The same rows, arrays and buffers.
    fn clone(&self) -> (r: Self)
        ensures
            r@ == self@,
    {
        let mut buffers: Vec<Vec<u8>> = Vec::new();
        let mut i: usize = 0;
        while i < self.buffers.len()
            invariant
                0 <= i <= self.buffers@.len(),
                held(buffers@) == held(self.buffers@).take(i as int),
            decreases self.buffers@.len() - i,
        {
            let ghost before = buffers@;
            let one = copied(self.buffers[i].as_slice());
            let ghost o = one@;
            buffers.push(one);
            i = i + 1;
            assert(held(buffers@) =~= held(before).push(o));
            assert(held(buffers@) =~= held(self.buffers@).take(i as int));
        }
        assert(held(self.buffers@).take(i as int) =~= held(self.buffers@));
        Batch { rows: self.rows, nodes: copied(self.nodes.as_slice()), buffers }
    }
}

impl Default for Batch {
    /// An empty batch of no rows.
    fn default() -> (r: Self)
        ensures
            r@ == (Contents { rows: 0, nodes: Seq::empty(), buffers: Seq::empty() }),
    {
        Batch::new(0)
    }
}

impl Batch {
    /// An empty batch that will describe `rows` rows.
    #[must_use]
    pub fn new(rows: u64) -> (r: Self)
        ensures
            r@ == (Contents { rows, nodes: Seq::empty(), buffers: Seq::empty() }),
            r@.wf(),
    {
        let r = Batch { rows, nodes: Vec::new(), buffers: Vec::new() };
        assert(r@.buffers =~= Seq::<Seq<u8>>::empty());
        r
    }

    /// Empties the batch and points it at a new row count.
    pub fn reset(&mut self, rows: u64)
        ensures
            final(self)@ == (Contents { rows, nodes: Seq::empty(), buffers: Seq::empty() }),
            final(self)@.wf(),
    {
        self.rows = rows;
        self.nodes.clear();
        self.buffers.clear();
        assert(self@.nodes =~= Seq::<u8>::empty());
        assert(self@.buffers =~= Seq::<Seq<u8>>::empty());
    }

    /// How many rows the batch describes.
    #[must_use]
    pub fn rows(&self) -> (r: u64)
        ensures
            r == self@.rows,
    {
        self.rows
    }

    /// Adds one array, in schema pre-order.
    pub fn array(&mut self, length: u64, null_count: u64) -> (r: &mut Self)
        ensures
            r@ == (Contents {
                nodes: old(self)@.nodes + node_bytes(length, null_count),
                ..old(self)@
            }),
            old(self)@.wf() ==> r@.wf(),
            *final(self) == *final(r),
    {
        proof {
            lemma_le_bytes_len(length as nat, 8);
            lemma_le_bytes_len(null_count as nat, 8);
        }
        append(&mut self.nodes, u64_bytes(length).as_slice());
        append(&mut self.nodes, u64_bytes(null_count).as_slice());
        assert(self@.nodes =~= old(self)@.nodes + node_bytes(length, null_count));
        self
    }

    /// Adds one buffer by copying it.
    pub fn buffer(&mut self, bytes: &[u8]) -> (r: &mut Self)
        ensures
            r@ == (Contents { buffers: old(self)@.buffers.push(bytes@), ..old(self)@ }),
            *final(self) == *final(r),
    {
        self.buffers.push(copied(bytes));
        assert(self@.buffers =~= old(self)@.buffers.push(bytes@));
        self
    }

    /// Adds one buffer by writing it in place.
    pub fn buffer_with<F: FnOnce(&mut Vec<u8>)>(&mut self, fill: F) -> (r: &mut Self)
        requires
            forall|v: &mut Vec<u8>| v@.len() == 0 ==> call_requires(fill, (v,)),
        ensures
            exists|v: &mut Vec<u8>|
                {
                    &&& v@ == Seq::<u8>::empty()
                    &&& #[trigger] call_ensures(fill, (v,), ())
                    &&& r@ == (Contents {
                        buffers: old(self)@.buffers.push(final(v)@),
                        ..old(self)@
                    })
                },
            *final(self) == *final(r),
    {
        let mut buffer: Vec<u8> = Vec::new();
        fill(&mut buffer);
        let ghost b = buffer@;
        self.buffers.push(buffer);
        assert(self@.buffers =~= old(self)@.buffers.push(b));
        self
    }

    /// The arrays described so far.
    #[must_use]
    pub fn nodes(&self) -> (r: Nodes<'_>)
        requires
            self@.wf(),
        ensures
            r@ == self@.nodes,
    {
        match Nodes::from_bytes(self.nodes.as_slice()) {
            Ok(nodes) => nodes,
            Err(_) => Nodes::empty(),
        }
    }

    /// The buffers, in the order they were added.
    pub fn buffers(&self) -> (r: Vec<&[u8]>)
        ensures
            r@.len() == self@.buffers.len(),
            forall|i: int| 0 <= i < r@.len() ==> (#[trigger] r@[i])@ == self@.buffers[i],
    {
        let mut r: Vec<&[u8]> = Vec::new();
        let mut i: usize = 0;
        while i < self.buffers.len()
            invariant
                0 <= i <= self.buffers@.len(),
                r@.len() == i,
                forall|j: int| 0 <= j < i ==> (#[trigger] r@[j])@ == self@.buffers[j],
            decreases self.buffers@.len() - i,
        {
            r.push(self.buffers[i].as_slice());
            i = i + 1;
        }
        r
    }

    /// Whether the batch describes no arrays at all, which is how a decoder says a scan is finished.
    #[must_use]
    pub fn is_empty(&self) -> (r: bool)
        ensures
            r == (self@.nodes.len() == 0),
    {
        self.nodes.len() == 0
    }

    /// Encodes the batch as a record, pointing at the buffers where they sit in memory.
    ///
    /// The addresses are this process's own, so they mean something only to code that can see its
    /// memory. Which addresses those are is not stated.
    pub fn record(&self, out: &mut Vec<u8>) -> (r: Result<()>)
        requires
            self@.wf(),
        ensures
            exists|addresses: Seq<u64>|
                {
                    &&& addresses.len() == self@.buffers.len()
                    &&& #[trigger] encoded(self@.entry(addresses), r, final(out)@)
                },
    {
        let mut addresses: Vec<u64> = Vec::new();
        let mut i: usize = 0;
        while i < self.buffers.len()
            invariant
                0 <= i <= self.buffers@.len(),
                addresses@.len() == i,
            decreases self.buffers@.len() - i,
        {
            addresses.push(address(&self.buffers[i]));
            i = i + 1;
        }
        self.record_at(&addresses, out)
    }

    /// Encodes the batch as a record, given where each of its buffers lies.
    pub fn record_at(&self, addresses: &Vec<u64>, out: &mut Vec<u8>) -> (r: Result<()>)
        requires
            self@.wf(),
            addresses@.len() == self@.buffers.len(),
        ensures
            encoded(self@.entry(addresses@), r, final(out)@),
    {
        let mut refs: Vec<u8> = Vec::new();
        let mut i: usize = 0;
        while i < self.buffers.len()
            invariant
                0 <= i <= self.buffers@.len(),
                addresses@.len() == self.buffers@.len(),
                refs@ == reference_bytes(self@.buffers, addresses@, i as nat),
            decreases self.buffers@.len() - i,
        {
            append(&mut refs, u64_bytes(addresses[i]).as_slice());
            append(&mut refs, u64_bytes(self.buffers[i].len() as u64).as_slice());
            i = i + 1;
        }
        proof {
            lemma_reference_len(self@.buffers, addresses@, i as nat);
        }
        let buffers = match Buffers::from_bytes(refs.as_slice()) {
            Ok(buffers) => buffers,
            Err(_) => Buffers::empty(),
        };
        let batch = abi::Batch { rows: self.rows, flags: 0, nodes: self.nodes(), buffers };
        let ghost e = self@.entry(addresses@);
        assert(batch@.fields() == e.fields);
        let r = encode_into(
            out,
            |w: &mut Writer<'_>| -> (b: abi::Result<()>)
                requires
                    w.wf(),
                ensures
                    (Wrote { out: b, to: final(w)@ }) == old(w)@.record(
                        Tag(Tag::BATCH),
                        1,
                        batch@.fields(),
                    ),
                    final(w).wf()
                {
                    batch.encode(w)
                },
        );
        proof {
            lemma_encoded(e);
        }
        r
    }
}

/// What a record that is too large is refused with.
pub open spec fn too_large() -> RefusalView {
    RefusalView::plain(
        RefusalReason::RESOURCE_LIMIT,
        "the decoder's answer is larger than a single record is allowed to be"@,
    )
}

/// Whether a record can be described and is small enough to be sent.
pub open spec fn sendable(e: Entry) -> bool {
    e.writable() && e.frame().len() <= RECORD_LIMIT
}

/// What a record that cannot be sent is refused with: a length that cannot be described if one is come
/// to before the limit, and its size otherwise.
pub open spec fn unsendable(e: Entry) -> RefusalView {
    if undescribed(e.fields, 8, RECORD_LIMIT - 8) {
        refusal_for(abi::Error::LengthOverflow)
    } else {
        too_large()
    }
}

/// Whether encoding a record came out right: its bytes if it can be sent, and otherwise nothing and a
/// refusal that says which limit it ran into.
pub open spec fn encoded(e: Entry, r: Result<()>, out: Seq<u8>) -> bool {
    if sendable(e) {
        r is Ok && out == e.frame()
    } else {
        &&& r is Err
        &&& out == Seq::<u8>::empty()
        &&& r->Err_0@ == unsendable(e)
    }
}

/// A buffer to try a record in.
pub open spec fn fresh(o: Output) -> bool {
    o.at == 0 && o.wf() && o.bytes.len() <= RECORD_LIMIT
}

/// What stops a record in a buffer: a length that cannot be described, or the end of the buffer.
pub open spec fn stopped(e: Entry, o: Output, err: abi::Error) -> bool {
    &&& !sendable(e) || err is BufferFull && e.frame().len() > o.bytes.len()
    &&& err == abi::Error::LengthOverflow || err is BufferFull
    &&& err == abi::Error::LengthOverflow ==> unsendable(e) == refusal_for(err)
    &&& err is BufferFull && o.bytes.len() == RECORD_LIMIT ==> unsendable(e) == too_large()
}

/// What writing one record into a fresh buffer comes to.
pub proof fn lemma_encoded(e: Entry)
    ensures
        forall|o: Output|
            #![trigger o.record(Tag(e.tag), 1, e.fields)]
            fresh(o) ==> {
                let w = o.record(Tag(e.tag), 1, e.fields);
                &&& w.out is Ok ==> sendable(e) && w.to.written() == e.frame()
                &&& w.out is Err ==> stopped(e, o, w.out->Err_0)
            },
{
    assert forall|o: Output|
        #![trigger o.record(Tag(e.tag), 1, e.fields)]
        fresh(o) implies {
        let w = o.record(Tag(e.tag), 1, e.fields);
        &&& w.out is Ok ==> sendable(e) && w.to.written() == e.frame()
        &&& w.out is Err ==> stopped(e, o, w.out->Err_0)
    } by {
        lemma_record_run(o, e);
        lemma_record_undescribed(o, e);
        assert(o.written() + e.frame() =~= e.frame());
        let w = o.record(Tag(e.tag), 1, e.fields);
        if w.out is Ok {
            lemma_record_keeps_size(o, e);
        } else if w.out->Err_0 == abi::Error::LengthOverflow {
            let i = choose|i: int|
                {
                    &&& 0 <= i < e.fields.len()
                    &&& !(#[trigger] e.fields[i]).describable()
                    &&& all_describable(e.fields.take(i))
                    &&& flat(e.fields.take(i), 8).len() <= o.bytes.len() - 8
                };
            assert(!e.fields[i].describable());
        }
    }
}

/// Writes a record into a growable buffer, doubling until it fits.
///
/// Whatever the buffer held is gone. On an error it is empty.
pub(crate) fn encode_into<F: Fn(&mut Writer<'_>) -> abi::Result<()>>(
    out: &mut Vec<u8>,
    body: F,
) -> (r: Result<()>)
    requires
        forall|w: &mut Writer<'_>| w.wf() ==> call_requires(body, (w,)),
        forall|w: &mut Writer<'_>, b: abi::Result<()>|
            w.wf() && #[trigger] call_ensures(body, (w,), b) ==> final(w).wf(),
    ensures
        r is Ok ==> exists|w: &mut Writer<'_>, b: abi::Result<()>|
            {
                &&& fresh(w@)
                &&& #[trigger] call_ensures(body, (w,), b)
                &&& b is Ok
                &&& final(out)@ == final(w)@.written()
            },
        r is Err ==> final(out)@ == Seq::<u8>::empty() && exists|
            w: &mut Writer<'_>,
            e: abi::Error,
        |
            {
                &&& fresh(w@)
                &&& #[trigger] call_ensures(body, (w,), Err(e))
                &&& e is BufferFull ==> w@.bytes.len() == RECORD_LIMIT && r->Err_0@ == too_large()
                &&& !(e is BufferFull) ==> r->Err_0@ == refusal_for(e)
            },
{
    let mut room: usize = 256;
    loop
        invariant
            256 <= room <= RECORD_LIMIT,
            forall|w: &mut Writer<'_>| w.wf() ==> call_requires(body, (w,)),
            forall|w: &mut Writer<'_>, b: abi::Result<()>|
                w.wf() && #[trigger] call_ensures(body, (w,), b) ==> final(w).wf(),
        decreases RECORD_LIMIT - room,
    {
        let mut buf: Vec<u8> = vec![0u8; room];
        let mut w = Writer::new(buf.as_mut_slice());
        let done = body(&mut w);
        match done {
            Ok(()) => {
                *out = copied(w.written());
                return Ok(());
            },
            Err(abi::Error::BufferFull { needed, available }) => {
                if room >= RECORD_LIMIT {
                    out.clear();
                    assert(out@ =~= Seq::<u8>::empty());
                    return Err(
                        Error::resource_limit(
                            "the decoder's answer is larger than a single record is allowed to be",
                        ),
                    );
                }
                room = if room > RECORD_LIMIT / 2 {
                    RECORD_LIMIT
                } else {
                    2 * room
                };
            },
            Err(err) => {
                out.clear();
                assert(out@ =~= Seq::<u8>::empty());
                return Err(Error::from_abi(err));
            },
        }
    }
}

} // verus!
