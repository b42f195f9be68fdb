//! Driving a decoder without a host.
use vstd::prelude::*;

use crate::abi::message::{nodes_of, Node};
use crate::bytes::copied;
use crate::decoder::batch::{encoded, held, Batch, Contents};
use crate::decoder::error::Result;
use crate::decoder::source::Sink;

verus! {

/// One batch, copied out, because a decoder may reuse its memory once a batch has been handed over.
#[derive(Clone, PartialEq, Eq, Debug)]
pub struct Recorded {
    /// How many rows the batch had.
    pub rows: u64,
    /// One entry per array, in schema pre-order.
    pub nodes: Vec<Node>,
    /// One entry per buffer, in schema pre-order.
    pub buffers: Vec<Vec<u8>>,
}

/// What a [`Recorded`] holds.
pub ghost struct RecordedView {
    /// How many rows.
    pub rows: u64,
    /// The arrays.
    pub nodes: Seq<Node>,
    /// The buffers.
    pub buffers: Seq<Seq<u8>>,
}

impl View for Recorded {
    type V = RecordedView;

    open spec fn view(&self) -> RecordedView {
        RecordedView { rows: self.rows, nodes: self.nodes@, buffers: held(self.buffers@) }
    }
}

/// What a batch leaves behind.
pub open spec fn recorded(batch: Contents) -> RecordedView {
    RecordedView { rows: batch.rows, nodes: nodes_of(batch.nodes), buffers: batch.buffers }
}

/// A sink that keeps everything it is given.
#[derive(Clone, PartialEq, Eq, Debug)]
pub struct Collect {
    batches: Vec<Recorded>,
}

/// Batches, taken for what they hold.
pub open spec fn all_held(batches: Seq<Recorded>) -> Seq<RecordedView> {
    Seq::new(batches.len(), |i: int| batches[i]@)
}

/// How many rows some batches have in total.
pub open spec fn total_rows(batches: Seq<RecordedView>) -> nat
    decreases batches.len(),
{
    if batches.len() == 0 {
        0
    } else {
        total_rows(batches.drop_last()) + batches.last().rows as nat
    }
}

impl View for Collect {
    type V = Seq<RecordedView>;

    closed spec fn view(&self) -> Seq<RecordedView> {
        all_held(self.batches@)
    }
}

impl Default for Collect {
    /// A sink with nothing in it yet.
    fn default() -> (r: Self)
        ensures
            r@ == Seq::<RecordedView>::empty(),
    {
        Collect::new()
    }
}

/// The rows of the first batches are no more than those of all of them.
proof fn lemma_rows_grow(batches: Seq<RecordedView>, k: int)
    requires
        0 <= k <= batches.len(),
    ensures
        total_rows(batches.take(k)) <= total_rows(batches),
    decreases batches.len(),
{
    if k < batches.len() {
        lemma_rows_grow(batches.drop_last(), k);
        assert(batches.drop_last().take(k) =~= batches.take(k));
    } else {
        assert(batches.take(k) =~= batches);
    }
}

impl Collect {
    /// A sink with nothing in it yet.
    #[must_use]
    pub fn new() -> (r: Self)
        ensures
            r@ == Seq::<RecordedView>::empty(),
    {
        let r = Collect { batches: Vec::new() };
        assert(r@ =~= Seq::<RecordedView>::empty());
        r
    }

    /// Everything the decoder emitted, in order.
    #[must_use]
    pub fn batches(&self) -> (r: &[Recorded])
        ensures
            all_held(r@) == self@,
    {
        self.batches.as_slice()
    }

    /// How many rows arrived in total.
    #[must_use]
    pub fn rows(&self) -> (r: u64)
        requires
            total_rows(self@) <= u64::MAX,
        ensures
            r == total_rows(self@),
    {
        let mut sum: u64 = 0;
        let mut i: usize = 0;
        while i < self.batches.len()
            invariant
                0 <= i <= self.batches@.len(),
                sum == total_rows(self@.take(i as int)),
                total_rows(self@) <= u64::MAX,
            decreases self.batches@.len() - i,
        {
            proof {
                lemma_rows_grow(self@, i + 1);
                assert(self@.take(i + 1).drop_last() =~= self@.take(i as int));
                assert(self@.take(i + 1).last() == self.batches@[i as int]@);
            }
            sum = sum + self.batches[i].rows;
            i = i + 1;
        }
        assert(self@.take(i as int) =~= self@);
        sum
    }
}

impl Sink for Collect {
    /// Keeps one batch.
    ///
    /// Its record is built and thrown away, because a batch that cannot be described in a record is
    /// one a host would never see.
    fn emit(&mut self, batch: &Batch) -> (r: Result<()>)
        ensures
            r is Ok ==> final(self)@ == old(self)@.push(recorded(batch@)),
            r is Err ==> final(self)@ == old(self)@,
            exists|addresses: Seq<u64>, record: Seq<u8>|
                addresses.len() == batch@.buffers.len() && #[trigger] encoded(
                    batch@.entry(addresses),
                    r,
                    record,
                ),
    {
        let mut scratch: Vec<u8> = Vec::new();
        batch.record(&mut scratch)?;
        let views = batch.buffers();
        let mut buffers: Vec<Vec<u8>> = Vec::new();
        let mut i: usize = 0;
        while i < views.len()
            invariant
                0 <= i <= views@.len(),
                views@.len() == batch@.buffers.len(),
                forall|j: int| 0 <= j < views@.len() ==> (#[trigger] views@[j])@ == batch@.buffers[j],
                held(buffers@) == batch@.buffers.take(i as int),
            decreases views@.len() - i,
        {
            let ghost before = buffers@;
            let one = copied(views[i]);
            let ghost o = one@;
            buffers.push(one);
            i = i + 1;
            assert(held(buffers@) =~= held(before).push(o));
            assert(held(buffers@) =~= batch@.buffers.take(i as int));
        }
        assert(batch@.buffers.take(i as int) =~= batch@.buffers);
        let one = Recorded { rows: batch.rows(), nodes: batch.nodes().iter(), buffers };
        let ghost o = one@;
        self.batches.push(one);
        assert(self@ =~= old(self)@.push(o));
        Ok(())
    }
}

} // verus!
