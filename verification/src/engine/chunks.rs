//! Handing batches over a chunk at a time.
//!
//! A chunk holds a fixed number of rows and a batch is whatever the decoder produced, so a batch is
//! handed over a slice at a time.
use vstd::prelude::*;
use vstd::string::*;

use crate::text::{decimal, decimal_text};

verus! {

/// What a chunk holds if the engine is not able to say.
pub const STANDARD_VECTOR_SIZE: usize = 2048;

/// A slice of a batch.
#[derive(Clone, Copy, PartialEq, Eq, Debug, Structural)]
pub struct Chunk {
    /// Which batch, counting from the first.
    pub batch: usize,
    /// The first row of it.
    pub offset: usize,
    /// How many rows.
    pub rows: usize,
}

/// The result of a scan, being handed out a chunk at a time.
#[derive(Debug)]
pub struct Chunks {
    rows: Vec<usize>,
    batch: usize,
    offset: usize,
}

/// What a [`Chunks`] holds.
pub ghost struct ChunksView {
    /// How many rows each batch has.
    pub rows: Seq<usize>,
    /// The batch that is being handed out.
    pub batch: int,
    /// How far into it the last chunk got.
    pub offset: int,
}

impl View for Chunks {
    type V = ChunksView;

    closed spec fn view(&self) -> ChunksView {
        ChunksView {
            rows: self.rows@,
            batch: self.batch as int,
            offset: self.offset as int,
        }
    }
}

/// How many rows the first `n` batches have.
pub open spec fn rows_before(rows: Seq<usize>, n: int) -> int
    decreases n,
{
    if n <= 0 {
        0
    } else {
        rows_before(rows, n - 1) + rows[n - 1]
    }
}

impl ChunksView {
    /// Whether the position is inside the batches.
    pub open spec fn wf(self) -> bool {
        &&& 0 <= self.batch <= self.rows.len()
        &&& self.batch < self.rows.len() ==> 0 <= self.offset <= self.rows[self.batch]
        &&& self.batch == self.rows.len() ==> self.offset == 0
    }

    /// How many rows have been handed out.
    pub open spec fn handed(self) -> int {
        rows_before(self.rows, self.batch) + self.offset
    }

    /// How many rows there are.
    pub open spec fn total(self) -> int {
        rows_before(self.rows, self.rows.len() as int)
    }

    /// The first batch at or behind the position that has a row left, and how far into it.
    pub open spec fn ready(self) -> (int, int)
        decreases self.rows.len() - self.batch,
    {
        if self.batch >= self.rows.len() || self.offset < self.rows[self.batch] {
            (self.batch, self.offset)
        } else {
            (ChunksView { batch: self.batch + 1, offset: 0, ..self }).ready()
        }
    }
}

/// Skipping batches that are used up hands nothing out.
proof fn lemma_ready_hands_nothing_out(c: ChunksView)
    requires
        c.wf(),
    ensures
        ({
            let (batch, offset) = c.ready();
            let d = ChunksView { batch, offset, ..c };
            &&& d.wf()
            &&& d.handed() == c.handed()
            &&& batch < c.rows.len() ==> offset < c.rows[batch]
        }),
    decreases c.rows.len() - c.batch,
{
    if c.batch < c.rows.len() && c.offset >= c.rows[c.batch] {
        let next = ChunksView { batch: c.batch + 1, offset: 0, ..c };
        assert(rows_before(c.rows, c.batch + 1) == rows_before(c.rows, c.batch)
            + c.rows[c.batch]);
        lemma_ready_hands_nothing_out(next);
    }
}

/// Rows before a batch are no more than all of them.
proof fn lemma_rows_before(rows: Seq<usize>, k: int)
    requires
        0 <= k <= rows.len(),
    ensures
        0 <= rows_before(rows, k) <= rows_before(rows, rows.len() as int),
    decreases rows.len() - k,
{
    lemma_rows_before_positive(rows, k);
    if k < rows.len() {
        lemma_rows_before(rows, k + 1);
        assert(rows_before(rows, k + 1) == rows_before(rows, k) + rows[k]);
    }
}

/// A count of rows is not negative.
proof fn lemma_rows_before_positive(rows: Seq<usize>, k: int)
    requires
        k <= rows.len(),
    ensures
        rows_before(rows, k) >= 0,
    decreases k,
{
    if k > 0 {
        lemma_rows_before_positive(rows, k - 1);
    }
}

impl Chunks {
    /// Nothing handed out yet of batches with these many rows.
    pub fn new(rows: Vec<usize>) -> (r: Self)
        ensures
            r@ == (ChunksView { rows: rows@, batch: 0, offset: 0 }),
            r@.wf(),
            r@.handed() == 0,
    {
        Chunks { rows, batch: 0, offset: 0 }
    }

    /// The next chunk of at most `limit` rows, or nothing once every row has been handed out.
    pub fn next(&mut self, limit: usize) -> (r: Option<Chunk>)
        requires
            old(self)@.wf(),
        ensures
            final(self)@.wf(),
            final(self)@.rows == old(self)@.rows,
            ({
                let (batch, offset) = old(self)@.ready();
                if batch >= old(self)@.rows.len() {
                    r is None && final(self)@.batch == batch
                } else {
                    let left = old(self)@.rows[batch] - offset;
                    &&& r is Some
                    &&& r->Some_0.batch == batch
                    &&& r->Some_0.offset == offset
                    &&& r->Some_0.rows == if left < limit {
                        left
                    } else {
                        limit as int
                    }
                    &&& final(self)@.batch == batch
                    &&& final(self)@.offset == offset + r->Some_0.rows
                }
            }),
            final(self)@.handed() == old(self)@.handed() + match r {
                Some(c) => c.rows as int,
                None => 0,
            },
            r is None ==> old(self)@.handed() == old(self)@.total(),
    {
        proof {
            lemma_ready_hands_nothing_out(self@);
        }
        while self.batch < self.rows.len() && self.offset >= self.rows[self.batch]
            invariant
                self@.wf(),
                self@.rows == old(self)@.rows,
                self@.ready() == old(self)@.ready(),
            decreases self@.rows.len() - self@.batch,
        {
            self.batch = self.batch + 1;
            self.offset = 0;
        }
        if self.batch >= self.rows.len() {
            return None;
        }
        let left: usize = self.rows[self.batch] - self.offset;
        let take: usize = if left < limit {
            left
        } else {
            limit
        };
        let chunk = Chunk { batch: self.batch, offset: self.offset, rows: take };
        self.offset = self.offset + take;
        Some(chunk)
    }
}

/// As long as chunks have room and rows are left, the next chunk has rows, so handing out ends.
pub proof fn lemma_chunks_end(c: ChunksView, limit: usize)
    requires
        c.wf(),
        limit > 0,
        c.handed() < c.total(),
    ensures
        c.ready().0 < c.rows.len(),
        c.ready().1 < c.rows[c.ready().0],
{
    lemma_ready_hands_nothing_out(c);
    let (batch, offset) = c.ready();
    if batch >= c.rows.len() {
        assert(batch == c.rows.len());
    }
}

/// Whether a query only counts rows.
pub fn counts(columns: &[u32], width: usize) -> (r: bool)
    ensures
        r == (columns@.len() == 0 && width > 0),
{
    columns.len() == 0 && width > 0
}

/// The columns a query reads.
///
/// A query that wants no columns still wants a count, so one column is read to find out how many rows
/// there are. Asking for no columns would be asking for all of them.
pub open spec fn columns_wanted(columns: Seq<u32>, width: usize) -> Seq<u32> {
    if columns.len() == 0 && width > 0 {
        seq![0u32]
    } else {
        columns
    }
}

/// What a query that asks for a column that is not there is refused with.
pub open spec fn no_column(column: u32, width: usize) -> Seq<char> {
    "this query asked for column "@ + decimal_text(column as nat)
        + " of a container that has "@ + decimal_text(width as nat) + " of them"@
}

/// The columns a query reads, or why one of them cannot be read.
pub fn wanted(columns: &[u32], width: usize) -> (r: core::result::Result<Vec<u32>, String>)
    ensures
        r is Ok ==> r->Ok_0@ == columns_wanted(columns@, width) && forall|i: int|
            0 <= i < r->Ok_0@.len() ==> #[trigger] r->Ok_0@[i] < width,
        r is Err ==> exists|i: int|
            {
                &&& 0 <= i < columns_wanted(columns@, width).len()
                &&& #[trigger] columns_wanted(columns@, width)[i] >= width
                &&& forall|j: int|
                    0 <= j < i ==> #[trigger] columns_wanted(columns@, width)[j] < width
                &&& r->Err_0@ == no_column(columns_wanted(columns@, width)[i], width)
            },
{
    let mut out: Vec<u32> = Vec::new();
    if counts(columns, width) {
        out.push(0);
        assert(out@ =~= seq![0u32]);
        return Ok(out);
    }
    let mut i: usize = 0;
    while i < columns.len()
        invariant
            0 <= i <= columns@.len(),
            columns_wanted(columns@, width) == columns@,
            out@ == columns@.take(i as int),
            forall|j: int| 0 <= j < i ==> #[trigger] columns@[j] < width,
        decreases columns@.len() - i,
    {
        let column: u32 = columns[i];
        if column as usize >= width {
            let mut s = "this query asked for column ".to_owned();
            s.append(decimal(column as u64).as_str());
            s.append(" of a container that has ");
            s.append(decimal(width as u64).as_str());
            s.append(" of them");
            assert(columns@[i as int] >= width);
            return Err(s);
        }
        out.push(column);
        i = i + 1;
        assert(out@ =~= columns@.take(i as int));
    }
    assert(out@ =~= columns@);
    Ok(out)
}

} // verus!
