//! A dataset registered as a table, and how a query on it becomes a plan.
//!
//! A query becomes one plan node that holds a range of rows per partition. Each partition reads its own
//! rows and shares nothing with the others.
use vstd::arithmetic::div_mod::lemma_fundamental_div_mod;
use vstd::prelude::*;
use vstd::string::*;

use crate::abi::caps::{Capability, CapabilitySet};
use crate::format::digest::Digest;
use crate::text::{decimal, decimal_text, put};

verus! {

/// The fewest rows worth giving a partition of its own.
///
/// Each partition opens the container, and opening compiles the decoder, so splitting is not free.
pub const ROWS_PER_PARTITION: u64 = 8192;

/// What went wrong between a query and a table.
#[derive(Clone, Copy, PartialEq, Eq, Debug, Structural)]
pub enum Error {
    /// A query asked for a column the table does not have.
    Projection {
        /// The index that was asked for.
        column: usize,
        /// How many columns the table has.
        columns: usize,
    },
}

/// The sentence an error prints as.
pub open spec fn error_text(e: Error) -> Seq<char> {
    match e {
        Error::Projection { column, columns } => "column "@ + decimal_text(column as nat)
            + " was asked for and this table has "@ + decimal_text(columns as nat),
    }
}

impl Error {
    /// The sentence this error prints as.
    pub fn text(&self) -> (r: String)
        ensures
            r@ == error_text(*self),
    {
        match self {
            Error::Projection { column, columns } => {
                let mut s = "column ".to_owned();
                s.append(decimal(*column as u64).as_str());
                s.append(" was asked for and this table has ");
                s.append(decimal(*columns as u64).as_str());
                s
            },
        }
    }
}

/// Where the columns a query asked for get cut out of the rows.
#[derive(Clone, PartialEq, Eq, Debug)]
pub enum Pushdown {
    /// The query wanted every column, so there was nothing to push.
    Everything,
    /// The decoder agreed to projection and was told which columns to read.
    Decoder(Vec<u32>),
    /// The decoder does not do projection, so every column is read and these are taken afterwards.
    Host(Vec<usize>),
}

/// What a [`Pushdown`] holds.
pub ghost enum PushdownView {
    /// See [`Pushdown::Everything`].
    Everything,
    /// See [`Pushdown::Decoder`].
    Decoder(Seq<u32>),
    /// See [`Pushdown::Host`].
    Host(Seq<usize>),
}

impl View for Pushdown {
    type V = PushdownView;

    open spec fn view(&self) -> PushdownView {
        match *self {
            Pushdown::Everything => PushdownView::Everything,
            Pushdown::Decoder(columns) => PushdownView::Decoder(columns@),
            Pushdown::Host(columns) => PushdownView::Host(columns@),
        }
    }
}

/// Items in brackets.
pub open spec fn list_text(items: Seq<Seq<char>>) -> Seq<char> {
    "["@ + items_text(items) + "]"@
}

/// Items with commas between them.
pub open spec fn items_text(items: Seq<Seq<char>>) -> Seq<char>
    decreases items.len(),
{
    if items.len() == 0 {
        Seq::empty()
    } else if items.len() == 1 {
        items[0]
    } else {
        items_text(items.drop_last()) + ", "@ + items.last()
    }
}

/// What a pushdown prints as in a plan.
pub open spec fn pushdown_text(p: PushdownView) -> Seq<char> {
    match p {
        PushdownView::Everything => "Everything"@,
        PushdownView::Decoder(c) => "Decoder("@ + list_text(
            Seq::new(c.len(), |i: int| decimal_text(c[i] as nat)),
        ) + ")"@,
        PushdownView::Host(c) => "Host("@ + list_text(
            Seq::new(c.len(), |i: int| decimal_text(c[i] as nat)),
        ) + ")"@,
    }
}

/// What a range of rows prints as: where it starts and how many there are.
pub open spec fn range_text(range: (u64, u64)) -> Seq<char> {
    "("@ + decimal_text(range.0 as nat) + ", "@ + decimal_text(range.1 as nat) + ")"@
}

/// What can stand in a list.
trait Item {
    /// What it prints as.
    spec fn printed(self) -> Seq<char>;

    /// Appends what it prints as.
    fn append_to(&self, out: &mut String)
        ensures
            final(out)@ == old(out)@ + self.printed(),
    ;
}

impl Item for u32 {
    spec fn printed(self) -> Seq<char> {
        decimal_text(self as nat)
    }

    fn append_to(&self, out: &mut String) {
        out.append(decimal(*self as u64).as_str());
    }
}

impl Item for usize {
    spec fn printed(self) -> Seq<char> {
        decimal_text(self as nat)
    }

    fn append_to(&self, out: &mut String) {
        out.append(decimal(*self as u64).as_str());
    }
}

impl Item for (u64, u64) {
    spec fn printed(self) -> Seq<char> {
        range_text(self)
    }

    fn append_to(&self, out: &mut String) {
        out.append("(");
        out.append(decimal(self.0).as_str());
        out.append(", ");
        out.append(decimal(self.1).as_str());
        out.append(")");
        assert(out@ =~= old(out)@ + range_text(*self));
    }
}

/// Appends items as a bracketed list.
fn append_list<I: Item>(out: &mut String, items: &Vec<I>)
    ensures
        final(out)@ == old(out)@ + list_text(
            Seq::new(items@.len(), |i: int| items@[i].printed()),
        ),
{
    let ghost all = Seq::new(items@.len(), |i: int| items@[i].printed());
    out.append("[");
    let ghost start = out@;
    let mut i: usize = 0;
    assert(out@ =~= start + items_text(all.take(0)));
    while i < items.len()
        invariant
            0 <= i <= items@.len(),
            all == Seq::new(items@.len(), |i: int| items@[i].printed()),
            out@ == start + items_text(all.take(i as int)),
        decreases items@.len() - i,
    {
        if i > 0 {
            out.append(", ");
        }
        items[i].append_to(out);
        i = i + 1;
        proof {
            let s = all.take(i as int);
            assert(s.drop_last() =~= all.take(i - 1));
            assert(s.last() == items@[i - 1].printed());
            assert(out@ =~= start + items_text(s));
        }
    }
    out.append("]");
    proof {
        assert(all.take(i as int) =~= all);
        assert(out@ =~= old(out)@ + list_text(all));
    }
}

impl Pushdown {
    /// What the decoder is told to read. Empty means every column.
    #[must_use]
    pub fn told(&self) -> (r: &[u32])
        ensures
            r@ == (match self@ {
                PushdownView::Decoder(columns) => columns,
                _ => Seq::<u32>::empty(),
            }),
    {
        match self {
            Pushdown::Decoder(columns) => columns.as_slice(),
            Pushdown::Everything | Pushdown::Host(_) => {
                let none: &[u32] = &[];
                assert(none@ =~= Seq::<u32>::empty());
                none
            },
        }
    }

    /// The columns to take out of a batch once it has been read, if any.
    #[must_use]
    pub fn taken(&self) -> (r: Option<&[usize]>)
        ensures
            match self@ {
                PushdownView::Host(columns) => r is Some && r->Some_0@ == columns,
                _ => r is None,
            },
    {
        match self {
            Pushdown::Host(columns) => Some(columns.as_slice()),
            Pushdown::Everything | Pushdown::Decoder(_) => None,
        }
    }

    /// What this pushdown prints as in a plan.
    pub fn text(&self) -> (r: String)
        ensures
            r@ == pushdown_text(self@),
    {
        match self {
            Pushdown::Everything => "Everything".to_owned(),
            Pushdown::Decoder(columns) => {
                let mut s = "Decoder(".to_owned();
                append_list(&mut s, columns);
                s.append(")");
                proof {
                    assert(Seq::new(columns@.len(), |i: int| columns@[i].printed()) =~= Seq::new(
                        columns@.len(),
                        |i: int| decimal_text(columns@[i] as nat),
                    ));
                }
                s
            },
            Pushdown::Host(columns) => {
                let mut s = "Host(".to_owned();
                append_list(&mut s, columns);
                s.append(")");
                proof {
                    assert(Seq::new(columns@.len(), |i: int| columns@[i].printed()) =~= Seq::new(
                        columns@.len(),
                        |i: int| decimal_text(columns@[i] as nat),
                    ));
                }
                s
            },
        }
    }
}

/// How many pieces rows are cut into.
pub open spec fn pieces(rows: u64, wanted: usize) -> nat {
    let most = if wanted == 0 {
        1
    } else {
        wanted as nat
    };
    let worth = ((rows + ROWS_PER_PARTITION - 1) / ROWS_PER_PARTITION as int) as nat;
    if worth == 0 {
        1
    } else if worth < most {
        worth
    } else {
        most
    }
}

/// Where a piece starts: the pieces before it, of which the first ones hold one row more.
pub open spec fn piece_start(rows: nat, n: nat, i: int) -> int {
    i * (rows / n) + if i < rows % n {
        i
    } else {
        (rows % n) as int
    }
}

/// How many rows a piece holds.
pub open spec fn piece_len(rows: nat, n: nat, i: int) -> int {
    rows / n + if i < rows % n {
        1int
    } else {
        0int
    }
}

/// The pieces lie end to end, the first starts at the first row and the last ends at the last, so they
/// cover every row once; and no two differ by more than one row.
pub proof fn lemma_pieces_cover_the_rows(rows: nat, n: nat, i: int)
    requires
        n > 0,
        0 <= i < n,
    ensures
        piece_start(rows, n, 0) == 0,
        piece_start(rows, n, i + 1) == piece_start(rows, n, i) + piece_len(rows, n, i),
        piece_start(rows, n, n as int) == rows,
        0 <= piece_start(rows, n, i + 1) <= rows,
        rows / n <= piece_len(rows, n, i) <= rows / n + 1,
{
    let q = (rows / n) as int;
    let o = (rows % n) as int;
    lemma_fundamental_div_mod(rows as int, n as int);
    assert(n * q == q * n) by (nonlinear_arith);
    assert((i + 1) * q == i * q + q) by (nonlinear_arith);
    assert(0 * q == 0) by (nonlinear_arith);
    assert(0 <= (i + 1) * q <= n * q) by (nonlinear_arith)
        requires
            0 <= i < n,
            q >= 0,
    ;
}

/// Cuts `rows` into at most `wanted` contiguous pieces, as evenly as they divide.
///
/// Always at least one piece, because an engine cannot execute a plan with none. The remainder goes to
/// the first pieces one row at a time.
pub fn split(rows: u64, wanted: usize) -> (r: Vec<(u64, u64)>)
    ensures
        r@.len() == pieces(rows, wanted),
        r@.len() > 0,
        forall|i: int|
            0 <= i < r@.len() ==> (#[trigger] r@[i]).0 == piece_start(
                rows as nat,
                r@.len(),
                i,
            ) && r@[i].1 == piece_len(rows as nat, r@.len(), i),
{
    let most: usize = if wanted == 0 {
        1
    } else {
        wanted
    };
    let worth: u64 = if rows % ROWS_PER_PARTITION == 0 {
        rows / ROWS_PER_PARTITION
    } else {
        rows / ROWS_PER_PARTITION + 1
    };
    let parts: usize = if worth == 0 {
        1
    } else if worth < most as u64 {
        worth as usize
    } else {
        most
    };
    let n: u64 = parts as u64;
    let each: u64 = rows / n;
    let over: u64 = rows % n;
    let mut out: Vec<(u64, u64)> = Vec::new();
    let mut at: u64 = 0;
    let mut part: usize = 0;
    proof {
        lemma_pieces_cover_the_rows(rows as nat, n as nat, 0);
    }
    while part < parts
        invariant
            0 <= part <= parts,
            parts > 0,
            n == parts,
            each == rows as nat / n as nat,
            over == rows as nat % n as nat,
            at == piece_start(rows as nat, n as nat, part as int),
            out@.len() == part,
            forall|i: int|
                0 <= i < part ==> (#[trigger] out@[i]).0 == piece_start(
                    rows as nat,
                    n as nat,
                    i,
                ) && out@[i].1 == piece_len(rows as nat, n as nat, i),
        decreases parts - part,
    {
        proof {
            lemma_pieces_cover_the_rows(rows as nat, n as nat, part as int);
        }
        let count: u64 = if (part as u64) < over {
            each + 1
        } else {
            each
        };
        out.push((at, count));
        at = at + count;
        part = part + 1;
    }
    out
}

/// The first index that is not a column, if there is one.
pub open spec fn bad_column(indices: Seq<usize>, columns: usize, n: nat) -> Option<usize>
    decreases n,
{
    if n == 0 {
        None
    } else {
        match bad_column(indices, columns, (n - 1) as nat) {
            Some(c) => Some(c),
            None => if indices[n - 1] >= columns || indices[n - 1] > u32::MAX {
                Some(indices[n - 1])
            } else {
                None
            },
        }
    }
}

/// A bad index early on is the first one of the whole list.
proof fn lemma_bad_column_stays(indices: Seq<usize>, columns: usize, k: nat, n: nat)
    requires
        k <= n,
        bad_column(indices, columns, k) is Some,
    ensures
        bad_column(indices, columns, n) == bad_column(indices, columns, k),
    decreases n,
{
    if k < n {
        lemma_bad_column_stays(indices, columns, k, (n - 1) as nat);
    }
}

/// A dataset registered as a table: what a planner asks of it.
#[derive(Debug)]
pub struct IrisTable {
    columns: usize,
    rows: u64,
    name: String,
    digest: Digest,
    pushes_projection: bool,
}

/// What an [`IrisTable`] holds.
pub ghost struct TableView {
    /// How many columns it has.
    pub columns: usize,
    /// How many rows it has.
    pub rows: u64,
    /// What the container calls itself.
    pub name: Seq<char>,
    /// The identity of the decoder.
    pub digest: Seq<u8>,
    /// Whether a projection reaches the decoder.
    pub pushes_projection: bool,
}

impl View for IrisTable {
    type V = TableView;

    closed spec fn view(&self) -> TableView {
        TableView {
            columns: self.columns,
            rows: self.rows,
            name: self.name@,
            digest: self.digest@,
            pushes_projection: self.pushes_projection,
        }
    }
}

/// How a projection is applied to a table.
pub open spec fn pushed(t: TableView, projection: Option<Seq<usize>>) -> core::result::Result<
    PushdownView,
    Error,
> {
    match projection {
        None => Ok(PushdownView::Everything),
        Some(indices) => match bad_column(indices, t.columns, indices.len()) {
            Some(column) => Err(Error::Projection { column, columns: t.columns }),
            None => if t.pushes_projection {
                Ok(
                    PushdownView::Decoder(
                        Seq::new(indices.len(), |i: int| indices[i] as u32),
                    ),
                )
            } else {
                Ok(PushdownView::Host(indices))
            },
        },
    }
}

impl IrisTable {
    /// A table over what was learned by opening the container once.
    ///
    /// Whether a projection can be pushed is a property of the decoder and of what was agreed, and
    /// neither changes between two queries.
    pub fn over(
        columns: usize,
        rows: u64,
        name: String,
        digest: Digest,
        agreed: CapabilitySet,
    ) -> (r: Self)
        ensures
            r@ == (TableView {
                columns,
                rows,
                name: name@,
                digest: digest@,
                pushes_projection: agreed@.has(Capability(Capability::PROJECTION)),
            }),
    {
        IrisTable {
            columns,
            rows,
            name,
            digest,
            pushes_projection: agreed.contains(Capability(Capability::PROJECTION)),
        }
    }

    /// How many rows the container says it has.
    #[must_use]
    pub fn rows(&self) -> (r: u64)
        ensures
            r == self@.rows,
    {
        self.rows
    }

    /// What the container calls itself, which is not what it was registered as.
    #[must_use]
    pub fn dataset_name(&self) -> (r: &str)
        ensures
            r@ == self@.name,
    {
        self.name.as_str()
    }

    /// The identity of the decoder that will run, which is the hash of its bytes.
    #[must_use]
    pub fn decoder_digest(&self) -> (r: Digest)
        ensures
            r@ == self@.digest,
    {
        self.digest
    }

    /// Whether a projection reaches the decoder or is applied to the batches it produced.
    #[must_use]
    pub fn pushes_projection(&self) -> (r: bool)
        ensures
            r == self@.pushes_projection,
    {
        self.pushes_projection
    }

    /// How the columns a query asked for get cut out, or which of them the table does not have.
    pub fn pushdown(&self, projection: Option<&Vec<usize>>) -> (r: core::result::Result<
        Pushdown,
        Error,
    >)
        ensures
            match pushed(
                self@,
                match projection {
                    Some(v) => Some(v@),
                    None => None,
                },
            ) {
                Ok(p) => r is Ok && r->Ok_0@ == p,
                Err(e) => r is Err && r->Err_0 == e,
            },
    {
        match projection {
            None => Ok(Pushdown::Everything),
            Some(indices) => {
                let columns: usize = self.columns;
                let mut named: Vec<u32> = Vec::new();
                let mut kept: Vec<usize> = Vec::new();
                let mut i: usize = 0;
                while i < indices.len()
                    invariant
                        0 <= i <= indices@.len(),
                        columns == self@.columns,
                        projection == Some(indices),
                        bad_column(indices@, columns, i as nat) is None,
                        named@ == Seq::new(i as nat, |j: int| indices@[j] as u32),
                        kept@ == indices@.take(i as int),
                    decreases indices@.len() - i,
                {
                    proof {
                        if bad_column(indices@, columns, (i + 1) as nat) is Some {
                            lemma_bad_column_stays(
                                indices@,
                                columns,
                                (i + 1) as nat,
                                indices@.len(),
                            );
                        }
                    }
                    let at: usize = indices[i];
                    if at >= columns || at > 0xFFFF_FFFF {
                        return Err(Error::Projection { column: at, columns });
                    }
                    named.push(at as u32);
                    kept.push(at);
                    i = i + 1;
                    assert(named@ =~= Seq::new(i as nat, |j: int| indices@[j] as u32));
                    assert(kept@ =~= indices@.take(i as int));
                }
                assert(kept@ =~= indices@);
                if self.pushes_projection {
                    Ok(Pushdown::Decoder(named))
                } else {
                    Ok(Pushdown::Host(kept))
                }
            },
        }
    }

    /// How many rows a query with a limit reads.
    ///
    /// A limit is a prefix of the table, so it is honoured by reading fewer rows.
    pub fn prefix(&self, limit: Option<usize>) -> (r: u64)
        ensures
            match limit {
                Some(limit) => r == if limit < self@.rows {
                    limit as u64
                } else {
                    self@.rows
                },
                None => r == self@.rows,
            },
    {
        match limit {
            Some(limit) => {
                if (limit as u64) < self.rows {
                    limit as u64
                } else {
                    self.rows
                }
            },
            None => self.rows,
        }
    }

    /// Plans a scan: which rows each partition reads, and where the projection happens.
    pub fn scan(
        &self,
        projection: Option<&Vec<usize>>,
        limit: Option<usize>,
        partitions: usize,
    ) -> (r: core::result::Result<IrisExec, Error>)
        ensures
            match pushed(
                self@,
                match projection {
                    Some(v) => Some(v@),
                    None => None,
                },
            ) {
                Err(e) => r is Err && r->Err_0 == e,
                Ok(p) => {
                    let rows = match limit {
                        Some(limit) => if limit < self@.rows {
                            limit as u64
                        } else {
                            self@.rows
                        },
                        None => self@.rows,
                    };
                    &&& r is Ok
                    &&& r->Ok_0@.pushdown == p
                    &&& r->Ok_0@.parts.len() == pieces(rows, partitions)
                    &&& forall|i: int|
                        0 <= i < r->Ok_0@.parts.len() ==> {
                            let n = r->Ok_0@.parts.len();
                            &&& (#[trigger] r->Ok_0@.parts[i]).0 == piece_start(rows as nat, n, i)
                            &&& r->Ok_0@.parts[i].1 == piece_len(rows as nat, n, i)
                        }
                },
            },
    {
        let pushdown = self.pushdown(projection)?;
        let rows: u64 = self.prefix(limit);
        let parts = split(rows, partitions);
        Ok(IrisExec::new(pushdown, parts))
    }
}

/// A scan, split into one range of rows per partition.
pub struct IrisExec {
    pushdown: Pushdown,
    parts: Vec<(u64, u64)>,
}

impl core::fmt::Debug for IrisExec {
    /// Puts the ranges and the pushdown on one line.
    fn fmt(&self, f: &mut core::fmt::Formatter<'_>) -> core::fmt::Result {
        put(f, self.labelled().as_str())
    }
}

/// What an [`IrisExec`] holds.
pub ghost struct ExecView {
    /// Where the projection is applied.
    pub pushdown: PushdownView,
    /// The rows of each partition, as a start and a count.
    pub parts: Seq<(u64, u64)>,
}

impl View for IrisExec {
    type V = ExecView;

    closed spec fn view(&self) -> ExecView {
        ExecView { pushdown: self.pushdown@, parts: self.parts@ }
    }
}

/// How many rows some partitions read in total.
pub open spec fn total(parts: Seq<(u64, u64)>) -> nat
    decreases parts.len(),
{
    if parts.len() == 0 {
        0
    } else {
        total(parts.drop_last()) + parts.last().1 as nat
    }
}

/// The rows of the first partitions are no more than those of all of them.
proof fn lemma_total_grows(parts: Seq<(u64, u64)>, k: int)
    requires
        0 <= k <= parts.len(),
    ensures
        total(parts.take(k)) <= total(parts),
    decreases parts.len(),
{
    if k < parts.len() {
        lemma_total_grows(parts.drop_last(), k);
        assert(parts.drop_last().take(k) =~= parts.take(k));
    } else {
        assert(parts.take(k) =~= parts);
    }
}

/// What a partition that does not exist is refused with.
pub open spec fn no_partition(partition: usize, have: nat) -> Seq<char> {
    "partition "@ + decimal_text(partition as nat) + " was asked for and this scan has "@
        + decimal_text(have)
}

/// What a scan prints as where it is looked at. There is more to a plan than these two.
pub open spec fn scan_text(e: ExecView) -> Seq<char> {
    "IrisExec { parts: "@ + list_text(
        Seq::new(e.parts.len(), |i: int| range_text(e.parts[i])),
    ) + ", pushdown: "@ + pushdown_text(e.pushdown) + ", .. }"@
}

impl IrisExec {
    /// The scan with the names of what it holds.
    fn labelled(&self) -> (r: String)
        ensures
            r@ == scan_text(self@),
    {
        let mut s = "IrisExec { parts: ".to_owned();
        append_list(&mut s, &self.parts);
        s.append(", pushdown: ");
        s.append(self.pushdown.text().as_str());
        s.append(", .. }");
        proof {
            assert(Seq::new(self.parts@.len(), |i: int| self.parts@[i].printed()) =~= Seq::new(
                self.parts@.len(),
                |i: int| range_text(self.parts@[i]),
            ));
        }
        s
    }

    /// A scan of these ranges of rows.
    pub fn new(pushdown: Pushdown, parts: Vec<(u64, u64)>) -> (r: Self)
        ensures
            r@ == (ExecView { pushdown: pushdown@, parts: parts@ }),
    {
        IrisExec { pushdown, parts }
    }

    /// The rows each partition reads, as a start and a count.
    #[must_use]
    pub fn parts(&self) -> (r: &[(u64, u64)])
        ensures
            r@ == self@.parts,
    {
        self.parts.as_slice()
    }

    /// Where the projection this scan was given gets applied.
    #[must_use]
    pub fn pushdown(&self) -> (r: &Pushdown)
        ensures
            r@ == self@.pushdown,
    {
        &self.pushdown
    }

    /// The rows one partition reads, or why there is no such partition.
    pub fn partition(&self, partition: usize) -> (r: core::result::Result<(u64, u64), String>)
        ensures
            partition < self@.parts.len() ==> r is Ok && r->Ok_0 == self@.parts[partition as int],
            partition >= self@.parts.len() ==> r is Err && r->Err_0@ == no_partition(
                partition,
                self@.parts.len(),
            ),
    {
        if partition < self.parts.len() {
            Ok(self.parts[partition])
        } else {
            let mut s = "partition ".to_owned();
            s.append(decimal(partition as u64).as_str());
            s.append(" was asked for and this scan has ");
            s.append(decimal(self.parts.len() as u64).as_str());
            Err(s)
        }
    }

    /// How many rows the scan reads in total.
    fn rows(&self) -> (r: u64)
        requires
            total(self@.parts) <= u64::MAX,
        ensures
            r == total(self@.parts),
    {
        let mut sum: u64 = 0;
        let mut i: usize = 0;
        while i < self.parts.len()
            invariant
                0 <= i <= self.parts@.len(),
                sum == total(self@.parts.take(i as int)),
                total(self@.parts) <= u64::MAX,
            decreases self.parts@.len() - i,
        {
            proof {
                lemma_total_grows(self@.parts, i + 1);
                assert(self@.parts.take(i + 1).drop_last() =~= self@.parts.take(i as int));
            }
            sum = sum + self.parts[i].1;
            i = i + 1;
        }
        assert(self@.parts.take(i as int) =~= self@.parts);
        sum
    }

    /// What the scan prints as in a plan: in full, or only its rows for a tree.
    pub fn text(&self, tree: bool) -> (r: String)
        requires
            total(self@.parts) <= u64::MAX,
        ensures
            r@ == (if tree {
                "rows="@ + decimal_text(total(self@.parts))
            } else {
                "IrisExec: rows="@ + decimal_text(total(self@.parts)) + ", partitions="@
                    + decimal_text(self@.parts.len()) + ", projection="@ + pushdown_text(
                    self@.pushdown,
                )
            }),
    {
        let rows: u64 = self.rows();
        if tree {
            let mut s = "rows=".to_owned();
            s.append(decimal(rows).as_str());
            s
        } else {
            let mut s = "IrisExec: rows=".to_owned();
            s.append(decimal(rows).as_str());
            s.append(", partitions=");
            s.append(decimal(self.parts.len() as u64).as_str());
            s.append(", projection=");
            s.append(self.pushdown.text().as_str());
            s
        }
    }
}

/// The partitions of a split read exactly the rows that were split.
pub proof fn lemma_partitions_read_every_row(rows: u64, wanted: usize, parts: Seq<(u64, u64)>, k: nat)
    requires
        parts.len() == pieces(rows, wanted),
        k <= parts.len(),
        forall|i: int|
            0 <= i < parts.len() ==> (#[trigger] parts[i]).1 == piece_len(
                rows as nat,
                parts.len(),
                i,
            ),
    ensures
        total(parts.take(k as int)) == piece_start(rows as nat, parts.len(), k as int),
        total(parts) == rows,
    decreases parts.len() - k,
{
    lemma_first_pieces(rows as nat, parts, k);
    lemma_first_pieces(rows as nat, parts, parts.len());
    assert(parts.take(parts.len() as int) =~= parts);
    lemma_pieces_cover_the_rows(rows as nat, parts.len(), 0);
}

/// The rows of the first `k` pieces.
proof fn lemma_first_pieces(rows: nat, parts: Seq<(u64, u64)>, k: nat)
    requires
        parts.len() > 0,
        k <= parts.len(),
        forall|i: int|
            0 <= i < parts.len() ==> (#[trigger] parts[i]).1 == piece_len(rows, parts.len(), i),
    ensures
        total(parts.take(k as int)) == piece_start(rows, parts.len(), k as int),
    decreases k,
{
    lemma_pieces_cover_the_rows(rows, parts.len(), 0);
    if k > 0 {
        lemma_first_pieces(rows, parts, (k - 1) as nat);
        lemma_pieces_cover_the_rows(rows, parts.len(), k - 1);
        assert(parts.take(k as int).drop_last() =~= parts.take(k - 1));
        assert(parts.take(k as int).last() == parts[k - 1]);
    }
}

/// Reading a whole range of rows, however many scans that takes.
///
/// A decoder may answer with fewer rows than it was asked for, so a caller that wants a range asks
/// again from where the last answer stopped. An answer of no rows ends it.
#[derive(Clone, Copy, PartialEq, Eq, Debug, Structural)]
pub struct Filling {
    /// How many rows are wanted.
    pub count: u64,
    /// How many have been read.
    pub read: u64,
    /// Whether an answer had no rows.
    pub ended: bool,
}

impl Filling {
    /// Nothing read yet.
    pub fn new(count: u64) -> (r: Self)
        ensures
            r == (Filling { count, read: 0, ended: false }),
    {
        Filling { count, read: 0, ended: false }
    }

    /// Where to read next and how many rows are left, or nothing once the range is read.
    pub fn next(&self) -> (r: Option<(u64, u64)>)
        ensures
            !self.ended && self.read < self.count ==> r == Some(
                (self.read, (self.count - self.read) as u64),
            ),
            self.ended || self.read >= self.count ==> r is None,
    {
        if self.ended || self.read >= self.count {
            None
        } else {
            Some((self.read, self.count - self.read))
        }
    }

    /// Takes in an answer of this many rows.
    pub fn answered(&mut self, rows: u64)
        requires
            old(self).read + rows <= u64::MAX,
        ensures
            final(self).count == old(self).count,
            final(self).read == old(self).read + rows,
            final(self).ended == (old(self).ended || rows == 0),
    {
        if rows == 0 {
            self.ended = true;
        }
        self.read = self.read + rows;
    }
}

} // verus!
