//! The schemes.
//!
//! A scheme code is a byte in the chunk header and it means different things for different column
//! types. A scheme can hold its output under another scheme: a dictionary keeps its codes, and a run
//! length encoding its values and its counts, as columns with scheme codes of their own. So decoding is
//! a function per column type that takes a code and calls back into itself, and `level` is how far down
//! the calls have gone.
use vstd::prelude::*;

use crate::btr::column::{Column, ColumnView, Strings, StringsView};
use crate::btr::error::{Error, Result};
use crate::btr::fastpfor::{binary_packed, lemma_plain_values_fill_the_rows, plain_values};
use crate::btr::part::{agrees, plus, read_u32, sat, word_at, Chunk, ChunkView, ColumnType};
use crate::bytes::{append, copied, le, lemma_le_4, u32_of, u64_of};

verus! {

/// The name of a scheme code, if it is defined for a column type.
pub open spec fn name_of(column: ColumnType, code: u8) -> Option<&'static str> {
    match column {
        ColumnType::Integer => match code {
            0 => Some("UNCOMPRESSED"),
            1 => Some("ONE_VALUE"),
            2 => Some("DICT"),
            3 => Some("RLE"),
            4 => Some("PFOR"),
            5 => Some("BP"),
            25 => Some("FREQUENCY"),
            26 => Some("FOR"),
            27 => Some("PFOR_DELTA"),
            28 => Some("TRUNCATION_8"),
            29 => Some("TRUNCATION_16"),
            30 => Some("DICTIONARY_8"),
            31 => Some("DICTIONARY_16"),
            _ => None,
        },
        ColumnType::Double => match code {
            0 => Some("UNCOMPRESSED"),
            1 => Some("ONE_VALUE"),
            2 => Some("DICT"),
            3 => Some("RLE"),
            4 => Some("FREQUENCY"),
            5 => Some("PSEUDODECIMAL"),
            28 => Some("DOUBLE_BP"),
            29 => Some("DICTIONARY_8"),
            31 => Some("DICTIONARY_16"),
            _ => None,
        },
        ColumnType::String => match code {
            0 => Some("UNCOMPRESSED"),
            1 => Some("ONE_VALUE"),
            2 => Some("DICT"),
            3 => Some("FSST"),
            30 => Some("DICTIONARY_8"),
            31 => Some("DICTIONARY_16"),
            _ => None,
        },
    }
}

/// The name of a scheme code, or `"unknown"`.
pub open spec fn name_or_unknown(column: ColumnType, code: u8) -> &'static str {
    match name_of(column, code) {
        Some(name) => name,
        None => "unknown",
    }
}

/// The name of a scheme code, if it is defined for a column type.
fn defined_name(column: ColumnType, code: u8) -> (r: Option<&'static str>)
    ensures
        r == name_of(column, code),
{
    match column {
        ColumnType::Integer => match code {
            0 => Some("UNCOMPRESSED"),
            1 => Some("ONE_VALUE"),
            2 => Some("DICT"),
            3 => Some("RLE"),
            4 => Some("PFOR"),
            5 => Some("BP"),
            25 => Some("FREQUENCY"),
            26 => Some("FOR"),
            27 => Some("PFOR_DELTA"),
            28 => Some("TRUNCATION_8"),
            29 => Some("TRUNCATION_16"),
            30 => Some("DICTIONARY_8"),
            31 => Some("DICTIONARY_16"),
            _ => None,
        },
        ColumnType::Double => match code {
            0 => Some("UNCOMPRESSED"),
            1 => Some("ONE_VALUE"),
            2 => Some("DICT"),
            3 => Some("RLE"),
            4 => Some("FREQUENCY"),
            5 => Some("PSEUDODECIMAL"),
            28 => Some("DOUBLE_BP"),
            29 => Some("DICTIONARY_8"),
            31 => Some("DICTIONARY_16"),
            _ => None,
        },
        ColumnType::String => match code {
            0 => Some("UNCOMPRESSED"),
            1 => Some("ONE_VALUE"),
            2 => Some("DICT"),
            3 => Some("FSST"),
            30 => Some("DICTIONARY_8"),
            31 => Some("DICTIONARY_16"),
            _ => None,
        },
    }
}

/// The name of a scheme code, or `"unknown"`.
///
/// That a code has a name does not mean it is decoded here.
#[must_use]
pub fn scheme_name(column: ColumnType, code: u8) -> (r: &'static str)
    ensures
        r == name_or_unknown(column, code),
{
    match defined_name(column, code) {
        Some(name) => name,
        None => "unknown",
    }
}

/// How deep a cascade may go.
pub const CASCADE: u32 = 8;

/// Where a dictionary's own bytes start: behind a scheme byte for the codes and a four byte offset.
pub const DICTIONARY: usize = 5;

/// Where a run length encoding's own bytes start: behind two words and two scheme bytes.
pub const RUNS: usize = 10;

/// A number reinterpreted as signed.
pub open spec fn signed(n: nat) -> i32 {
    if n < 0x8000_0000 {
        n as i32
    } else {
        (n - 0x1_0000_0000) as i32
    }
}

/// Reinterprets a number as signed.
fn cast_signed(n: u32) -> (r: i32)
    ensures
        r == signed(n as nat),
{
    if n < 0x8000_0000 {
        n as i32
    } else {
        (n as i64 - 0x1_0000_0000) as i32
    }
}

/// A value that is stored in a fixed number of bytes.
pub trait Fixed: Copy + Sized {
    /// How many bytes that is.
    spec fn width() -> nat;

    /// What those bytes hold.
    spec fn of(bytes: Seq<u8>) -> Self;

    /// How many bytes a value takes.
    fn wide() -> (r: usize)
        ensures
            r == Self::width(),
            0 < r <= 8,
    ;

    /// Reads one value.
    fn read(bytes: &[u8]) -> (r: Self)
        requires
            bytes@.len() == Self::width(),
        ensures
            r == Self::of(bytes@),
    ;
}

impl Fixed for i32 {
    open spec fn width() -> nat {
        4
    }

    open spec fn of(bytes: Seq<u8>) -> i32 {
        signed(le(bytes))
    }

    fn wide() -> (r: usize) {
        4
    }

    fn read(bytes: &[u8]) -> (r: i32) {
        cast_signed(u32_of(bytes))
    }
}

impl Fixed for u64 {
    open spec fn width() -> nat {
        8
    }

    open spec fn of(bytes: Seq<u8>) -> u64 {
        le(bytes) as u64
    }

    fn wide() -> (r: usize) {
        8
    }

    fn read(bytes: &[u8]) -> (r: u64) {
        u64_of(bytes)
    }
}

/// `n` values laid out back to back.
pub open spec fn fixed_values<T: Fixed>(data: Seq<u8>, n: nat) -> Seq<T> {
    Seq::new(n, |i: int| T::of(data.subrange(i * T::width(), i * T::width() + T::width())))
}

/// An uncompressed column.
#[verifier::opaque]
pub open spec fn fixed_column<T: Fixed>(data: Seq<u8>, rows: nat) -> Result<Seq<T>> {
    if rows * T::width() > data.len() {
        Err(
            Error::Overrun {
                what: "an uncompressed column",
                claimed: sat((rows * T::width()) as int),
                available: data.len() as usize,
            },
        )
    } else {
        Ok(fixed_values(data, rows))
    }
}

/// A column where every row holds the same value.
#[verifier::opaque]
pub open spec fn one_column<T: Fixed>(data: Seq<u8>, rows: nat) -> Result<Seq<T>> {
    if T::width() > data.len() {
        Err(
            Error::Overrun {
                what: "a one value column",
                claimed: T::width() as usize,
                available: data.len() as usize,
            },
        )
    } else {
        Ok(Seq::new(rows, |i: int| T::of(data.take(T::width() as int))))
    }
}

/// A bit packed column: a count of words, a byte that says how much padding follows it, the padding,
/// and the words.
#[verifier::opaque]
pub open spec fn bit_packed_column(data: Seq<u8>, rows: nat) -> Result<Seq<i32>> {
    match word_at(data, 0, "a bit packed column") {
        Err(e) => Err(e),
        Ok(words) => if data.len() < 5 {
            Err(
                Error::Truncated {
                    what: "a bit packed column",
                    from: 4,
                    to: 5,
                    len: data.len() as usize,
                },
            )
        } else if 5 + data[4] > data.len() {
            Err(
                Error::Overrun {
                    what: "a bit packed column",
                    claimed: (5 + data[4]) as usize,
                    available: data.len() as usize,
                },
            )
        } else {
            match plain_values(data.skip(5 + data[4]), words as nat, rows) {
                Err(e) => Err(e),
                Ok(values) => Ok(Seq::new(values.len(), |i: int| signed(values[i] as nat))),
            }
        },
    }
}

/// The scheme of a dictionary's codes, and how many bytes its entries take.
#[verifier::opaque]
pub open spec fn dictionary_header(data: Seq<u8>, width: nat) -> Result<(u8, nat)> {
    if data.len() == 0 {
        Err(Error::Truncated { what: "a dictionary", from: 0, to: 1, len: 0 })
    } else {
        match word_at(data, 1, "a dictionary") {
            Err(e) => Err(e),
            Ok(offset) => if DICTIONARY + offset > data.len() {
                Err(
                    Error::Overrun {
                        what: "a dictionary",
                        claimed: offset as usize,
                        available: (data.len() - DICTIONARY) as usize,
                    },
                )
            } else if offset as nat % width != 0 {
                Err(
                    Error::Malformed {
                        what: "a dictionary",
                        why: "its entries do not divide into whole values",
                    },
                )
            } else {
                Ok((data[0], offset as nat))
            },
        }
    }
}

/// The entries of a dictionary.
pub open spec fn dictionary_entries<T: Fixed>(data: Seq<u8>, size: nat) -> Seq<T> {
    fixed_values(data.subrange(DICTIONARY as int, DICTIONARY + size), size / T::width())
}

/// Whether a code is in a dictionary.
pub open spec fn in_dictionary<T>(entries: Seq<T>, code: i32) -> bool {
    0 <= code < entries.len()
}

/// Every code looked up.
#[verifier::opaque]
pub open spec fn looked_up<T>(entries: Seq<T>, codes: Seq<i32>) -> Result<Seq<T>> {
    if forall|i: int| 0 <= i < codes.len() ==> in_dictionary(entries, #[trigger] codes[i]) {
        Ok(Seq::new(codes.len(), |i: int| entries[codes[i] as int]))
    } else {
        Err(
            Error::Malformed {
                what: "a dictionary",
                why: "a code points outside the dictionary",
            },
        )
    }
}

/// What is in front of a run length encoded column.
pub ghost struct RunHeader {
    /// How many runs there are.
    pub runs: nat,
    /// Where the counts start, behind the values.
    pub offset: nat,
    /// The scheme of the values.
    pub values: u8,
    /// The scheme of the counts.
    pub counts: u8,
}

/// What is in front of a run length encoded column.
#[verifier::opaque]
pub open spec fn run_header(data: Seq<u8>, rows: nat) -> Result<RunHeader> {
    let what = "a run length encoded column";
    let len = data.len() as usize;
    match word_at(data, 0, what) {
        Err(e) => Err(e),
        Ok(runs) => match word_at(data, 4, what) {
            Err(e) => Err(e),
            Ok(offset) => if data.len() < 9 {
                Err(Error::Truncated { what, from: 8, to: 9, len })
            } else if data.len() < 10 {
                Err(Error::Truncated { what, from: 9, to: 10, len })
            } else if runs as nat > rows {
                Err(Error::Malformed { what, why: "it has more runs than the chunk has rows" })
            } else if RUNS + offset > data.len() {
                Err(Error::Overrun { what, claimed: sat(RUNS + offset), available: len })
            } else {
                Ok(
                    RunHeader {
                        runs: runs as nat,
                        offset: offset as nat,
                        values: data[8],
                        counts: data[9],
                    },
                )
            },
        },
    }
}

/// `n` copies of a value.
pub open spec fn copies<T>(value: T, n: nat) -> Seq<T> {
    Seq::new(n, |i: int| value)
}

/// The first `n` runs, written out.
pub open spec fn written_out<T>(
    values: Seq<T>,
    counts: Seq<i32>,
    rows: nat,
    n: nat,
) -> Result<Seq<T>>
    decreases n,
{
    let what = "a run length encoded column";
    if n == 0 {
        Ok(Seq::empty())
    } else {
        match written_out(values, counts, rows, (n - 1) as nat) {
            Err(e) => Err(e),
            Ok(front) => if counts[n - 1] < 0 {
                Err(Error::Malformed { what, why: "a run is a negative number of rows long" })
            } else if front.len() + counts[n - 1] > rows {
                Err(
                    Error::Malformed {
                        what,
                        why: "its runs cover more rows than the chunk holds",
                    },
                )
            } else {
                Ok(front + copies(values[n - 1], counts[n - 1] as nat))
            },
        }
    }
}

/// Runs that cover the rows exactly, written out.
#[verifier::opaque]
pub open spec fn expanded<T>(values: Seq<T>, counts: Seq<i32>, rows: nat) -> Result<Seq<T>> {
    let n = if values.len() <= counts.len() {
        values.len()
    } else {
        counts.len()
    };
    match written_out(values, counts, rows, n) {
        Err(e) => Err(e),
        Ok(out) => if out.len() != rows {
            Err(
                Error::Malformed {
                    what: "a run length encoded column",
                    why: "its runs do not cover every row of the chunk",
                },
            )
        } else {
            Ok(out)
        },
    }
}

/// What a cascade that goes too deep is refused with.
pub open spec fn too_deep() -> Error {
    Error::Malformed {
        what: "a cascade of schemes",
        why: "it nests deeper than anything the reference writes",
    }
}

/// Which of the two errors a scheme code that does not decode deserves.
pub open spec fn missing_error(column: ColumnType, code: u8) -> Error {
    if name_of(column, code) is Some {
        Error::UnsupportedScheme { column, code }
    } else {
        Error::UnknownScheme { column, code }
    }
}

/// What an integer column holds.
pub open spec fn int_column(code: u8, data: Seq<u8>, rows: nat, level: nat) -> Result<Seq<i32>>
    decreases 9 - level,
{
    if level > CASCADE {
        Err(too_deep())
    } else if code == 0 {
        fixed_column(data, rows)
    } else if code == 1 {
        one_column(data, rows)
    } else if code == 5 {
        bit_packed_column(data, rows)
    } else if code == 2 {
        match dictionary_header(data, 4) {
            Err(e) => Err(e),
            Ok((scheme, size)) => match int_column(
                scheme,
                data.skip(DICTIONARY + size),
                rows,
                level + 1,
            ) {
                Err(e) => Err(e),
                Ok(codes) => looked_up(dictionary_entries(data, size), codes),
            },
        }
    } else if code == 3 {
        match run_header(data, rows) {
            Err(e) => Err(e),
            Ok(h) => match int_column(h.values, data.skip(RUNS as int), h.runs, level + 1) {
                Err(e) => Err(e),
                Ok(values) => match int_column(
                    h.counts,
                    data.skip(RUNS + h.offset),
                    h.runs,
                    level + 1,
                ) {
                    Err(e) => Err(e),
                    Ok(counts) => expanded(values, counts, rows),
                },
            },
        }
    } else {
        Err(missing_error(ColumnType::Integer, code))
    }
}

/// What a double column holds, as bit patterns.
pub open spec fn double_column(code: u8, data: Seq<u8>, rows: nat, level: nat) -> Result<Seq<u64>>
    decreases 9 - level,
{
    if level > CASCADE {
        Err(too_deep())
    } else if code == 0 {
        fixed_column(data, rows)
    } else if code == 1 {
        one_column(data, rows)
    } else if code == 2 {
        match dictionary_header(data, 8) {
            Err(e) => Err(e),
            Ok((scheme, size)) => match int_column(
                scheme,
                data.skip(DICTIONARY + size),
                rows,
                level + 1,
            ) {
                Err(e) => Err(e),
                Ok(codes) => looked_up(dictionary_entries(data, size), codes),
            },
        }
    } else if code == 3 {
        match run_header(data, rows) {
            Err(e) => Err(e),
            Ok(h) => match double_column(h.values, data.skip(RUNS as int), h.runs, level + 1) {
                Err(e) => Err(e),
                Ok(values) => match int_column(
                    h.counts,
                    data.skip(RUNS + h.offset),
                    h.runs,
                    level + 1,
                ) {
                    Err(e) => Err(e),
                    Ok(counts) => expanded(values, counts, rows),
                },
            },
        }
    } else {
        Err(missing_error(ColumnType::Double, code))
    }
}

/// The first `n` string offsets, counted from the start of the strings and not from the start of the
/// offsets in front of them.
pub open spec fn rebased(body: Seq<u8>, header: int, n: nat) -> Result<Seq<u32>>
    decreases n,
{
    if n == 0 {
        Ok(Seq::empty())
    } else {
        match rebased(body, header, (n - 1) as nat) {
            Err(e) => Err(e),
            Ok(front) => {
                let slot = le(body.subrange(4 * (n - 1), 4 * n as int)) as int;
                if slot < header || slot > body.len() {
                    Err(
                        Error::Overrun {
                            what: "a string offset",
                            claimed: slot as usize,
                            available: body.len() as usize,
                        },
                    )
                } else {
                    Ok(front.push((slot - header) as u32))
                }
            },
        }
    }
}

/// An uncompressed string column: a length, an offset per row and one on the end, and the bytes.
#[verifier::opaque]
pub open spec fn plain_text(data: Seq<u8>, rows: nat) -> Result<StringsView> {
    match word_at(data, 0, "an uncompressed string column") {
        Err(e) => Err(e),
        Ok(total) => if 4 + total > data.len() {
            Err(
                Error::Overrun {
                    what: "an uncompressed string column",
                    claimed: total as usize,
                    available: (data.len() - 4) as usize,
                },
            )
        } else {
            let body = data.subrange(4, 4 + total);
            let header = 4 * (rows + 1);
            if header > body.len() {
                Err(
                    Error::Overrun {
                        what: "a string offset array",
                        claimed: sat(header as int),
                        available: body.len() as usize,
                    },
                )
            } else {
                match rebased(body, header as int, rows + 1) {
                    Err(e) => Err(e),
                    Ok(offsets) => Ok(StringsView { offsets, bytes: body.skip(header as int) }),
                }
            }
        },
    }
}

/// A byte string over and over.
pub open spec fn repeated(value: Seq<u8>, n: nat) -> Seq<u8>
    decreases n,
{
    if n == 0 {
        Seq::empty()
    } else {
        repeated(value, (n - 1) as nat) + value
    }
}

/// An offset as far as its field can hold it.
pub open spec fn clamped(n: nat) -> u32 {
    if n > u32::MAX {
        u32::MAX
    } else {
        n as u32
    }
}

/// A string column where every row holds the same string.
#[verifier::opaque]
pub open spec fn same_text(data: Seq<u8>, rows: nat) -> Result<StringsView> {
    match word_at(data, 0, "a one value string column") {
        Err(e) => Err(e),
        Ok(length) => if 4 + length > data.len() {
            Err(
                Error::Overrun {
                    what: "a one value string column",
                    claimed: length as usize,
                    available: (data.len() - 4) as usize,
                },
            )
        } else {
            Ok(
                StringsView {
                    offsets: Seq::new(rows + 1, |r: int| clamped((r * length) as nat)),
                    bytes: repeated(data.subrange(4, 4 + length), rows),
                },
            )
        },
    }
}

/// What a string column holds.
pub open spec fn text_column(code: u8, data: Seq<u8>, rows: nat, level: nat) -> Result<StringsView> {
    if level > CASCADE {
        Err(too_deep())
    } else if code == 0 {
        plain_text(data, rows)
    } else if code == 1 {
        same_text(data, rows)
    } else {
        Err(missing_error(ColumnType::String, code))
    }
}

/// What a chunk decodes to.
pub open spec fn decoded(chunk: ChunkView) -> Result<ColumnView> {
    let rows = chunk.rows as nat;
    match chunk.column {
        ColumnType::Integer => match int_column(chunk.scheme, chunk.data, rows, 0) {
            Ok(v) => Ok(ColumnView::Integer(v)),
            Err(e) => Err(e),
        },
        ColumnType::Double => match double_column(chunk.scheme, chunk.data, rows, 0) {
            Ok(v) => Ok(ColumnView::Double(v)),
            Err(e) => Err(e),
        },
        ColumnType::String => match text_column(chunk.scheme, chunk.data, rows, 0) {
            Ok(v) => Ok(ColumnView::Text(v)),
            Err(e) => Err(e),
        },
    }
}

impl<'a> Chunk<'a> {
    /// Decodes the chunk.
    ///
    /// The values for null rows are left as the scheme wrote them. [`Chunk::nullmap`] says which rows
    /// meant anything.
    pub fn decode(&self) -> (r: Result<Column>)
        ensures
            agrees(r, decoded(self@)),
    {
        let code: u8 = self.scheme();
        let rows: usize = self.rows() as usize;
        match self.column() {
            ColumnType::Integer => {
                let v = integers(code, self.data(), rows, 0)?;
                Ok(Column::Integer(v))
            },
            ColumnType::Double => {
                let v = doubles(code, self.data(), rows, 0)?;
                Ok(Column::Double(v))
            },
            ColumnType::String => {
                let v = text(code, self.data(), rows, 0)?;
                Ok(Column::Text(v))
            },
        }
    }
}

/// Decodes an integer column held under `code`.
fn integers(code: u8, data: &[u8], rows: usize, level: u32) -> (r: Result<Vec<i32>>)
    requires
        level <= 9,
    ensures
        agrees(r, int_column(code, data@, rows as nat, level as nat)),
    decreases 9 - level,
{
    deep_enough(level)?;
    if code == 0 {
        fixed(data, rows)
    } else if code == 1 {
        one(data, rows)
    } else if code == 5 {
        bit_packed(data, rows)
    } else if code == 2 {
        let (scheme, size) = dictionary_start(data, 4)?;
        let entries = dictionary(data, size);
        let len: usize = data.len();
        let rest = &data[DICTIONARY + size..len];
        assert(rest@ =~= data@.skip(DICTIONARY + size));
        let codes = integers(scheme, rest, rows, level + 1)?;
        look_up(&entries, &codes)
    } else if code == 3 {
        let (runs, offset, values_scheme, counts_scheme) = run_start(data, rows)?;
        let len: usize = data.len();
        let body = &data[RUNS..len];
        let rest = &data[RUNS + offset..len];
        assert(body@ =~= data@.skip(RUNS as int));
        assert(rest@ =~= data@.skip(RUNS + offset));
        let values = integers(values_scheme, body, runs, level + 1)?;
        let counts = integers(counts_scheme, rest, runs, level + 1)?;
        run_length(&values, &counts, rows)
    } else {
        Err(missing(ColumnType::Integer, code))
    }
}

/// Decodes a double column held under `code`, to bit patterns.
fn doubles(code: u8, data: &[u8], rows: usize, level: u32) -> (r: Result<Vec<u64>>)
    requires
        level <= 9,
    ensures
        agrees(r, double_column(code, data@, rows as nat, level as nat)),
    decreases 9 - level,
{
    deep_enough(level)?;
    if code == 0 {
        fixed(data, rows)
    } else if code == 1 {
        one(data, rows)
    } else if code == 2 {
        let (scheme, size) = dictionary_start(data, 8)?;
        let entries = dictionary(data, size);
        let len: usize = data.len();
        let rest = &data[DICTIONARY + size..len];
        assert(rest@ =~= data@.skip(DICTIONARY + size));
        let codes = integers(scheme, rest, rows, level + 1)?;
        look_up(&entries, &codes)
    } else if code == 3 {
        let (runs, offset, values_scheme, counts_scheme) = run_start(data, rows)?;
        let len: usize = data.len();
        let body = &data[RUNS..len];
        let rest = &data[RUNS + offset..len];
        assert(body@ =~= data@.skip(RUNS as int));
        assert(rest@ =~= data@.skip(RUNS + offset));
        let values = doubles(values_scheme, body, runs, level + 1)?;
        let counts = integers(counts_scheme, rest, runs, level + 1)?;
        run_length(&values, &counts, rows)
    } else {
        Err(missing(ColumnType::Double, code))
    }
}

/// Decodes a string column held under `code`.
fn text(code: u8, data: &[u8], rows: usize, level: u32) -> (r: Result<Strings>)
    ensures
        agrees(r, text_column(code, data@, rows as nat, level as nat)),
        r is Ok ==> r->Ok_0@.wf(),
{
    deep_enough(level)?;
    if code == 0 {
        uncompressed_text(data, rows)
    } else if code == 1 {
        one_text(data, rows)
    } else {
        Err(missing(ColumnType::String, code))
    }
}

/// Whether a cascade has gone as far as this reads.
fn deep_enough(level: u32) -> (r: Result<()>)
    ensures
        r == (if level > CASCADE {
            Err::<(), Error>(too_deep())
        } else {
            Ok(())
        }),
{
    if level > CASCADE {
        return Err(
            Error::Malformed {
                what: "a cascade of schemes",
                why: "it nests deeper than anything the reference writes",
            },
        );
    }
    Ok(())
}

/// Which of the two errors a scheme code that did not decode deserves.
fn missing(column: ColumnType, code: u8) -> (r: Error)
    ensures
        r == missing_error(column, code),
{
    if defined_name(column, code).is_some() {
        Error::UnsupportedScheme { column, code }
    } else {
        Error::UnknownScheme { column, code }
    }
}

/// Reads `n` values laid out back to back.
fn read_values<T: Fixed>(data: &[u8], n: usize) -> (r: Vec<T>)
    requires
        n * T::width() <= data@.len(),
    ensures
        r@ == fixed_values::<T>(data@, n as nat),
{
    let width: usize = T::wide();
    let len: usize = data.len();
    let mut out: Vec<T> = Vec::new();
    let mut i: usize = 0;
    while i < n
        invariant
            0 <= i <= n,
            width == T::width(),
            len == data@.len(),
            n * width <= len,
            out@ == fixed_values::<T>(data@, i as nat),
        decreases n - i,
    {
        assert(i * width + width <= n * width) by (nonlinear_arith)
            requires
                i < n,
        ;
        let at: usize = i * width;
        out.push(T::read(&data[at..at + width]));
        i = i + 1;
        assert(out@ =~= fixed_values::<T>(data@, i as nat));
    }
    out
}

/// Reads an uncompressed column.
fn fixed<T: Fixed>(data: &[u8], rows: usize) -> (r: Result<Vec<T>>)
    ensures
        agrees(r, fixed_column::<T>(data@, rows as nat)),
{
    proof {
        reveal(fixed_column);
    }
    let width: usize = T::wide();
    let len: usize = data.len();
    if rows > len / width {
        proof {
            lemma_wider(rows as nat, width as nat, len as nat);
        }
        let claimed: usize = if rows > usize::MAX / width {
            proof {
                lemma_wider(rows as nat, width as nat, usize::MAX as nat);
            }
            usize::MAX
        } else {
            proof {
                lemma_fits(rows as nat, width as nat, usize::MAX as nat);
            }
            rows * width
        };
        return Err(Error::Overrun { what: "an uncompressed column", claimed, available: len });
    }
    proof {
        lemma_fits(rows as nat, width as nat, len as nat);
    }
    Ok(read_values(data, rows))
}

/// More than a quotient takes more than what was divided.
proof fn lemma_wider(n: nat, width: nat, len: nat)
    requires
        width > 0,
        n > len / width,
    ensures
        n * width > len,
{
    assert(n * width > len) by (nonlinear_arith)
        requires
            width > 0,
            n > len / width,
    ;
}

/// A quotient takes no more than what was divided.
proof fn lemma_fits(n: nat, width: nat, len: nat)
    requires
        width > 0,
        n <= len / width,
    ensures
        n * width <= len,
{
    assert(n * width <= len) by (nonlinear_arith)
        requires
            width > 0,
            n <= len / width,
    ;
}

/// Reads a column where every row holds the same value.
fn one<T: Fixed>(data: &[u8], rows: usize) -> (r: Result<Vec<T>>)
    ensures
        agrees(r, one_column::<T>(data@, rows as nat)),
{
    proof {
        reveal(one_column);
    }
    let width: usize = T::wide();
    if width > data.len() {
        return Err(
            Error::Overrun { what: "a one value column", claimed: width, available: data.len() },
        );
    }
    let first = &data[0..width];
    assert(first@ =~= data@.take(width as int));
    let value: T = T::read(first);
    let mut out: Vec<T> = Vec::new();
    extend(&mut out, value, rows);
    assert(out@ =~= one_column::<T>(data@, rows as nat)->Ok_0);
    Ok(out)
}

/// Appends `n` copies of a value.
fn extend<T: Copy>(out: &mut Vec<T>, value: T, n: usize)
    ensures
        final(out)@ == old(out)@ + copies(value, n as nat),
{
    let mut i: usize = 0;
    assert(out@ =~= old(out)@ + copies(value, 0));
    while i < n
        invariant
            0 <= i <= n,
            out@ == old(out)@ + copies(value, i as nat),
        decreases n - i,
    {
        out.push(value);
        i = i + 1;
        assert(out@ =~= old(out)@ + copies(value, i as nat));
    }
}

/// Reads what is in front of a dictionary encoded column.
///
/// The offset there is where the codes start, measured from the end of the header, so it is also the
/// size of the dictionary.
fn dictionary_start(data: &[u8], width: usize) -> (r: Result<(u8, usize)>)
    requires
        0 < width <= 8,
    ensures
        match dictionary_header(data@, width as nat) {
            Ok((scheme, size)) => {
                &&& r is Ok
                &&& r->Ok_0.0 == scheme
                &&& r->Ok_0.1 == size
                &&& DICTIONARY + size <= data@.len()
                &&& size % (width as nat) == 0
            },
            Err(e) => r is Err && r->Err_0 == e,
        },
{
    proof {
        reveal(dictionary_header);
    }
    let len: usize = data.len();
    if len == 0 {
        return Err(Error::Truncated { what: "a dictionary", from: 0, to: 1, len: 0 });
    }
    let offset: usize = read_u32(data, 1, "a dictionary")? as usize;
    if offset > len - DICTIONARY {
        return Err(
            Error::Overrun {
                what: "a dictionary",
                claimed: offset,
                available: len - DICTIONARY,
            },
        );
    }
    if offset % width != 0 {
        return Err(
            Error::Malformed {
                what: "a dictionary",
                why: "its entries do not divide into whole values",
            },
        );
    }
    Ok((data[0], offset))
}

/// Reads the entries of a dictionary.
fn dictionary<T: Fixed>(data: &[u8], size: usize) -> (r: Vec<T>)
    requires
        DICTIONARY + size <= data@.len(),
        size as nat % T::width() == 0,
    ensures
        r@ == dictionary_entries::<T>(data@, size as nat),
{
    let len: usize = data.len();
    let width: usize = T::wide();
    let entries = &data[DICTIONARY..DICTIONARY + size];
    let n: usize = size / width;
    proof {
        lemma_fits(n as nat, width as nat, size as nat);
    }
    read_values(entries, n)
}

/// Looks every code up.
///
/// A code that points outside the dictionary is refused.
fn look_up<T: Copy>(entries: &Vec<T>, codes: &Vec<i32>) -> (r: Result<Vec<T>>)
    ensures
        agrees(r, looked_up(entries@, codes@)),
{
    proof {
        reveal(looked_up);
    }
    let mut out: Vec<T> = Vec::new();
    let mut i: usize = 0;
    while i < codes.len()
        invariant
            0 <= i <= codes@.len(),
            forall|j: int| 0 <= j < i ==> in_dictionary(entries@, #[trigger] codes@[j]),
            out@ == Seq::new(i as nat, |j: int| entries@[codes@[j] as int]),
        decreases codes@.len() - i,
    {
        let code: i32 = codes[i];
        if code < 0 || code as usize >= entries.len() {
            proof {
                reveal(looked_up);
                assert(!in_dictionary(entries@, codes@[i as int]));
            }
            return Err(
                Error::Malformed {
                    what: "a dictionary",
                    why: "a code points outside the dictionary",
                },
            );
        }
        out.push(entries[code as usize]);
        i = i + 1;
        assert(out@ =~= Seq::new(i as nat, |j: int| entries@[codes@[j] as int]));
    }
    Ok(out)
}

/// Reads what is in front of a run length encoded column: how many runs, where the counts start, and
/// the schemes of the values and of the counts.
///
/// A run covers at least one row of what a writer produces, so more runs than rows are refused before
/// either nested column is decoded.
fn run_start(data: &[u8], rows: usize) -> (r: Result<(usize, usize, u8, u8)>)
    ensures
        match run_header(data@, rows as nat) {
            Ok(h) => {
                &&& r is Ok
                &&& r->Ok_0.0 == h.runs
                &&& r->Ok_0.1 == h.offset
                &&& r->Ok_0.2 == h.values
                &&& r->Ok_0.3 == h.counts
                &&& RUNS + h.offset <= data@.len()
            },
            Err(e) => r is Err && r->Err_0 == e,
        },
{
    proof {
        reveal(run_header);
    }
    let len: usize = data.len();
    let runs: usize = read_u32(data, 0, "a run length encoded column")? as usize;
    let offset: usize = read_u32(data, 4, "a run length encoded column")? as usize;
    if len < 9 {
        return Err(
            Error::Truncated { what: "a run length encoded column", from: 8, to: 9, len },
        );
    }
    if len < 10 {
        return Err(
            Error::Truncated { what: "a run length encoded column", from: 9, to: 10, len },
        );
    }
    if runs > rows {
        return Err(
            Error::Malformed {
                what: "a run length encoded column",
                why: "it has more runs than the chunk has rows",
            },
        );
    }
    if offset > len - RUNS {
        return Err(
            Error::Overrun {
                what: "a run length encoded column",
                claimed: plus(RUNS, offset),
                available: len,
            },
        );
    }
    Ok((runs, offset, data[8], data[9]))
}

/// Runs that stop early stop there however many there are.
proof fn lemma_runs_stop<T>(values: Seq<T>, counts: Seq<i32>, rows: nat, k: nat, n: nat)
    requires
        k <= n,
        written_out(values, counts, rows, k) is Err,
    ensures
        written_out(values, counts, rows, n) == written_out(values, counts, rows, k),
    decreases n,
{
    if k < n {
        lemma_runs_stop(values, counts, rows, k, (n - 1) as nat);
    }
}

/// Writes runs out.
///
/// They have to cover the rows exactly: runs that add up to more, or to less, have no answer.
fn run_length<T: Copy>(values: &Vec<T>, counts: &Vec<i32>, rows: usize) -> (r: Result<Vec<T>>)
    ensures
        agrees(r, expanded(values@, counts@, rows as nat)),
{
    proof {
        reveal(expanded);
    }
    let n: usize = if values.len() <= counts.len() {
        values.len()
    } else {
        counts.len()
    };
    let mut out: Vec<T> = Vec::new();
    let mut i: usize = 0;
    while i < n
        invariant
            0 <= i <= n,
            n <= values@.len(),
            n <= counts@.len(),
            n == values@.len() || n == counts@.len(),
            written_out(values@, counts@, rows as nat, i as nat) == Ok::<Seq<T>, Error>(out@),
            out@.len() <= rows,
        decreases n - i,
    {
        proof {
            reveal(expanded);
            if written_out(values@, counts@, rows as nat, (i + 1) as nat) is Err {
                lemma_runs_stop(values@, counts@, rows as nat, (i + 1) as nat, n as nat);
            }
        }
        let count: i32 = counts[i];
        if count < 0 {
            return Err(
                Error::Malformed {
                    what: "a run length encoded column",
                    why: "a run is a negative number of rows long",
                },
            );
        }
        if count as usize > rows - out.len() {
            return Err(
                Error::Malformed {
                    what: "a run length encoded column",
                    why: "its runs cover more rows than the chunk holds",
                },
            );
        }
        extend(&mut out, values[i], count as usize);
        i = i + 1;
    }
    if out.len() != rows {
        return Err(
            Error::Malformed {
                what: "a run length encoded column",
                why: "its runs do not cover every row of the chunk",
            },
        );
    }
    Ok(out)
}

/// Reads a bit packed integer column.
///
/// How much padding there is depends on where the writer's buffer sat in memory, so it is recorded in
/// the chunk. The codec deals in unsigned values, so turning them back is a reinterpretation.
fn bit_packed(data: &[u8], rows: usize) -> (r: Result<Vec<i32>>)
    ensures
        agrees(r, bit_packed_column(data@, rows as nat)),
{
    proof {
        reveal(bit_packed_column);
    }
    let len: usize = data.len();
    let words: usize = read_u32(data, 0, "a bit packed column")? as usize;
    if len < 5 {
        return Err(Error::Truncated { what: "a bit packed column", from: 4, to: 5, len });
    }
    let at: usize = 5 + data[4] as usize;
    if at > len {
        return Err(Error::Overrun { what: "a bit packed column", claimed: at, available: len });
    }
    let body = &data[at..len];
    assert(body@ =~= data@.skip(at as int));
    let values = binary_packed(body, words, rows)?;
    let mut out: Vec<i32> = Vec::new();
    let mut i: usize = 0;
    while i < values.len()
        invariant
            0 <= i <= values@.len(),
            out@ == Seq::new(i as nat, |j: int| signed(values@[j] as nat)),
        decreases values@.len() - i,
    {
        out.push(cast_signed(values[i]));
        i = i + 1;
        assert(out@ =~= Seq::new(i as nat, |j: int| signed(values@[j] as nat)));
    }
    Ok(out)
}

/// Offsets that stop early stop there however many there are.
proof fn lemma_rebased_stops(body: Seq<u8>, header: int, k: nat, n: nat)
    requires
        k <= n,
        rebased(body, header, k) is Err,
    ensures
        rebased(body, header, n) == rebased(body, header, k),
    decreases n,
{
    if k < n {
        lemma_rebased_stops(body, header, k, (n - 1) as nat);
    }
}

/// Reads an uncompressed string column.
///
/// The offsets in a chunk are counted from the start of the offsets themselves, and those that come
/// out are counted from the start of the bytes.
fn uncompressed_text(data: &[u8], rows: usize) -> (r: Result<Strings>)
    ensures
        agrees(r, plain_text(data@, rows as nat)),
        r is Ok ==> r->Ok_0@.wf(),
{
    proof {
        reveal(plain_text);
    }
    let len: usize = data.len();
    let total: usize = read_u32(data, 0, "an uncompressed string column")? as usize;
    if total > len - 4 {
        return Err(
            Error::Overrun {
                what: "an uncompressed string column",
                claimed: total,
                available: len - 4,
            },
        );
    }
    let body = &data[4..4 + total];
    if rows >= total / 4 {
        let claimed: usize = if rows >= usize::MAX / 4 {
            usize::MAX
        } else {
            4 * (rows + 1)
        };
        return Err(Error::Overrun { what: "a string offset array", claimed, available: total });
    }
    let header: usize = 4 * (rows + 1);
    let mut offsets: Vec<u32> = Vec::new();
    let mut row: usize = 0;
    while row <= rows
        invariant
            0 <= row <= rows + 1,
            total == body@.len(),
            total <= u32::MAX,
            rows < total / 4,
            header == 4 * (rows + 1),
            header <= total,
            word_at(data@, 0, "an uncompressed string column") == Ok::<u32, Error>(total as u32),
            4 + total <= data@.len(),
            body@ == data@.subrange(4, 4 + total),
            rebased(body@, header as int, row as nat) == Ok::<Seq<u32>, Error>(offsets@),
            offsets@.len() == row,
        decreases rows + 1 - row,
    {
        proof {
            reveal(plain_text);
            if rebased(body@, header as int, (row + 1) as nat) is Err {
                lemma_rebased_stops(body@, header as int, (row + 1) as nat, (rows + 1) as nat);
            }
        }
        let slot: usize = u32_of(&body[4 * row..4 * row + 4]) as usize;
        if slot < header || slot > total {
            return Err(
                Error::Overrun { what: "a string offset", claimed: slot, available: total },
            );
        }
        offsets.push((slot - header) as u32);
        row = row + 1;
    }
    let bytes = copied(&body[header..total]);
    assert(bytes@ =~= body@.skip(header as int));
    Ok(Strings::new(offsets, bytes))
}

/// Reads a string column where every row holds the same string.
fn one_text(data: &[u8], rows: usize) -> (r: Result<Strings>)
    ensures
        agrees(r, same_text(data@, rows as nat)),
        r is Ok ==> r->Ok_0@.wf(),
{
    proof {
        reveal(same_text);
    }
    let len: usize = data.len();
    let length: usize = read_u32(data, 0, "a one value string column")? as usize;
    if length > len - 4 {
        return Err(
            Error::Overrun {
                what: "a one value string column",
                claimed: length,
                available: len - 4,
            },
        );
    }
    let value = &data[4..4 + length];
    let mut offsets: Vec<u32> = Vec::new();
    let mut bytes: Vec<u8> = Vec::new();
    let mut at: u32 = 0;
    let mut row: usize = 0;
    offsets.push(0);
    assert(0 * length == 0) by (nonlinear_arith);
    while row < rows
        invariant
            0 <= row <= rows,
            length <= u32::MAX,
            at == clamped((row * length) as nat),
            offsets@ == Seq::new((row + 1) as nat, |r: int| clamped((r * length) as nat)),
            bytes@ == repeated(value@, row as nat),
        decreases rows - row,
    {
        append(&mut bytes, value);
        assert((row + 1) * length == row * length + length) by (nonlinear_arith);
        at = if at > u32::MAX - length as u32 {
            u32::MAX
        } else {
            at + length as u32
        };
        offsets.push(at);
        row = row + 1;
        assert(offsets@ =~= Seq::new((row + 1) as nat, |r: int| clamped((r * length) as nat)));
    }
    Ok(Strings::new(offsets, bytes))
}

/// An integer column holds one value per row, however its schemes nest.
pub proof fn lemma_int_column_fills_the_rows(code: u8, data: Seq<u8>, rows: nat, level: nat)
    requires
        int_column(code, data, rows, level) is Ok,
    ensures
        int_column(code, data, rows, level)->Ok_0.len() == rows,
    decreases 9 - level,
{
    reveal(fixed_column);
    reveal(one_column);
    reveal(bit_packed_column);
    reveal(looked_up);
    reveal(expanded);
    if code == 5 {
        let words = word_at(data, 0, "a bit packed column")->Ok_0;
        lemma_plain_values_fill_the_rows(data.skip(5 + data[4]), words as nat, rows);
    } else if code == 2 {
        let (scheme, size) = dictionary_header(data, 4)->Ok_0;
        lemma_int_column_fills_the_rows(scheme, data.skip(DICTIONARY + size), rows, level + 1);
    }
}

/// A double column holds one value per row, however its schemes nest.
pub proof fn lemma_double_column_fills_the_rows(code: u8, data: Seq<u8>, rows: nat, level: nat)
    requires
        double_column(code, data, rows, level) is Ok,
    ensures
        double_column(code, data, rows, level)->Ok_0.len() == rows,
{
    reveal(fixed_column);
    reveal(one_column);
    reveal(looked_up);
    reveal(expanded);
    if code == 2 {
        let (scheme, size) = dictionary_header(data, 8)->Ok_0;
        lemma_int_column_fills_the_rows(scheme, data.skip(DICTIONARY + size), rows, level + 1);
    }
}

/// Rebasing keeps one offset per slot, each inside the bytes behind the offsets.
proof fn lemma_rebased_len(body: Seq<u8>, header: int, n: nat)
    requires
        0 <= header <= body.len() <= u32::MAX,
        rebased(body, header, n) is Ok,
    ensures
        rebased(body, header, n)->Ok_0.len() == n,
        forall|i: int|
            0 <= i < n ==> (#[trigger] rebased(body, header, n)->Ok_0[i]) <= body.len() - header,
    decreases n,
{
    if n > 0 {
        lemma_rebased_len(body, header, (n - 1) as nat);
    }
}

/// A string column holds one more offset than it has rows, and an uncompressed one has every offset
/// inside its bytes.
pub proof fn lemma_text_column_fills_the_rows(code: u8, data: Seq<u8>, rows: nat, level: nat)
    requires
        text_column(code, data, rows, level) is Ok,
    ensures
        text_column(code, data, rows, level)->Ok_0.rows() == rows,
        code == 0 ==> forall|i: int|
            0 <= i <= rows ==> (#[trigger] text_column(code, data, rows, level)->Ok_0.offsets[i])
                <= text_column(code, data, rows, level)->Ok_0.bytes.len(),
{
    reveal(plain_text);
    reveal(same_text);
    if code == 0 {
        let total = word_at(data, 0, "an uncompressed string column")->Ok_0;
        lemma_rebased_len(data.subrange(4, 4 + total), (4 * (rows + 1)) as int, rows + 1);
    }
}

/// How long a byte string is when it is repeated, and what is at each repetition.
proof fn lemma_repeated(value: Seq<u8>, n: nat, r: nat)
    requires
        r < n,
    ensures
        repeated(value, n).len() == n * value.len(),
        (r + 1) * value.len() <= n * value.len(),
        repeated(value, n).subrange((r * value.len()) as int, ((r + 1) * value.len()) as int)
            == value,
    decreases n,
{
    let front = repeated(value, (n - 1) as nat);
    let k = value.len();
    assert(n * k == (n - 1) * k + k) by (nonlinear_arith)
        requires
            n >= 1,
    ;
    assert((r + 1) * k == r * k + k) by (nonlinear_arith);
    if n > 1 && r < n - 1 {
        lemma_repeated(value, (n - 1) as nat, r);
        assert(repeated(value, n).subrange((r * k) as int, ((r + 1) * k) as int) =~= front.subrange(
            (r * k) as int,
            ((r + 1) * k) as int,
        ));
    } else {
        if n > 1 {
            lemma_repeated(value, (n - 1) as nat, 0);
        }
        assert(front.len() == (n - 1) * k) by {
            if n == 1 {
                assert(0 * k == 0) by (nonlinear_arith);
            }
        }
        assert(r == n - 1);
        assert(repeated(value, n).subrange((r * k) as int, ((r + 1) * k) as int) =~= value);
    }
}

/// Every row of a one value string column reads back as that value, as long as its offsets fit in
/// their field.
pub proof fn lemma_same_text_row(data: Seq<u8>, rows: nat, row: nat)
    requires
        same_text(data, rows) is Ok,
        row < rows,
        rows * le(data.subrange(0, 4)) <= u32::MAX,
    ensures
        same_text(data, rows)->Ok_0.row(row as int) == Some(
            data.subrange(4, 4 + le(data.subrange(0, 4)) as int),
        ),
{
    reveal(same_text);
    lemma_le_4(data.subrange(0, 4));
    let n = le(data.subrange(0, 4));
    let value = data.subrange(4, 4 + n as int);
    lemma_repeated(value, rows, row);
    assert(row * n <= rows * n && (row + 1) * n <= rows * n) by (nonlinear_arith)
        requires
            row < rows,
    ;
    assert(row * n <= (row + 1) * n) by (nonlinear_arith);
}

} // verus!
