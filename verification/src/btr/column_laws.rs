//! What was written into a chunk comes back as the column it decodes to.
use vstd::prelude::*;

use crate::btr::column::ColumnView;
use crate::btr::error::Error;
use crate::btr::fastpfor::{lemma_plain_values_fill_the_rows, plain_values, variable_run};
use crate::btr::laws::{
    all_packable, blocks_bytes, blocks_values, lemma_plain_column_comes_back, Block,
};
use crate::btr::part::{word_at, ChunkView, ColumnType};
use crate::btr::scheme::{
    bit_packed_column, decoded, dictionary_entries, dictionary_header, double_column, expanded,
    fixed_column, fixed_values, int_column, lemma_same_text_row, looked_up, one_column, plain_text, rebased, run_header,
    same_text, signed, text_column, written_out, Fixed,
};
use crate::bytes::{
    le, le_bytes, lemma_le_4, lemma_le_bytes_len, lemma_le_of_le_bytes, lemma_pow_widths,
};

verus! {

/// The thirty two bits that a signed number is stored as, as a number without a sign.
pub open spec fn bits_of_int(v: i32) -> nat {
    if v >= 0 {
        v as nat
    } else {
        (v + 0x1_0000_0000) as nat
    }
}

/// A signed number is what its bits are read as.
proof fn lemma_signed(v: i32)
    ensures
        bits_of_int(v) < 0x1_0000_0000,
        signed(bits_of_int(v)) == v,
{
}

/// A word in front of some bytes is read as what was written.
proof fn lemma_first_word(n: nat, rest: Seq<u8>, what: &'static str)
    requires
        n <= u32::MAX,
    ensures
        le_bytes(n, 4).len() == 4,
        word_at(le_bytes(n, 4) + rest, 0, what) == Ok::<u32, Error>(n as u32),
        le((le_bytes(n, 4) + rest).subrange(0, 4)) == n,
{
    lemma_le_bytes_len(n, 4);
    lemma_pow_widths();
    lemma_le_of_le_bytes(n, 4);
    assert((le_bytes(n, 4) + rest).subrange(0, 4) =~= le_bytes(n, 4));
}

/// A bit packed chunk decodes to exactly the numbers that were packed into it, negative ones and those
/// that take all thirty two bits among them, whatever padding is in front of the words and whatever is
/// behind them.
pub proof fn lemma_bit_packed_chunk_comes_back(
    values: Seq<i32>,
    blocks: Seq<Block>,
    tail: Seq<u32>,
    fill: Seq<u8>,
    padding: Seq<u8>,
    rest: Seq<u8>,
    chunk: ChunkView,
)
    requires
        all_packable(blocks),
        values.len() == 128 * blocks.len() + tail.len(),
        forall|i: int|
            0 <= i < values.len() ==> #[trigger] (blocks_values(blocks) + tail)[i] == bits_of_int(
                values[i],
            ),
        padding.len() <= 255,
        chunk.column == ColumnType::Integer,
        chunk.scheme == 5,
        chunk.rows == values.len(),
        ({
            let words = le_bytes(128 * blocks.len(), 4) + blocks_bytes(blocks) + variable_run(tail)
                + fill;
            &&& words.len() % 4 == 0
            &&& words.len() / 4 <= u32::MAX
            &&& chunk.data == le_bytes(words.len() / 4, 4) + seq![padding.len() as u8] + padding
                + words + rest
        }),
    ensures
        decoded(chunk) == Ok::<ColumnView, Error>(ColumnView::Integer(values)),
{
    let data = chunk.data;
    let words = le_bytes(128 * blocks.len(), 4) + blocks_bytes(blocks) + variable_run(tail) + fill;
    let n = words.len() / 4;
    lemma_first_word(n, seq![padding.len() as u8] + padding + words + rest, "a bit packed column");
    assert(data =~= le_bytes(n, 4) + (seq![padding.len() as u8] + padding + words + rest));
    assert(data[4] == padding.len());
    let body = data.skip(5 + data[4]);
    assert(body =~= words + rest);
    lemma_plain_column_comes_back(blocks, tail, fill, words, n);
    lemma_plain_values_fill_the_rows(words, n, values.len());
    assert(body.take((4 * n) as int) =~= words);
    assert(words.take((4 * n) as int) =~= words);
    let all = blocks_values(blocks) + tail;
    assert(plain_values(body, n, values.len()) == Ok::<Seq<u32>, Error>(all));
    reveal(bit_packed_column);
    let read = Seq::new(all.len(), |i: int| signed(all[i] as nat));
    assert forall|i: int| 0 <= i < values.len() implies #[trigger] read[i] == values[i] by {
        lemma_signed(values[i]);
        assert(all[i] == bits_of_int(values[i]));
    }
    assert(read =~= values);
}

/// Numbers laid out back to back, each in `width` bytes, the lowest byte first.
pub open spec fn laid_out(numbers: Seq<nat>, width: nat) -> Seq<u8>
    decreases numbers.len(),
{
    if numbers.len() == 0 {
        Seq::empty()
    } else {
        laid_out(numbers.drop_last(), width) + le_bytes(numbers.last(), width)
    }
}

/// Numbers laid out take their width each.
pub proof fn lemma_laid_out_len(numbers: Seq<nat>, width: nat)
    ensures
        laid_out(numbers, width).len() == numbers.len() * width,
    decreases numbers.len(),
{
    if numbers.len() > 0 {
        lemma_laid_out_len(numbers.drop_last(), width);
        lemma_le_bytes_len(numbers.last(), width);
        assert((numbers.len() - 1) * width + width == numbers.len() * width) by (nonlinear_arith);
    } else {
        assert(numbers.len() * width == 0) by (nonlinear_arith)
            requires
                numbers.len() == 0,
        ;
    }
}

/// A number that was laid out lies its own width behind the one before it.
pub proof fn lemma_laid_out(numbers: Seq<nat>, width: nat, i: int)
    requires
        0 <= i < numbers.len(),
    ensures
        0 <= i * width,
        i * width + width <= numbers.len() * width,
        laid_out(numbers, width).len() == numbers.len() * width,
        laid_out(numbers, width).subrange(i * width, i * width + width) == le_bytes(
            numbers[i],
            width,
        ),
    decreases numbers.len(),
{
    let front = numbers.drop_last();
    lemma_laid_out_len(numbers, width);
    lemma_laid_out_len(front, width);
    lemma_le_bytes_len(numbers.last(), width);
    assert(0 <= i * width && i * width + width <= numbers.len() * width) by (nonlinear_arith)
        requires
            0 <= i < numbers.len(),
    ;
    if i < front.len() {
        lemma_laid_out(front, width, i);
        assert(laid_out(numbers, width).subrange(i * width, i * width + width) =~= laid_out(
            front,
            width,
        ).subrange(i * width, i * width + width));
    } else {
        assert(laid_out(numbers, width).subrange(i * width, i * width + width) =~= le_bytes(
            numbers[i],
            width,
        ));
    }
}

/// Signed numbers laid out back to back, four bytes each.
pub open spec fn int_bytes(values: Seq<i32>) -> Seq<u8> {
    laid_out(Seq::new(values.len(), |i: int| bits_of_int(values[i])), 4)
}

/// The bit patterns of doubles laid out back to back, eight bytes each.
pub open spec fn double_bytes(values: Seq<u64>) -> Seq<u8> {
    laid_out(Seq::new(values.len(), |i: int| values[i] as nat), 8)
}

/// Signed numbers that were laid out are read back.
proof fn lemma_ints_read_back(values: Seq<i32>, rest: Seq<u8>)
    ensures
        int_bytes(values).len() == 4 * values.len(),
        fixed_values::<i32>(int_bytes(values) + rest, values.len()) == values,
{
    let numbers = Seq::new(values.len(), |i: int| bits_of_int(values[i]));
    let data = int_bytes(values) + rest;
    lemma_laid_out_len(numbers, 4);
    let read = fixed_values::<i32>(data, values.len());
    assert forall|i: int| 0 <= i < values.len() implies #[trigger] read[i] == values[i] by {
        lemma_laid_out(numbers, 4, i);
        lemma_signed(values[i]);
        lemma_pow_widths();
        lemma_le_of_le_bytes(numbers[i], 4);
        assert(data.subrange(i * 4, i * 4 + 4) =~= int_bytes(values).subrange(i * 4, i * 4 + 4));
        assert(read[i] == <i32 as Fixed>::of(data.subrange(i * 4, i * 4 + 4)));
    }
    assert(read =~= values);
}

/// Doubles that were laid out are read back.
proof fn lemma_doubles_read_back(values: Seq<u64>, rest: Seq<u8>)
    ensures
        double_bytes(values).len() == 8 * values.len(),
        fixed_values::<u64>(double_bytes(values) + rest, values.len()) == values,
{
    let numbers = Seq::new(values.len(), |i: int| values[i] as nat);
    let data = double_bytes(values) + rest;
    lemma_laid_out_len(numbers, 8);
    let read = fixed_values::<u64>(data, values.len());
    assert forall|i: int| 0 <= i < values.len() implies #[trigger] read[i] == values[i] by {
        lemma_laid_out(numbers, 8, i);
        lemma_pow_widths();
        lemma_le_of_le_bytes(numbers[i], 8);
        assert(data.subrange(i * 8, i * 8 + 8) =~= double_bytes(values).subrange(i * 8, i * 8 + 8));
        assert(read[i] == <u64 as Fixed>::of(data.subrange(i * 8, i * 8 + 8)));
    }
    assert(read =~= values);
}

/// An uncompressed chunk decodes to exactly the numbers that were laid out in it, and one that is a
/// byte short of them is refused.
pub proof fn lemma_uncompressed_chunk_comes_back(
    ints: Seq<i32>,
    doubles: Seq<u64>,
    rest: Seq<u8>,
    chunk: ChunkView,
)
    requires
        chunk.scheme == 0,
    ensures
        chunk.column == ColumnType::Integer && chunk.rows == ints.len() && chunk.data == int_bytes(
            ints,
        ) + rest ==> decoded(chunk) == Ok::<ColumnView, Error>(ColumnView::Integer(ints)),
        chunk.column == ColumnType::Integer && chunk.data.len() < 4 * chunk.rows ==> decoded(
            chunk,
        ) is Err,
        chunk.column == ColumnType::Double && chunk.rows == doubles.len() && chunk.data
            == double_bytes(doubles) + rest ==> decoded(chunk) == Ok::<ColumnView, Error>(
            ColumnView::Double(doubles),
        ),
        chunk.column == ColumnType::Double && chunk.data.len() < 8 * chunk.rows ==> decoded(
            chunk,
        ) is Err,
{
    reveal(fixed_column);
    lemma_ints_read_back(ints, rest);
    lemma_doubles_read_back(doubles, rest);
}

/// A one value chunk decodes to its value in every row.
pub proof fn lemma_one_value_chunk_repeats(number: i32, double: u64, rest: Seq<u8>, chunk: ChunkView)
    requires
        chunk.scheme == 1,
    ensures
        chunk.column == ColumnType::Integer && chunk.data == le_bytes(bits_of_int(number), 4) + rest
            ==> decoded(chunk) == Ok::<ColumnView, Error>(
            ColumnView::Integer(Seq::new(chunk.rows as nat, |i: int| number)),
        ),
        chunk.column == ColumnType::Double && chunk.data == le_bytes(double as nat, 8) + rest
            ==> decoded(chunk) == Ok::<ColumnView, Error>(
            ColumnView::Double(Seq::new(chunk.rows as nat, |i: int| double)),
        ),
{
    reveal(one_column);
    lemma_pow_widths();
    lemma_signed(number);
    lemma_le_bytes_len(bits_of_int(number), 4);
    lemma_le_of_le_bytes(bits_of_int(number), 4);
    lemma_le_bytes_len(double as nat, 8);
    lemma_le_of_le_bytes(double as nat, 8);
    let rows = chunk.rows as nat;
    if chunk.column == ColumnType::Integer && chunk.data == le_bytes(bits_of_int(number), 4) + rest {
        assert(chunk.data.take(4) =~= le_bytes(bits_of_int(number), 4));
        assert(int_column(1, chunk.data, rows, 0)->Ok_0 =~= Seq::new(rows, |i: int| number));
    }
    if chunk.column == ColumnType::Double && chunk.data == le_bytes(double as nat, 8) + rest {
        assert(chunk.data.take(8) =~= le_bytes(double as nat, 8));
        assert(double_column(1, chunk.data, rows, 0)->Ok_0 =~= Seq::new(rows, |i: int| double));
    }
}

/// Whether every code points at an entry.
pub open spec fn codes_point_inside(codes: Seq<i32>, entries: nat) -> bool {
    forall|i: int| 0 <= i < codes.len() ==> 0 <= #[trigger] codes[i] < entries
}

/// The front of a dictionary is read as it was written.
proof fn lemma_dictionary_front(code: u8, entries: Seq<u8>, packed: Seq<u8>, width: nat)
    requires
        entries.len() <= u32::MAX,
        width > 0,
        entries.len() % width == 0,
    ensures
        ({
            let data = seq![code] + le_bytes(entries.len(), 4) + entries + packed;
            &&& dictionary_header(data, width) == Ok::<(u8, nat), Error>((code, entries.len()))
            &&& data.subrange(5, 5 + entries.len() as int) == entries
            &&& data.skip(5 + entries.len() as int) == packed
        }),
{
    reveal(dictionary_header);
    let data = seq![code] + le_bytes(entries.len(), 4) + entries + packed;
    lemma_pow_widths();
    lemma_le_bytes_len(entries.len(), 4);
    lemma_le_of_le_bytes(entries.len(), 4);
    assert(data.subrange(1, 5) =~= le_bytes(entries.len(), 4));
    assert(data.subrange(5, 5 + entries.len() as int) =~= entries);
    assert(data.skip(5 + entries.len() as int) =~= packed);
}

/// A dictionary column of integers holds, in every row, the entry that the row's code points at; and
/// it is refused if one code points at no entry.
pub proof fn lemma_integer_dictionary_comes_back(
    entries: Seq<i32>,
    codes: Seq<i32>,
    code: u8,
    packed: Seq<u8>,
    rows: nat,
    level: nat,
)
    requires
        4 * entries.len() <= u32::MAX,
        level <= 8,
        int_column(code, packed, rows, level + 1) == Ok::<Seq<i32>, Error>(codes),
    ensures
        ({
            let data = seq![code] + le_bytes(4 * entries.len(), 4) + int_bytes(entries) + packed;
            &&& codes_point_inside(codes, entries.len()) ==> int_column(2, data, rows, level)
                == Ok::<Seq<i32>, Error>(
                Seq::new(codes.len(), |i: int| entries[codes[i] as int]),
            )
            &&& !codes_point_inside(codes, entries.len()) ==> int_column(
                2,
                data,
                rows,
                level,
            ) is Err
        }),
{
    let stored = int_bytes(entries);
    let data = seq![code] + le_bytes(4 * entries.len(), 4) + stored + packed;
    lemma_ints_read_back(entries, Seq::empty());
    lemma_dictionary_front(code, stored, packed, 4);
    assert(stored + Seq::<u8>::empty() =~= stored);
    assert(dictionary_entries::<i32>(data, stored.len()) == entries);
    reveal(looked_up);
    if codes_point_inside(codes, entries.len()) {
        assert(int_column(2, data, rows, level)->Ok_0 =~= Seq::new(
            codes.len(),
            |i: int| entries[codes[i] as int],
        ));
    }
}

/// A dictionary column of doubles holds, in every row, the entry that the row's code points at; and it
/// is refused if one code points at no entry.
pub proof fn lemma_double_dictionary_comes_back(
    entries: Seq<u64>,
    codes: Seq<i32>,
    code: u8,
    packed: Seq<u8>,
    rows: nat,
    level: nat,
)
    requires
        8 * entries.len() <= u32::MAX,
        level <= 8,
        int_column(code, packed, rows, level + 1) == Ok::<Seq<i32>, Error>(codes),
    ensures
        ({
            let data = seq![code] + le_bytes(8 * entries.len(), 4) + double_bytes(entries) + packed;
            &&& codes_point_inside(codes, entries.len()) ==> double_column(2, data, rows, level)
                == Ok::<Seq<u64>, Error>(
                Seq::new(codes.len(), |i: int| entries[codes[i] as int]),
            )
            &&& !codes_point_inside(codes, entries.len()) ==> double_column(
                2,
                data,
                rows,
                level,
            ) is Err
        }),
{
    let stored = double_bytes(entries);
    let data = seq![code] + le_bytes(8 * entries.len(), 4) + stored + packed;
    lemma_doubles_read_back(entries, Seq::empty());
    lemma_dictionary_front(code, stored, packed, 8);
    assert(stored + Seq::<u8>::empty() =~= stored);
    assert(dictionary_entries::<u64>(data, stored.len()) == entries);
    reveal(looked_up);
    if codes_point_inside(codes, entries.len()) {
        assert(double_column(2, data, rows, level)->Ok_0 =~= Seq::new(
            codes.len(),
            |i: int| entries[codes[i] as int],
        ));
    }
}

/// How many rows the first `n` runs cover.
pub open spec fn rows_before(counts: Seq<i32>, n: nat) -> int
    decreases n,
{
    if n == 0 {
        0
    } else {
        rows_before(counts, (n - 1) as nat) + counts[n - 1]
    }
}

/// More runs cover no fewer rows.
proof fn lemma_rows_before_grows(counts: Seq<i32>, k: nat, n: nat)
    requires
        k <= n <= counts.len(),
        forall|i: int| 0 <= i < counts.len() ==> 0 <= #[trigger] counts[i],
    ensures
        0 <= rows_before(counts, k) <= rows_before(counts, n),
    decreases n,
{
    if k < n {
        lemma_rows_before_grows(counts, k, (n - 1) as nat);
    } else if n > 0 {
        lemma_rows_before_grows(counts, (n - 1) as nat, (n - 1) as nat);
    }
}

/// Runs that fit in the rows are written out one behind the other.
proof fn lemma_runs_written_out<T>(values: Seq<T>, counts: Seq<i32>, rows: nat, n: nat)
    requires
        n <= counts.len(),
        forall|i: int| 0 <= i < counts.len() ==> 0 <= #[trigger] counts[i],
        rows_before(counts, counts.len()) <= rows,
    ensures
        written_out(values, counts, rows, n) is Ok,
        written_out(values, counts, rows, n)->Ok_0.len() == rows_before(counts, n),
        forall|k: int, j: int|
            0 <= k < n && 0 <= j < counts[k] ==> #[trigger] written_out(
                values,
                counts,
                rows,
                n,
            )->Ok_0[rows_before(counts, k as nat) + j] == values[k],
    decreases n,
{
    lemma_rows_before_grows(counts, n, counts.len());
    if n > 0 {
        let m = (n - 1) as nat;
        lemma_runs_written_out(values, counts, rows, m);
        let front = written_out(values, counts, rows, m)->Ok_0;
        let out = written_out(values, counts, rows, n)->Ok_0;
        assert(0 <= counts[n - 1]);
        assert forall|k: int, j: int| 0 <= k < n && 0 <= j < counts[k] implies #[trigger] out[
            rows_before(counts, k as nat) + j] == values[k] by {
            lemma_rows_before_grows(counts, k as nat, m);
            if k < m {
                lemma_rows_before_grows(counts, (k + 1) as nat, m);
                assert(front[rows_before(counts, k as nat) + j] == values[k]);
            }
        }
    }
}

/// Runs that cover the rows exactly are written out one behind the other.
proof fn lemma_runs_expand<T>(values: Seq<T>, counts: Seq<i32>, rows: nat)
    requires
        values.len() == counts.len(),
        forall|i: int| 0 <= i < counts.len() ==> 0 <= #[trigger] counts[i],
        rows_before(counts, counts.len()) == rows,
    ensures
        expanded(values, counts, rows) is Ok,
        expanded(values, counts, rows)->Ok_0.len() == rows,
        forall|k: int, j: int|
            0 <= k < counts.len() && 0 <= j < counts[k] ==> #[trigger] expanded(
                values,
                counts,
                rows,
            )->Ok_0[rows_before(counts, k as nat) + j] == values[k],
{
    reveal(expanded);
    lemma_runs_written_out(values, counts, rows, counts.len());
}

/// The front of a run length encoding is read as it was written.
proof fn lemma_runs_front(runs: nat, first: Seq<u8>, second: Seq<u8>, codes: (u8, u8), rows: nat)
    requires
        runs <= rows,
        runs <= u32::MAX,
        first.len() <= u32::MAX,
    ensures
        ({
            let data = le_bytes(runs, 4) + le_bytes(first.len(), 4) + seq![codes.0, codes.1] + first
                + second;
            let h = run_header(data, rows);
            &&& h is Ok
            &&& h->Ok_0.runs == runs
            &&& h->Ok_0.offset == first.len()
            &&& h->Ok_0.values == codes.0
            &&& h->Ok_0.counts == codes.1
            &&& data.skip(10) == first + second
            &&& data.skip(10 + first.len() as int) == second
        }),
{
    reveal(run_header);
    let data = le_bytes(runs, 4) + le_bytes(first.len(), 4) + seq![codes.0, codes.1] + first
        + second;
    lemma_pow_widths();
    lemma_le_bytes_len(runs, 4);
    lemma_le_bytes_len(first.len(), 4);
    lemma_le_of_le_bytes(runs, 4);
    lemma_le_of_le_bytes(first.len(), 4);
    assert(data.subrange(0, 4) =~= le_bytes(runs, 4));
    assert(data.subrange(4, 8) =~= le_bytes(first.len(), 4));
    assert(data[8] == codes.0 && data[9] == codes.1);
    assert(data.skip(10) =~= first + second);
    assert(data.skip(10 + first.len() as int) =~= second);
}

/// A run length encoded column of integers holds each value as often as its count says, in the order of
/// the runs.
pub proof fn lemma_integer_runs_come_back(
    values: Seq<i32>,
    counts: Seq<i32>,
    first: Seq<u8>,
    second: Seq<u8>,
    codes: (u8, u8),
    rows: nat,
    level: nat,
)
    requires
        level <= 8,
        values.len() == counts.len(),
        counts.len() <= rows <= u32::MAX,
        first.len() <= u32::MAX,
        forall|i: int| 0 <= i < counts.len() ==> 0 <= #[trigger] counts[i],
        rows_before(counts, counts.len()) == rows,
        int_column(codes.0, first + second, counts.len(), level + 1) == Ok::<Seq<i32>, Error>(
            values,
        ),
        int_column(codes.1, second, counts.len(), level + 1) == Ok::<Seq<i32>, Error>(counts),
    ensures
        ({
            let data = le_bytes(counts.len(), 4) + le_bytes(first.len(), 4)
                + seq![codes.0, codes.1] + first + second;
            let column = int_column(3, data, rows, level);
            &&& column is Ok
            &&& column->Ok_0.len() == rows
            &&& forall|k: int, j: int|
                0 <= k < counts.len() && 0 <= j < counts[k]
                    ==> #[trigger] column->Ok_0[rows_before(counts, k as nat) + j] == values[k]
        }),
{
    lemma_runs_front(counts.len(), first, second, codes, rows);
    lemma_runs_expand(values, counts, rows);
}

/// A run length encoded column of doubles holds each value as often as its count says, in the order of
/// the runs.
pub proof fn lemma_double_runs_come_back(
    values: Seq<u64>,
    counts: Seq<i32>,
    first: Seq<u8>,
    second: Seq<u8>,
    codes: (u8, u8),
    rows: nat,
    level: nat,
)
    requires
        level <= 8,
        values.len() == counts.len(),
        counts.len() <= rows <= u32::MAX,
        first.len() <= u32::MAX,
        forall|i: int| 0 <= i < counts.len() ==> 0 <= #[trigger] counts[i],
        rows_before(counts, counts.len()) == rows,
        double_column(codes.0, first + second, counts.len(), level + 1) == Ok::<Seq<u64>, Error>(
            values,
        ),
        int_column(codes.1, second, counts.len(), level + 1) == Ok::<Seq<i32>, Error>(counts),
    ensures
        ({
            let data = le_bytes(counts.len(), 4) + le_bytes(first.len(), 4)
                + seq![codes.0, codes.1] + first + second;
            let column = double_column(3, data, rows, level);
            &&& column is Ok
            &&& column->Ok_0.len() == rows
            &&& forall|k: int, j: int|
                0 <= k < counts.len() && 0 <= j < counts[k]
                    ==> #[trigger] column->Ok_0[rows_before(counts, k as nat) + j] == values[k]
        }),
{
    lemma_runs_front(counts.len(), first, second, codes, rows);
    lemma_runs_expand(values, counts, rows);
}

/// Byte strings run together.
pub open spec fn joined(texts: Seq<Seq<u8>>) -> Seq<u8>
    decreases texts.len(),
{
    if texts.len() == 0 {
        Seq::empty()
    } else {
        joined(texts.drop_last()) + texts.last()
    }
}

/// Where each byte string starts among those run together, counted from `base`, and where the last ends.
pub open spec fn text_starts(texts: Seq<Seq<u8>>, base: nat) -> Seq<nat> {
    Seq::new(texts.len() + 1, |i: int| base + joined(texts.take(i)).len())
}

/// A byte string lies where those before it end.
pub proof fn lemma_joined_at(texts: Seq<Seq<u8>>, i: int)
    requires
        0 <= i < texts.len(),
    ensures
        joined(texts.take(i + 1)).len() == joined(texts.take(i)).len() + texts[i].len(),
        joined(texts.take(i + 1)).len() <= joined(texts).len(),
        joined(texts).subrange(
            joined(texts.take(i)).len() as int,
            joined(texts.take(i + 1)).len() as int,
        ) == texts[i],
    decreases texts.len(),
{
    let front = texts.drop_last();
    assert(texts.take(i + 1).drop_last() =~= texts.take(i));
    if i < front.len() {
        lemma_joined_at(front, i);
        assert(front.take(i) =~= texts.take(i));
        assert(front.take(i + 1) =~= texts.take(i + 1));
        assert(joined(texts).subrange(
            joined(texts.take(i)).len() as int,
            joined(texts.take(i + 1)).len() as int,
        ) =~= joined(front).subrange(
            joined(texts.take(i)).len() as int,
            joined(texts.take(i + 1)).len() as int,
        ));
    } else {
        assert(texts.take(i) =~= front);
        assert(texts.take(i + 1) =~= texts);
        assert(joined(texts).subrange(joined(front).len() as int, joined(texts).len() as int)
            =~= texts[i]);
    }
}

/// The first strings take no more bytes than all of them.
pub proof fn lemma_joined_grows(texts: Seq<Seq<u8>>, i: int)
    requires
        0 <= i <= texts.len(),
    ensures
        joined(texts.take(i)).len() <= joined(texts).len(),
{
    if i < texts.len() {
        lemma_joined_at(texts, i);
    } else {
        assert(texts.take(i) =~= texts);
    }
}

/// Offsets that were laid out are read back, counted from the start of the strings.
proof fn lemma_offsets_rebased(texts: Seq<Seq<u8>>, body: Seq<u8>, n: nat)
    requires
        n <= texts.len() + 1,
        body == laid_out(text_starts(texts, 4 * (texts.len() + 1)), 4) + joined(texts),
        body.len() <= u32::MAX,
    ensures
        body.len() == 4 * (texts.len() + 1) + joined(texts).len(),
        rebased(body, 4 * (texts.len() + 1) as int, n) == Ok::<Seq<u32>, Error>(
            Seq::new(n, |i: int| joined(texts.take(i)).len() as u32),
        ),
    decreases n,
{
    let header = 4 * (texts.len() + 1);
    let starts = text_starts(texts, header);
    let offsets = Seq::new(n, |i: int| joined(texts.take(i)).len() as u32);
    lemma_laid_out_len(starts, 4);
    if n > 0 {
        let i = n - 1;
        lemma_offsets_rebased(texts, body, i as nat);
        lemma_laid_out(starts, 4, i);
        lemma_joined_grows(texts, i);
        lemma_pow_widths();
        lemma_le_of_le_bytes(starts[i], 4);
        assert(body.subrange(4 * i, 4 * i + 4) =~= laid_out(starts, 4).subrange(i * 4, i * 4 + 4));
        assert(Seq::new(i as nat, |i: int| joined(texts.take(i)).len() as u32).push(
            joined(texts.take(i)).len() as u32,
        ) =~= offsets);
    } else {
        assert(offsets =~= Seq::<u32>::empty());
    }
}

/// An uncompressed chunk of strings decodes to exactly the strings that were written into it, each in
/// its row.
pub proof fn lemma_uncompressed_text_comes_back(texts: Seq<Seq<u8>>, rest: Seq<u8>, chunk: ChunkView)
    requires
        chunk.column == ColumnType::String,
        chunk.scheme == 0,
        chunk.rows == texts.len(),
        ({
            let body = laid_out(text_starts(texts, 4 * (texts.len() + 1)), 4) + joined(texts);
            &&& body.len() <= u32::MAX
            &&& chunk.data == le_bytes(body.len(), 4) + body + rest
        }),
    ensures
        decoded(chunk) is Ok,
        decoded(chunk)->Ok_0 is Text,
        decoded(chunk)->Ok_0->Text_0.rows() == texts.len(),
        forall|i: int|
            0 <= i < texts.len() ==> #[trigger] decoded(chunk)->Ok_0->Text_0.row(i) == Some(texts[i]),
{
    let body = laid_out(text_starts(texts, 4 * (texts.len() + 1)), 4) + joined(texts);
    let data = chunk.data;
    let header = 4 * (texts.len() + 1);
    lemma_first_word(body.len(), body + rest, "an uncompressed string column");
    assert(data =~= le_bytes(body.len(), 4) + (body + rest));
    assert(data.subrange(4, 4 + body.len() as int) =~= body);
    lemma_offsets_rebased(texts, body, texts.len() + 1);
    assert(body.skip(header as int) =~= joined(texts));
    reveal(plain_text);
    let view = decoded(chunk)->Ok_0->Text_0;
    assert forall|i: int| 0 <= i < texts.len() implies #[trigger] view.row(i) == Some(texts[i]) by {
        lemma_joined_at(texts, i);
        lemma_joined_grows(texts, i);
    }
}

/// A one value chunk of strings decodes to its string in every row, as long as the offsets fit in their
/// field.
pub proof fn lemma_one_text_chunk_repeats(value: Seq<u8>, rest: Seq<u8>, chunk: ChunkView)
    requires
        chunk.column == ColumnType::String,
        chunk.scheme == 1,
        chunk.rows * value.len() <= u32::MAX,
        value.len() <= u32::MAX,
        chunk.data == le_bytes(value.len(), 4) + value + rest,
    ensures
        decoded(chunk) is Ok,
        decoded(chunk)->Ok_0 is Text,
        decoded(chunk)->Ok_0->Text_0.rows() == chunk.rows,
        forall|i: int|
            0 <= i < chunk.rows ==> #[trigger] decoded(chunk)->Ok_0->Text_0.row(i) == Some(value),
{
    let data = chunk.data;
    lemma_first_word(value.len(), value + rest, "a one value string column");
    assert(data =~= le_bytes(value.len(), 4) + (value + rest));
    assert(data.subrange(4, 4 + value.len() as int) =~= value);
    assert forall|i: int| 0 <= i < chunk.rows implies #[trigger] decoded(
        chunk,
    )->Ok_0->Text_0.row(i) == Some(value) by {
        reveal(same_text);
        lemma_same_text_row(data, chunk.rows as nat, i as nat);
    }
    reveal(same_text);
}

/// The offsets of a one value chunk of strings are those of its repetitions, as far as their field can
/// hold them, and the largest it can hold from there on.
pub proof fn lemma_one_text_offsets_saturate(value: Seq<u8>, rest: Seq<u8>, chunk: ChunkView, i: int)
    requires
        chunk.column == ColumnType::String,
        chunk.scheme == 1,
        value.len() <= u32::MAX,
        chunk.data == le_bytes(value.len(), 4) + value + rest,
        0 <= i <= chunk.rows,
    ensures
        decoded(chunk) is Ok,
        decoded(chunk)->Ok_0 is Text,
        i * value.len() <= u32::MAX ==> decoded(chunk)->Ok_0->Text_0.offsets[i] == i * value.len(),
        i * value.len() > u32::MAX ==> decoded(chunk)->Ok_0->Text_0.offsets[i] == u32::MAX,
{
    let data = chunk.data;
    lemma_first_word(value.len(), value + rest, "a one value string column");
    assert(data =~= le_bytes(value.len(), 4) + (value + rest));
    reveal(same_text);
    assert(0 <= i * value.len()) by (nonlinear_arith)
        requires
            0 <= i,
    ;
}

/// What runs that were written out add up to.
proof fn lemma_written_out_adds_up<T>(values: Seq<T>, counts: Seq<i32>, rows: nat, n: nat)
    requires
        n <= counts.len(),
        written_out(values, counts, rows, n) is Ok,
    ensures
        forall|i: int| 0 <= i < n ==> 0 <= #[trigger] counts[i],
        written_out(values, counts, rows, n)->Ok_0.len() == rows_before(counts, n),
    decreases n,
{
    if n > 0 {
        lemma_written_out_adds_up(values, counts, rows, (n - 1) as nat);
    }
}

/// Runs are taken exactly when none of them is a negative number of rows long and together they cover the
/// rows, no more and no fewer.
pub proof fn lemma_runs_cover_the_rows_or_are_refused<T>(
    values: Seq<T>,
    counts: Seq<i32>,
    rows: nat,
)
    requires
        values.len() == counts.len(),
    ensures
        expanded(values, counts, rows) is Ok <==> rows_before(counts, counts.len()) == rows
            && forall|i: int| 0 <= i < counts.len() ==> 0 <= #[trigger] counts[i],
{
    if expanded(values, counts, rows) is Ok {
        reveal(expanded);
        lemma_written_out_adds_up(values, counts, rows, counts.len());
    }
    if rows_before(counts, counts.len()) == rows && forall|i: int|
        0 <= i < counts.len() ==> 0 <= #[trigger] counts[i] {
        lemma_runs_expand(values, counts, rows);
    }
}

/// An integer chunk is decoded under the schemes 0, 1, 2, 3 and 5, a double one under 0, 1, 2 and 3, and
/// one of strings under 0 and 1. Under any other it is refused: as one that is not supported where the
/// code is assigned, and otherwise as one that is not known.
pub proof fn lemma_other_schemes_are_refused(chunk: ChunkView)
    ensures
        ({
            let code = chunk.scheme;
            let column = chunk.column;
            let refused = match column {
                ColumnType::Integer => code == 4 || code > 5,
                ColumnType::Double => code > 3,
                ColumnType::String => code > 1,
            };
            let assigned = match column {
                ColumnType::Integer => code <= 5 || 25 <= code <= 31,
                ColumnType::Double => code <= 5 || code == 28 || code == 29 || code == 31,
                ColumnType::String => code <= 3 || code == 30 || code == 31,
            };
            &&& refused && assigned ==> decoded(chunk) == Err::<ColumnView, Error>(
                Error::UnsupportedScheme { column, code },
            )
            &&& refused && !assigned ==> decoded(chunk) == Err::<ColumnView, Error>(
                Error::UnknownScheme { column, code },
            )
        }),
{
}

/// A cascade may go eight levels down and no further: behind them nothing is decoded, and on the last of
/// them an uncompressed column still is.
pub proof fn lemma_cascades_end(code: u8, data: Seq<u8>, rows: nat, level: nat)
    ensures
        level > 8 ==> int_column(code, data, rows, level) is Err,
        level > 8 ==> double_column(code, data, rows, level) is Err,
        level > 8 ==> text_column(code, data, rows, level) is Err,
        level <= 8 && 4 * rows <= data.len() ==> int_column(0, data, rows, level) is Ok,
        level <= 8 && 8 * rows <= data.len() ==> double_column(0, data, rows, level) is Ok,
{
    reveal(fixed_column);
}

/// What is in front of a column is refused where it does not add up: a bit packed one whose padding runs
/// off the end, a dictionary whose entries do or are not whole, and a run length encoding that has more
/// runs than rows or whose values run off the end.
pub proof fn lemma_broken_fronts_are_refused(data: Seq<u8>, rows: nat, level: nat)
    requires
        level <= 8,
        data.len() >= 10,
    ensures
        5 + data[4] > data.len() ==> int_column(5, data, rows, level) is Err,
        ({
            let size = le(data.subrange(1, 5));
            &&& 5 + size > data.len() || size % 4 != 0 ==> int_column(2, data, rows, level) is Err
            &&& 5 + size > data.len() || size % 8 != 0 ==> double_column(
                2,
                data,
                rows,
                level,
            ) is Err
        }),
        ({
            let runs = le(data.subrange(0, 4));
            let offset = le(data.subrange(4, 8));
            runs > rows || 10 + offset > data.len() ==> int_column(3, data, rows, level) is Err
                && double_column(3, data, rows, level) is Err
        }),
{
    reveal(bit_packed_column);
    reveal(dictionary_header);
    reveal(run_header);
    lemma_le_4(data.subrange(0, 4));
    lemma_le_4(data.subrange(1, 5));
    lemma_le_4(data.subrange(4, 8));
}

} // verus!
