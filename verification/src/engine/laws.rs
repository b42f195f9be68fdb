//! What a query gets of what it asked for.
use vstd::prelude::*;
use vstd::utf8::encode_utf8;

use crate::engine::chunks::columns_wanted;
use crate::engine::handles::terminated;
use crate::engine::table::{
    bad_column, lemma_pieces_cover_the_rows, piece_len, piece_start, pieces, pushed, Error,
    PushdownView, TableView,
};

verus! {

/// Wherever a projection is applied, the query gets the columns it asked for in the order it asked for
/// them: the `i`th column that the decoder is told or that the host takes is the `i`th index. It is the
/// decoder that is told exactly when the decoder does projections.
pub proof fn lemma_projection_keeps_its_order(t: TableView, indices: Seq<usize>)
    requires
        pushed(t, Some(indices)) is Ok,
    ensures
        match pushed(t, Some(indices))->Ok_0 {
            PushdownView::Everything => false,
            PushdownView::Decoder(told) => t.pushes_projection && told.len() == indices.len()
                && forall|i: int| 0 <= i < indices.len() ==> #[trigger] told[i] == indices[i],
            PushdownView::Host(taken) => !t.pushes_projection && taken.len() == indices.len()
                && forall|i: int| 0 <= i < indices.len() ==> #[trigger] taken[i] == indices[i],
        },
{
    lemma_bad_column(indices, t.columns, indices.len());
    if t.pushes_projection {
        let told = pushed(t, Some(indices))->Ok_0->Decoder_0;
        assert forall|i: int| 0 <= i < indices.len() implies #[trigger] told[i] == indices[i] by {
            assert(indices[i] <= u32::MAX);
        }
    }
}

/// Whether an index is one of some columns and can be told to a decoder.
pub open spec fn is_column(index: usize, columns: usize) -> bool {
    index < columns && index <= u32::MAX
}

/// The first bad index is the first one that is not a column.
proof fn lemma_bad_column(indices: Seq<usize>, columns: usize, n: nat)
    requires
        n <= indices.len(),
    ensures
        bad_column(indices, columns, n) is None <==> forall|i: int|
            0 <= i < n ==> is_column(#[trigger] indices[i], columns),
        bad_column(indices, columns, n) is Some ==> exists|i: int|
            0 <= i < n && #[trigger] indices[i] == bad_column(indices, columns, n)->Some_0
                && !is_column(indices[i], columns) && forall|j: int|
                0 <= j < i ==> is_column(#[trigger] indices[j], columns),
    decreases n,
{
    if n > 0 {
        lemma_bad_column(indices, columns, (n - 1) as nat);
        if bad_column(indices, columns, (n - 1) as nat) is None {
            if bad_column(indices, columns, n) is Some {
                assert(indices[n - 1] == bad_column(indices, columns, n)->Some_0);
                assert(!is_column(indices[n - 1], columns));
            }
        } else {
            let i = choose|i: int|
                0 <= i < n - 1 && #[trigger] indices[i] == bad_column(
                    indices,
                    columns,
                    (n - 1) as nat,
                )->Some_0 && !is_column(indices[i], columns) && forall|j: int|
                    0 <= j < i ==> is_column(#[trigger] indices[j], columns);
            assert(indices[i] == bad_column(indices, columns, n)->Some_0);
        }
    }
}

/// A projection is refused exactly when one of its indices is not a column, and then by the first that
/// is not. No projection asks for everything.
pub proof fn lemma_projection_is_refused_by_its_first_bad_index(t: TableView, indices: Seq<usize>)
    ensures
        pushed(t, None) == Ok::<PushdownView, Error>(PushdownView::Everything),
        pushed(t, Some(indices)) is Ok <==> forall|i: int|
            0 <= i < indices.len() ==> is_column(#[trigger] indices[i], t.columns),
        pushed(t, Some(indices)) is Err ==> exists|i: int|
            0 <= i < indices.len() && pushed(t, Some(indices)) == Err::<PushdownView, Error>(
                Error::Projection { column: #[trigger] indices[i], columns: t.columns },
            ) && !is_column(indices[i], t.columns) && forall|j: int|
                0 <= j < i ==> is_column(#[trigger] indices[j], t.columns),
{
    lemma_bad_column(indices, t.columns, indices.len());
    if pushed(t, Some(indices)) is Err {
        let column = bad_column(indices, t.columns, indices.len())->Some_0;
        let i = choose|i: int|
            0 <= i < indices.len() && #[trigger] indices[i] == column && !is_column(
                indices[i],
                t.columns,
            ) && forall|j: int| 0 <= j < i ==> is_column(#[trigger] indices[j], t.columns);
        assert(pushed(t, Some(indices)) == Err::<PushdownView, Error>(
            Error::Projection { column: indices[i], columns: t.columns },
        ));
    }
}

/// Rows are cut into at least one piece and no more than were wanted; never into so many that one fewer
/// would do at 8192 rows a piece; and into fewer than were wanted only where that many are enough.
pub proof fn lemma_pieces_are_worth_their_rows(rows: u64, wanted: usize)
    ensures
        1 <= pieces(rows, wanted),
        pieces(rows, wanted) <= wanted || pieces(rows, wanted) == 1,
        pieces(rows, wanted) > 1 ==> 8192 * (pieces(rows, wanted) - 1) < rows,
        pieces(rows, wanted) < wanted ==> rows <= 8192 * pieces(rows, wanted),
{
}

/// The ranges that rows are cut into start at the first row, each where the one before it ends, and end
/// at the last row; and the longer ones come first, by one row at most.
pub proof fn lemma_ranges_cover_the_rows_in_order(
    rows: u64,
    wanted: usize,
    parts: Seq<(u64, u64)>,
)
    requires
        parts.len() == pieces(rows, wanted),
        forall|i: int|
            0 <= i < parts.len() ==> (#[trigger] parts[i]).0 == piece_start(
                rows as nat,
                parts.len(),
                i,
            ) && parts[i].1 == piece_len(rows as nat, parts.len(), i),
    ensures
        parts[0].0 == 0,
        parts.last().0 + parts.last().1 == rows,
        forall|i: int, j: int|
            0 <= i && j == i + 1 && j < parts.len() ==> (#[trigger] parts[j]).0 == (
            #[trigger] parts[i]).0 + parts[i].1,
        forall|i: int, j: int|
            0 <= i <= j < parts.len() ==> (#[trigger] parts[j]).1 <= (#[trigger] parts[i]).1
                <= parts[j].1 + 1,
{
    let n = parts.len();
    lemma_pieces_are_worth_their_rows(rows, wanted);
    lemma_pieces_cover_the_rows(rows as nat, n, n - 1);
    assert(parts[n - 1].0 + parts[n - 1].1 == rows);
    assert forall|i: int, j: int| 0 <= i && j == i + 1 && j < n implies (#[trigger] parts[j]).0 == (
    #[trigger] parts[i]).0 + parts[i].1 by {
        lemma_pieces_cover_the_rows(rows as nat, n, i);
    }
}

/// A query reads the columns it asked for in the order it asked for them. One that asked for none reads
/// the first, where there is one.
pub proof fn lemma_the_columns_asked_for_are_read(columns: Seq<u32>, width: usize)
    ensures
        columns.len() > 0 ==> columns_wanted(columns, width).len() == columns.len(),
        forall|i: int|
            0 <= i < columns.len() ==> #[trigger] columns_wanted(columns, width)[i] == columns[i],
        columns.len() == 0 && width > 0 ==> columns_wanted(columns, width) == seq![0u32],
        columns.len() == 0 && width == 0 ==> columns_wanted(columns, width).len() == 0,
{
}

/// Text for a C caller is its bytes with one nul, at the end; and there is none exactly when the text
/// holds a nul of its own.
pub proof fn lemma_one_nul_ends_the_text(text: Seq<char>)
    ensures
        ({
            let bytes = encode_utf8(text);
            let r = terminated(text);
            &&& r is None <==> exists|i: int| 0 <= i < bytes.len() && #[trigger] bytes[i] == 0
            &&& r is Some ==> {
                let b = r->Some_0;
                &&& b.len() == bytes.len() + 1
                &&& b.last() == 0
                &&& b.take(bytes.len() as int) == bytes
                &&& forall|i: int| 0 <= i < bytes.len() ==> #[trigger] b[i] != 0
            }
        }),
{
    let bytes = encode_utf8(text);
    if bytes.contains(0u8) {
        let i = choose|i: int| 0 <= i < bytes.len() && bytes[i] == 0u8;
        assert(bytes[i] == 0);
    } else {
        let b = bytes.push(0u8);
        assert(b.take(bytes.len() as int) =~= bytes);
        assert forall|i: int| 0 <= i < bytes.len() implies #[trigger] b[i] != 0 by {
            if b[i] == 0 {
                assert(bytes[i] == 0u8);
            }
        }
        assert forall|i: int| 0 <= i < bytes.len() implies #[trigger] bytes[i] != 0 by {
            if bytes[i] == 0 {
                assert(bytes.contains(0u8));
            }
        }
    }
}

} // verus!
