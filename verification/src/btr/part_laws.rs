//! What was written into a part comes back.
use vstd::prelude::*;

use crate::btr::column_laws::{
    joined, laid_out, lemma_joined_at, lemma_joined_grows, lemma_laid_out, lemma_laid_out_len,
};
use crate::btr::error::Error;
use crate::btr::part::{chunk_of, word_at, ChunkView, ColumnType, PartView};
use crate::bytes::{le, le_bytes, lemma_le_bytes_len, lemma_le_of_le_bytes, lemma_pow_widths};

verus! {

/// The byte that stands for a column type in a chunk header.
pub open spec fn column_byte(column: ColumnType) -> u8 {
    match column {
        ColumnType::Integer => 0,
        ColumnType::Double => 1,
        ColumnType::String => 2,
    }
}

/// A chunk as it was written: twelve bytes that are its scheme, its nullmap encoding, its column type, a
/// byte that means nothing, the length of its data and its rows; then its data and its nullmap.
pub open spec fn chunk_bytes(chunk: ChunkView, unread: u8) -> Seq<u8> {
    seq![chunk.scheme, chunk.nullmap.code, column_byte(chunk.column), unread] + le_bytes(
        chunk.data.len(),
        4,
    ) + le_bytes(chunk.rows as nat, 4) + chunk.data + chunk.nullmap.bytes
}

/// A chunk that was written is read from its header and what is behind it.
proof fn lemma_chunk_reads_back(chunk: ChunkView, unread: u8)
    requires
        chunk.nullmap.rows == chunk.rows,
        chunk.data.len() <= u32::MAX,
    ensures
        chunk_bytes(chunk, unread).len() >= 12,
        chunk_of(chunk_bytes(chunk, unread).take(12), chunk_bytes(chunk, unread).skip(12)) == Ok::<
            ChunkView,
            Error,
        >(chunk),
{
    let all = chunk_bytes(chunk, unread);
    let at = chunk.data.len();
    lemma_pow_widths();
    lemma_le_bytes_len(at, 4);
    lemma_le_bytes_len(chunk.rows as nat, 4);
    lemma_le_of_le_bytes(at, 4);
    lemma_le_of_le_bytes(chunk.rows as nat, 4);
    let header = all.take(12);
    let body = all.skip(12);
    assert(header.subrange(4, 8) =~= le_bytes(at, 4));
    assert(header.subrange(8, 12) =~= le_bytes(chunk.rows as nat, 4));
    assert(header[0] == chunk.scheme && header[1] == chunk.nullmap.code && header[2] == column_byte(
        chunk.column,
    ));
    assert(body.take(at as int) =~= chunk.data);
    assert(body.skip(at as int) =~= chunk.nullmap.bytes);
}

/// Chunks as bytes, each with its byte that means nothing.
pub open spec fn written_chunks(chunks: Seq<ChunkView>, unread: Seq<u8>) -> Seq<Seq<u8>> {
    Seq::new(chunks.len(), |i: int| chunk_bytes(chunks[i], unread[i]))
}

/// Where each chunk starts, counted from the start of the part.
pub open spec fn chunk_starts(written: Seq<Seq<u8>>, gap: nat) -> Seq<nat> {
    Seq::new(written.len(), |i: int| 4 + 4 * written.len() + gap + joined(written.take(i)).len())
}

/// A part holds exactly the chunks that were written into it, each under its index, whatever lies
/// between the offsets and the first of them.
pub proof fn lemma_part_comes_back(
    chunks: Seq<ChunkView>,
    unread: Seq<u8>,
    gap: Seq<u8>,
    bytes: Seq<u8>,
    index: u32,
)
    requires
        chunks.len() <= u32::MAX,
        forall|i: int|
            0 <= i < chunks.len() ==> (#[trigger] chunks[i]).nullmap.rows == chunks[i].rows,
        ({
            let written = written_chunks(chunks, unread);
            bytes == le_bytes(chunks.len(), 4) + laid_out(chunk_starts(written, gap.len()), 4) + gap
                + joined(written)
        }),
        bytes.len() <= u32::MAX,
    ensures
        PartView::of(bytes) == Ok::<PartView, Error>(
            PartView { bytes, count: chunks.len() as u32 },
        ),
        index < chunks.len() ==> PartView::of(bytes)->Ok_0.chunk(index) == Ok::<ChunkView, Error>(
            chunks[index as int],
        ),
        index >= chunks.len() ==> PartView::of(bytes)->Ok_0.chunk(index) is Err,
{
    let n = chunks.len();
    let written = written_chunks(chunks, unread);
    let starts = chunk_starts(written, gap.len());
    let part = PartView { bytes, count: n as u32 };
    let base = 4 + 4 * n + gap.len();
    lemma_pow_widths();
    lemma_le_bytes_len(n, 4);
    lemma_le_of_le_bytes(n, 4);
    lemma_laid_out_len(starts, 4);
    assert(bytes.subrange(0, 4) =~= le_bytes(n, 4));
    assert(word_at(bytes, 0, "the chunk count") == Ok::<u32, Error>(n as u32));
    if index < n {
        let k = index as int;
        lemma_start(written, gap, bytes, k);
        if k + 1 < n {
            lemma_start(written, gap, bytes, k + 1);
        } else {
            assert(written.take(k + 1) =~= written);
        }
        lemma_joined_at(written, k);
        let from = joined(written.take(k)).len() as int;
        let to = joined(written.take(k + 1)).len() as int;
        assert(part.start(index) == base + from);
        assert(part.end(index) == base + to);
        assert(written[k] == chunk_bytes(chunks[k], unread[k]));
        assert(chunks[k].nullmap.rows == chunks[k].rows);
        assert(chunks[k].data.len() <= written[k].len());
        lemma_chunk_reads_back(chunks[k], unread[k]);
        assert(joined(written).subrange(from, to) == written[k]);
        assert(bytes.subrange(base + from, base + from + 12) =~= joined(written).subrange(
            from,
            to,
        ).take(12));
        assert(bytes.subrange(base + from + 12, base + to) =~= joined(written).subrange(
            from,
            to,
        ).skip(12));
    }
}

/// The offset of a chunk is where it starts.
proof fn lemma_start(written: Seq<Seq<u8>>, gap: Seq<u8>, bytes: Seq<u8>, k: int)
    requires
        0 <= k < written.len(),
        bytes == le_bytes(written.len(), 4) + laid_out(chunk_starts(written, gap.len()), 4) + gap
            + joined(written),
        bytes.len() <= u32::MAX,
    ensures
        le(bytes.subrange(4 + 4 * k, 8 + 4 * k)) == 4 + 4 * written.len() + gap.len()
            + joined(written.take(k)).len(),
{
    let starts = chunk_starts(written, gap.len());
    lemma_le_bytes_len(written.len(), 4);
    lemma_laid_out(starts, 4, k);
    lemma_joined_grows(written, k);
    lemma_pow_widths();
    lemma_le_of_le_bytes(starts[k], 4);
    assert(bytes.subrange(4 + 4 * k, 8 + 4 * k) =~= laid_out(starts, 4).subrange(k * 4, k * 4 + 4));
}

/// A chunk is refused where it has no room for its twelve bytes of header before the next one starts,
/// where it ends past the end of the part, where its column type is none of the three, and where its data
/// would be longer than it is. Otherwise it is read.
pub proof fn lemma_a_chunk_is_read_exactly_when_it_lies_in_the_part(part: PartView, index: u32)
    requires
        part.wf(),
        index < part.count,
    ensures
        ({
            let b = part.bytes;
            let start = le(b.subrange(4 + 4 * index, 8 + 4 * index)) as int;
            let end = if index + 1 == part.count {
                b.len() as int
            } else {
                le(b.subrange(8 + 4 * index, 12 + 4 * index)) as int
            };
            part.chunk(index) is Ok <==> start + 12 <= end <= b.len() && b[start + 2] <= 2
                && start + 12 + le(b.subrange(start + 4, start + 8)) <= end
        }),
{
    let b = part.bytes;
    let start = part.start(index);
    let end = part.end(index);
    if start + 12 <= end <= b.len() {
        let header = b.subrange(start, start + 12);
        assert(header.subrange(4, 8) =~= b.subrange(start + 4, start + 8));
        assert(header[2] == b[start + 2]);
    }
}

} // verus!
