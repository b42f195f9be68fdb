//! The framing: a column part, and the chunks inside it.
//!
//! A part is a count of chunks, an offset per chunk from the start of the part, and the chunks. There
//! may be a gap between the offsets and the first chunk. Each chunk starts with twelve bytes: the
//! scheme, the nullmap encoding, the column type, a byte that is ignored because it holds whatever was
//! in the writer's buffer, where the nullmap starts counted from the end of the header, and the number
//! of rows. The scheme's own bytes follow, and then the nullmap.
use vstd::prelude::*;

use crate::btr::error::{Error, Result};
use crate::btr::nullmap::{Nullmap, NullmapView};
use crate::bytes::{le, lemma_le_4, u32_of};

verus! {

/// What a column holds.
#[derive(Debug, Clone, Copy, PartialEq, Eq, Hash, Structural)]
pub enum ColumnType {
    /// Signed 32 bit integers.
    Integer,
    /// 64 bit floating point.
    Double,
    /// Byte strings.
    String,
}

/// The column type a byte stands for.
pub open spec fn column_type_of(code: u8) -> Result<ColumnType> {
    if code == 0 {
        Ok(ColumnType::Integer)
    } else if code == 1 {
        Ok(ColumnType::Double)
    } else if code == 2 {
        Ok(ColumnType::String)
    } else {
        Err(Error::UnknownColumnType { code })
    }
}

/// What a column type prints as.
pub open spec fn column_type_name(column: ColumnType) -> &'static str {
    match column {
        ColumnType::Integer => "integer",
        ColumnType::Double => "double",
        ColumnType::String => "string",
    }
}

impl ColumnType {
    /// Reads the column type byte from a chunk header.
    fn from_code(code: u8) -> (r: Result<Self>)
        ensures
            r == column_type_of(code),
    {
        match code {
            0 => Ok(ColumnType::Integer),
            1 => Ok(ColumnType::Double),
            2 => Ok(ColumnType::String),
            _ => Err(Error::UnknownColumnType { code }),
        }
    }

    /// What this column type prints as.
    pub fn name(&self) -> (r: &'static str)
        ensures
            r == column_type_name(*self),
    {
        match self {
            ColumnType::Integer => "integer",
            ColumnType::Double => "double",
            ColumnType::String => "string",
        }
    }
}

/// How long a chunk header is.
pub const HEADER: usize = 12;

/// A length that saturates at what a machine word can hold.
pub open spec fn sat(n: int) -> usize {
    if n > usize::MAX {
        usize::MAX
    } else {
        n as usize
    }
}

/// The four byte number at an offset.
pub open spec fn word_at(bytes: Seq<u8>, at: int, what: &'static str) -> Result<u32> {
    if at + 4 > bytes.len() {
        Err(
            Error::Truncated {
                what,
                from: sat(at),
                to: sat(at + 4),
                len: bytes.len() as usize,
            },
        )
    } else {
        Ok(le(bytes.subrange(at, at + 4)) as u32)
    }
}

/// What a [`Part`] holds.
pub ghost struct PartView {
    /// The whole part.
    pub bytes: Seq<u8>,
    /// How many chunks it says it has.
    pub count: u32,
}

/// What a [`Chunk`] holds.
pub ghost struct ChunkView {
    /// What the column holds.
    pub column: ColumnType,
    /// How it was compressed.
    pub scheme: u8,
    /// How many rows there are.
    pub rows: u32,
    /// The scheme's own bytes.
    pub data: Seq<u8>,
    /// The nullmap.
    pub nullmap: NullmapView,
}

impl PartView {
    /// The part a byte string describes.
    pub open spec fn of(bytes: Seq<u8>) -> Result<PartView> {
        match word_at(bytes, 0, "the chunk count") {
            Err(e) => Err(e),
            Ok(count) => if 4 + 4 * count > bytes.len() {
                Err(
                    Error::Truncated {
                        what: "the offset table",
                        from: 4,
                        to: sat(4 + 4 * count),
                        len: bytes.len() as usize,
                    },
                )
            } else {
                Ok(PartView { bytes, count })
            },
        }
    }

    /// Whether the offset table is there.
    pub open spec fn wf(self) -> bool {
        4 + 4 * self.count <= self.bytes.len() <= usize::MAX
    }

    /// Where a chunk starts.
    pub open spec fn start(self, index: u32) -> int {
        le(self.bytes.subrange(4 + 4 * index, 8 + 4 * index)) as int
    }

    /// Where a chunk ends, which is where the next one starts or where the part ends.
    pub open spec fn end(self, index: u32) -> int {
        if index + 1 == self.count {
            self.bytes.len() as int
        } else {
            self.start((index + 1) as u32)
        }
    }

    /// One chunk.
    pub open spec fn chunk(self, index: u32) -> Result<ChunkView> {
        let start = self.start(index);
        let end = self.end(index);
        let len = self.bytes.len();
        if index >= self.count {
            Err(Error::NoSuchChunk { index, count: self.count })
        } else if end < start + HEADER {
            Err(Error::Overlapping { index, start: start as usize, end: end as usize })
        } else if start + HEADER > len {
            Err(
                Error::Truncated {
                    what: "a chunk header",
                    from: start as usize,
                    to: (start + HEADER) as usize,
                    len: len as usize,
                },
            )
        } else if end > len {
            Err(
                Error::Truncated {
                    what: "a chunk",
                    from: (start + HEADER) as usize,
                    to: end as usize,
                    len: len as usize,
                },
            )
        } else {
            chunk_of(
                self.bytes.subrange(start, start + HEADER),
                self.bytes.subrange(start + HEADER, end),
            )
        }
    }
}

/// The chunk that a header and the bytes after it describe.
pub open spec fn chunk_of(header: Seq<u8>, body: Seq<u8>) -> Result<ChunkView> {
    let at = le(header.subrange(4, 8)) as int;
    let rows = le(header.subrange(8, 12)) as u32;
    match column_type_of(header[2]) {
        Err(e) => Err(e),
        Ok(column) => if at > body.len() {
            Err(
                Error::Overrun {
                    what: "the nullmap offset",
                    claimed: at as usize,
                    available: body.len() as usize,
                },
            )
        } else {
            Ok(
                ChunkView {
                    column,
                    scheme: header[0],
                    rows,
                    data: body.take(at),
                    nullmap: NullmapView { code: header[1], rows, bytes: body.skip(at) },
                },
            )
        },
    }
}

/// A column part, borrowed.
///
/// A part that claims a billion chunks has to be large enough to hold a billion offsets before any of
/// them can be read.
#[derive(Debug, Clone, Copy)]
pub struct Part<'a> {
    bytes: &'a [u8],
    count: u32,
}

impl<'a> View for Part<'a> {
    type V = PartView;

    closed spec fn view(&self) -> PartView {
        PartView { bytes: self.bytes@, count: self.count }
    }
}

/// One chunk of one column.
#[derive(Debug, Clone, Copy)]
pub struct Chunk<'a> {
    column: ColumnType,
    scheme: u8,
    rows: u32,
    data: &'a [u8],
    nullmap: Nullmap<'a>,
}

impl<'a> View for Chunk<'a> {
    type V = ChunkView;

    closed spec fn view(&self) -> ChunkView {
        ChunkView {
            column: self.column,
            scheme: self.scheme,
            rows: self.rows,
            data: self.data@,
            nullmap: self.nullmap@,
        }
    }
}

/// Whether a read came out as stated.
pub open spec fn agrees<T: View>(r: Result<T>, s: Result<T::V>) -> bool {
    match s {
        Ok(v) => r is Ok && r->Ok_0@ == v,
        Err(e) => r is Err && r->Err_0 == e,
    }
}

impl<'a> Part<'a> {
    /// Reads the part header.
    pub fn parse(bytes: &'a [u8]) -> (r: Result<Self>)
        ensures
            agrees(r, PartView::of(bytes@)),
            r is Ok ==> r->Ok_0@.wf(),
    {
        let count: u32 = read_u32(bytes, 0, "the chunk count")?;
        let table: u64 = 4 + 4 * count as u64;
        let len: usize = bytes.len();
        if table > len as u64 {
            let to: usize = if table > usize::MAX as u64 {
                usize::MAX
            } else {
                table as usize
            };
            return Err(Error::Truncated { what: "the offset table", from: 4, to, len });
        }
        Ok(Part { bytes, count })
    }

    /// How many chunks the part holds.
    #[must_use]
    pub fn chunks(&self) -> (r: u32)
        ensures
            r == self@.count,
    {
        self.count
    }

    /// Reads one chunk's header.
    ///
    /// A part records where each chunk begins and never where it ends, so a chunk runs until the next
    /// one starts and the last one runs to the end of the part.
    pub fn chunk(&self, index: u32) -> (r: Result<Chunk<'a>>)
        requires
            self@.wf(),
        ensures
            agrees(r, self@.chunk(index)),
    {
        if index >= self.count {
            return Err(Error::NoSuchChunk { index, count: self.count });
        }
        let len: usize = self.bytes.len();
        let start: usize = self.offset(index);
        let end: usize = if index + 1 == self.count {
            len
        } else {
            self.offset(index + 1)
        };
        if end < HEADER || end - HEADER < start {
            return Err(Error::Overlapping { index, start, end });
        }
        if start + HEADER > len {
            return Err(
                Error::Truncated { what: "a chunk header", from: start, to: start + HEADER, len },
            );
        }
        if end > len {
            return Err(Error::Truncated { what: "a chunk", from: start + HEADER, to: end, len });
        }
        let header = &self.bytes[start..start + HEADER];
        let body = &self.bytes[start + HEADER..end];
        let column = ColumnType::from_code(header[2])?;
        let at: usize = u32_of(&header[4..8]) as usize;
        let rows: u32 = u32_of(&header[8..12]);
        proof {
            lemma_le_4(header@.subrange(4, 8));
            lemma_le_4(header@.subrange(8, 12));
        }
        if at > body.len() {
            return Err(
                Error::Overrun {
                    what: "the nullmap offset",
                    claimed: at,
                    available: body.len(),
                },
            );
        }
        let (data, nullmap) = body.split_at(at);
        assert(data@ =~= body@.take(at as int));
        assert(nullmap@ =~= body@.skip(at as int));
        Ok(
            Chunk {
                column,
                scheme: header[0],
                rows,
                data,
                nullmap: Nullmap::new(header[1], rows, nullmap),
            },
        )
    }

    /// The offset of a chunk.
    fn offset(&self, index: u32) -> (r: usize)
        requires
            self@.wf(),
            index < self@.count,
        ensures
            r as int == self@.start(index),
    {
        let at: usize = 4 + 4 * index as usize;
        u32_of(&self.bytes[at..at + 4]) as usize
    }
}

impl<'a> Chunk<'a> {
    /// What the column holds.
    #[must_use]
    pub fn column(&self) -> (r: ColumnType)
        ensures
            r == self@.column,
    {
        self.column
    }

    /// The scheme code the chunk was compressed with, which means something only alongside
    /// [`Chunk::column`].
    #[must_use]
    pub fn scheme(&self) -> (r: u8)
        ensures
            r == self@.scheme,
    {
        self.scheme
    }

    /// How many rows the chunk holds, null ones included.
    #[must_use]
    pub fn rows(&self) -> (r: u32)
        ensures
            r == self@.rows,
    {
        self.rows
    }

    /// The scheme's own bytes, without the nullmap after them.
    #[must_use]
    pub fn data(&self) -> (r: &'a [u8])
        ensures
            r@ == self@.data,
    {
        self.data
    }

    /// The nullmap, still encoded.
    #[must_use]
    pub fn nullmap(&self) -> (r: Nullmap<'a>)
        ensures
            r@ == self@.nullmap,
    {
        self.nullmap
    }
}

/// Adds two lengths, saturating.
pub fn plus(a: usize, b: usize) -> (r: usize)
    ensures
        r == sat(a + b),
{
    if a > usize::MAX - b {
        usize::MAX
    } else {
        a + b
    }
}

/// Reads a little endian `u32` that lies `off` bytes past `at`.
pub fn read_past(bytes: &[u8], at: usize, off: usize, what: &'static str) -> (r: Result<u32>)
    ensures
        r == word_at(bytes@, at + off, what),
{
    proof {
        assert(bytes.len() <= usize::MAX);
    }
    read_u32(bytes, plus(at, off), what)
}

/// Reads a little endian `u32` at `at`.
pub fn read_u32(bytes: &[u8], at: usize, what: &'static str) -> (r: Result<u32>)
    ensures
        r == word_at(bytes@, at as int, what),
{
    let len: usize = bytes.len();
    if len < 4 || at > len - 4 {
        let to: usize = if at > usize::MAX - 4 {
            usize::MAX
        } else {
            at + 4
        };
        return Err(Error::Truncated { what, from: at, to, len });
    }
    Ok(u32_of(&bytes[at..at + 4]))
}

} // verus!
