//! The FSST symbol table that strings are compressed with.
//!
//! A code is one byte and a symbol is up to eight, with a table of at most two hundred and fifty five
//! symbols. Code two hundred and fifty five is an escape that says the next byte is a literal. The
//! table is stored as eight counts, one a length, and then the symbols' bytes run together, lengths two
//! through eight first and length one last. A code that the table does not define is refused.
use vstd::prelude::*;

use crate::btr::error::{Error, Result};
use crate::btr::part::sat;
use crate::bytes::{append, le, lemma_le_4, u32_of};

verus! {

/// The version that is read.
pub const VERSION: u32 = 20_190_218;

/// The code that means the next byte is a literal.
pub const ESCAPE: u8 = 255;

/// How many codes there are that are not the escape.
pub const CODES: usize = 255;

/// How many bytes the header takes before the symbols start.
pub const HEADER: usize = 17;

/// How many bytes a writer reserves for a table: the header, every symbol at its longest, and one
/// byte over.
pub const MAX_HEADER: usize = 2058;

/// A symbol table, as one symbol a code. The codes past its end are not symbols.
#[derive(Debug)]
pub struct Table {
    symbols: Vec<Vec<u8>>,
}

/// Symbols, taken for what they hold.
pub open spec fn held(symbols: Seq<Vec<u8>>) -> Seq<Seq<u8>> {
    Seq::new(symbols.len(), |i: int| symbols[i]@)
}

impl View for Table {
    type V = Seq<Seq<u8>>;

    closed spec fn view(&self) -> Seq<Seq<u8>> {
        held(self.symbols@)
    }
}

/// Symbols that were read, and where reading them ended.
pub ghost struct Symbols {
    /// The symbols, by code.
    pub symbols: Seq<Seq<u8>>,
    /// The offset after them.
    pub at: int,
}

/// A range of a table that is not there.
pub open spec fn cut(from: int, to: int, len: nat) -> Error {
    Error::Truncated {
        what: "a symbol table",
        from: from as usize,
        to: sat(to),
        len: len as usize,
    }
}

/// The first `n` symbols of one length, behind those already read.
pub open spec fn of_length(bytes: Seq<u8>, start: Symbols, length: nat, n: nat) -> Result<Symbols>
    decreases n,
{
    if n == 0 {
        Ok(start)
    } else {
        match of_length(bytes, start, length, (n - 1) as nat) {
            Err(e) => Err(e),
            Ok(st) => if st.symbols.len() >= CODES {
                Err(
                    Error::Malformed {
                        what: "a symbol table",
                        why: "it holds more symbols than there are codes for them",
                    },
                )
            } else if st.at + length > bytes.len() {
                Err(cut(st.at, st.at + length, bytes.len()))
            } else {
                Ok(
                    Symbols {
                        symbols: st.symbols.push(bytes.subrange(st.at, st.at + length)),
                        at: st.at + length,
                    },
                )
            },
        }
    }
}

/// The symbols of the first `n` lengths, in the order two through eight and then one.
pub open spec fn of_lengths(bytes: Seq<u8>, counts: Seq<u8>, start: Symbols, n: nat) -> Result<
    Symbols,
>
    decreases n,
{
    if n == 0 {
        Ok(start)
    } else {
        match of_lengths(bytes, counts, start, (n - 1) as nat) {
            Err(e) => Err(e),
            Ok(st) => of_length(bytes, st, (n % 8) + 1, counts[n as int % 8] as nat),
        }
    }
}

/// The symbol table a byte string describes.
///
/// A zero terminated table has a zero byte as its first symbol and does not store it.
pub open spec fn table_of(bytes: Seq<u8>) -> Result<Seq<Seq<u8>>> {
    let len = bytes.len();
    if len < 8 {
        Err(cut(4, 8, len))
    } else if le(bytes.subrange(4, 8)) != VERSION {
        Err(
            Error::Malformed {
                what: "a symbol table",
                why: "it is not a version of FSST the reference reads",
            },
        )
    } else if len < 9 {
        Err(cut(8, 9, len))
    } else if len < HEADER {
        Err(cut(9, HEADER as int, len))
    } else {
        let zero = bytes[8] % 2 == 1;
        let counts = bytes.subrange(9, HEADER as int);
        if zero && counts[0] == 0 {
            Err(
                Error::Malformed {
                    what: "a symbol table",
                    why: "it is zero terminated and holds no symbol of one byte",
                },
            )
        } else {
            let start = if zero {
                Symbols { symbols: seq![seq![0u8]], at: HEADER as int }
            } else {
                Symbols { symbols: Seq::empty(), at: HEADER as int }
            };
            let stored = if zero {
                counts.update(0, (counts[0] - 1) as u8)
            } else {
                counts
            };
            match of_lengths(bytes, stored, start, 8) {
                Err(e) => Err(e),
                Ok(st) => Ok(st.symbols),
            }
        }
    }
}

/// What a run of codes expands to: the bytes up to where it stops, and why it stops.
pub ghost struct Expansion {
    /// The bytes.
    pub bytes: Seq<u8>,
    /// Whether every code was expanded.
    pub end: Result<()>,
}

impl Expansion {
    /// Bytes in front of an expansion.
    pub open spec fn behind(self, front: Seq<u8>) -> Expansion {
        Expansion { bytes: front + self.bytes, end: self.end }
    }
}

/// What the codes from `at` on expand to.
pub open spec fn expansion(table: Seq<Seq<u8>>, codes: Seq<u8>, at: int) -> Expansion
    decreases codes.len() - at,
{
    if at >= codes.len() || at < 0 {
        Expansion { bytes: Seq::empty(), end: Ok(()) }
    } else if codes[at] == ESCAPE {
        if at + 1 >= codes.len() {
            Expansion {
                bytes: Seq::empty(),
                end: Err(
                    Error::Truncated {
                        what: "a run of FSST codes",
                        from: (at + 1) as usize,
                        to: sat(at + 2),
                        len: codes.len() as usize,
                    },
                ),
            }
        } else {
            expansion(table, codes, at + 2).behind(seq![codes[at + 1]])
        }
    } else if codes[at] as int >= table.len() {
        Expansion {
            bytes: Seq::empty(),
            end: Err(
                Error::Malformed {
                    what: "a run of FSST codes",
                    why: "it uses a code its own symbol table does not define",
                },
            ),
        }
    } else {
        expansion(table, codes, at + 1).behind(table[codes[at] as int])
    }
}

/// Symbols of one length that stop early stop there however many there are.
proof fn lemma_of_length_stops(bytes: Seq<u8>, start: Symbols, length: nat, k: nat, n: nat)
    requires
        k <= n,
        of_length(bytes, start, length, k) is Err,
    ensures
        of_length(bytes, start, length, n) == of_length(bytes, start, length, k),
    decreases n,
{
    if k < n {
        lemma_of_length_stops(bytes, start, length, k, (n - 1) as nat);
    }
}

/// Lengths that stop early stop there however many there are.
proof fn lemma_of_lengths_stops(bytes: Seq<u8>, counts: Seq<u8>, start: Symbols, k: nat, n: nat)
    requires
        k <= n,
        of_lengths(bytes, counts, start, k) is Err,
    ensures
        of_lengths(bytes, counts, start, n) == of_lengths(bytes, counts, start, k),
    decreases n,
{
    if k < n {
        lemma_of_lengths_stops(bytes, counts, start, k, (n - 1) as nat);
    }
}

/// Reads the symbols of one length, and says where they ended.
fn read_length(
    bytes: &[u8],
    at: usize,
    length: usize,
    count: u8,
    symbols: &mut Vec<Vec<u8>>,
) -> (r: Result<usize>)
    requires
        at <= bytes@.len(),
        1 <= length <= 8,
    ensures
        match of_length(
            bytes@,
            (Symbols { symbols: held(old(symbols)@), at: at as int }),
            length as nat,
            count as nat,
        ) {
            Ok(st) => {
                &&& r is Ok
                &&& r->Ok_0 == st.at
                &&& held(final(symbols)@) == st.symbols
                &&& st.at <= bytes@.len()
            },
            Err(e) => r is Err && r->Err_0 == e,
        },
{
    let ghost start = Symbols { symbols: held(symbols@), at: at as int };
    let len: usize = bytes.len();
    let mut pos: usize = at;
    let mut k: u8 = 0;
    while k < count
        invariant
            0 <= k <= count,
            1 <= length <= 8,
            len == bytes@.len(),
            pos <= len,
            start == (Symbols { symbols: held(old(symbols)@), at: at as int }),
            of_length(bytes@, start, length as nat, k as nat) == Ok::<Symbols, Error>(
                Symbols { symbols: held(symbols@), at: pos as int },
            ),
        decreases count - k,
    {
        proof {
            if of_length(bytes@, start, length as nat, (k + 1) as nat) is Err {
                lemma_of_length_stops(bytes@, start, length as nat, (k + 1) as nat, count as nat);
            }
        }
        if symbols.len() >= CODES {
            return Err(
                Error::Malformed {
                    what: "a symbol table",
                    why: "it holds more symbols than there are codes for them",
                },
            );
        }
        if length > len - pos {
            let to: usize = if pos > usize::MAX - length {
                usize::MAX
            } else {
                pos + length
            };
            return Err(Error::Truncated { what: "a symbol table", from: pos, to, len });
        }
        let ghost before = symbols@;
        let mut symbol: Vec<u8> = Vec::new();
        append(&mut symbol, &bytes[pos..pos + length]);
        let ghost s = symbol@;
        symbols.push(symbol);
        pos = pos + length;
        k = k + 1;
        proof {
            assert(s =~= bytes@.subrange(pos - length, pos as int));
            assert(held(symbols@) =~= held(before).push(s));
        }
    }
    Ok(pos)
}

/// Reads a serialised symbol table.
///
/// Four bytes that a reader does not need, the version, a flag byte, eight counts, and the symbols.
pub fn read(bytes: &[u8]) -> (r: Result<Table>)
    ensures
        match table_of(bytes@) {
            Ok(t) => r is Ok && r->Ok_0@ == t,
            Err(e) => r is Err && r->Err_0 == e,
        },
{
    let version: u32 = word(bytes, 4)?;
    proof {
        lemma_le_4(bytes@.subrange(4, 8));
    }
    if version != VERSION {
        return Err(
            Error::Malformed {
                what: "a symbol table",
                why: "it is not a version of FSST the reference reads",
            },
        );
    }
    let flags: u8 = byte(bytes, 8)?;
    let zero: bool = flags % 2 == 1;
    let len: usize = bytes.len();
    if len < HEADER {
        return Err(Error::Truncated { what: "a symbol table", from: 9, to: HEADER, len });
    }
    let ghost raw = bytes@.subrange(9, HEADER as int);
    let mut counts: Vec<u8> = Vec::new();
    append(&mut counts, &bytes[9..HEADER]);
    assert(counts@ =~= raw);
    let mut symbols: Vec<Vec<u8>> = Vec::new();
    if zero {
        if counts[0] == 0 {
            return Err(
                Error::Malformed {
                    what: "a symbol table",
                    why: "it is zero terminated and holds no symbol of one byte",
                },
            );
        }
        let one: u8 = counts[0] - 1;
        counts.set(0, one);
        let mut first: Vec<u8> = Vec::new();
        first.push(0);
        let ghost f = first@;
        symbols.push(first);
        assert(f =~= seq![0u8]);
        assert(held(symbols@) =~= seq![seq![0u8]]);
    } else {
        assert(held(symbols@) =~= Seq::<Seq<u8>>::empty());
    }
    let ghost start = Symbols { symbols: held(symbols@), at: HEADER as int };
    let mut at: usize = HEADER;
    let mut step: u8 = 1;
    while step <= 8
        invariant
            1 <= step <= 9,
            len == bytes@.len(),
            at <= len,
            counts@.len() == 8,
            table_of(bytes@) == (match of_lengths(bytes@, counts@, start, 8) {
                Err(e) => Err(e),
                Ok(st) => Ok(st.symbols),
            }),
            of_lengths(bytes@, counts@, start, (step - 1) as nat) == Ok::<Symbols, Error>(
                Symbols { symbols: held(symbols@), at: at as int },
            ),
        decreases 9 - step,
    {
        proof {
            if of_lengths(bytes@, counts@, start, step as nat) is Err {
                lemma_of_lengths_stops(bytes@, counts@, start, step as nat, 8);
            }
        }
        let slot: usize = (step % 8) as usize;
        at = read_length(bytes, at, slot + 1, counts[slot], &mut symbols)?;
        step = step + 1;
    }
    Ok(Table { symbols })
}

/// Decompresses a run of codes onto the end of `out`.
pub fn decompress(table: &Table, codes: &[u8], out: &mut Vec<u8>) -> (r: Result<()>)
    ensures
        final(out)@ == old(out)@ + expansion(table@, codes@, 0).bytes,
        r == expansion(table@, codes@, 0).end,
{
    let len: usize = codes.len();
    let ghost mut done = Seq::<u8>::empty();
    let mut at: usize = 0;
    proof {
        assert(out@ =~= old(out)@ + done);
        let e = expansion(table@, codes@, 0);
        assert(done + e.bytes =~= e.bytes);
    }
    while at < len
        invariant
            len == codes@.len(),
            at <= len,
            out@ == old(out)@ + done,
            expansion(table@, codes@, 0) == expansion(table@, codes@, at as int).behind(done),
        decreases len - at,
    {
        let code: u8 = codes[at];
        if code == ESCAPE {
            if at + 1 >= len {
                assert(done + Seq::<u8>::empty() =~= done);
                let to: usize = if at + 1 == usize::MAX {
                    usize::MAX
                } else {
                    at + 2
                };
                return Err(
                    Error::Truncated { what: "a run of FSST codes", from: at + 1, to, len },
                );
            }
            let literal: u8 = codes[at + 1];
            out.push(literal);
            proof {
                let rest = expansion(table@, codes@, at + 2);
                assert(out@ =~= old(out)@ + (done + seq![literal]));
                assert(done + (seq![literal] + rest.bytes) =~= (done + seq![literal]) + rest.bytes);
                done = done + seq![literal];
            }
            at = at + 2;
        } else {
            let index: usize = code as usize;
            if index >= table.symbols.len() {
                assert(done + Seq::<u8>::empty() =~= done);
                return Err(
                    Error::Malformed {
                        what: "a run of FSST codes",
                        why: "it uses a code its own symbol table does not define",
                    },
                );
            }
            append(out, table.symbols[index].as_slice());
            proof {
                let symbol = table@[index as int];
                let rest = expansion(table@, codes@, at + 1);
                assert(out@ =~= old(out)@ + (done + symbol));
                assert(done + (symbol + rest.bytes) =~= (done + symbol) + rest.bytes);
                done = done + symbol;
            }
            at = at + 1;
        }
    }
    assert(done + Seq::<u8>::empty() =~= done);
    Ok(())
}

/// Reads one byte of a table's header.
fn byte(bytes: &[u8], at: usize) -> (r: Result<u8>)
    requires
        at < 100,
    ensures
        r == (if at >= bytes@.len() {
            Err::<u8, Error>(cut(at as int, at + 1, bytes@.len()))
        } else {
            Ok(bytes@[at as int])
        }),
{
    if at >= bytes.len() {
        return Err(
            Error::Truncated { what: "a symbol table", from: at, to: at + 1, len: bytes.len() },
        );
    }
    Ok(bytes[at])
}

/// Reads one little endian word of a table's header.
fn word(bytes: &[u8], at: usize) -> (r: Result<u32>)
    requires
        at < 100,
    ensures
        r == (if at + 4 > bytes@.len() {
            Err::<u32, Error>(cut(at as int, at + 4, bytes@.len()))
        } else {
            Ok(le(bytes@.subrange(at as int, at + 4)) as u32)
        }),
{
    if at + 4 > bytes.len() {
        return Err(
            Error::Truncated { what: "a symbol table", from: at, to: at + 4, len: bytes.len() },
        );
    }
    proof {
        lemma_le_4(bytes@.subrange(at as int, at + 4));
    }
    Ok(u32_of(&bytes[at..at + 4]))
}

/// A byte that is escaped comes out as it is, whatever the table holds.
pub proof fn lemma_escaped_byte_comes_back(table: Seq<Seq<u8>>, b: u8)
    ensures
        expansion(table, seq![ESCAPE, b], 0) == (Expansion { bytes: seq![b], end: Ok(()) }),
{
    reveal_with_fuel(expansion, 3);
    let codes = seq![ESCAPE, b];
    assert(expansion(table, codes, 2).bytes =~= Seq::<u8>::empty());
    assert(expansion(table, codes, 0).bytes =~= seq![b]);
}

/// Codes run on: two runs that each expand whole expand, one behind the other, to both.
pub proof fn lemma_expansion_runs_on(table: Seq<Seq<u8>>, a: Seq<u8>, b: Seq<u8>, at: int)
    requires
        0 <= at <= a.len(),
        expansion(table, a, at).end is Ok,
        expansion(table, b, 0).end is Ok,
    ensures
        expansion(table, a + b, at) == expansion(table, b, 0).behind(
            expansion(table, a, at).bytes,
        ),
    decreases a.len() - at,
{
    if at == a.len() {
        lemma_expansion_shift(table, a, b, 0);
        let e = expansion(table, b, 0);
        assert(expansion(table, a, at).bytes + e.bytes =~= e.bytes);
        assert(expansion(table, a + b, at).end->Ok_0 == e.end->Ok_0);
    } else if a[at] == ESCAPE {
        lemma_expansion_runs_on(table, a, b, at + 2);
        let e = expansion(table, b, 0);
        let rest = expansion(table, a, at + 2);
        assert(seq![a[at + 1]] + (rest.bytes + e.bytes) =~= (seq![a[at + 1]] + rest.bytes)
            + e.bytes);
    } else {
        lemma_expansion_runs_on(table, a, b, at + 1);
        let e = expansion(table, b, 0);
        let rest = expansion(table, a, at + 1);
        let s = table[a[at] as int];
        assert(s + (rest.bytes + e.bytes) =~= (s + rest.bytes) + e.bytes);
    }
}

/// Codes expand the same wherever they stand, when they expand whole.
proof fn lemma_expansion_shift(table: Seq<Seq<u8>>, a: Seq<u8>, b: Seq<u8>, at: int)
    requires
        0 <= at <= b.len(),
    ensures
        expansion(table, a + b, a.len() + at).bytes == expansion(table, b, at).bytes,
        expansion(table, a + b, a.len() + at).end is Ok <==> expansion(table, b, at).end is Ok,
    decreases b.len() - at,
{
    if at < b.len() {
        if b[at] == ESCAPE {
            if at + 1 < b.len() {
                lemma_expansion_shift(table, a, b, at + 2);
            }
        } else if (b[at] as int) < table.len() {
            lemma_expansion_shift(table, a, b, at + 1);
        }
    }
}

} // verus!
