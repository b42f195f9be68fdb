//! The FastPFOR codecs that integer columns are compressed with.
//!
//! Both schemes put whole blocks first and leave what does not fill one to a variable byte tail. The
//! plain one packs a hundred and twenty eight values at a time, and the patched one two hundred and
//! fifty six, keeping the values that did not fit at that width to one side.
//!
//! There are two bit packings. The ordinary one runs a stream through consecutive words. The
//! vectorised one is four lanes: word `w` belongs to lane `w % 4`, each lane is the ordinary layout
//! over thirty two values, and lane `j`'s values come out at positions `4 * i + j`.
//!
//! In the tail, the high bit of a byte says that the value ends there, which is the opposite of the
//! usual convention. The tail is padded with zero bytes, which are never looked at.
use vstd::prelude::*;

use crate::btr::error::{Error, Result};
use crate::btr::packing::{lemma_words_read, unpack, unpacked, words_needed};
use crate::btr::part::{agrees, plus, read_u32, sat, word_at};

verus! {

/// How many values one packed miniblock holds.
pub const MINI: usize = 32;

/// How many values a plain block holds, which is four miniblocks.
pub const BLOCK: usize = 128;

/// How many lanes the vectorised packer interleaves.
pub const LANES: usize = 4;

/// How many values the vectorised packer handles at once.
pub const GROUP: usize = 128;

/// How many values one patched block holds.
pub const PATCHED: usize = 256;

/// How many values one patched page holds at most.
pub const PAGE: usize = 65536;

/// Values that were read, and where reading them ended.
pub ghost struct Run {
    /// The values.
    pub values: Seq<u32>,
    /// The offset after them.
    pub at: int,
}

/// One variable byte value, `shift` bits of which have been read.
///
/// Seven bits a byte, least significant group first, and the high bit set on the last byte.
pub open spec fn digits(bytes: Seq<u8>, at: int, shift: nat) -> Result<(nat, int)>
    decreases 40 - shift,
{
    if at >= bytes.len() {
        Err(
            Error::Overrun {
                what: "a variable byte tail",
                claimed: sat(at + 1),
                available: bytes.len() as usize,
            },
        )
    } else if shift >= 32 {
        Err(
            Error::Malformed {
                what: "a variable byte value",
                why: "it runs on past the thirty two bits it has to fit in",
            },
        )
    } else if bytes[at] >= 128 {
        Ok((bytes[at] as nat % 128, at + 1))
    } else {
        match digits(bytes, at + 1, shift + 7) {
            Err(e) => Err(e),
            Ok((high, end)) => Ok((bytes[at] as nat % 128 + 128 * high, end)),
        }
    }
}

/// `n` variable byte values.
pub open spec fn tail_values(bytes: Seq<u8>, at: int, n: nat) -> Result<Run>
    decreases n,
{
    if n == 0 {
        Ok(Run { values: Seq::empty(), at })
    } else {
        match tail_values(bytes, at, (n - 1) as nat) {
            Err(e) => Err(e),
            Ok(run) => match digits(bytes, run.at, 0) {
                Err(e) => Err(e),
                Ok((value, end)) => Ok(
                    Run { values: run.values.push((value % 0x1_0000_0000) as u32), at: end },
                ),
            },
        }
    }
}

/// The first `n` miniblocks of a block, at the widths given.
pub open spec fn mini_values(bytes: Seq<u8>, at: int, widths: Seq<u8>, n: nat) -> Result<Run>
    decreases n,
{
    if n == 0 {
        Ok(Run { values: Seq::empty(), at })
    } else {
        match mini_values(bytes, at, widths, (n - 1) as nat) {
            Err(e) => Err(e),
            Ok(run) => {
                let width = widths[n - 1];
                if width > 32 {
                    Err(
                        Error::Malformed {
                            what: "a bit packed block",
                            why: "a miniblock is wider than the values it holds",
                        },
                    )
                } else {
                    match unpacked(
                        bytes,
                        run.at,
                        1,
                        width as nat,
                        MINI as nat,
                        "a bit packed miniblock",
                    ) {
                        Err(e) => Err(e),
                        Ok(values) => Ok(
                            Run { values: run.values + values, at: run.at + 4 * width },
                        ),
                    }
                }
            },
        }
    }
}

/// The widths of a block's four miniblocks, the first in the most significant byte of their word.
pub open spec fn mini_widths(bytes: Seq<u8>, at: int) -> Seq<u8> {
    Seq::new(4, |j: int| bytes[at + 3 - j])
}

/// The first `n` blocks.
pub open spec fn block_values(bytes: Seq<u8>, n: nat) -> Result<Run>
    decreases n,
{
    if n == 0 {
        Ok(Run { values: Seq::empty(), at: 4 })
    } else {
        match block_values(bytes, (n - 1) as nat) {
            Err(e) => Err(e),
            Ok(run) => match word_at(bytes, run.at, "a bit packed block") {
                Err(e) => Err(e),
                Ok(_) => match mini_values(bytes, run.at + 4, mini_widths(bytes, run.at), 4) {
                    Err(e) => Err(e),
                    Ok(block) => Ok(Run { values: run.values + block.values, at: block.at }),
                },
            },
        }
    }
}

/// The bytes that `words` words take, if they are there.
pub open spec fn codec_bytes(data: Seq<u8>, words: nat, what: &'static str) -> Result<Seq<u8>> {
    if 4 * words > data.len() {
        Err(Error::Overrun { what, claimed: sat((4 * words) as int), available: data.len() as usize })
    } else {
        Ok(data.take((4 * words) as int))
    }
}

/// How many values the blocks cover, which is the first word.
pub open spec fn covered(
    bytes: Seq<u8>,
    block: nat,
    rows: nat,
    what: &'static str,
) -> Result<nat> {
    match word_at(bytes, 0, what) {
        Err(e) => Err(e),
        Ok(n) => if n as nat % block != 0 {
            Err(
                Error::Malformed {
                    what,
                    why: "it packs a count that is not a whole number of blocks",
                },
            )
        } else if n as nat > rows {
            Err(
                Error::Malformed {
                    what,
                    why: "it packs more values than the chunk says it holds",
                },
            )
        } else {
            Ok(n as nat)
        },
    }
}

/// Blocks and then a tail, which together are as many values as there are rows.
pub open spec fn with_tail(bytes: Seq<u8>, blocks: Result<Run>, tail: nat) -> Result<Seq<u32>> {
    match blocks {
        Err(e) => Err(e),
        Ok(run) => match tail_values(bytes, run.at, tail) {
            Err(e) => Err(e),
            Ok(end) => Ok(run.values + end.values),
        },
    }
}

/// What a plain bit packed column holds.
pub open spec fn plain_values(data: Seq<u8>, words: nat, rows: nat) -> Result<Seq<u32>> {
    match codec_bytes(data, words, "a bit packed column") {
        Err(e) => Err(e),
        Ok(bytes) => match covered(bytes, BLOCK as nat, rows, "a bit packed column") {
            Err(e) => Err(e),
            Ok(n) => with_tail(bytes, block_values(bytes, n / BLOCK as nat), (rows - n) as nat),
        },
    }
}

/// Values are read from inside the bytes.
proof fn lemma_digits(bytes: Seq<u8>, at: int, shift: nat)
    requires
        digits(bytes, at, shift) is Ok,
    ensures
        at < digits(bytes, at, shift)->Ok_0.1 <= bytes.len(),
    decreases 40 - shift,
{
    if bytes[at] < 128 {
        lemma_digits(bytes, at + 1, shift + 7);
    }
}

/// A number as variable bytes: seven bits a byte, the lowest first, and the high bit set on the last.
pub open spec fn variable_bytes(n: nat) -> Seq<u8>
    decreases n,
{
    if n < 128 {
        seq![(n + 128) as u8]
    } else {
        seq![(n % 128) as u8] + variable_bytes(n / 128)
    }
}

/// Numbers as variable bytes, one after the other.
pub open spec fn variable_run(values: Seq<u32>) -> Seq<u8>
    decreases values.len(),
{
    if values.len() == 0 {
        Seq::empty()
    } else {
        variable_run(values.drop_last()) + variable_bytes(values.last() as nat)
    }
}

/// How many numbers `k` groups of seven bits can hold.
spec fn span(k: nat) -> nat
    decreases k,
{
    if k == 0 {
        1
    } else {
        128 * span((k - 1) as nat)
    }
}

/// A number that fits in `k` groups is read back from its bytes.
proof fn lemma_digits_come_back(front: Seq<u8>, n: nat, back: Seq<u8>, k: nat)
    requires
        1 <= k <= 5,
        n < span(k),
    ensures
        digits(front + variable_bytes(n) + back, front.len() as int, (35 - 7 * k) as nat) == Ok::<
            (nat, int),
            Error,
        >((n, front.len() as int + variable_bytes(n).len())),
    decreases k,
{
    let all = front + variable_bytes(n) + back;
    let at = front.len() as int;
    if n < 128 {
        assert(all[at] == (n + 128) as u8);
    } else {
        let low = (n % 128) as u8;
        let rest = variable_bytes(n / 128);
        let next = front.push(low);
        assert(all[at] == low);
        assert(all =~= next + rest + back);
        if k == 1 {
            assert(span(0) == 1);
        }
        lemma_digits_come_back(next, n / 128, back, (k - 1) as nat);
        assert((35 - 7 * (k - 1)) as nat == (35 - 7 * k) as nat + 7);
    }
}

/// Values written as variable bytes come back from a tail, wherever it lies, and reading them ends where
/// they end.
pub proof fn lemma_tail_values_come_back(front: Seq<u8>, values: Seq<u32>, back: Seq<u8>)
    ensures
        tail_values(front + variable_run(values) + back, front.len() as int, values.len()) == Ok::<
            Run,
            Error,
        >(Run { values, at: front.len() as int + variable_run(values).len() }),
    decreases values.len(),
{
    let all = front + variable_run(values) + back;
    if values.len() > 0 {
        let init = values.drop_last();
        let last = values.last();
        let tail = variable_bytes(last as nat);
        assert(all =~= front + variable_run(init) + (tail + back));
        lemma_tail_values_come_back(front, init, tail + back);
        let before = front + variable_run(init);
        assert(all =~= before + tail + back);
        assert(span(5) == 128 * 128 * 128 * 128 * 128) by {
            reveal_with_fuel(span, 6);
        }
        lemma_digits_come_back(before, last as nat, back, 5);
        assert(init.push(last) =~= values);
    } else {
        assert(values =~= Seq::<u32>::empty());
    }
}

/// A tail that stops early stops there however many values were wanted.
proof fn lemma_tail_stops(bytes: Seq<u8>, at: int, k: nat, n: nat)
    requires
        k <= n,
        tail_values(bytes, at, k) is Err,
    ensures
        tail_values(bytes, at, n) == tail_values(bytes, at, k),
    decreases n,
{
    if k < n {
        lemma_tail_stops(bytes, at, k, (n - 1) as nat);
    }
}

/// Miniblocks that stop early stop there however many were wanted.
proof fn lemma_minis_stop(bytes: Seq<u8>, at: int, widths: Seq<u8>, k: nat, n: nat)
    requires
        k <= n,
        mini_values(bytes, at, widths, k) is Err,
    ensures
        mini_values(bytes, at, widths, n) == mini_values(bytes, at, widths, k),
    decreases n,
{
    if k < n {
        lemma_minis_stop(bytes, at, widths, k, (n - 1) as nat);
    }
}

/// Blocks that stop early stop there however many were wanted.
proof fn lemma_blocks_stop(bytes: Seq<u8>, k: nat, n: nat)
    requires
        k <= n,
        block_values(bytes, k) is Err,
    ensures
        block_values(bytes, n) == block_values(bytes, k),
    decreases n,
{
    if k < n {
        lemma_blocks_stop(bytes, k, (n - 1) as nat);
    }
}

/// A miniblock that was there ends inside the bytes.
pub proof fn lemma_unpacked_ends(bytes: Seq<u8>, at: int, width: nat, what: &'static str)
    requires
        at <= bytes.len(),
        width <= 32,
        unpacked(bytes, at, 1, width, MINI as nat, what) is Ok,
    ensures
        at + 4 * width <= bytes.len(),
        unpacked(bytes, at, 1, width, MINI as nat, what)->Ok_0.len() == 32,
{
    assert(words_needed(32, width) == width);
    lemma_words_read(bytes, at, 1, width, what);
    assert(4 * 1nat * (width - 1) == 4 * width - 4) by (nonlinear_arith);
}

/// What a tail takes, and how many values it gives.
pub proof fn lemma_tail_len(bytes: Seq<u8>, at: int, n: nat)
    requires
        tail_values(bytes, at, n) is Ok,
        at <= bytes.len(),
    ensures
        tail_values(bytes, at, n)->Ok_0.values.len() == n,
        at <= tail_values(bytes, at, n)->Ok_0.at <= bytes.len(),
    decreases n,
{
    if n > 0 {
        lemma_tail_len(bytes, at, (n - 1) as nat);
        let run = tail_values(bytes, at, (n - 1) as nat)->Ok_0;
        lemma_digits(bytes, run.at, 0);
    }
}

/// What miniblocks take, and how many values they give.
proof fn lemma_minis_len(bytes: Seq<u8>, at: int, widths: Seq<u8>, n: nat)
    requires
        mini_values(bytes, at, widths, n) is Ok,
        at <= bytes.len(),
    ensures
        mini_values(bytes, at, widths, n)->Ok_0.values.len() == 32 * n,
        at <= mini_values(bytes, at, widths, n)->Ok_0.at <= bytes.len(),
    decreases n,
{
    if n > 0 {
        lemma_minis_len(bytes, at, widths, (n - 1) as nat);
        let run = mini_values(bytes, at, widths, (n - 1) as nat)->Ok_0;
        lemma_unpacked_ends(bytes, run.at, widths[n - 1] as nat, "a bit packed miniblock");
    }
}

/// What blocks take, and how many values they give.
proof fn lemma_blocks_len(bytes: Seq<u8>, n: nat)
    requires
        block_values(bytes, n) is Ok,
        4 <= bytes.len(),
    ensures
        block_values(bytes, n)->Ok_0.values.len() == 128 * n,
        4 <= block_values(bytes, n)->Ok_0.at <= bytes.len(),
    decreases n,
{
    if n > 0 {
        lemma_blocks_len(bytes, (n - 1) as nat);
        let run = block_values(bytes, (n - 1) as nat)->Ok_0;
        lemma_minis_len(bytes, run.at + 4, mini_widths(bytes, run.at), 4);
    }
}

/// A plain bit packed column holds exactly one value per row.
pub proof fn lemma_plain_values_fill_the_rows(data: Seq<u8>, words: nat, rows: nat)
    requires
        plain_values(data, words, rows) is Ok,
    ensures
        plain_values(data, words, rows)->Ok_0.len() == rows,
{
    let bytes = data.take((4 * words) as int);
    let n = covered(bytes, BLOCK as nat, rows, "a bit packed column")->Ok_0;
    lemma_blocks_len(bytes, n / BLOCK as nat);
    let run = block_values(bytes, n / BLOCK as nat)->Ok_0;
    lemma_tail_len(bytes, run.at, (rows - n) as nat);
    assert(128 * (n / 128) == n);
}

/// The bytes that `words` words take.
pub(crate) fn codec_slice<'a>(data: &'a [u8], words: usize, what: &'static str) -> (r: Result<&'a [u8]>)
    ensures
        match codec_bytes(data@, words as nat, what) {
            Ok(b) => r is Ok && r->Ok_0@ == b,
            Err(e) => r is Err && r->Err_0 == e,
        },
{
    let len: usize = data.len();
    if words > len / 4 {
        let claimed: usize = if words > usize::MAX / 4 {
            usize::MAX
        } else {
            4 * words
        };
        return Err(Error::Overrun { what, claimed, available: len });
    }
    let out = &data[0..4 * words];
    assert(out@ =~= data@.take(4 * words));
    Ok(out)
}

/// How many values the blocks cover.
pub(crate) fn read_covered(bytes: &[u8], block: usize, rows: usize, what: &'static str) -> (r: Result<usize>)
    requires
        block > 0,
    ensures
        match covered(bytes@, block as nat, rows as nat, what) {
            Ok(n) => r is Ok && r->Ok_0 == n,
            Err(e) => r is Err && r->Err_0 == e,
        },
{
    let n: usize = read_u32(bytes, 0, what)? as usize;
    if n % block != 0 {
        return Err(
            Error::Malformed { what, why: "it packs a count that is not a whole number of blocks" },
        );
    }
    if n > rows {
        return Err(
            Error::Malformed { what, why: "it packs more values than the chunk says it holds" },
        );
    }
    Ok(n)
}

/// Reads the composite of bit packed blocks and a variable byte tail.
///
/// `data` starts at the first word the codec wrote, `words` is how many words it wrote in total, and
/// `rows` is how many values there are.
pub fn binary_packed(data: &[u8], words: usize, rows: usize) -> (r: Result<Vec<u32>>)
    ensures
        agrees(r, plain_values(data@, words as nat, rows as nat)),
{
    let bytes = codec_slice(data, words, "a bit packed column")?;
    let packed: usize = read_covered(bytes, BLOCK, rows, "a bit packed column")?;
    let blocks: usize = packed / BLOCK;
    let len: usize = bytes.len();
    let mut out: Vec<u32> = Vec::new();
    let mut at: usize = 4;
    let mut b: usize = 0;
    while b < blocks
        invariant
            0 <= b <= blocks,
            blocks == packed / BLOCK,
            len == bytes@.len(),
            4 <= at <= len,
            codec_bytes(data@, words as nat, "a bit packed column") == Ok::<Seq<u8>, Error>(bytes@),
            covered(bytes@, BLOCK as nat, rows as nat, "a bit packed column") == Ok::<nat, Error>(
                packed as nat,
            ),
            block_values(bytes@, b as nat) == Ok::<Run, Error>(Run { values: out@, at: at as int }),
        decreases blocks - b,
    {
        match block(bytes, at) {
            Ok((mut values, end)) => {
                proof {
                    lemma_minis_len(bytes@, at + 4, mini_widths(bytes@, at as int), 4);
                }
                out.append(&mut values);
                at = end;
            },
            Err(e) => {
                proof {
                    lemma_blocks_stop(bytes@, (b + 1) as nat, blocks as nat);
                }
                return Err(e);
            },
        }
        b = b + 1;
    }
    let mut tail = variable_byte(bytes, at, rows - packed)?;
    out.append(&mut tail);
    Ok(out)
}

/// Reads one bit packed block, and says where it ended.
fn block(bytes: &[u8], at: usize) -> (r: Result<(Vec<u32>, usize)>)
    requires
        at <= bytes@.len(),
    ensures
        match word_at(bytes@, at as int, "a bit packed block") {
            Err(e) => r == Err::<(Vec<u32>, usize), Error>(e),
            Ok(_) => match mini_values(bytes@, at + 4, mini_widths(bytes@, at as int), 4) {
                Err(e) => r == Err::<(Vec<u32>, usize), Error>(e),
                Ok(run) => r is Ok && r->Ok_0.0@ == run.values && r->Ok_0.1 == run.at,
            },
        },
{
    let _ = read_u32(bytes, at, "a bit packed block")?;
    let len: usize = bytes.len();
    let ghost widths = mini_widths(bytes@, at as int);
    let mut out: Vec<u32> = Vec::new();
    let mut end: usize = at + 4;
    let mut k: usize = 0;
    while k < 4
        invariant
            0 <= k <= 4,
            len == bytes@.len(),
            at + 4 <= end <= len,
            widths == mini_widths(bytes@, at as int),
            mini_values(bytes@, at + 4, widths, k as nat) == Ok::<Run, Error>(
                Run { values: out@, at: end as int },
            ),
        decreases 4 - k,
    {
        let width: u8 = bytes[at + 3 - k];
        assert(width == widths[k as int]);
        proof {
            if mini_values(bytes@, at + 4, widths, (k + 1) as nat) is Err {
                lemma_minis_stop(bytes@, at + 4, widths, (k + 1) as nat, 4);
            }
        }
        if width > 32 {
            return Err(
                Error::Malformed {
                    what: "a bit packed block",
                    why: "a miniblock is wider than the values it holds",
                },
            );
        }
        let mut values = unpack(bytes, end, 1, width as usize, MINI, "a bit packed miniblock")?;
        proof {
            lemma_unpacked_ends(bytes@, end as int, width as nat, "a bit packed miniblock");
        }
        out.append(&mut values);
        end = end + 4 * width as usize;
        k = k + 1;
    }
    Ok((out, end))
}

/// Reads the `wanted` values that the blocks left over.
pub(crate) fn variable_byte(bytes: &[u8], at: usize, wanted: usize) -> (r: Result<Vec<u32>>)
    requires
        at <= bytes@.len(),
    ensures
        match tail_values(bytes@, at as int, wanted as nat) {
            Ok(run) => r is Ok && r->Ok_0@ == run.values,
            Err(e) => r is Err && r->Err_0 == e,
        },
{
    let len: usize = bytes.len();
    let mut out: Vec<u32> = Vec::new();
    let mut pos: usize = at;
    let mut k: usize = 0;
    while k < wanted
        invariant
            0 <= k <= wanted,
            len == bytes@.len(),
            pos <= len,
            tail_values(bytes@, at as int, k as nat) == Ok::<Run, Error>(
                Run { values: out@, at: pos as int },
            ),
        decreases wanted - k,
    {
        match variable_value(bytes, pos) {
            Ok((value, end)) => {
                proof {
                    lemma_digits(bytes@, pos as int, 0);
                }
                out.push(value);
                pos = end;
            },
            Err(e) => {
                proof {
                    lemma_tail_stops(bytes@, at as int, (k + 1) as nat, wanted as nat);
                }
                return Err(e);
            },
        }
        k = k + 1;
    }
    Ok(out)
}

/// Reads one variable byte value, and says where it ended.
fn variable_value(bytes: &[u8], at: usize) -> (r: Result<(u32, usize)>)
    requires
        at <= bytes@.len(),
    ensures
        match digits(bytes@, at as int, 0) {
            Ok((value, end)) => r is Ok && r->Ok_0.0 == value % 0x1_0000_0000 && r->Ok_0.1 == end,
            Err(e) => r is Err && r->Err_0 == e,
        },
{
    let len: usize = bytes.len();
    let mut value: u64 = 0;
    let mut scale: u64 = 1;
    let mut shift: u32 = 0;
    let mut pos: usize = at;
    loop
        invariant
            len == bytes@.len(),
            at <= pos <= len,
            shift <= 35,
            shift == 0 ==> scale == 1,
            shift == 7 ==> scale == 0x80,
            shift == 14 ==> scale == 0x4000,
            shift == 21 ==> scale == 0x20_0000,
            shift == 28 ==> scale == 0x1000_0000,
            shift == 35 ==> scale == 0x8_0000_0000,
            shift == 0 || shift == 7 || shift == 14 || shift == 21 || shift == 28 || shift == 35,
            value < scale,
            match digits(bytes@, pos as int, shift as nat) {
                Ok((high, end)) => digits(bytes@, at as int, 0) == Ok::<(nat, int), Error>(
                    (value as nat + scale as nat * high, end),
                ),
                Err(e) => digits(bytes@, at as int, 0) == Err::<(nat, int), Error>(e),
            },
        decreases len - pos,
    {
        if pos >= len {
            return Err(
                Error::Overrun {
                    what: "a variable byte tail",
                    claimed: plus(pos, 1),
                    available: len,
                },
            );
        }
        let byte: u8 = bytes[pos];
        if shift >= 32 {
            return Err(
                Error::Malformed {
                    what: "a variable byte value",
                    why: "it runs on past the thirty two bits it has to fit in",
                },
            );
        }
        let low: u64 = (byte % 128) as u64;
        assert(scale * low <= scale * 127) by (nonlinear_arith)
            requires
                low <= 127,
        ;
        let next: u64 = value + scale * low;
        proof {
            if byte < 128 {
                if let Ok((high, end)) = digits(bytes@, pos + 1, (shift + 7) as nat) {
                    assert(value as nat + scale as nat * (low as nat + 128 * high) == next as nat
                        + (scale as nat * 128) * high) by (nonlinear_arith)
                        requires
                            next == value + scale * low,
                    ;
                }
            }
        }
        if byte >= 128 {
            return Ok(((next % 0x1_0000_0000) as u32, pos + 1));
        }
        value = next;
        scale = scale * 128;
        shift = shift + 7;
        pos = pos + 1;
    }
}

/// A variable byte value of five bytes is the sum of their groups of seven bits, the lowest first, and
/// what of it is past thirty two bits is dropped. One that goes on past five bytes is refused.
pub proof fn lemma_long_values_are_cut_or_refused(bytes: Seq<u8>, at: int)
    requires
        0 <= at,
        at + 6 <= bytes.len(),
        bytes[at] < 128 && bytes[at + 1] < 128 && bytes[at + 2] < 128 && bytes[at + 3] < 128,
    ensures
        bytes[at + 4] >= 128 ==> tail_values(bytes, at, 1) == Ok::<Run, Error>(
            Run {
                values: seq![
                    ((bytes[at] + 0x80 * bytes[at + 1] + 0x4000 * bytes[at + 2] + 0x20_0000
                        * bytes[at + 3] + 0x1000_0000 * (bytes[at + 4] - 128)) % 0x1_0000_0000) as u32,
                ],
                at: at + 5,
            },
        ),
        bytes[at + 4] < 128 ==> tail_values(bytes, at, 1) is Err,
{
    let a = bytes[at] as nat;
    let b = bytes[at + 1] as nat;
    let c = bytes[at + 2] as nat;
    let d = bytes[at + 3] as nat;
    let run = tail_values(bytes, at, 0);
    assert(run == Ok::<Run, Error>(Run { values: Seq::empty(), at }));
    if bytes[at + 4] >= 128 {
        let e = (bytes[at + 4] - 128) as nat;
        assert(digits(bytes, at + 4, 28) == Ok::<(nat, int), Error>((e, at + 5)));
        assert(digits(bytes, at + 3, 21) == Ok::<(nat, int), Error>((d + 128 * e, at + 5)));
        assert(digits(bytes, at + 2, 14) == Ok::<(nat, int), Error>(
            (c + 128 * (d + 128 * e), at + 5),
        ));
        assert(digits(bytes, at + 1, 7) == Ok::<(nat, int), Error>(
            (b + 128 * (c + 128 * (d + 128 * e)), at + 5),
        ));
        let value = a + 128 * (b + 128 * (c + 128 * (d + 128 * e)));
        assert(digits(bytes, at, 0) == Ok::<(nat, int), Error>((value, at + 5)));
        assert(Seq::<u32>::empty().push((value % 0x1_0000_0000) as u32) =~= seq![
            (value % 0x1_0000_0000) as u32,
        ]);
    } else {
        assert(digits(bytes, at + 5, 35) is Err);
        assert(digits(bytes, at + 4, 28) is Err);
        assert(digits(bytes, at + 3, 21) is Err);
        assert(digits(bytes, at + 2, 14) is Err);
        assert(digits(bytes, at + 1, 7) is Err);
        assert(digits(bytes, at, 0) is Err);
    }
}

/// A plain column is refused where the count in front of it is not a whole number of blocks of a hundred
/// and twenty eight values, or is more than there are rows, or its words are not all there.
pub proof fn lemma_broken_columns_are_refused(data: Seq<u8>, words: nat, rows: nat)
    requires
        words >= 1,
    ensures
        4 * words > data.len() ==> plain_values(data, words, rows) is Err,
        4 * words <= data.len() && (crate::bytes::le(data.subrange(0, 4)) % 128 != 0
            || crate::bytes::le(data.subrange(0, 4)) > rows) ==> plain_values(
            data,
            words,
            rows,
        ) is Err,
{
    if 4 * words <= data.len() {
        let bytes = data.take((4 * words) as int);
        assert(bytes.subrange(0, 4) =~= data.subrange(0, 4));
        crate::bytes::lemma_le_4(data.subrange(0, 4));
    }
}

} // verus!
