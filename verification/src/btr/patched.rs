//! The patched codec: vectorised blocks with exceptions kept to one side.
//!
//! A page is a word that says where its metadata starts, counted in words from that word, then the
//! blocks, then the metadata: a byte for every decision the blocks make, a bitmap of the widths the
//! page has exceptions at, and an array of exceptions for each of those widths, narrowest first.
use vstd::arithmetic::power2::lemma2_to64;
use vstd::prelude::*;

use crate::btr::error::{Error, Result};
use crate::btr::fastpfor::{
    codec_bytes, codec_slice, covered, lemma_unpacked_ends, read_covered,
    tail_values, variable_byte, with_tail, Run, GROUP, LANES, MINI, PAGE, PATCHED,
};
use crate::btr::packing::{lemma_words_read, packed_value, unpack, unpacked, words_needed, words_read};
use crate::btr::part::{agrees, plus, read_u32, sat, word_at};

verus! {

/// One lane of a vectorised group.
pub open spec fn lane(bytes: Seq<u8>, at: int, width: nat, j: int) -> Result<Seq<u32>> {
    unpacked(bytes, at + 4 * j, LANES as nat, width, MINI as nat, "a vectorised packed group")
}

/// One vectorised group: four lanes, their values interleaved.
pub open spec fn group_values(bytes: Seq<u8>, at: int, width: nat) -> Result<Seq<u32>> {
    if lane(bytes, at, width, 0) is Err {
        lane(bytes, at, width, 0)
    } else if lane(bytes, at, width, 1) is Err {
        lane(bytes, at, width, 1)
    } else if lane(bytes, at, width, 2) is Err {
        lane(bytes, at, width, 2)
    } else if lane(bytes, at, width, 3) is Err {
        lane(bytes, at, width, 3)
    } else {
        Ok(Seq::new(GROUP as nat, |p: int| lane(bytes, at, width, p % 4)->Ok_0[p / 4]))
    }
}

/// `n` vectorised groups.
pub open spec fn groups_run(bytes: Seq<u8>, at: int, width: nat, n: nat) -> Result<Run>
    decreases n,
{
    if n == 0 {
        Ok(Run { values: Seq::empty(), at })
    } else {
        match groups_run(bytes, at, width, (n - 1) as nat) {
            Err(e) => Err(e),
            Ok(run) => match group_values(bytes, run.at, width) {
                Err(e) => Err(e),
                Ok(values) => Ok(Run { values: run.values + values, at: run.at + 16 * width }),
            },
        }
    }
}

/// `n` ordinary miniblocks.
pub open spec fn minis_run(bytes: Seq<u8>, at: int, width: nat, n: nat) -> Result<Run>
    decreases n,
{
    if n == 0 {
        Ok(Run { values: Seq::empty(), at })
    } else {
        match minis_run(bytes, at, width, (n - 1) as nat) {
            Err(e) => Err(e),
            Ok(run) => match unpacked(
                bytes,
                run.at,
                1,
                width,
                MINI as nat,
                "an exception array",
            ) {
                Err(e) => Err(e),
                Ok(values) => Ok(Run { values: run.values + values, at: run.at + 4 * width }),
            },
        }
    }
}

/// How many bytes `count` exceptions of `width` bits take.
pub open spec fn exceptions_len(count: nat, width: nat) -> nat {
    4 * (width * (4 * (count / 128) + (count % 128) / 32) + words_needed(count % 32, width))
}

/// One array of exceptions: as many vectorised groups as fit, then ordinary miniblocks, then whatever
/// is left over out of a part word.
pub open spec fn exception_values(bytes: Seq<u8>, at: int, width: nat) -> Result<Run> {
    match word_at(bytes, at, "an exception array") {
        Err(e) => Err(e),
        Ok(count) => {
            let length = exceptions_len(count as nat, width);
            if length > bytes.len() - (at + 4) {
                Err(
                    Error::Overrun {
                        what: "an exception array",
                        claimed: sat(length as int),
                        available: (bytes.len() - (at + 4)) as usize,
                    },
                )
            } else {
                match groups_run(bytes, at + 4, width, count as nat / 128) {
                    Err(e) => Err(e),
                    Ok(g) => match minis_run(bytes, g.at, width, (count as nat % 128) / 32) {
                        Err(e) => Err(e),
                        Ok(m) => match unpacked(
                            bytes,
                            m.at,
                            1,
                            width,
                            count as nat % 32,
                            "an exception array",
                        ) {
                            Err(e) => Err(e),
                            Ok(t) => Ok(
                                Run { values: g.values + m.values + t, at: at + 4 + length },
                            ),
                        },
                    },
                }
            }
        },
    }
}

/// Whether a page has exceptions at a width. The bit for a width sits one below it.
pub open spec fn has_width(widths: u32, width: u32) -> bool {
    widths & (1u32 << ((width - 1) as u32)) != 0
}

/// The arrays of exceptions up to and including a width, by width, and where they end.
#[verifier::opaque]
pub open spec fn exception_tables(bytes: Seq<u8>, at: int, widths: u32, width: nat) -> Result<
    (Seq<Seq<u32>>, int),
>
    decreases width,
{
    if width <= 1 {
        Ok((Seq::<Seq<u32>>::empty().push(Seq::empty()).push(Seq::empty()), at))
    } else {
        match exception_tables(bytes, at, widths, (width - 1) as nat) {
            Err(e) => Err(e),
            Ok((tables, end)) => if has_width(widths, width as u32) {
                match exception_values(bytes, end, width) {
                    Err(e) => Err(e),
                    Ok(run) => Ok((tables.push(run.values), run.at)),
                }
            } else {
                Ok((tables.push(Seq::empty()), end))
            },
        }
    }
}

/// How far the blocks of a page have been read.
pub ghost struct Blocks {
    /// How many bytes of the metadata have been used.
    pub meta: int,
    /// How many exceptions of each width have been used.
    pub used: Seq<usize>,
    /// Where the next block starts.
    pub at: int,
    /// The values so far.
    pub values: Seq<u32>,
}

/// One byte of a page's block metadata.
pub open spec fn meta_byte(meta: Seq<u8>, i: int) -> Result<u8> {
    if i < meta.len() {
        Ok(meta[i])
    } else {
        Err(
            Error::Overrun {
                what: "a patched page's block metadata",
                claimed: 1,
                available: 0,
            },
        )
    }
}

/// The first `n` exceptions of a block put back: each is a position and, unless it is a single bit,
/// the next value from the array of its width.
pub open spec fn patches(
    meta: Seq<u8>,
    tables: Seq<Seq<u32>>,
    width: u32,
    high: int,
    base: int,
    start: Blocks,
    n: nat,
) -> Result<Blocks>
    decreases n,
{
    if n == 0 {
        Ok(start)
    } else {
        match patches(meta, tables, width, high, base, start, (n - 1) as nat) {
            Err(e) => Err(e),
            Ok(st) => match meta_byte(meta, st.meta) {
                Err(e) => Err(e),
                Ok(position) => if high != 1 && st.used[high] >= tables[high].len() {
                    Err(
                        Error::Malformed {
                            what: "a patched block",
                            why: "it wants more exceptions than the page packed at that width",
                        },
                    )
                } else {
                    let patch = if high == 1 {
                        1u32
                    } else {
                        tables[high][st.used[high] as int]
                    };
                    let at = base + position;
                    Ok(
                        Blocks {
                            meta: st.meta + 1,
                            used: if high == 1 {
                                st.used
                            } else {
                                st.used.update(high, (st.used[high] + 1) as usize)
                            },
                            at: st.at,
                            values: st.values.update(at, st.values[at] | (patch << width)),
                        },
                    )
                },
            },
        }
    }
}

/// How many bits the exceptions of a block have above its width, or zero if that makes no sense.
pub open spec fn high_bits(width: u8, top: u8) -> int {
    if width <= top <= 32 {
        top - width
    } else {
        0
    }
}

/// One more block.
#[verifier::opaque]
pub open spec fn next_block(
    bytes: Seq<u8>,
    meta: Seq<u8>,
    tables: Seq<Seq<u32>>,
    st: Blocks,
) -> Result<Blocks> {
    let w = meta_byte(meta, st.meta);
    let c = meta_byte(meta, st.meta + 1);
    if w is Err {
        Err(w->Err_0)
    } else if c is Err {
        Err(c->Err_0)
    } else if w->Ok_0 > 32 {
        Err(
            Error::Malformed {
                what: "a patched block",
                why: "it packs its values wider than a value can be",
            },
        )
    } else {
        let width = w->Ok_0;
        match groups_run(bytes, st.at, width as nat, 2) {
            Err(e) => Err(e),
            Ok(run) => {
                let packed = Blocks {
                    meta: st.meta + 2,
                    used: st.used,
                    at: run.at,
                    values: st.values + run.values,
                };
                if c->Ok_0 == 0 {
                    Ok(packed)
                } else {
                    match meta_byte(meta, st.meta + 2) {
                        Err(e) => Err(e),
                        Ok(top) => if high_bits(width, top) == 0 {
                            Err(
                                Error::Malformed {
                                    what: "a patched block",
                                    why: "it has exceptions that are no wider than the values it packed",
                                },
                            )
                        } else {
                            patches(
                                meta,
                                tables,
                                width as u32,
                                high_bits(width, top),
                                st.values.len() as int,
                                (Blocks { meta: st.meta + 3, ..packed }),
                                c->Ok_0 as nat,
                            )
                        },
                    }
                }
            },
        }
    }
}

/// The first `n` blocks of a page.
pub open spec fn page_blocks(
    bytes: Seq<u8>,
    meta: Seq<u8>,
    tables: Seq<Seq<u32>>,
    start: int,
    n: nat,
) -> Result<Blocks>
    decreases n,
{
    if n == 0 {
        Ok(
            Blocks {
                meta: 0,
                used: Seq::new(33, |i: int| 0usize),
                at: start + 4,
                values: Seq::empty(),
            },
        )
    } else {
        match page_blocks(bytes, meta, tables, start, (n - 1) as nat) {
            Err(e) => Err(e),
            Ok(st) => next_block(bytes, meta, tables, st),
        }
    }
}

/// What is behind the blocks of a page.
pub ghost struct PageMeta {
    /// Where the blocks have to end.
    pub blocks_end: int,
    /// The bytes that say how to read the blocks.
    pub meta: Seq<u8>,
    /// The exceptions, by width.
    pub tables: Seq<Seq<u32>>,
    /// Where the page ends.
    pub end: int,
}

/// The metadata of a page.
#[verifier::opaque]
pub open spec fn page_meta(bytes: Seq<u8>, start: int) -> Result<PageMeta> {
    match word_at(bytes, start, "a patched page") {
        Err(e) => Err(e),
        Ok(meta) => {
            let a = sat(start + 4 * meta) as int;
            match word_at(bytes, a, "a patched page") {
                Err(e) => Err(e),
                Ok(size) => if a + 4 + size > bytes.len() {
                    Err(
                        Error::Overrun {
                            what: "a patched page's block metadata",
                            claimed: size as usize,
                            available: (bytes.len() - (a + 4)) as usize,
                        },
                    )
                } else {
                    let b = sat(a + 4 + 4 * ((size + 3) / 4)) as int;
                    match word_at(bytes, b, "a patched page") {
                        Err(e) => Err(e),
                        Ok(widths) => match exception_tables(bytes, b + 4, widths, 32) {
                            Err(e) => Err(e),
                            Ok((tables, end)) => Ok(
                                PageMeta {
                                    blocks_end: a,
                                    meta: bytes.subrange(a + 4, a + 4 + size),
                                    tables,
                                    end,
                                },
                            ),
                        },
                    }
                },
            }
        },
    }
}

/// One page of `values` values.
#[verifier::opaque]
pub open spec fn page_values(bytes: Seq<u8>, start: int, values: nat) -> Result<Run> {
    match page_meta(bytes, start) {
        Err(e) => Err(e),
        Ok(m) => match page_blocks(bytes, m.meta, m.tables, start, values / PATCHED as nat) {
            Err(e) => Err(e),
            Ok(st) => if st.at != m.blocks_end {
                Err(
                    Error::Malformed {
                        what: "a patched page",
                        why: "its blocks do not end where it says its metadata starts",
                    },
                )
            } else {
                Ok(Run { values: st.values, at: m.end })
            },
        },
    }
}

/// Values in front of a run.
pub open spec fn joined(front: Seq<u32>, rest: Result<Run>) -> Result<Run> {
    match rest {
        Err(e) => Err(e),
        Ok(run) => Ok(Run { values: front + run.values, at: run.at }),
    }
}

/// The size of the next page when `left` values are left.
pub open spec fn page_size(left: nat) -> nat {
    if left > PAGE {
        PAGE as nat
    } else {
        left
    }
}

/// Pages until `left` values have been read.
pub open spec fn pages(bytes: Seq<u8>, at: int, left: nat) -> Result<Run>
    decreases left,
{
    if left == 0 {
        Ok(Run { values: Seq::empty(), at })
    } else {
        match page_values(bytes, at, page_size(left)) {
            Err(e) => Err(e),
            Ok(run) => joined(
                run.values,
                pages(bytes, run.at, (left - page_size(left)) as nat),
            ),
        }
    }
}

/// What a patched column holds.
pub open spec fn patched_values(data: Seq<u8>, words: nat, rows: nat) -> Result<Seq<u32>> {
    match codec_bytes(data, words, "a patched column") {
        Err(e) => Err(e),
        Ok(bytes) => match covered(bytes, PATCHED as nat, rows, "a patched column") {
            Err(e) => Err(e),
            Ok(n) => with_tail(bytes, pages(bytes, 4, n), (rows - n) as nat),
        },
    }
}

/// A group that was there ends inside the bytes.
proof fn lemma_group_ends(bytes: Seq<u8>, at: int, width: nat)
    requires
        at <= bytes.len(),
        width <= 32,
        group_values(bytes, at, width) is Ok,
    ensures
        at + 16 * width <= bytes.len(),
        group_values(bytes, at, width)->Ok_0.len() == 128,
{
    assert(words_needed(32, width) == width);
    assert(lane(bytes, at, width, 3) is Ok);
    assert(words_read(bytes, at + 4 * 3, 4, width, "a vectorised packed group") is Ok);
    lemma_words_read(bytes, at + 4 * 3, 4, width, "a vectorised packed group");
    assert(4 * 4nat * (width - 1) == 16 * (width - 1)) by (nonlinear_arith);
}

/// Groups that were there end inside the bytes.
proof fn lemma_groups_len(bytes: Seq<u8>, at: int, width: nat, n: nat)
    requires
        at <= bytes.len(),
        width <= 32,
        groups_run(bytes, at, width, n) is Ok,
    ensures
        groups_run(bytes, at, width, n)->Ok_0.values.len() == 128 * n,
        at <= groups_run(bytes, at, width, n)->Ok_0.at <= bytes.len(),
    decreases n,
{
    if n > 0 {
        lemma_groups_len(bytes, at, width, (n - 1) as nat);
        let run = groups_run(bytes, at, width, (n - 1) as nat)->Ok_0;
        lemma_group_ends(bytes, run.at, width);
    }
}

/// Groups that stop early stop there however many were wanted.
proof fn lemma_groups_stop(bytes: Seq<u8>, at: int, width: nat, k: nat, n: nat)
    requires
        k <= n,
        groups_run(bytes, at, width, k) is Err,
    ensures
        groups_run(bytes, at, width, n) == groups_run(bytes, at, width, k),
    decreases n,
{
    if k < n {
        lemma_groups_stop(bytes, at, width, k, (n - 1) as nat);
    }
}

/// Miniblocks that stop early stop there however many were wanted.
proof fn lemma_minis_run_stops(bytes: Seq<u8>, at: int, width: nat, k: nat, n: nat)
    requires
        k <= n,
        minis_run(bytes, at, width, k) is Err,
    ensures
        minis_run(bytes, at, width, n) == minis_run(bytes, at, width, k),
    decreases n,
{
    if k < n {
        lemma_minis_run_stops(bytes, at, width, k, (n - 1) as nat);
    }
}

/// Unpacks one vectorised group.
fn unpack_group(bytes: &[u8], at: usize, width: usize) -> (r: Result<Vec<u32>>)
    requires
        at <= bytes@.len(),
        width <= 32,
    ensures
        agrees(r, group_values(bytes@, at as int, width as nat)),
{
    let len: usize = bytes.len();
    let mut out: Vec<u32> = Vec::new();
    proof {
        assert(words_needed(32, width as nat) == width as nat);
    }
    if width == 0 {
        let mut p: usize = 0;
        while p < 128
            invariant
                0 <= p <= 128,
                out@ == Seq::new(p as nat, |i: int| 0u32),
            decreases 128 - p,
        {
            out.push(0);
            p = p + 1;
            assert(out@ =~= Seq::new(p as nat, |i: int| 0u32));
        }
        proof {
            lemma2_to64();
            let none = Seq::<u32>::empty();
            assert forall|i: nat| #[trigger] packed_value(none, 0, i) == 0 by {}
            assert(out@ =~= group_values(bytes@, at as int, 0)->Ok_0);
        }
        return Ok(out);
    }
    let a = unpack(bytes, at, LANES, width, MINI, "a vectorised packed group")?;
    proof {
        lemma_words_read(bytes@, at as int, 4, width as nat, "a vectorised packed group");
    }
    let b = unpack(bytes, at + 4, LANES, width, MINI, "a vectorised packed group")?;
    proof {
        lemma_words_read(bytes@, at + 4, 4, width as nat, "a vectorised packed group");
    }
    let c = unpack(bytes, at + 8, LANES, width, MINI, "a vectorised packed group")?;
    proof {
        lemma_words_read(bytes@, at + 8, 4, width as nat, "a vectorised packed group");
    }
    let d = unpack(bytes, at + 12, LANES, width, MINI, "a vectorised packed group")?;
    let ghost whole = group_values(bytes@, at as int, width as nat)->Ok_0;
    let mut i: usize = 0;
    while i < 32
        invariant
            0 <= i <= 32,
            a@.len() == 32,
            b@.len() == 32,
            c@.len() == 32,
            d@.len() == 32,
            whole.len() == 128,
            forall|p: int|
                0 <= p < 32 ==> #[trigger] whole[4 * p] == a@[p] && whole[4 * p + 1] == b@[p]
                    && whole[4 * p + 2] == c@[p] && whole[4 * p + 3] == d@[p],
            out@ == whole.take(4 * i),
        decreases 32 - i,
    {
        assert(whole[4 * i as int] == a@[i as int]);
        out.push(a[i]);
        out.push(b[i]);
        out.push(c[i]);
        out.push(d[i]);
        i = i + 1;
        assert(out@ =~= whole.take(4 * i));
    }
    assert(out@ =~= whole);
    Ok(out)
}

/// Reads `n` vectorised groups, and says where they ended.
fn read_groups(bytes: &[u8], at: usize, width: usize, n: usize) -> (r: Result<(Vec<u32>, usize)>)
    requires
        at <= bytes@.len(),
        width <= 32,
    ensures
        match groups_run(bytes@, at as int, width as nat, n as nat) {
            Ok(run) => r is Ok && r->Ok_0.0@ == run.values && r->Ok_0.1 == run.at,
            Err(e) => r is Err && r->Err_0 == e,
        },
{
    let len: usize = bytes.len();
    let mut out: Vec<u32> = Vec::new();
    let mut end: usize = at;
    let mut k: usize = 0;
    while k < n
        invariant
            0 <= k <= n,
            width <= 32,
            len == bytes@.len(),
            at <= end <= len,
            groups_run(bytes@, at as int, width as nat, k as nat) == Ok::<Run, Error>(
                Run { values: out@, at: end as int },
            ),
        decreases n - k,
    {
        proof {
            if groups_run(bytes@, at as int, width as nat, (k + 1) as nat) is Err {
                lemma_groups_stop(bytes@, at as int, width as nat, (k + 1) as nat, n as nat);
            }
        }
        let mut values = unpack_group(bytes, end, width)?;
        proof {
            lemma_group_ends(bytes@, end as int, width as nat);
        }
        out.append(&mut values);
        end = end + 16 * width;
        k = k + 1;
    }
    Ok((out, end))
}

/// Reads one array of exceptions, and says where it ended.
fn exception_array(bytes: &[u8], at: usize, width: usize) -> (r: Result<(Vec<u32>, usize)>)
    requires
        at <= bytes@.len(),
        width <= 32,
    ensures
        match exception_values(bytes@, at as int, width as nat) {
            Ok(run) => r is Ok && r->Ok_0.0@ == run.values && r->Ok_0.1 == run.at && run.at
                <= bytes@.len(),
            Err(e) => r is Err && r->Err_0 == e,
        },
{
    let count: usize = read_u32(bytes, at, "an exception array")? as usize;
    let len: usize = bytes.len();
    let start: usize = at + 4;
    let groups: u64 = (count / GROUP) as u64;
    let minis: u64 = ((count % GROUP) / MINI) as u64;
    let tail: usize = count % MINI;
    assert(tail * width <= 1024) by (nonlinear_arith)
        requires
            tail <= 32,
            width <= 32,
    ;
    let whole: u64 = 4 * groups + minis;
    assert(width as u64 * whole <= 32 * whole) by (nonlinear_arith)
        requires
            width <= 32,
    ;
    let length: u64 = 4 * (width as u64 * whole + ((tail * width + 31) / 32) as u64);
    assert(length == exceptions_len(count as nat, width as nat));
    if length > (len - start) as u64 {
        let claimed: usize = if length > usize::MAX as u64 {
            usize::MAX
        } else {
            length as usize
        };
        return Err(
            Error::Overrun { what: "an exception array", claimed, available: len - start },
        );
    }
    let (mut out, mut end) = read_groups(bytes, start, width, count / GROUP)?;
    proof {
        lemma_groups_len(bytes@, start as int, width as nat, count as nat / 128);
    }
    let ghost g = out@;
    let ghost from = end as int;
    let n: usize = (count % GROUP) / MINI;
    let ghost mut m = Seq::<u32>::empty();
    let mut k: usize = 0;
    assert(g + m =~= g);
    while k < n
        invariant
            0 <= k <= n,
            width <= 32,
            len == bytes@.len(),
            end <= len,
            out@ == g + m,
            minis_run(bytes@, from, width as nat, k as nat) == Ok::<Run, Error>(
                Run { values: m, at: end as int },
            ),
            n == (count as nat % 128) / 32,
            word_at(bytes@, at as int, "an exception array") == Ok::<u32, Error>(count as u32),
            count <= u32::MAX,
            exceptions_len(count as nat, width as nat) <= bytes@.len() - (at + 4),
            groups_run(bytes@, at + 4, width as nat, count as nat / 128) == Ok::<Run, Error>(
                Run { values: g, at: from },
            ),
        decreases n - k,
    {
        proof {
            if minis_run(bytes@, from, width as nat, (k + 1) as nat) is Err {
                lemma_minis_run_stops(bytes@, from, width as nat, (k + 1) as nat, n as nat);
            }
        }
        let mut values = unpack(bytes, end, 1, width, MINI, "an exception array")?;
        proof {
            lemma_unpacked_ends(bytes@, end as int, width as nat, "an exception array");
        }
        let ghost v = values@;
        out.append(&mut values);
        proof {
            assert(out@ =~= g + (m + v));
            m = m + v;
        }
        end = end + 4 * width;
        k = k + 1;
    }
    let mut values = unpack(bytes, end, 1, width, tail, "an exception array")?;
    out.append(&mut values);
    Ok((out, start + length as usize))
}

/// Arrays of exceptions, taken for what they hold.
pub open spec fn held(tables: Seq<Vec<u32>>) -> Seq<Seq<u32>> {
    Seq::new(tables.len(), |i: int| tables[i]@)
}

/// Tables that stop early stop there however many were wanted.
proof fn lemma_tables_stop(bytes: Seq<u8>, at: int, widths: u32, k: nat, n: nat)
    requires
        1 <= k <= n,
        exception_tables(bytes, at, widths, k) is Err,
    ensures
        exception_tables(bytes, at, widths, n) == exception_tables(bytes, at, widths, k),
    decreases n,
{
    reveal_with_fuel(exception_tables, 1);
    if k < n {
        lemma_tables_stop(bytes, at, widths, k, (n - 1) as nat);
    }
}

/// Reads the arrays of exceptions that follow a page's metadata, by width.
fn read_tables(bytes: &[u8], at: usize, widths: u32) -> (r: Result<(Vec<Vec<u32>>, usize)>)
    requires
        at <= bytes@.len(),
    ensures
        match exception_tables(bytes@, at as int, widths, 32) {
            Ok((tables, end)) => {
                &&& r is Ok
                &&& held(r->Ok_0.0@) == tables
                &&& r->Ok_0.1 == end
                &&& r->Ok_0.0@.len() == 33
                &&& end <= bytes@.len()
            },
            Err(e) => r is Err && r->Err_0 == e,
        },
{
    let len: usize = bytes.len();
    let mut tables: Vec<Vec<u32>> = Vec::new();
    tables.push(Vec::new());
    tables.push(Vec::new());
    let mut end: usize = at;
    let mut width: u32 = 2;
    proof {
        reveal_with_fuel(exception_tables, 1);
    }
    assert(held(tables@) =~= exception_tables(bytes@, at as int, widths, 1)->Ok_0.0);
    while width <= 32
        invariant
            2 <= width <= 33,
            len == bytes@.len(),
            end <= len,
            tables@.len() == width,
            exception_tables(bytes@, at as int, widths, (width - 1) as nat) == Ok::<
                (Seq<Seq<u32>>, int),
                Error,
            >((held(tables@), end as int)),
        decreases 33 - width,
    {
        proof {
            reveal_with_fuel(exception_tables, 1);
            if exception_tables(bytes@, at as int, widths, width as nat) is Err {
                lemma_tables_stop(bytes@, at as int, widths, width as nat, 32);
            }
        }
        let ghost before = tables@;
        if widths & (1u32 << (width - 1)) != 0 {
            let (values, next) = exception_array(bytes, end, width as usize)?;
            let ghost v = values@;
            tables.push(values);
            end = next;
            assert(held(tables@) =~= held(before).push(v));
        } else {
            tables.push(Vec::new());
            assert(held(tables@) =~= held(before).push(Seq::empty()));
        }
        width = width + 1;
    }
    Ok((tables, end))
}

/// Takes one byte of a page's block metadata.
fn next(meta: &[u8], i: usize) -> (r: Result<u8>)
    ensures
        r == meta_byte(meta@, i as int),
{
    if i < meta.len() {
        Ok(meta[i])
    } else {
        Err(
            Error::Overrun {
                what: "a patched page's block metadata",
                claimed: 1,
                available: 0,
            },
        )
    }
}

/// Exceptions that stop early stop there however many were wanted.
proof fn lemma_patches_stop(
    meta: Seq<u8>,
    tables: Seq<Seq<u32>>,
    width: u32,
    high: int,
    base: int,
    start: Blocks,
    k: nat,
    n: nat,
)
    requires
        k <= n,
        patches(meta, tables, width, high, base, start, k) is Err,
    ensures
        patches(meta, tables, width, high, base, start, n) == patches(
            meta,
            tables,
            width,
            high,
            base,
            start,
            k,
        ),
    decreases n,
{
    if k < n {
        lemma_patches_stop(meta, tables, width, high, base, start, k, (n - 1) as nat);
    }
}

/// Puts back the exceptions of one block.
fn patch_block(
    meta: &[u8],
    tables: &Vec<Vec<u32>>,
    width: u8,
    high: usize,
    base: usize,
    from: usize,
    count: u8,
    used: &mut Vec<usize>,
    out: &mut Vec<u32>,
    Ghost(at): Ghost<int>,
) -> (r: Result<usize>)
    requires
        width < 32,
        1 <= high <= 32,
        tables@.len() == 33,
        old(used)@.len() == 33,
        base + 256 <= old(out)@.len(),
        from <= meta@.len(),
    ensures
        match patches(
            meta@,
            held(tables@),
            width as u32,
            high as int,
            base as int,
            (Blocks { meta: from as int, used: old(used)@, at, values: old(out)@ }),
            count as nat,
        ) {
            Ok(st) => {
                &&& r is Ok
                &&& r->Ok_0 == st.meta
                &&& st.meta <= meta@.len()
                &&& final(used)@ == st.used
                &&& final(out)@ == st.values
                &&& st.at == at
            },
            Err(e) => r is Err && r->Err_0 == e,
        },
        final(used)@.len() == 33,
        final(out)@.len() == old(out)@.len(),
{
    let ghost start = Blocks { meta: from as int, used: used@, at, values: out@ };
    let len: usize = meta.len();
    let total: usize = out.len();
    let mut i: usize = from;
    let mut k: u8 = 0;
    while k < count
        invariant
            0 <= k <= count,
            width < 32,
            1 <= high <= 32,
            tables@.len() == 33,
            used@.len() == 33,
            out@.len() == old(out)@.len() == total,
            base + 256 <= total,
            len == meta@.len(),
            i <= len,
            patches(
                meta@,
                held(tables@),
                width as u32,
                high as int,
                base as int,
                start,
                k as nat,
            ) == Ok::<Blocks, Error>(Blocks { meta: i as int, used: used@, at, values: out@ }),
            start == (Blocks { meta: from as int, used: old(used)@, at, values: old(out)@ }),
        decreases count - k,
    {
        proof {
            if patches(
                meta@,
                held(tables@),
                width as u32,
                high as int,
                base as int,
                start,
                (k + 1) as nat,
            ) is Err {
                lemma_patches_stop(
                    meta@,
                    held(tables@),
                    width as u32,
                    high as int,
                    base as int,
                    start,
                    (k + 1) as nat,
                    count as nat,
                );
            }
        }
        let position: usize = next(meta, i)? as usize;
        let patch: u32 = if high == 1 {
            1
        } else {
            let n: usize = used[high];
            if n >= tables[high].len() {
                return Err(
                    Error::Malformed {
                        what: "a patched block",
                        why: "it wants more exceptions than the page packed at that width",
                    },
                );
            }
            used.set(high, n + 1);
            tables[high][n]
        };
        let was: u32 = out[base + position];
        out.set(base + position, was | (patch << (width as u32)));
        i = i + 1;
        k = k + 1;
    }
    Ok(i)
}

/// Reads one block of a page.
fn read_block(
    bytes: &[u8],
    meta: &[u8],
    tables: &Vec<Vec<u32>>,
    from: usize,
    at: usize,
    used: &mut Vec<usize>,
    out: &mut Vec<u32>,
) -> (r: Result<(usize, usize)>)
    requires
        at <= bytes@.len(),
        from <= meta@.len(),
        tables@.len() == 33,
        old(used)@.len() == 33,
    ensures
        match next_block(
            bytes@,
            meta@,
            held(tables@),
            (Blocks { meta: from as int, used: old(used)@, at: at as int, values: old(out)@ }),
        ) {
            Ok(st) => {
                &&& r is Ok
                &&& r->Ok_0.0 == st.meta
                &&& r->Ok_0.1 == st.at
                &&& final(used)@ == st.used
                &&& final(out)@ == st.values
                &&& st.at <= bytes@.len()
                &&& st.meta <= meta@.len()
                &&& st.values.len() == old(out)@.len() + 256
            },
            Err(e) => r is Err && r->Err_0 == e,
        },
        final(used)@.len() == 33,
{
    proof {
        reveal(next_block);
    }
    let len: usize = meta.len();
    let width: u8 = next(meta, from)?;
    let count: u8 = next(meta, from + 1)?;
    if width > 32 {
        return Err(
            Error::Malformed {
                what: "a patched block",
                why: "it packs its values wider than a value can be",
            },
        );
    }
    let base: usize = out.len();
    let (mut values, end) = read_groups(bytes, at, width as usize, 2)?;
    proof {
        lemma_groups_len(bytes@, at as int, width as nat, 2);
    }
    out.append(&mut values);
    if count == 0 {
        return Ok((from + 2, end));
    }
    let top: u8 = next(meta, from + 2)?;
    if top <= width || top > 32 {
        return Err(
            Error::Malformed {
                what: "a patched block",
                why: "it has exceptions that are no wider than the values it packed",
            },
        );
    }
    let high: usize = (top - width) as usize;
    let next = patch_block(
        meta,
        tables,
        width,
        high,
        base,
        from + 3,
        count,
        used,
        out,
        Ghost(end as int),
    )?;
    Ok((next, end))
}

/// Blocks that stop early stop there however many were wanted.
proof fn lemma_page_blocks_stop(
    bytes: Seq<u8>,
    meta: Seq<u8>,
    tables: Seq<Seq<u32>>,
    start: int,
    k: nat,
    n: nat,
)
    requires
        k <= n,
        page_blocks(bytes, meta, tables, start, k) is Err,
    ensures
        page_blocks(bytes, meta, tables, start, n) == page_blocks(bytes, meta, tables, start, k),
    decreases n,
{
    if k < n {
        lemma_page_blocks_stop(bytes, meta, tables, start, k, (n - 1) as nat);
    }
}

/// Reads one page, and says where it ended.
///
/// The blocks have to end exactly where the metadata begins: without that a wrong offset would read
/// the metadata as packed values and answer.
pub fn page(bytes: &[u8], start: usize, values: usize) -> (r: Result<(Vec<u32>, usize)>)
    ensures
        match page_values(bytes@, start as int, values as nat) {
            Ok(run) => {
                &&& r is Ok
                &&& r->Ok_0.0@ == run.values
                &&& r->Ok_0.1 == run.at
                &&& run.at <= bytes@.len()
                &&& run.values.len() == 256 * (values as nat / 256)
            },
            Err(e) => r is Err && r->Err_0 == e,
        },
{
    proof {
        reveal(page_values);
        reveal(page_meta);
    }
    let len: usize = bytes.len();
    let words: u64 = read_u32(bytes, start, "a patched page")? as u64;
    let ahead: usize = if 4 * words > usize::MAX as u64 {
        usize::MAX
    } else {
        (4 * words) as usize
    };
    let blocks_end: usize = plus(start, ahead);
    let size: usize = read_u32(bytes, blocks_end, "a patched page")? as usize;
    let walk: usize = blocks_end + 4;
    if size > len - walk {
        return Err(
            Error::Overrun {
                what: "a patched page's block metadata",
                claimed: size,
                available: len - walk,
            },
        );
    }
    let meta = &bytes[walk..walk + size];
    let fill: usize = (4 - size % 4) % 4;
    let walk: usize = plus(walk + size, fill);
    assert(size + fill == 4 * ((size + 3) / 4));
    let widths: u32 = read_u32(bytes, walk, "a patched page")?;
    let (tables, end) = read_tables(bytes, walk + 4, widths)?;
    let ghost m = page_meta(bytes@, start as int)->Ok_0;
    assert(page_meta(bytes@, start as int) is Ok);
    assert(m.meta == meta@ && m.tables == held(tables@) && m.end == end && m.blocks_end
        == blocks_end);

    let mut used: Vec<usize> = Vec::new();
    let mut w: usize = 0;
    while w < 33
        invariant
            0 <= w <= 33,
            used@ == Seq::new(w as nat, |i: int| 0usize),
        decreases 33 - w,
    {
        used.push(0);
        w = w + 1;
        assert(used@ =~= Seq::new(w as nat, |i: int| 0usize));
    }
    let blocks: usize = values / PATCHED;
    let mut out: Vec<u32> = Vec::new();
    let mut at: usize = start + 4;
    let mut from: usize = 0;
    let mut b: usize = 0;
    while b < blocks
        invariant
            0 <= b <= blocks,
            blocks == values / PATCHED,
            len == bytes@.len(),
            at <= len,
            from <= meta@.len(),
            tables@.len() == 33,
            used@.len() == 33,
            out@.len() == 256 * b,
            page_meta(bytes@, start as int) == Ok::<PageMeta, Error>(m),
            m.meta == meta@,
            m.tables == held(tables@),
            page_blocks(bytes@, meta@, held(tables@), start as int, b as nat) == Ok::<
                Blocks,
                Error,
            >(Blocks { meta: from as int, used: used@, at: at as int, values: out@ }),
        decreases blocks - b,
    {
        proof {
            reveal(page_values);
        }
        match read_block(bytes, meta, &tables, from, at, &mut used, &mut out) {
            Ok((next_from, next_at)) => {
                from = next_from;
                at = next_at;
            },
            Err(e) => {
                proof {
                    lemma_page_blocks_stop(
                        bytes@,
                        meta@,
                        held(tables@),
                        start as int,
                        (b + 1) as nat,
                        blocks as nat,
                    );
                }
                return Err(e);
            },
        }
        b = b + 1;
    }
    if at != blocks_end {
        return Err(
            Error::Malformed {
                what: "a patched page",
                why: "its blocks do not end where it says its metadata starts",
            },
        );
    }
    Ok((out, end))
}

/// Joining twice is joining once.
proof fn lemma_joined(a: Seq<u32>, b: Seq<u32>, rest: Result<Run>)
    ensures
        joined(a, joined(b, rest)) == joined(a + b, rest),
        joined(Seq::empty(), rest) == rest,
{
    if let Ok(run) = rest {
        assert(a + (b + run.values) =~= (a + b) + run.values);
        assert(Seq::<u32>::empty() + run.values =~= run.values);
    }
}

/// Reads the composite of patched blocks and a variable byte tail.
///
/// The arguments mean what they do for the plain codec, and the framing around both is the same, but
/// the blocks are twice as large, so the two leave different amounts to the tail.
pub fn patched(data: &[u8], words: usize, rows: usize) -> (r: Result<Vec<u32>>)
    ensures
        agrees(r, patched_values(data@, words as nat, rows as nat)),
{
    let bytes = codec_slice(data, words, "a patched column")?;
    let packed: usize = read_covered(bytes, PATCHED, rows, "a patched column")?;
    let len: usize = bytes.len();
    let mut out: Vec<u32> = Vec::new();
    let mut at: usize = 4;
    proof {
        lemma_joined(Seq::empty(), Seq::empty(), pages(bytes@, 4, packed as nat));
    }
    while out.len() < packed
        invariant
            len == bytes@.len(),
            4 <= len,
            at <= len,
            out@.len() <= packed <= rows,
            packed % 256 == 0,
            out@.len() % 256 == 0,
            codec_bytes(data@, words as nat, "a patched column") == Ok::<Seq<u8>, Error>(bytes@),
            covered(bytes@, PATCHED as nat, rows as nat, "a patched column") == Ok::<nat, Error>(
                packed as nat,
            ),
            pages(bytes@, 4, packed as nat) == joined(
                out@,
                pages(bytes@, at as int, (packed - out@.len()) as nat),
            ),
        decreases packed - out@.len(),
    {
        let left: usize = packed - out.len();
        let size: usize = if left > PAGE {
            PAGE
        } else {
            left
        };
        let (mut values, end) = page(bytes, at, size)?;
        let ghost before = out@;
        let ghost v = values@;
        out.append(&mut values);
        proof {
            assert(v.len() == size);
            lemma_joined(before, v, pages(bytes@, end as int, (left - size) as nat));
        }
        at = end;
    }
    let mut tail = variable_byte(bytes, at, rows - packed)?;
    proof {
        assert(out@ + Seq::<u32>::empty() =~= out@);
    }
    out.append(&mut tail);
    Ok(out)
}

/// Putting exceptions back changes no lengths.
proof fn lemma_patches_keep(
    meta: Seq<u8>,
    tables: Seq<Seq<u32>>,
    width: u32,
    high: int,
    base: int,
    start: Blocks,
    n: nat,
)
    requires
        0 <= base,
        base + 256 <= start.values.len(),
        patches(meta, tables, width, high, base, start, n) is Ok,
    ensures
        patches(meta, tables, width, high, base, start, n)->Ok_0.values.len() == start.values.len(),
        patches(meta, tables, width, high, base, start, n)->Ok_0.at == start.at,
    decreases n,
{
    if n > 0 {
        lemma_patches_keep(meta, tables, width, high, base, start, (n - 1) as nat);
    }
}

/// The blocks of a page give a whole block of values each.
proof fn lemma_page_blocks_len(
    bytes: Seq<u8>,
    meta: Seq<u8>,
    tables: Seq<Seq<u32>>,
    start: int,
    n: nat,
)
    requires
        start + 4 <= bytes.len(),
        page_blocks(bytes, meta, tables, start, n) is Ok,
    ensures
        page_blocks(bytes, meta, tables, start, n)->Ok_0.values.len() == 256 * n,
        page_blocks(bytes, meta, tables, start, n)->Ok_0.at <= bytes.len(),
    decreases n,
{
    if n > 0 {
        reveal(next_block);
        lemma_page_blocks_len(bytes, meta, tables, start, (n - 1) as nat);
        let st = page_blocks(bytes, meta, tables, start, (n - 1) as nat)->Ok_0;
        let width = meta[st.meta];
        let count = meta[st.meta + 1];
        lemma_groups_len(bytes, st.at, width as nat, 2);
        if count > 0 {
            let run = groups_run(bytes, st.at, width as nat, 2)->Ok_0;
            let packed = Blocks {
                meta: st.meta + 3,
                used: st.used,
                at: run.at,
                values: st.values + run.values,
            };
            lemma_patches_keep(
                meta,
                tables,
                width as u32,
                high_bits(width, meta[st.meta + 2]),
                st.values.len() as int,
                packed,
                count as nat,
            );
        }
    }
}

/// Pages give as many values as they were asked for, as long as that is a whole number of blocks.
proof fn lemma_pages_len(bytes: Seq<u8>, at: int, left: nat)
    requires
        pages(bytes, at, left) is Ok,
        left % 256 == 0,
    ensures
        pages(bytes, at, left)->Ok_0.values.len() == left,
    decreases left,
{
    if left > 0 {
        reveal(page_values);
        reveal(page_meta);
        let run = page_values(bytes, at, page_size(left))->Ok_0;
        let m = page_meta(bytes, at)->Ok_0;
        lemma_page_blocks_len(bytes, m.meta, m.tables, at, page_size(left) / PATCHED as nat);
        lemma_pages_len(bytes, run.at, (left - page_size(left)) as nat);
    }
}

/// A tail gives as many values as it was asked for.
proof fn lemma_tail_values_len(bytes: Seq<u8>, at: int, n: nat)
    requires
        tail_values(bytes, at, n) is Ok,
    ensures
        tail_values(bytes, at, n)->Ok_0.values.len() == n,
    decreases n,
{
    if n > 0 {
        lemma_tail_values_len(bytes, at, (n - 1) as nat);
    }
}

/// A patched column holds exactly one value per row.
pub proof fn lemma_patched_values_fill_the_rows(data: Seq<u8>, words: nat, rows: nat)
    requires
        patched_values(data, words, rows) is Ok,
    ensures
        patched_values(data, words, rows)->Ok_0.len() == rows,
{
    let bytes = data.take((4 * words) as int);
    let n = covered(bytes, PATCHED as nat, rows, "a patched column")->Ok_0;
    lemma_pages_len(bytes, 4, n);
    lemma_tail_values_len(bytes, pages(bytes, 4, n)->Ok_0.at, (rows - n) as nat);
}

} // verus!
