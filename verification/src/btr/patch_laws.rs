//! What was packed with exceptions comes back.
use vstd::arithmetic::power2::{lemma2_to64, lemma_pow2_strictly_increases, pow2};
use vstd::bits::{lemma_u32_shl_is_mul, lemma_u32_shr_is_div};
use vstd::prelude::*;

use crate::btr::error::Error;
use crate::btr::fastpfor::{lemma_tail_values_come_back, variable_run, Run};
use crate::btr::laws::{
    group_bytes, lemma_group_comes_back, lemma_packed_run_comes_back, lemma_patched_value_comes_back,
    narrow, packed_bytes,
};
use crate::btr::packing::{unpacked, words_needed};
use crate::btr::part::word_at;
use crate::btr::patched::{
    exception_tables, exception_values, exceptions_len, groups_run, has_width, minis_run, next_block,
    page_blocks, page_meta, page_size, page_values, pages, patched_values, patches, Blocks, PageMeta,
};
use crate::bytes::{le_bytes, lemma_le_bytes_len, lemma_le_of_le_bytes, lemma_pow_widths};

verus! {

/// The first `n` groups of some values, packed in lanes.
pub open spec fn groups_bytes(values: Seq<u32>, width: nat, n: nat) -> Seq<u8>
    decreases n,
{
    if n == 0 {
        Seq::empty()
    } else {
        groups_bytes(values, width, (n - 1) as nat) + group_bytes(
            values.subrange(128 * (n - 1), 128 * (n as int)),
            width,
        )
    }
}

/// Groups that were packed come back.
proof fn lemma_groups_come_back(
    front: Seq<u8>,
    values: Seq<u32>,
    width: nat,
    n: nat,
    back: Seq<u8>,
)
    requires
        128 * n <= values.len(),
        width <= 32,
        narrow(values, width),
    ensures
        groups_bytes(values, width, n).len() == 16 * width * n,
        groups_run(front + groups_bytes(values, width, n) + back, front.len() as int, width, n)
            == Ok::<Run, Error>(
            Run {
                values: values.take(128 * (n as int)),
                at: front.len() as int + groups_bytes(values, width, n).len(),
            },
        ),
    decreases n,
{
    let all = front + groups_bytes(values, width, n) + back;
    if n > 0 {
        let k = (n - 1) as nat;
        let before = groups_bytes(values, width, k);
        let one = values.subrange(128 * (n - 1), 128 * (n as int));
        let last = group_bytes(one, width);
        assert(all =~= front + before + (last + back));
        lemma_groups_come_back(front, values, width, k, last + back);
        assert(all =~= (front + before) + last + back);
        assert(narrow(one, width)) by {
            assert forall|i: int| 0 <= i < one.len() implies (#[trigger] one[i]) < pow2(width) by {
                assert(values[128 * (n - 1) + i] < pow2(width));
            }
        }
        lemma_group_comes_back(front + before, one, width, back);
        assert(values.take(128 * (k as int)) + one =~= values.take(128 * (n as int)));
        assert(16 * width * n == 16 * width * k + 16 * width) by (nonlinear_arith)
            requires
                n == k + 1,
        ;
    } else {
        assert(values.take(0) =~= Seq::<u32>::empty());
        assert(16 * width * n == 0) by (nonlinear_arith)
            requires
                n == 0,
        ;
    }
}

/// The first `n` runs of thirty two of some values, packed.
pub open spec fn runs_bytes(values: Seq<u32>, width: nat, n: nat) -> Seq<u8>
    decreases n,
{
    if n == 0 {
        Seq::empty()
    } else {
        runs_bytes(values, width, (n - 1) as nat) + packed_bytes(
            values.subrange(32 * (n - 1), 32 * (n as int)),
            width,
        )
    }
}

/// Runs that were packed come back.
proof fn lemma_runs_come_back(
    front: Seq<u8>,
    values: Seq<u32>,
    width: nat,
    n: nat,
    back: Seq<u8>,
)
    requires
        32 * n <= values.len(),
        width <= 32,
        narrow(values, width),
    ensures
        runs_bytes(values, width, n).len() == 4 * width * n,
        minis_run(front + runs_bytes(values, width, n) + back, front.len() as int, width, n) == Ok::<
            Run,
            Error,
        >(
            Run {
                values: values.take(32 * (n as int)),
                at: front.len() as int + runs_bytes(values, width, n).len(),
            },
        ),
    decreases n,
{
    let all = front + runs_bytes(values, width, n) + back;
    if n > 0 {
        let k = (n - 1) as nat;
        let before = runs_bytes(values, width, k);
        let one = values.subrange(32 * (n - 1), 32 * (n as int));
        let last = packed_bytes(one, width);
        assert(all =~= front + before + (last + back));
        lemma_runs_come_back(front, values, width, k, last + back);
        assert(all =~= (front + before) + last + back);
        assert(narrow(one, width)) by {
            assert forall|i: int| 0 <= i < one.len() implies (#[trigger] one[i]) < pow2(width) by {
                assert(values[32 * (n - 1) + i] < pow2(width));
            }
        }
        lemma_a_run_takes_its_width(width);
        lemma_packed_run_comes_back(front + before, one, width, back, "an exception array");
        assert(values.take(32 * (k as int)) + one =~= values.take(32 * (n as int)));
        assert(4 * width * n == 4 * width * k + 4 * width) by (nonlinear_arith)
            requires
                n == k + 1,
        ;
    } else {
        assert(values.take(0) =~= Seq::<u32>::empty());
        assert(4 * width * n == 0) by (nonlinear_arith)
            requires
                n == 0,
        ;
    }
}

/// Exceptions packed at `width` bits: how many, whole groups, whole runs, and what is left.
pub open spec fn exception_bytes(values: Seq<u32>, width: nat) -> Seq<u8> {
    let g = values.len() / 128;
    let m = (values.len() % 128) / 32;
    let rest = values.skip(128 * g as int);
    le_bytes(values.len(), 4) + groups_bytes(values, width, g) + runs_bytes(rest, width, m)
        + packed_bytes(rest.skip(32 * m as int), width)
}

/// Thirty two values take as many words as each of them takes bits.
proof fn lemma_a_run_takes_its_width(width: nat)
    ensures
        words_needed(32, width) == width,
{
    assert((32 * width + 31) / 32 == width);
}

/// How long packed exceptions are.
proof fn lemma_exceptions_len(count: nat, width: nat)
    ensures
        exceptions_len(count, width) == 16 * width * (count / 128) + 4 * width * ((count % 128)
            / 32) + 4 * words_needed(count % 32, width),
{
    let g = count / 128;
    let m = (count % 128) / 32;
    assert(4 * (width * (4 * g + m)) == 16 * width * g + 4 * width * m) by (nonlinear_arith);
}

/// What is left of narrow values is narrow.
proof fn lemma_narrow_skip(values: Seq<u32>, width: nat, k: int)
    requires
        0 <= k <= values.len(),
        narrow(values, width),
    ensures
        narrow(values.skip(k), width),
{
    let rest = values.skip(k);
    assert forall|i: int| 0 <= i < rest.len() implies (#[trigger] rest[i]) < pow2(width) by {
        assert(values[k + i] < pow2(width));
    }
}

/// The four parts of packed exceptions.
pub ghost struct Parts {
    /// How many there are.
    pub head: Seq<u8>,
    /// The groups.
    pub groups: Seq<u8>,
    /// The runs.
    pub runs: Seq<u8>,
    /// What is left.
    pub rest: Seq<u8>,
}

/// The parts of packed exceptions, one by one.
pub open spec fn parts(values: Seq<u32>, width: nat) -> Parts {
    let g = values.len() / 128;
    let m = (values.len() % 128) / 32;
    let rest = values.skip(128 * g as int);
    Parts {
        head: le_bytes(values.len(), 4),
        groups: groups_bytes(values, width, g),
        runs: runs_bytes(rest, width, m),
        rest: packed_bytes(rest.skip(32 * m as int), width),
    }
}

/// The count in front of packed exceptions comes back.
proof fn lemma_count_comes_back(front: Seq<u8>, count: nat, back: Seq<u8>, what: &'static str)
    requires
        count <= u32::MAX,
    ensures
        word_at(front + le_bytes(count, 4) + back, front.len() as int, what) == Ok::<u32, Error>(
            count as u32,
        ),
{
    let all = front + le_bytes(count, 4) + back;
    let at = front.len() as int;
    lemma_le_bytes_len(count, 4);
    lemma_pow_widths();
    lemma_le_of_le_bytes(count, 4);
    assert(all.subrange(at, at + 4) =~= le_bytes(count, 4));
}

/// Each part of packed exceptions comes back from where it lies.
#[verifier::spinoff_prover]
proof fn lemma_parts_come_back(front: Seq<u8>, values: Seq<u32>, width: nat, back: Seq<u8>, all: Seq<u8>)
    requires
        values.len() <= u32::MAX,
        width <= 32,
        narrow(values, width),
        all == front + exception_bytes(values, width) + back,
    ensures
        ({
            let p = parts(values, width);
            let g = values.len() / 128;
            let m = (values.len() % 128) / 32;
            let rest = values.skip(128 * g as int);
            let a = front.len() as int + 4;
            let b = a + p.groups.len();
            let c = b + p.runs.len();
            &&& word_at(all, front.len() as int, "an exception array") == Ok::<u32, Error>(
                values.len() as u32,
            )
            &&& groups_run(all, a, width, g) == Ok::<Run, Error>(
                Run { values: values.take(128 * (g as int)), at: b },
            )
            &&& minis_run(all, b, width, m) == Ok::<Run, Error>(
                Run { values: rest.take(32 * (m as int)), at: c },
            )
            &&& unpacked(all, c, 1, width, values.len() % 32, "an exception array") == Ok::<
                Seq<u32>,
                Error,
            >(rest.skip(32 * m as int))
        }),
{
    let p = parts(values, width);
    let g = values.len() / 128;
    let m = (values.len() % 128) / 32;
    let rest = values.skip(128 * g as int);
    let last = rest.skip(32 * m as int);
    let a = front + p.head;
    let b = a + p.groups;
    let c = b + p.runs;
    lemma_le_bytes_len(values.len(), 4);
    assert(last.len() == values.len() % 32);
    assert(word_at(all, front.len() as int, "an exception array") == Ok::<u32, Error>(
        values.len() as u32,
    )) by {
        let behind = p.groups + p.runs + p.rest + back;
        assert(all =~= front + p.head + behind);
        lemma_count_comes_back(front, values.len(), behind, "an exception array");
    }
    assert(p.groups.len() == 16 * width * g && groups_run(all, a.len() as int, width, g) == Ok::<
        Run,
        Error,
    >(Run { values: values.take(128 * (g as int)), at: b.len() as int })) by {
        assert(all =~= a + p.groups + (p.runs + p.rest + back));
        lemma_groups_come_back(a, values, width, g, p.runs + p.rest + back);
    }
    assert(p.runs.len() == 4 * width * m && minis_run(all, b.len() as int, width, m) == Ok::<
        Run,
        Error,
    >(Run { values: rest.take(32 * (m as int)), at: c.len() as int })) by {
        lemma_narrow_skip(values, width, 128 * g as int);
        assert(all =~= b + p.runs + (p.rest + back));
        lemma_runs_come_back(b, rest, width, m, p.rest + back);
    }
    assert(p.rest.len() == 4 * words_needed(values.len() % 32, width) && unpacked(
        all,
        c.len() as int,
        1,
        width,
        values.len() % 32,
        "an exception array",
    ) == Ok::<Seq<u32>, Error>(last)) by {
        lemma_narrow_skip(values, width, 128 * g as int);
        lemma_narrow_skip(rest, width, 32 * m as int);
        assert(all =~= c + p.rest + back);
        lemma_packed_run_comes_back(c, last, width, back, "an exception array");
    }
}

/// The parts of packed exceptions are as long as they are read as.
#[verifier::spinoff_prover]
proof fn lemma_part_lengths(values: Seq<u32>, width: nat)
    requires
        width <= 32,
        narrow(values, width),
    ensures
        ({
            let p = parts(values, width);
            &&& exceptions_len(values.len(), width) == p.groups.len() + p.runs.len() + p.rest.len()
            &&& exception_bytes(values, width).len() == 4 + p.groups.len() + p.runs.len()
                + p.rest.len()
        }),
{
    let none = Seq::<u8>::empty();
    let g = values.len() / 128;
    let m = (values.len() % 128) / 32;
    let rest = values.skip(128 * g as int);
    let last = rest.skip(32 * m as int);
    let p = parts(values, width);
    assert(p.groups.len() == 16 * width * g) by {
        lemma_groups_come_back(none, values, width, g, none);
    }
    assert(p.runs.len() == 4 * width * m) by {
        lemma_narrow_skip(values, width, 128 * g as int);
        lemma_runs_come_back(none, rest, width, m, none);
    }
    assert(p.rest.len() == 4 * words_needed(values.len() % 32, width)) by {
        lemma_narrow_skip(values, width, 128 * g as int);
        lemma_narrow_skip(rest, width, 32 * m as int);
        assert(last.len() == values.len() % 32);
        lemma_packed_run_comes_back(none, last, width, none, "an exception array");
    }
    lemma_exceptions_len(values.len(), width);
    lemma_le_bytes_len(values.len(), 4);
    assert(exception_bytes(values, width) == p.head + p.groups + p.runs + p.rest);
}

/// Values cut at groups and runs are the values.
proof fn lemma_cuts_join(values: Seq<u32>, g: int, m: int)
    requires
        0 <= g,
        0 <= m,
        g + m <= values.len(),
    ensures
        values.take(g) + values.skip(g).take(m) + values.skip(g).skip(m) == values,
{
    assert(values.take(g) + values.skip(g).take(m) + values.skip(g).skip(m) =~= values);
}

/// Exceptions read part by part.
proof fn lemma_exception_values(
    bytes: Seq<u8>,
    at: int,
    width: nat,
    count: u32,
    g: Run,
    m: Run,
    t: Seq<u32>,
)
    requires
        word_at(bytes, at, "an exception array") == Ok::<u32, Error>(count),
        exceptions_len(count as nat, width) <= bytes.len() - (at + 4),
        groups_run(bytes, at + 4, width, count as nat / 128) == Ok::<Run, Error>(g),
        minis_run(bytes, g.at, width, (count as nat % 128) / 32) == Ok::<Run, Error>(m),
        unpacked(bytes, m.at, 1, width, count as nat % 32, "an exception array") == Ok::<
            Seq<u32>,
            Error,
        >(t),
    ensures
        exception_values(bytes, at, width) == Ok::<Run, Error>(
            Run {
                values: g.values + m.values + t,
                at: at + 4 + exceptions_len(count as nat, width),
            },
        ),
{
}

/// Exceptions that were packed come back.
#[verifier::spinoff_prover]
proof fn lemma_exceptions_come_back(front: Seq<u8>, values: Seq<u32>, width: nat, back: Seq<u8>, all: Seq<u8>)
    requires
        values.len() <= u32::MAX,
        width <= 32,
        narrow(values, width),
        all == front + exception_bytes(values, width) + back,
    ensures
        exception_values(all, front.len() as int, width) == Ok::<Run, Error>(
            Run { values, at: front.len() as int + exception_bytes(values, width).len() },
        ),
{
    let p = parts(values, width);
    let g = values.len() / 128;
    let m = (values.len() % 128) / 32;
    let rest = values.skip(128 * g as int);
    let at = front.len() as int;
    lemma_part_lengths(values, width);
    lemma_parts_come_back(front, values, width, back, all);
    assert(all.len() == front.len() + exception_bytes(values, width).len() + back.len());
    lemma_cuts_join(values, 128 * g as int, 32 * m as int);
    lemma_exception_values(
        all,
        at,
        width,
        values.len() as u32,
        Run { values: values.take(128 * (g as int)), at: at + 4 + p.groups.len() },
        Run { values: rest.take(32 * (m as int)), at: at + 4 + p.groups.len() + p.runs.len() },
        rest.skip(32 * m as int),
    );
}

/// The exceptions of a page, narrowest first. A width with none takes no bytes.
pub open spec fn tables_bytes(tables: Seq<Seq<u32>>, width: nat) -> Seq<u8>
    decreases width,
{
    if width <= 1 {
        Seq::empty()
    } else {
        tables_bytes(tables, (width - 1) as nat) + table_bytes(tables, width)
    }
}

/// The exceptions of a page at one width.
pub open spec fn table_bytes(tables: Seq<Seq<u32>>, width: nat) -> Seq<u8> {
    if tables[width as int].len() > 0 {
        exception_bytes(tables[width as int], width)
    } else {
        Seq::empty()
    }
}

/// Whether exceptions can be packed, and the bitmap says which widths have any.
pub open spec fn tables_packable(tables: Seq<Seq<u32>>, widths: u32) -> bool {
    &&& tables.len() == 33
    &&& tables[0].len() == 0
    &&& tables[1].len() == 0
    &&& forall|h: int|
        2 <= h <= 32 ==> {
            &&& (#[trigger] tables[h]).len() <= u32::MAX
            &&& narrow(tables[h], h as nat)
            &&& has_width(widths, h as u32) == (tables[h].len() > 0)
        }
}

/// Exceptions that were packed at every width come back.
proof fn lemma_tables_come_back(
    front: Seq<u8>,
    tables: Seq<Seq<u32>>,
    widths: u32,
    width: nat,
    back: Seq<u8>,
    all: Seq<u8>,
)
    requires
        1 <= width <= 32,
        tables_packable(tables, widths),
        all == front + tables_bytes(tables, width) + back,
    ensures
        exception_tables(all, front.len() as int, widths, width) == Ok::<(Seq<Seq<u32>>, int), Error>(
            (tables.take(width as int + 1), front.len() as int + tables_bytes(tables, width).len()),
        ),
    decreases width,
{
    reveal_with_fuel(exception_tables, 1);
    if width == 1 {
        let none = Seq::<u32>::empty();
        assert(tables[0] =~= none);
        assert(tables[1] =~= none);
        assert(tables.take(2) =~= Seq::<Seq<u32>>::empty().push(none).push(none));
    } else {
        let k = (width - 1) as nat;
        let before = tables_bytes(tables, k);
        let last = table_bytes(tables, width);
        assert(all =~= front + before + (last + back));
        lemma_tables_come_back(front, tables, widths, k, last + back, all);
        assert(tables.take(k as int + 1).push(tables[width as int]) =~= tables.take(width as int + 1));
        if tables[width as int].len() > 0 {
            assert(all =~= (front + before) + last + back);
            lemma_exceptions_come_back(
                front + before,
                tables[width as int],
                width,
                back,
                all,
            );
        } else {
            assert(tables[width as int] =~= Seq::<u32>::empty());
        }
    }
}

/// The low bits of a value.
pub open spec fn low(v: u32, width: u32) -> u32 {
    v & !(0xFFFF_FFFFu32 << width)
}

/// Two hundred and fifty six values, packed at a width that all but a few of them fit in.
pub ghost struct Patched {
    /// The values.
    pub values: Seq<u32>,
    /// The width they are packed at.
    pub width: u8,
    /// The width of the widest.
    pub top: u8,
    /// Where those are that do not fit.
    pub spots: Seq<u8>,
}

impl Patched {
    /// Whether a value is one of the first `k` that do not fit.
    pub open spec fn spotted(self, k: nat, i: int) -> bool {
        exists|j: int| 0 <= j < k && #[trigger] self.spots[j] == i
    }

    /// How many bits an exception takes.
    pub open spec fn high(self) -> int {
        self.top - self.width
    }

    /// The exception at one of the spots: what is above the bits that were packed.
    pub open spec fn above(self, j: int) -> u32 {
        self.values[self.spots[j] as int] >> (self.width as u32)
    }

    /// Whether the values that are not marked fit, the ones that are fit with their exceptions, and an
    /// exception of one bit is that bit.
    pub open spec fn wf(self) -> bool {
        &&& self.values.len() == 256
        &&& self.width <= 32
        &&& self.spots.len() <= 255
        &&& forall|i: int|
            0 <= i < 256 && !self.spotted(self.spots.len(), i) ==> (#[trigger] self.values[i])
                < pow2(self.width as nat)
        &&& self.spots.len() > 0 ==> self.width < self.top <= 32
        &&& forall|j: int, k: int|
            0 <= j < k < self.spots.len() ==> (#[trigger] self.spots[j]) != (
            #[trigger] self.spots[k])
        &&& forall|j: int|
            0 <= j < self.spots.len() ==> if self.high() == 1 {
                #[trigger] self.above(j) == 1
            } else {
                self.above(j) < pow2(self.high() as nat)
            }
    }

    /// The values once the first `k` exceptions have been put back.
    pub open spec fn restored(self, k: nat) -> Seq<u32> {
        Seq::new(
            256,
            |i: int|
                if self.spotted(self.spots.len(), i) && !self.spotted(k, i) {
                    low(self.values[i], self.width as u32)
                } else {
                    self.values[i]
                },
        )
    }

    /// The values as they are packed.
    pub open spec fn bytes(self) -> Seq<u8> {
        groups_bytes(self.restored(0), self.width as nat, 2)
    }

    /// What the page says of this block.
    pub open spec fn meta(self) -> Seq<u8> {
        let head = seq![self.width, self.spots.len() as u8];
        if self.spots.len() > 0 {
            head.push(self.top) + self.spots
        } else {
            head
        }
    }

    /// The exceptions of this block that are kept at a width.
    pub open spec fn kept(self, h: int) -> Seq<u32> {
        if self.spots.len() > 0 && self.high() == h {
            Seq::new(self.spots.len(), |j: int| self.above(j))
        } else {
            Seq::empty()
        }
    }
}

/// What was packed fits in the width it was packed at.
proof fn lemma_restored_is_narrow(b: Patched)
    requires
        b.wf(),
    ensures
        narrow(b.restored(0), b.width as nat),
{
    let s = b.restored(0);
    assert forall|i: int| 0 <= i < s.len() implies (#[trigger] s[i]) < pow2(b.width as nat) by {
        if b.spotted(b.spots.len(), i) {
            let w = b.width as u32;
            let v = b.values[i];
            assert(!b.spotted(0, i));
            assert(w < 32);
            assert(v & !(0xFFFF_FFFFu32 << w) < (1u32 << w)) by (bit_vector)
                requires
                    w < 32,
            ;
            lemma2_to64();
            lemma_pow2_strictly_increases(w as nat, 32);
            lemma_u32_shl_is_mul(1, w);
        } else {
            assert(b.values[i] < pow2(b.width as nat));
        }
    }
}

/// Putting one exception back.
proof fn lemma_one_restored(b: Patched, n: nat)
    requires
        b.wf(),
        0 < n <= b.spots.len(),
    ensures
        ({
            let p = b.spots[n - 1] as int;
            let before = b.restored((n - 1) as nat);
            b.restored(n) == before.update(
                p,
                before[p] | (b.above(n - 1) << (b.width as u32)),
            )
        }),
{
    let p = b.spots[n - 1] as int;
    let k = (n - 1) as nat;
    let w = b.width as u32;
    let v = b.values[p];
    assert(b.spotted(b.spots.len(), p));
    assert(b.spotted(n, p));
    assert(!b.spotted(k, p));
    assert(b.restored(k)[p] == low(v, w));
    lemma_patched_value_comes_back(v, w);
    let after = b.restored(k).update(p, b.restored(k)[p] | (b.above(n - 1) << w));
    assert forall|i: int| 0 <= i < 256 implies #[trigger] b.restored(n)[i] == after[i] by {
        if i != p {
            if b.spotted(n, i) {
                let j = choose|j: int| 0 <= j < n && #[trigger] b.spots[j] == i;
                assert(j != n - 1);
                assert(b.spotted(k, i));
            }
            if b.spotted(k, i) {
                let j = choose|j: int| 0 <= j < k && #[trigger] b.spots[j] == i;
                assert(0 <= j < n && b.spots[j] == i);
                assert(b.spotted(n, i));
            }
        }
    }
    assert(b.restored(n) =~= after);
}

/// Once every exception is back the values are.
proof fn lemma_all_restored(b: Patched)
    requires
        b.wf(),
    ensures
        b.restored(b.spots.len()) == b.values,
{
    assert(b.restored(b.spots.len()) =~= b.values);
}

/// Where the counts of used exceptions stand once `n` more of a block's have been used.
pub open spec fn used_more(used: Seq<usize>, high: int, n: nat) -> Seq<usize> {
    if high == 1 {
        used
    } else {
        used.update(high, (used[high] + n) as usize)
    }
}

/// The exceptions of a block are put back one after the other.
#[verifier::spinoff_prover]
proof fn lemma_patches_come_back(
    b: Patched,
    meta: Seq<u8>,
    tables: Seq<Seq<u32>>,
    done: Seq<u32>,
    start: Blocks,
    n: nat,
)
    requires
        b.wf(),
        n <= b.spots.len(),
        b.spots.len() > 0,
        start.values == done + b.restored(0),
        start.used.len() == 33,
        0 <= start.meta,
        start.meta + b.spots.len() <= meta.len(),
        forall|j: int| 0 <= j < b.spots.len() ==> meta[start.meta + j] == #[trigger] b.spots[j],
        b.high() != 1 ==> start.used[b.high()] + b.spots.len() <= tables[b.high()].len()
            <= usize::MAX,
        b.high() != 1 ==> forall|j: int|
            0 <= j < b.spots.len() ==> tables[b.high()][start.used[b.high()] + j]
                == #[trigger] b.above(j),
    ensures
        patches(
            meta,
            tables,
            b.width as u32,
            b.high(),
            done.len() as int,
            start,
            n,
        ) == Ok::<Blocks, Error>(
            Blocks {
                meta: start.meta + n,
                used: used_more(start.used, b.high(), n),
                at: start.at,
                values: done + b.restored(n),
            },
        ),
    decreases n,
{
    let h = b.high();
    if n == 0 {
        if h != 1 {
            assert(start.used.update(h, (start.used[h] + 0) as usize) =~= start.used);
        }
    } else {
        let k = (n - 1) as nat;
        lemma_patches_come_back(b, meta, tables, done, start, k);
        let st = Blocks {
            meta: start.meta + k,
            used: used_more(start.used, h, k),
            at: start.at,
            values: done + b.restored(k),
        };
        let p = b.spots[n - 1];
        assert(meta[start.meta + (n - 1)] == b.spots[n - 1]);
        lemma_one_restored(b, n);
        let w = b.width as u32;
        let patch = b.above(n - 1);
        let at = done.len() + p;
        assert(st.values[at] == b.restored(k)[p as int]);
        assert(st.values.update(at, st.values[at] | (patch << w)) =~= done + b.restored(n));
        if h != 1 {
            assert(tables[h][start.used[h] + (n - 1)] == b.above(n - 1));
            assert(st.used[h] == start.used[h] + k);
            assert(st.used.update(h, (st.used[h] + 1) as usize) =~= used_more(start.used, h, n));
        }
    }
}

/// A block that was packed comes back, exceptions and all.
#[verifier::spinoff_prover]
proof fn lemma_block_comes_back(
    b: Patched,
    bytes: Seq<u8>,
    meta: Seq<u8>,
    tables: Seq<Seq<u32>>,
    st: Blocks,
)
    requires
        b.wf(),
        st.used.len() == 33,
        0 <= st.meta,
        st.meta + b.meta().len() <= meta.len(),
        meta.subrange(st.meta, st.meta + b.meta().len()) == b.meta(),
        groups_run(bytes, st.at, b.width as nat, 2) == Ok::<Run, Error>(
            Run { values: b.restored(0), at: st.at + b.bytes().len() },
        ),
        b.spots.len() > 0 && b.high() != 1 ==> st.used[b.high()] + b.spots.len()
            <= tables[b.high()].len() <= usize::MAX,
        b.spots.len() > 0 && b.high() != 1 ==> forall|j: int|
            0 <= j < b.spots.len() ==> tables[b.high()][st.used[b.high()] + j]
                == #[trigger] b.above(j),
    ensures
        next_block(bytes, meta, tables, st) == Ok::<Blocks, Error>(
            Blocks {
                meta: st.meta + b.meta().len(),
                used: if b.spots.len() > 0 {
                    used_more(st.used, b.high(), b.spots.len())
                } else {
                    st.used
                },
                at: st.at + b.bytes().len(),
                values: st.values + b.values,
            },
        ),
{
    reveal(next_block);
    let m = b.meta();
    let slice = meta.subrange(st.meta, st.meta + m.len());
    assert(slice[0] == m[0] && slice[1] == m[1]);
    assert(meta[st.meta] == b.width);
    assert(meta[st.meta + 1] == b.spots.len() as u8);
    lemma_all_restored(b);
    if b.spots.len() == 0 {
        assert(b.restored(0) == b.values);
    } else {
        assert(slice[2] == m[2]);
        assert(meta[st.meta + 2] == b.top);
        let start = Blocks {
            meta: st.meta + 3,
            used: st.used,
            at: st.at + b.bytes().len(),
            values: st.values + b.restored(0),
        };
        assert forall|j: int| 0 <= j < b.spots.len() implies meta[start.meta + j]
            == #[trigger] b.spots[j] by {
            assert(slice[3 + j] == m[3 + j]);
        }
        lemma_patches_come_back(b, meta, tables, st.values, start, b.spots.len());
    }
}

/// Blocks as they are packed, one after the other.
pub open spec fn all_bytes(blocks: Seq<Patched>) -> Seq<u8>
    decreases blocks.len(),
{
    if blocks.len() == 0 {
        Seq::empty()
    } else {
        all_bytes(blocks.drop_last()) + blocks.last().bytes()
    }
}

/// What a page says of its blocks.
pub open spec fn all_meta(blocks: Seq<Patched>) -> Seq<u8>
    decreases blocks.len(),
{
    if blocks.len() == 0 {
        Seq::empty()
    } else {
        all_meta(blocks.drop_last()) + blocks.last().meta()
    }
}

/// The values of blocks.
pub open spec fn all_values(blocks: Seq<Patched>) -> Seq<u32>
    decreases blocks.len(),
{
    if blocks.len() == 0 {
        Seq::empty()
    } else {
        all_values(blocks.drop_last()) + blocks.last().values
    }
}

/// The exceptions of blocks that are kept at a width.
pub open spec fn all_kept(blocks: Seq<Patched>, h: int) -> Seq<u32>
    decreases blocks.len(),
{
    if blocks.len() == 0 {
        Seq::empty()
    } else {
        all_kept(blocks.drop_last(), h) + blocks.last().kept(h)
    }
}

/// How many exceptions of each width some blocks have used. An exception of one bit is not kept.
pub open spec fn used_by(blocks: Seq<Patched>) -> Seq<usize> {
    Seq::new(
        33,
        |h: int|
            if h >= 2 {
                all_kept(blocks, h).len() as usize
            } else {
                0usize
            },
    )
}

/// Whether every block can be packed.
pub open spec fn all_patchable(blocks: Seq<Patched>) -> bool {
    forall|k: int| 0 <= k < blocks.len() ==> (#[trigger] blocks[k]).wf()
}

/// What the first blocks take is the front of what all of them take.
proof fn lemma_first_blocks(blocks: Seq<Patched>, n: int, h: int)
    requires
        0 <= n <= blocks.len(),
    ensures
        all_bytes(blocks.take(n)).len() <= all_bytes(blocks).len(),
        all_bytes(blocks).take(all_bytes(blocks.take(n)).len() as int) == all_bytes(blocks.take(n)),
        all_meta(blocks.take(n)).len() <= all_meta(blocks).len(),
        all_meta(blocks).take(all_meta(blocks.take(n)).len() as int) == all_meta(blocks.take(n)),
        all_kept(blocks.take(n), h).len() <= all_kept(blocks, h).len(),
        all_kept(blocks, h).take(all_kept(blocks.take(n), h).len() as int) == all_kept(
            blocks.take(n),
            h,
        ),
    decreases blocks.len(),
{
    if n == blocks.len() {
        assert(blocks.take(n) =~= blocks);
        assert(all_bytes(blocks).take(all_bytes(blocks).len() as int) =~= all_bytes(blocks));
        assert(all_meta(blocks).take(all_meta(blocks).len() as int) =~= all_meta(blocks));
        assert(all_kept(blocks, h).take(all_kept(blocks, h).len() as int) =~= all_kept(blocks, h));
    } else {
        let init = blocks.drop_last();
        lemma_first_blocks(init, n, h);
        assert(init.take(n) =~= blocks.take(n));
        assert(all_bytes(blocks).take(all_bytes(blocks.take(n)).len() as int) =~= all_bytes(
            init,
        ).take(all_bytes(blocks.take(n)).len() as int));
        assert(all_meta(blocks).take(all_meta(blocks.take(n)).len() as int) =~= all_meta(init).take(
            all_meta(blocks.take(n)).len() as int,
        ));
        assert(all_kept(blocks, h).take(all_kept(blocks.take(n), h).len() as int) =~= all_kept(
            init,
            h,
        ).take(all_kept(blocks.take(n), h).len() as int));
    }
}

/// One more block.
proof fn lemma_one_more(blocks: Seq<Patched>, n: int, h: int)
    requires
        0 <= n < blocks.len(),
    ensures
        all_bytes(blocks.take(n + 1)) == all_bytes(blocks.take(n)) + blocks[n].bytes(),
        all_meta(blocks.take(n + 1)) == all_meta(blocks.take(n)) + blocks[n].meta(),
        all_values(blocks.take(n + 1)) == all_values(blocks.take(n)) + blocks[n].values,
        all_kept(blocks.take(n + 1), h) == all_kept(blocks.take(n), h) + blocks[n].kept(h),
{
    assert(blocks.take(n + 1).drop_last() =~= blocks.take(n));
}

/// The exceptions that have been used once a block more has been read.
proof fn lemma_used_one_more(blocks: Seq<Patched>, n: int)
    requires
        0 <= n < blocks.len(),
        all_patchable(blocks),
        forall|h: int| 2 <= h <= 32 ==> #[trigger] all_kept(blocks, h).len() <= usize::MAX,
    ensures
        used_by(blocks.take(n + 1)) == (if blocks[n].spots.len() > 0 {
            used_more(used_by(blocks.take(n)), blocks[n].high(), blocks[n].spots.len())
        } else {
            used_by(blocks.take(n))
        }),
{
    let b = blocks[n];
    assert(b.wf());
    let before = used_by(blocks.take(n));
    let after = used_by(blocks.take(n + 1));
    let stated = if b.spots.len() > 0 {
        used_more(before, b.high(), b.spots.len())
    } else {
        before
    };
    assert forall|h: int| 0 <= h < 33 implies #[trigger] after[h] == stated[h] by {
        lemma_one_more(blocks, n, h);
        lemma_first_blocks(blocks, n + 1, h);
        if h >= 2 {
            assert(all_kept(blocks, h).len() <= usize::MAX);
        }
    }
    assert(after =~= stated);
}

/// What the page says of a block lies behind what it says of those before it.
#[verifier::spinoff_prover]
proof fn lemma_block_meta_lies(blocks: Seq<Patched>, k: int)
    requires
        0 <= k < blocks.len(),
    ensures
        ({
            let at = all_meta(blocks.take(k)).len() as int;
            let m = blocks[k].meta();
            at + m.len() <= all_meta(blocks).len() && all_meta(blocks).subrange(at, at + m.len())
                == m
        }),
{
    let at = all_meta(blocks.take(k)).len() as int;
    let m = blocks[k].meta();
    let so_far = all_meta(blocks.take(k + 1));
    lemma_one_more(blocks, k, 0);
    lemma_first_blocks(blocks, k + 1, 0);
    assert(so_far.subrange(at, at + m.len()) =~= m);
    assert(all_meta(blocks).subrange(at, at + m.len()) =~= all_meta(blocks).take(
        so_far.len() as int,
    ).subrange(at, at + m.len()));
}

/// A block is read behind those before it.
#[verifier::spinoff_prover]
proof fn lemma_block_bytes_lie(
    front: Seq<u8>,
    blocks: Seq<Patched>,
    back: Seq<u8>,
    k: int,
    all: Seq<u8>,
)
    requires
        0 <= k < blocks.len(),
        blocks[k].wf(),
        all == front + all_bytes(blocks) + back,
    ensures
        ({
            let b = blocks[k];
            let at = front.len() as int + all_bytes(blocks.take(k)).len();
            groups_run(all, at, b.width as nat, 2) == Ok::<Run, Error>(
                Run { values: b.restored(0), at: at + b.bytes().len() },
            )
        }),
{
    let b = blocks[k];
    let before = all_bytes(blocks.take(k));
    let so_far = all_bytes(blocks.take(k + 1));
    lemma_one_more(blocks, k, 0);
    lemma_first_blocks(blocks, k + 1, 0);
    let behind = all_bytes(blocks).skip(so_far.len() as int);
    assert(all_bytes(blocks) =~= so_far + behind);
    assert(all =~= (front + before) + b.bytes() + (behind + back));
    lemma_restored_is_narrow(b);
    lemma_groups_come_back(front + before, b.restored(0), b.width as nat, 2, behind + back);
    assert(b.restored(0).take(256) =~= b.restored(0));
}

/// The exceptions of a block lie behind those that the blocks before it have at that width.
#[verifier::spinoff_prover]
proof fn lemma_block_kept_lies(blocks: Seq<Patched>, k: int)
    requires
        0 <= k < blocks.len(),
        blocks[k].wf(),
        blocks[k].spots.len() > 0,
    ensures
        ({
            let b = blocks[k];
            let from = all_kept(blocks.take(k), b.high()).len();
            &&& from + b.spots.len() <= all_kept(blocks, b.high()).len()
            &&& forall|j: int|
                0 <= j < b.spots.len() ==> all_kept(blocks, b.high())[from + j] == #[trigger] b.above(
                    j,
                )
        }),
{
    let b = blocks[k];
    let h = b.high();
    let from = all_kept(blocks.take(k), h).len();
    let kept = all_kept(blocks.take(k + 1), h);
    lemma_one_more(blocks, k, h);
    lemma_first_blocks(blocks, k + 1, h);
    assert forall|j: int| 0 <= j < b.spots.len() implies all_kept(blocks, h)[from + j]
        == #[trigger] b.above(j) by {
        assert(kept[from + j] == b.kept(h)[j]);
        assert(all_kept(blocks, h).take(kept.len() as int)[from + j] == kept[from + j]);
    }
}

/// Where reading stands once the first `n` blocks of a page have been read.
pub open spec fn read_up_to(from: int, blocks: Seq<Patched>, n: int) -> Blocks {
    Blocks {
        meta: all_meta(blocks.take(n)).len() as int,
        used: used_by(blocks.take(n)),
        at: from + all_bytes(blocks.take(n)).len(),
        values: all_values(blocks.take(n)),
    }
}

/// Whether the exceptions of a page are those of its blocks.
pub open spec fn tables_hold(tables: Seq<Seq<u32>>, blocks: Seq<Patched>) -> bool {
    forall|h: int|
        2 <= h <= 32 ==> (#[trigger] all_kept(blocks, h)).len() <= usize::MAX && tables[h]
            == all_kept(blocks, h)
}

/// One more block of a page comes back.
#[verifier::spinoff_prover]
proof fn lemma_next_comes_back(
    front: Seq<u8>,
    blocks: Seq<Patched>,
    back: Seq<u8>,
    tables: Seq<Seq<u32>>,
    k: int,
    all: Seq<u8>,
)
    requires
        0 <= k < blocks.len(),
        all_patchable(blocks),
        tables_hold(tables, blocks),
        all == front + all_bytes(blocks) + back,
    ensures
        next_block(
            all,
            all_meta(blocks),
            tables,
            read_up_to(front.len() as int, blocks, k),
        ) == Ok::<Blocks, Error>(read_up_to(front.len() as int, blocks, k + 1)),
{
    let b = blocks[k];
    let pre = blocks.take(k);
    let st = read_up_to(front.len() as int, blocks, k);
    let h = b.high();
    assert(b.wf());
    lemma_block_meta_lies(blocks, k);
    lemma_block_bytes_lie(front, blocks, back, k, all);
    if b.spots.len() > 0 && h != 1 {
        lemma_block_kept_lies(blocks, k);
        assert(all_kept(blocks, h).len() <= usize::MAX);
        lemma_first_blocks(blocks, k, h);
        assert(st.used[h] == all_kept(pre, h).len());
        assert forall|j: int| 0 <= j < b.spots.len() implies tables[h][st.used[h] + j]
            == #[trigger] b.above(j) by {}
    }
    lemma_block_comes_back(b, all, all_meta(blocks), tables, st);
    assert(forall|h: int|
        2 <= h <= 32 ==> #[trigger] all_kept(blocks, h).len() <= usize::MAX);
    lemma_used_one_more(blocks, k);
    lemma_one_more(blocks, k, 0);
}

/// The first `n` blocks of a page come back.
#[verifier::spinoff_prover]
proof fn lemma_page_blocks_come_back(
    front: Seq<u8>,
    blocks: Seq<Patched>,
    back: Seq<u8>,
    tables: Seq<Seq<u32>>,
    n: nat,
    all: Seq<u8>,
)
    requires
        front.len() >= 4,
        n <= blocks.len(),
        all_patchable(blocks),
        tables_hold(tables, blocks),
        all == front + all_bytes(blocks) + back,
    ensures
        page_blocks(all, all_meta(blocks), tables, front.len() - 4, n) == Ok::<Blocks, Error>(
            read_up_to(front.len() as int, blocks, n as int),
        ),
    decreases n,
{
    if n == 0 {
        assert(blocks.take(0) =~= Seq::<Patched>::empty());
        assert(used_by(blocks.take(0)) =~= Seq::new(33, |i: int| 0usize));
    } else {
        lemma_page_blocks_come_back(front, blocks, back, tables, (n - 1) as nat, all);
        lemma_next_comes_back(front, blocks, back, tables, n - 1, all);
    }
}

/// The exceptions of a page's blocks, by width.
pub open spec fn tables_of(blocks: Seq<Patched>) -> Seq<Seq<u32>> {
    Seq::new(
        33,
        |h: int|
            if h >= 2 {
                all_kept(blocks, h)
            } else {
                Seq::<u32>::empty()
            },
    )
}

/// Blocks take whole words.
proof fn lemma_blocks_are_words(blocks: Seq<Patched>)
    requires
        all_patchable(blocks),
    ensures
        all_bytes(blocks).len() % 4 == 0,
    decreases blocks.len(),
{
    if blocks.len() > 0 {
        let init = blocks.drop_last();
        let b = blocks.last();
        assert forall|k: int| 0 <= k < init.len() implies (#[trigger] init[k]).wf() by {
            assert(blocks[k].wf());
        }
        lemma_blocks_are_words(init);
        assert(blocks[blocks.len() - 1].wf());
        lemma_restored_is_narrow(b);
        let none = Seq::<u8>::empty();
        lemma_groups_come_back(none, b.restored(0), b.width as nat, 2, none);
        assert(16 * (b.width as nat) * 2 == 4 * (8 * (b.width as nat))) by (nonlinear_arith);
    }
}

/// The exceptions kept at a width fit in it.
proof fn lemma_kept_is_narrow(blocks: Seq<Patched>, h: int)
    requires
        all_patchable(blocks),
        2 <= h,
    ensures
        narrow(all_kept(blocks, h), h as nat),
    decreases blocks.len(),
{
    if blocks.len() > 0 {
        let init = blocks.drop_last();
        let b = blocks.last();
        assert forall|k: int| 0 <= k < init.len() implies (#[trigger] init[k]).wf() by {
            assert(blocks[k].wf());
        }
        lemma_kept_is_narrow(init, h);
        assert(blocks[blocks.len() - 1].wf());
        let all = all_kept(blocks, h);
        let before = all_kept(init, h);
        assert forall|i: int| 0 <= i < all.len() implies (#[trigger] all[i]) < pow2(h as nat) by {
            if i < before.len() {
                assert(before[i] < pow2(h as nat));
            } else {
                let j = i - before.len();
                assert(all[i] == b.kept(h)[j]);
                assert(b.above(j) < pow2(b.high() as nat));
            }
        }
    }
}

/// Whether the lengths of a page can be written down, and its bitmap says which widths have exceptions.
pub open spec fn page_packable(blocks: Seq<Patched>, widths: u32, fill: Seq<u8>) -> bool {
    &&& all_patchable(blocks)
    &&& 4 + all_bytes(blocks).len() <= u32::MAX
    &&& all_meta(blocks).len() <= u32::MAX
    &&& fill.len() == (4 - all_meta(blocks).len() % 4) % 4
    &&& forall|h: int|
        2 <= h <= 32 ==> (#[trigger] all_kept(blocks, h)).len() <= u32::MAX && has_width(
            widths,
            h as u32,
        ) == (all_kept(blocks, h).len() > 0)
}

/// A page: where what it says of its blocks starts, the blocks, how much it says of them, that, and the
/// exceptions behind a bitmap of their widths.
pub open spec fn page_bytes(blocks: Seq<Patched>, widths: u32, fill: Seq<u8>) -> Seq<u8> {
    le_bytes((4 + all_bytes(blocks).len()) / 4, 4) + all_bytes(blocks) + le_bytes(
        all_meta(blocks).len(),
        4,
    ) + all_meta(blocks) + fill + le_bytes(widths as nat, 4) + tables_bytes(tables_of(blocks), 32)
}

/// Whether bytes start with some others.
spec fn starts(all: Seq<u8>, first: Seq<u8>) -> bool {
    first.len() <= all.len() && all.take(first.len() as int) == first
}

/// What bytes start with starts with its own first part, and the second lies behind that.
proof fn lemma_starts(all: Seq<u8>, a: Seq<u8>, b: Seq<u8>)
    requires
        starts(all, a + b),
    ensures
        starts(all, a),
        a.len() + b.len() <= all.len(),
        all.subrange(a.len() as int, a.len() as int + b.len()) == b,
{
    let both = all.take((a + b).len() as int);
    assert(all.take(a.len() as int) =~= both.take(a.len() as int));
    assert(both.take(a.len() as int) =~= a);
    assert(all.subrange(a.len() as int, a.len() as int + b.len()) =~= both.subrange(
        a.len() as int,
        a.len() as int + b.len(),
    ));
    assert(both.subrange(a.len() as int, a.len() as int + b.len()) =~= b);
}

/// A number that lies somewhere is read there.
proof fn lemma_number_lies(all: Seq<u8>, at: int, n: nat, what: &'static str)
    requires
        n <= u32::MAX,
        0 <= at,
        at + 4 <= all.len(),
        all.subrange(at, at + 4) == le_bytes(n, 4),
    ensures
        word_at(all, at, what) == Ok::<u32, Error>(n as u32),
{
    let front = all.take(at);
    let back = all.skip(at + 4);
    lemma_le_bytes_len(n, 4);
    assert(all =~= front + all.subrange(at, at + 4) + back);
    lemma_count_comes_back(front, n, back, what);
}

/// Where the parts of a page lie.
#[verifier::spinoff_prover]
proof fn lemma_page_lies(
    front: Seq<u8>,
    words: nat,
    x: Seq<u8>,
    m: Seq<u8>,
    fill: Seq<u8>,
    widths: u32,
    t: Seq<u8>,
    all: Seq<u8>,
)
    requires
        words <= u32::MAX,
        m.len() <= u32::MAX,
        starts(
            all,
            front + le_bytes(words, 4) + x + le_bytes(m.len(), 4) + m + fill + le_bytes(
                widths as nat,
                4,
            ) + t,
        ),
    ensures
        ({
            let what = "a patched page";
            let start = front.len() as int;
            let a = start + 4 + x.len();
            let b = a + 4 + m.len() + fill.len();
            &&& word_at(all, start, what) == Ok::<u32, Error>(words as u32)
            &&& word_at(all, a, what) == Ok::<u32, Error>(m.len() as u32)
            &&& a + 4 + m.len() <= all.len()
            &&& all.subrange(a + 4, a + 4 + m.len()) == m
            &&& all.subrange(start + 4, a) == x
            &&& word_at(all, b, what) == Ok::<u32, Error>(widths)
            &&& b + 4 + t.len() <= all.len()
            &&& all.subrange(b + 4, b + 4 + t.len()) == t
        }),
{
    let what = "a patched page";
    lemma_le_bytes_len(words, 4);
    lemma_le_bytes_len(m.len(), 4);
    lemma_le_bytes_len(widths as nat, 4);
    let p1 = front + le_bytes(words, 4);
    let p2 = p1 + x;
    let p3 = p2 + le_bytes(m.len(), 4);
    let p4 = p3 + m;
    let p5 = p4 + fill;
    let p6 = p5 + le_bytes(widths as nat, 4);
    lemma_starts(all, p6, t);
    lemma_starts(all, p5, le_bytes(widths as nat, 4));
    lemma_starts(all, p4, fill);
    lemma_starts(all, p3, m);
    lemma_starts(all, p2, le_bytes(m.len(), 4));
    lemma_starts(all, p1, x);
    lemma_starts(all, front, le_bytes(words, 4));
    lemma_number_lies(all, front.len() as int, words, what);
    lemma_number_lies(all, p2.len() as int, m.len(), what);
    lemma_number_lies(all, p5.len() as int, widths as nat, what);
}

/// A page behind something starts with that, then with its own parts.
#[verifier::spinoff_prover]
proof fn lemma_page_starts(
    front: Seq<u8>,
    a: Seq<u8>,
    b: Seq<u8>,
    c: Seq<u8>,
    d: Seq<u8>,
    e: Seq<u8>,
    f: Seq<u8>,
    g: Seq<u8>,
    back: Seq<u8>,
)
    ensures
        starts(
            front + (a + b + c + d + e + f + g) + back,
            front + a + b + c + d + e + f + g,
        ),
{
    assert(front + (a + b) =~= front + a + b);
    assert(front + (a + b + c) =~= front + (a + b) + c);
    assert(front + (a + b + c + d) =~= front + (a + b + c) + d);
    assert(front + (a + b + c + d + e) =~= front + (a + b + c + d) + e);
    assert(front + (a + b + c + d + e + f) =~= front + (a + b + c + d + e) + f);
    assert(front + (a + b + c + d + e + f + g) =~= front + (a + b + c + d + e + f) + g);
    let first = front + (a + b + c + d + e + f + g);
    assert((first + back).take(first.len() as int) =~= first);
}

/// The exceptions of blocks can be packed where the page can.
proof fn lemma_tables_are_packable(blocks: Seq<Patched>, widths: u32, fill: Seq<u8>)
    requires
        page_packable(blocks, widths, fill),
    ensures
        tables_packable(tables_of(blocks), widths),
{
    let tables = tables_of(blocks);
    assert forall|h: int| 2 <= h <= 32 implies {
        &&& (#[trigger] tables[h]).len() <= u32::MAX
        &&& narrow(tables[h], h as nat)
        &&& has_width(widths, h as u32) == (tables[h].len() > 0)
    } by {
        assert(tables[h] == all_kept(blocks, h));
        lemma_kept_is_narrow(blocks, h);
    }
}

/// Exceptions that lie somewhere are read there.
#[verifier::spinoff_prover]
proof fn lemma_tables_lie(
    all: Seq<u8>,
    at: int,
    tables: Seq<Seq<u32>>,
    widths: u32,
)
    requires
        tables.len() == 33,
        tables_packable(tables, widths),
        0 <= at,
        at + tables_bytes(tables, 32).len() <= all.len(),
        all.subrange(at, at + tables_bytes(tables, 32).len()) == tables_bytes(tables, 32),
    ensures
        exception_tables(all, at, widths, 32) == Ok::<(Seq<Seq<u32>>, int), Error>(
            (tables, at + tables_bytes(tables, 32).len()),
        ),
{
    let t = tables_bytes(tables, 32);
    let before = all.take(at);
    let back = all.skip(at + t.len());
    assert(all =~= before + all.subrange(at, at + t.len()) + back);
    lemma_tables_come_back(before, tables, widths, 32, back, all);
    assert(tables.take(33) =~= tables);
}

/// What a page says of itself comes back.
#[verifier::spinoff_prover]
proof fn lemma_page_meta_comes_back(
    front: Seq<u8>,
    blocks: Seq<Patched>,
    widths: u32,
    fill: Seq<u8>,
    back: Seq<u8>,
    all: Seq<u8>,
)
    requires
        page_packable(blocks, widths, fill),
        all == front + page_bytes(blocks, widths, fill) + back,
        all.len() <= usize::MAX,
    ensures
        page_meta(all, front.len() as int) == Ok::<PageMeta, Error>(
            PageMeta {
                blocks_end: front.len() as int + 4 + all_bytes(blocks).len(),
                meta: all_meta(blocks),
                tables: tables_of(blocks),
                end: front.len() as int + page_bytes(blocks, widths, fill).len(),
            },
        ),
        all_bytes(blocks) == all.subrange(
            front.len() as int + 4,
            front.len() as int + 4 + all_bytes(blocks).len(),
        ),
        front.len() as int + 4 + all_bytes(blocks).len() <= all.len(),
{
    let x = all_bytes(blocks);
    let m = all_meta(blocks);
    let tables = tables_of(blocks);
    let t = tables_bytes(tables, 32);
    let words = (4 + x.len()) / 4;
    let h1 = le_bytes(words, 4);
    let h2 = le_bytes(m.len(), 4);
    let h3 = le_bytes(widths as nat, 4);
    let start = front.len() as int;
    lemma_le_bytes_len(words, 4);
    lemma_le_bytes_len(m.len(), 4);
    lemma_le_bytes_len(widths as nat, 4);
    lemma_page_starts(front, h1, x, h2, m, fill, h3, t, back);
    lemma_page_lies(front, words, x, m, fill, widths, t, all);
    lemma_blocks_are_words(blocks);
    let a = start + 4 + x.len();
    let b = a + 4 + m.len() + fill.len();
    let end = b + 4 + t.len();
    assert(4 * words == 4 + x.len());
    assert(m.len() + fill.len() == 4 * ((m.len() + 3) / 4));
    lemma_tables_are_packable(blocks, widths, fill);
    lemma_tables_lie(all, b + 4, tables, widths);
    reveal(page_meta);
    assert(page_bytes(blocks, widths, fill).len() == end - start);
}

/// A page that was packed comes back, whatever the widths of its blocks and wherever the values lie that
/// do not fit in them.
#[verifier::spinoff_prover]
pub proof fn lemma_patched_page_comes_back(
    front: Seq<u8>,
    blocks: Seq<Patched>,
    widths: u32,
    fill: Seq<u8>,
    back: Seq<u8>,
)
    requires
        page_packable(blocks, widths, fill),
        front.len() + page_bytes(blocks, widths, fill).len() + back.len() <= usize::MAX,
    ensures
        page_values(
            front + page_bytes(blocks, widths, fill) + back,
            front.len() as int,
            256 * blocks.len(),
        ) == Ok::<Run, Error>(
            Run {
                values: all_values(blocks),
                at: front.len() as int + page_bytes(blocks, widths, fill).len(),
            },
        ),
{
    let all = front + page_bytes(blocks, widths, fill) + back;
    let x = all_bytes(blocks);
    let start = front.len() as int;
    let tables = tables_of(blocks);
    lemma_page_meta_comes_back(front, blocks, widths, fill, back, all);
    let head = all.take(start + 4);
    let rest = all.skip(start + 4 + x.len());
    assert(all =~= head + x + rest) by {
        assert(all =~= head + all.subrange(start + 4, start + 4 + x.len()) + rest);
    }
    assert(tables_hold(tables, blocks)) by {
        assert forall|h: int| 2 <= h <= 32 implies (#[trigger] all_kept(blocks, h)).len()
            <= usize::MAX && tables[h] == all_kept(blocks, h) by {}
    }
    lemma_page_blocks_come_back(head, blocks, rest, tables, blocks.len(), all);
    assert(blocks.take(blocks.len() as int) =~= blocks);
    assert((256 * blocks.len()) as nat / 256 == blocks.len());
    reveal(page_values);
}

/// A page that is to be packed.
pub ghost struct Page {
    /// Its blocks.
    pub blocks: Seq<Patched>,
    /// Which widths its exceptions have.
    pub widths: u32,
    /// What fills up the word that its metadata ends in.
    pub fill: Seq<u8>,
}

impl Page {
    /// Whether the page can be packed.
    pub open spec fn wf(self) -> bool {
        page_packable(self.blocks, self.widths, self.fill)
    }

    /// The page as it is packed.
    pub open spec fn bytes(self) -> Seq<u8> {
        page_bytes(self.blocks, self.widths, self.fill)
    }

    /// How many values the page holds.
    pub open spec fn size(self) -> nat {
        256 * self.blocks.len()
    }
}

/// Pages as they are packed, one after the other.
pub open spec fn pages_bytes(some: Seq<Page>) -> Seq<u8>
    decreases some.len(),
{
    if some.len() == 0 {
        Seq::empty()
    } else {
        some[0].bytes() + pages_bytes(some.skip(1))
    }
}

/// The values of pages.
pub open spec fn pages_values(some: Seq<Page>) -> Seq<u32>
    decreases some.len(),
{
    if some.len() == 0 {
        Seq::empty()
    } else {
        all_values(some[0].blocks) + pages_values(some.skip(1))
    }
}

/// How many values pages hold.
pub open spec fn pages_size(some: Seq<Page>) -> nat
    decreases some.len(),
{
    if some.len() == 0 {
        0
    } else {
        some[0].size() + pages_size(some.skip(1))
    }
}

/// Whether every page can be packed, and every page but the last is full.
pub open spec fn regular(some: Seq<Page>) -> bool {
    forall|k: int|
        0 <= k < some.len() ==> {
            &&& (#[trigger] some[k]).wf()
            &&& 0 < some[k].size() <= 0x1_0000
            &&& k < some.len() - 1 ==> some[k].size() == 0x1_0000
        }
}

/// Pages hold whole blocks.
proof fn lemma_pages_are_blocks(some: Seq<Page>)
    ensures
        pages_size(some) % 256 == 0,
    decreases some.len(),
{
    if some.len() > 0 {
        lemma_pages_are_blocks(some.skip(1));
    }
}

/// Pages that were packed come back.
#[verifier::spinoff_prover]
proof fn lemma_pages_come_back(front: Seq<u8>, some: Seq<Page>, back: Seq<u8>)
    requires
        regular(some),
        front.len() + pages_bytes(some).len() + back.len() <= usize::MAX,
    ensures
        pages(front + pages_bytes(some) + back, front.len() as int, pages_size(some)) == Ok::<
            Run,
            Error,
        >(Run { values: pages_values(some), at: front.len() as int + pages_bytes(some).len() }),
    decreases some.len(),
{
    if some.len() > 0 {
        let p = some[0];
        let rest = some.skip(1);
        let all = front + pages_bytes(some) + back;
        assert(p.wf() && 0 < p.size() <= 0x1_0000);
        assert forall|k: int| 0 <= k < rest.len() implies {
            &&& (#[trigger] rest[k]).wf()
            &&& 0 < rest[k].size() <= 0x1_0000
            &&& k < rest.len() - 1 ==> rest[k].size() == 0x1_0000
        } by {
            assert(rest[k] == some[k + 1]);
        }
        assert(all =~= front + p.bytes() + (pages_bytes(rest) + back));
        lemma_patched_page_comes_back(front, p.blocks, p.widths, p.fill, pages_bytes(rest) + back);
        let before = front + p.bytes();
        assert(all =~= before + pages_bytes(rest) + back);
        lemma_pages_come_back(before, rest, back);
        if rest.len() > 0 {
            assert(rest[0].size() > 0);
            assert(pages_size(rest) > 0);
        }
        assert(page_size(pages_size(some)) == p.size());
    }
}

/// A column packed in pages and a tail comes back, whatever widths its blocks have, whatever exceptions,
/// and whatever fills the last word.
#[verifier::spinoff_prover]
pub proof fn lemma_patched_column_comes_back(
    some: Seq<Page>,
    tail: Seq<u32>,
    fill: Seq<u8>,
    data: Seq<u8>,
    words: nat,
)
    requires
        regular(some),
        pages_size(some) <= u32::MAX,
        data == le_bytes(pages_size(some), 4) + pages_bytes(some) + variable_run(tail) + fill,
        data.len() == 4 * words,
        data.len() <= usize::MAX,
    ensures
        patched_values(data, words, pages_size(some) + tail.len()) == Ok::<Seq<u32>, Error>(
            pages_values(some) + tail,
        ),
{
    let count = pages_size(some);
    let head = le_bytes(count, 4);
    lemma_le_bytes_len(count, 4);
    assert(data.take((4 * words) as int) =~= data);
    assert(data.subrange(0, 4) =~= head);
    lemma_number_lies(data, 0, count, "a patched column");
    lemma_pages_are_blocks(some);
    assert(data =~= head + pages_bytes(some) + (variable_run(tail) + fill));
    lemma_pages_come_back(head, some, variable_run(tail) + fill);
    let before = head + pages_bytes(some);
    assert(data =~= before + variable_run(tail) + fill);
    lemma_tail_values_come_back(before, tail, fill);
}

/// The bitmap in front of the exceptions of a page says that there are some of a width by the binary digit
/// one below it, so that the lowest is for a width of one.
pub proof fn lemma_width_bits(widths: u32, width: u32)
    requires
        1 <= width <= 32,
    ensures
        has_width(widths, width) <==> (widths as nat / pow2((width - 1) as nat)) % 2 == 1,
{
    let k = (width - 1) as u32;
    lemma_u32_shr_is_div(widths, k);
    let high = widths >> k;
    assert((widths & (1u32 << k) != 0) == (high % 2 == 1)) by (bit_vector)
        requires
            high == widths >> k,
            k < 32,
    ;
}

/// A page holds sixty five thousand five hundred and thirty six values, and the last one what is left.
pub proof fn lemma_pages_are_full_but_the_last(left: nat)
    ensures
        page_size(left) <= left,
        left >= 0x1_0000 ==> page_size(left) == 0x1_0000,
        left <= 0x1_0000 ==> page_size(left) == left,
{
}

} // verus!
