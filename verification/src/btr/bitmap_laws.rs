//! Which rows the containers of a bitmap add to a set.
use vstd::arithmetic::power2::{lemma2_to64, pow2};
use vstd::prelude::*;
use vstd::relations::injective_on;
use vstd::set_lib::{lemma_int_range, lemma_map_size, set_int_range};

use crate::btr::roaring::{
    array_row, arrayed, bitsetted, container, in_bitset, in_run, lemma_array_rows, lemma_run_rows,
    run_marked, run_row, runs_marked, set_of, Marks,
};
use crate::bytes::{bit, le, lemma_le_2, lemma_le_4};

verus! {

/// The `k`th binary digit of a byte, the lowest first.
pub open spec fn digit(b: u8, k: int) -> nat {
    (b as nat / pow2(k as nat)) % 2
}

/// A bit is set when the digit is one.
pub proof fn lemma_bit_is_a_digit(b: u8, k: int)
    requires
        0 <= k < 8,
    ensures
        bit(b, k as u8) <==> digit(b, k) == 1,
{
    lemma2_to64();
    assert(((b >> 0u8) & 1u8 == 1u8) == ((b / 1u8) % 2u8 == 1u8) && ((b >> 1u8) & 1u8 == 1u8) == ((
    b / 2u8) % 2u8 == 1u8) && ((b >> 2u8) & 1u8 == 1u8) == ((b / 4u8) % 2u8 == 1u8) && ((b >> 3u8)
        & 1u8 == 1u8) == ((b / 8u8) % 2u8 == 1u8) && ((b >> 4u8) & 1u8 == 1u8) == ((b / 16u8) % 2u8
        == 1u8) && ((b >> 5u8) & 1u8 == 1u8) == ((b / 32u8) % 2u8 == 1u8) && ((b >> 6u8) & 1u8
        == 1u8) == ((b / 64u8) % 2u8 == 1u8) && ((b >> 7u8) & 1u8 == 1u8) == ((b / 128u8) % 2u8
        == 1u8)) by (bit_vector);
    assert(k == 0 || k == 1 || k == 2 || k == 3 || k == 4 || k == 5 || k == 6 || k == 7);
}

/// The low half of a row, under its key, is added to it.
proof fn lemma_halves(key: u16, low: u32)
    requires
        low < 0x1_0000,
    ensures
        ((key as int * 0x1_0000) as u32 | low) == key as int * 0x1_0000 + low,
{
    let base = (key as int * 0x1_0000) as u32;
    assert(base == (key as u32) * 0x1_0000);
    assert(base | low == base + low) by (bit_vector)
        requires
            low < 0x1_0000,
            base == (key as u32) * 0x1_0000,
    ;
}

/// Whether a bitset of 8192 bytes holds a low half: a bit each, the lowest of a byte first.
pub open spec fn bitset_holds(bytes: Seq<u8>, at: int, low: int) -> bool {
    0 <= low < 0x1_0000 && digit(bytes[at + low / 8], low % 8) == 1
}

/// A bitset container adds to the set exactly the rows under its key whose bit is set in its 8192
/// bytes, for all 65536 of them, and the next container starts behind it. It is refused exactly when
/// one of those rows is past the end.
pub proof fn lemma_bitset_rows(bytes: Seq<u8>, key: u16, cardinality: int, m: Marks)
    requires
        4096 < cardinality <= 0x1_0000,
        0 <= m.at,
        m.at + 8192 <= bytes.len(),
    ensures
        container(bytes, false, key, cardinality, m) is Ok <==> forall|low: int|
            #[trigger] bitset_holds(bytes, m.at, low) ==> key * 0x1_0000 + low < m.set.len(),
        container(bytes, false, key, cardinality, m) is Ok ==> {
            let n = container(bytes, false, key, cardinality, m)->Ok_0;
            &&& n.at == m.at + 8192
            &&& n.set.len() == m.set.len()
            &&& forall|r: int|
                0 <= r < m.set.len() ==> (#[trigger] n.set[r] <==> m.set[r] || bitset_holds(
                    bytes,
                    m.at,
                    r - key * 0x1_0000,
                ))
        },
{
    let base = ((key as int) * 0x1_0000) as u32;
    let value = |k: int| base | (k as u32);
    let picked = |k: int| in_bitset(bytes, m.at, k);
    let result = bitsetted(bytes, m.at, base, m.set);
    assert forall|k: int| 0 <= k < 0x1_0000 implies value(k) == key * 0x1_0000 + k && (#[trigger] picked(
        k,
    ) <==> bitset_holds(bytes, m.at, k)) by {
        lemma_halves(key, k as u32);
        lemma_bit_is_a_digit(bytes[m.at + k / 8], k % 8);
    }
    if result is Err {
        let k = choose|k: int| 0 <= k < 0x1_0000 && #[trigger] picked(k) && value(k) >= m.set.len();
        assert(bitset_holds(bytes, m.at, k));
    } else {
        assert forall|low: int| #[trigger] bitset_holds(bytes, m.at, low) implies key * 0x1_0000
            + low < m.set.len() by {
            assert(picked(low));
        }
        let n = container(bytes, false, key, cardinality, m)->Ok_0;
        assert forall|r: int| 0 <= r < m.set.len() implies (#[trigger] n.set[r] <==> m.set[r]
            || bitset_holds(bytes, m.at, r - key * 0x1_0000)) by {
            assert(n.set[r] == (m.set[r] || exists|k: int|
                0 <= k < 0x1_0000 && #[trigger] picked(k) && value(k) == r));
            if bitset_holds(bytes, m.at, r - key * 0x1_0000) {
                assert(picked(r - key * 0x1_0000));
            }
        }
    }
}

/// The low halves that a bitset holds.
pub open spec fn bitset_lows(bytes: Seq<u8>, at: int) -> Set<int> {
    Set::new(|low: int| bitset_holds(bytes, at, low))
}

/// The rows that one set holds and another does not.
pub open spec fn rows_added(before: Seq<bool>, after: Seq<bool>) -> Set<int> {
    Set::new(|r: int| 0 <= r < after.len() && after[r] && !before[r])
}

/// A bitset container adds as many rows as it has bits set, which is the cardinality that belongs in
/// its header, to a set that holds none under its key.
pub proof fn lemma_bitset_adds_its_cardinality(bytes: Seq<u8>, key: u16, cardinality: int, m: Marks)
    requires
        4096 < cardinality <= 0x1_0000,
        cardinality == bitset_lows(bytes, m.at).len(),
        0 <= m.at,
        m.at + 8192 <= bytes.len(),
        forall|r: int|
            0 <= r < m.set.len() && r / 0x1_0000 == key ==> !#[trigger] m.set[r],
        container(bytes, false, key, cardinality, m) is Ok,
    ensures
        rows_added(m.set, container(bytes, false, key, cardinality, m)->Ok_0.set).finite(),
        rows_added(m.set, container(bytes, false, key, cardinality, m)->Ok_0.set).len()
            == cardinality,
{
    lemma_bitset_rows(bytes, key, cardinality, m);
    let lows = bitset_lows(bytes, m.at);
    let n = container(bytes, false, key, cardinality, m)->Ok_0;
    let added = rows_added(m.set, n.set);
    let f = |low: int| key * 0x1_0000 + low;
    lemma_int_range(0, 0x1_0000);
    assert(lows.subset_of(set_int_range(0, 0x1_0000)));
    vstd::set_lib::lemma_set_subset_finite(set_int_range(0, 0x1_0000), lows);
    assert(injective_on(f, lows));
    assert forall|r: int| added.contains(r) implies lows.map(f).contains(r) by {
        assert(lows.contains(r - key * 0x1_0000));
        assert(f(r - key * 0x1_0000) == r);
    }
    assert forall|r: int| lows.map(f).contains(r) implies added.contains(r) by {
        let low = choose|low: int| lows.contains(low) && r == f(low);
        assert(bitset_holds(bytes, m.at, low));
        assert((key * 0x1_0000 + low) / 0x1_0000 == key);
        assert(!m.set[r]);
        assert(n.set[r]);
    }
    assert(lows.map(f) =~= added);
    lemma_map_size(lows, added, f);
}

/// The `i`th two byte number behind an offset.
pub open spec fn half(bytes: Seq<u8>, at: int, i: int) -> int {
    le(bytes.subrange(at + 2 * i, at + 2 * i + 2)) as int
}

/// Whether a list of `n` two byte numbers holds a low half.
pub open spec fn array_holds(bytes: Seq<u8>, at: int, n: int, low: int) -> bool {
    exists|i: int| 0 <= i < n && #[trigger] half(bytes, at, i) == low
}

/// A list is marked exactly when none of its rows is past the end.
proof fn lemma_array_fits(bytes: Seq<u8>, at: int, key: u16, set: Seq<bool>, n: nat)
    requires
        0 <= at,
        at + 2 * n <= bytes.len(),
    ensures
        ({
            let base = ((key as int) * 0x1_0000) as u32;
            let result = arrayed(bytes, at, base, set, n);
            &&& result is Ok <==> forall|i: int|
                0 <= i < n ==> key * 0x1_0000 + #[trigger] half(bytes, at, i) < set.len()
            &&& result is Ok ==> result->Ok_0.len() == set.len()
        }),
    decreases n,
{
    if n > 0 {
        let i = n - 1;
        lemma_array_fits(bytes, at, key, set, i as nat);
        lemma_le_2(bytes.subrange(at + 2 * i, at + 2 * i + 2));
        lemma_halves(key, half(bytes, at, i) as u32);
        let base = ((key as int) * 0x1_0000) as u32;
        if arrayed(bytes, at, base, set, n) is Ok {
            assert forall|j: int| 0 <= j < n implies key * 0x1_0000 + #[trigger] half(bytes, at, j)
                < set.len() by {}
        }
        if arrayed(bytes, at, base, set, i as nat) is Ok && key * 0x1_0000 + half(bytes, at, i)
            < set.len() {
            assert forall|j: int| 0 <= j < n implies key * 0x1_0000 + #[trigger] half(bytes, at, j)
                < set.len() by {}
        }
    }
}

/// A container of at most 4096 values adds to the set exactly the rows under its key that its two byte
/// numbers list, and the next container starts behind them. It is refused exactly when one of those
/// rows is past the end.
pub proof fn lemma_array_container_rows(bytes: Seq<u8>, key: u16, cardinality: int, m: Marks)
    requires
        0 < cardinality <= 4096,
        0 <= m.at,
        m.at + 2 * cardinality <= bytes.len(),
    ensures
        container(bytes, false, key, cardinality, m) is Ok <==> forall|i: int|
            0 <= i < cardinality ==> key * 0x1_0000 + #[trigger] half(bytes, m.at, i) < m.set.len(),
        container(bytes, false, key, cardinality, m) is Ok ==> {
            let n = container(bytes, false, key, cardinality, m)->Ok_0;
            &&& n.at == m.at + 2 * cardinality
            &&& n.set.len() == m.set.len()
            &&& forall|r: int|
                0 <= r < m.set.len() ==> (#[trigger] n.set[r] <==> m.set[r] || array_holds(
                    bytes,
                    m.at,
                    cardinality,
                    r - key * 0x1_0000,
                ))
        },
{
    let base = ((key as int) * 0x1_0000) as u32;
    lemma_array_fits(bytes, m.at, key, m.set, cardinality as nat);
    if container(bytes, false, key, cardinality, m) is Ok {
        let n = container(bytes, false, key, cardinality, m)->Ok_0;
        assert forall|r: int| 0 <= r < m.set.len() implies (#[trigger] n.set[r] <==> m.set[r]
            || array_holds(bytes, m.at, cardinality, r - key * 0x1_0000)) by {
            lemma_array_rows(bytes, m.at, base, m.set, cardinality as nat, r);
            assert forall|i: int| 0 <= i < cardinality implies #[trigger] array_row(
                bytes,
                m.at,
                base,
                i,
            ) == key * 0x1_0000 + half(bytes, m.at, i) by {
                lemma_le_2(bytes.subrange(m.at + 2 * i, m.at + 2 * i + 2));
                lemma_halves(key, half(bytes, m.at, i) as u32);
            }
            if exists|i: int| 0 <= i < cardinality && #[trigger] array_row(bytes, m.at, base, i) == r {
                let i = choose|i: int|
                    0 <= i < cardinality && #[trigger] array_row(bytes, m.at, base, i) == r;
                assert(half(bytes, m.at, i) == r - key * 0x1_0000);
            }
            if array_holds(bytes, m.at, cardinality, r - key * 0x1_0000) {
                let i = choose|i: int|
                    0 <= i < cardinality && #[trigger] half(bytes, m.at, i) == r - key * 0x1_0000;
                assert(array_row(bytes, m.at, base, i) == r);
            }
        }
    }
}

/// Whether one of `n` runs behind an offset, each a start and how many values follow it, holds a low
/// half.
pub open spec fn runs_hold(bytes: Seq<u8>, at: int, n: int, low: int) -> bool {
    exists|i: int|
        0 <= i < n && #[trigger] half(bytes, at, 2 * i) <= low <= half(bytes, at, 2 * i) + half(
            bytes,
            at,
            2 * i + 1,
        )
}

/// Whether none of `n` runs leaves the values that share a high half.
pub open spec fn runs_stay(bytes: Seq<u8>, at: int, n: int) -> bool {
    forall|i: int|
        0 <= i < n ==> #[trigger] half(bytes, at, 2 * i) + half(bytes, at, 2 * i + 1) < 0x1_0000
}

/// Runs are marked exactly when none of them ends past the end.
proof fn lemma_runs_fit(bytes: Seq<u8>, at: int, key: u16, set: Seq<bool>, n: nat)
    requires
        0 <= at,
        at + 2 + 4 * n <= bytes.len(),
        runs_stay(bytes, at + 2, n as int),
    ensures
        ({
            let base = ((key as int) * 0x1_0000) as u32;
            let result = runs_marked(bytes, at, base, set, n);
            &&& result is Ok <==> forall|i: int|
                0 <= i < n ==> key * 0x1_0000 + #[trigger] half(bytes, at + 2, 2 * i) + half(
                    bytes,
                    at + 2,
                    2 * i + 1,
                ) < set.len()
            &&& result is Ok ==> result->Ok_0.len() == set.len()
        }),
    decreases n,
{
    if n > 0 {
        let i = n - 1;
        let base = ((key as int) * 0x1_0000) as u32;
        lemma_runs_fit(bytes, at, key, set, i as nat);
        let start = half(bytes, at + 2, 2 * i);
        let length = half(bytes, at + 2, 2 * i + 1);
        assert(start + length < 0x1_0000);
        let entry = at + 2 + 4 * i;
        lemma_le_2(bytes.subrange(entry, entry + 2));
        lemma_le_2(bytes.subrange(entry + 2, entry + 4));
        assert(bytes.subrange(entry, entry + 2) =~= bytes.subrange(
            at + 2 + 2 * (2 * i),
            at + 2 + 2 * (2 * i) + 2,
        ));
        assert(bytes.subrange(entry + 2, entry + 4) =~= bytes.subrange(
            at + 2 + 2 * (2 * i + 1),
            at + 2 + 2 * (2 * i + 1) + 2,
        ));
        if runs_marked(bytes, at, base, set, i as nat) is Ok {
            let before = runs_marked(bytes, at, base, set, i as nat)->Ok_0;
            let value = |k: int| base | ((start as u16 + k) as u32);
            let picked = |k: int| true;
            assert forall|k: int| 0 <= k <= length implies value(k) == key * 0x1_0000 + start
                + k && #[trigger] picked(k) by {
                lemma_halves(key, (start + k) as u32);
            }
            assert(picked(length));
            assert(runs_marked(bytes, at, base, set, n) == run_marked(
                before,
                base,
                start as u16,
                length as u16,
            ));
            if runs_marked(bytes, at, base, set, n) is Err {
                let k = choose|k: int|
                    0 <= k < length as u16 + 1 && #[trigger] picked(k) && value(k) >= before.len();
                assert(key * 0x1_0000 + start + length >= set.len());
            } else {
                assert(key * 0x1_0000 + start + length < set.len());
                assert forall|j: int| 0 <= j < n implies key * 0x1_0000 + #[trigger] half(
                    bytes,
                    at + 2,
                    2 * j,
                ) + half(bytes, at + 2, 2 * j + 1) < set.len() by {}
            }
        }
    }
}

/// A run container adds to the set exactly the rows under its key from the start of each of its runs to
/// its end, which is its start and its length added, and the next container starts behind the runs. It
/// is refused exactly when a run ends past the end.
pub proof fn lemma_run_container_rows(bytes: Seq<u8>, key: u16, cardinality: int, m: Marks)
    requires
        0 <= m.at,
        m.at + 2 <= bytes.len(),
        m.at + 2 + 4 * half(bytes, m.at, 0) <= bytes.len(),
        runs_stay(bytes, m.at + 2, half(bytes, m.at, 0)),
    ensures
        container(bytes, true, key, cardinality, m) is Ok <==> forall|i: int|
            0 <= i < half(bytes, m.at, 0) ==> key * 0x1_0000 + #[trigger] half(
                bytes,
                m.at + 2,
                2 * i,
            ) + half(bytes, m.at + 2, 2 * i + 1) < m.set.len(),
        container(bytes, true, key, cardinality, m) is Ok ==> {
            let n = container(bytes, true, key, cardinality, m)->Ok_0;
            &&& n.at == m.at + 2 + 4 * half(bytes, m.at, 0)
            &&& n.set.len() == m.set.len()
            &&& forall|r: int|
                0 <= r < m.set.len() ==> (#[trigger] n.set[r] <==> m.set[r] || runs_hold(
                    bytes,
                    m.at + 2,
                    half(bytes, m.at, 0),
                    r - key * 0x1_0000,
                ))
        },
{
    let base = ((key as int) * 0x1_0000) as u32;
    let runs = half(bytes, m.at, 0);
    lemma_le_2(bytes.subrange(m.at, m.at + 2));
    lemma_runs_fit(bytes, m.at, key, m.set, runs as nat);
    if container(bytes, true, key, cardinality, m) is Ok {
        let n = container(bytes, true, key, cardinality, m)->Ok_0;
        assert forall|r: int| 0 <= r < m.set.len() implies (#[trigger] n.set[r] <==> m.set[r]
            || runs_hold(bytes, m.at + 2, runs, r - key * 0x1_0000)) by {
            lemma_run_rows(bytes, m.at, base, m.set, runs as nat, r);
            assert forall|i: int| 0 <= i < runs implies (#[trigger] in_run(
                bytes,
                m.at,
                base,
                i,
                r,
            ) <==> half(bytes, m.at + 2, 2 * i) <= r - key * 0x1_0000 <= half(
                bytes,
                m.at + 2,
                2 * i,
            ) + half(bytes, m.at + 2, 2 * i + 1)) by {
                lemma_in_run(bytes, m.at, key, i, r);
            }
            if exists|i: int| 0 <= i < runs && #[trigger] in_run(bytes, m.at, base, i, r) {
                let i = choose|i: int| 0 <= i < runs && #[trigger] in_run(bytes, m.at, base, i, r);
                assert(half(bytes, m.at + 2, 2 * i) <= r - key * 0x1_0000);
            }
            if runs_hold(bytes, m.at + 2, runs, r - key * 0x1_0000) {
                let i = choose|i: int|
                    0 <= i < runs && #[trigger] half(bytes, m.at + 2, 2 * i) <= r - key * 0x1_0000
                        <= half(bytes, m.at + 2, 2 * i) + half(bytes, m.at + 2, 2 * i + 1);
                assert(in_run(bytes, m.at, base, i, r));
            }
        }
    }
}

/// A run covers the rows between its ends.
proof fn lemma_in_run(bytes: Seq<u8>, at: int, key: u16, i: int, r: int)
    requires
        0 <= at,
        0 <= i,
        at + 6 + 4 * i <= bytes.len(),
        half(bytes, at + 2, 2 * i) + half(bytes, at + 2, 2 * i + 1) < 0x1_0000,
    ensures
        in_run(bytes, at, ((key as int) * 0x1_0000) as u32, i, r) <==> half(bytes, at + 2, 2 * i)
            <= r - key * 0x1_0000 <= half(bytes, at + 2, 2 * i) + half(bytes, at + 2, 2 * i + 1),
{
    let base = ((key as int) * 0x1_0000) as u32;
    let start = half(bytes, at + 2, 2 * i);
    let length = half(bytes, at + 2, 2 * i + 1);
    let entry = at + 2 + 4 * i;
    lemma_le_2(bytes.subrange(entry, entry + 2));
    lemma_le_2(bytes.subrange(entry + 2, entry + 4));
    assert(bytes.subrange(entry, entry + 2) =~= bytes.subrange(
        at + 2 + 2 * (2 * i),
        at + 2 + 2 * (2 * i) + 2,
    ));
    assert(bytes.subrange(entry + 2, entry + 4) =~= bytes.subrange(
        at + 2 + 2 * (2 * i + 1),
        at + 2 + 2 * (2 * i + 1) + 2,
    ));
    assert forall|k: int| 0 <= k <= length implies #[trigger] run_row(base, start as u16, k) == key
        * 0x1_0000 + start + k by {
        lemma_halves(key, (start + k) as u32);
    }
    assert(le(bytes.subrange(at + 2 + 4 * i, at + 4 + 4 * i)) as u16 == start as u16);
    assert(le(bytes.subrange(at + 4 + 4 * i, at + 6 + 4 * i)) as u16 == length as u16);
    if in_run(bytes, at, base, i, r) {
        let k = choose|k: int|
            0 <= k <= length as u16 && #[trigger] run_row(base, start as u16, k) == r;
        assert(run_row(base, start as u16, k) == key * 0x1_0000 + start + k);
    }
    if start <= r - key * 0x1_0000 <= start + length {
        assert(run_row(base, start as u16, r - key * 0x1_0000 - start) == r);
    }
}

/// A list that was marked was all there.
proof fn lemma_array_was_there(bytes: Seq<u8>, at: int, base: u32, set: Seq<bool>, n: nat)
    requires
        arrayed(bytes, at, base, set, n) is Ok,
    ensures
        n > 0 ==> at + 2 * n <= bytes.len(),
    decreases n,
{
    if n > 0 {
        lemma_array_was_there(bytes, at, base, set, (n - 1) as nat);
    }
}

/// Runs that were marked were all there.
proof fn lemma_runs_were_there(bytes: Seq<u8>, at: int, base: u32, set: Seq<bool>, n: nat)
    requires
        runs_marked(bytes, at, base, set, n) is Ok,
    ensures
        n > 0 ==> at + 2 + 4 * n <= bytes.len(),
    decreases n,
{
    if n > 0 {
        lemma_runs_were_there(bytes, at, base, set, (n - 1) as nat);
    }
}

/// A container that is not all there is refused: two bytes for each of at most 4096 values, 8192 bytes
/// for more, and for runs their number and four bytes each.
pub proof fn lemma_a_container_that_is_cut_is_refused(
    bytes: Seq<u8>,
    key: u16,
    cardinality: int,
    m: Marks,
)
    requires
        0 < cardinality <= 0x1_0000,
        0 <= m.at,
    ensures
        cardinality <= 4096 && m.at + 2 * cardinality > bytes.len() ==> container(
            bytes,
            false,
            key,
            cardinality,
            m,
        ) is Err,
        cardinality > 4096 && m.at + 8192 > bytes.len() ==> container(
            bytes,
            false,
            key,
            cardinality,
            m,
        ) is Err,
        m.at + 2 > bytes.len() ==> container(bytes, true, key, cardinality, m) is Err,
        m.at + 2 <= bytes.len() && m.at + 2 + 4 * half(bytes, m.at, 0) > bytes.len() ==> container(
            bytes,
            true,
            key,
            cardinality,
            m,
        ) is Err,
{
    let base = ((key as int) * 0x1_0000) as u32;
    if cardinality <= 4096 && container(bytes, false, key, cardinality, m) is Ok {
        lemma_array_was_there(bytes, m.at, base, m.set, cardinality as nat);
    }
    if m.at + 2 <= bytes.len() && container(bytes, true, key, cardinality, m) is Ok {
        lemma_le_2(bytes.subrange(m.at, m.at + 2));
        lemma_runs_were_there(bytes, m.at, base, m.set, half(bytes, m.at, 0) as nat);
    }
}

/// A bitmap is refused where it is empty, where its tag is neither 1 nor 2, where it has no cookie that is
/// known, and where it claims more containers than there are high halves.
pub proof fn lemma_broken_bitmaps_are_refused(bytes: Seq<u8>, rows: nat)
    ensures
        bytes.len() == 0 ==> set_of(bytes, rows) is Err,
        bytes.len() > 0 && bytes[0] != 1 && bytes[0] != 2 ==> set_of(bytes, rows) is Err,
        bytes.len() > 0 && bytes[0] == 2 && bytes.len() < 5 ==> set_of(bytes, rows) is Err,
        bytes.len() >= 5 && bytes[0] == 2 ==> {
            let cookie = le(bytes.subrange(1, 5));
            &&& cookie % 0x1_0000 != 12347 && cookie != 12346 ==> set_of(bytes, rows) is Err
            &&& cookie == 12346 && bytes.len() >= 9 && le(bytes.subrange(5, 9)) > 0x1_0000
                ==> set_of(bytes, rows) is Err
        },
{
    if bytes.len() >= 5 {
        let inner = bytes.skip(1);
        assert(inner.subrange(0, 4) =~= bytes.subrange(1, 5));
        lemma_le_4(bytes.subrange(1, 5));
        if bytes.len() >= 9 {
            assert(inner.subrange(4, 8) =~= bytes.subrange(5, 9));
            lemma_le_4(bytes.subrange(5, 9));
        }
    }
}

} // verus!
