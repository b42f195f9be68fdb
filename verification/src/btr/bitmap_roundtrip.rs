//! What was written into a bitmap comes back.
use vstd::prelude::*;

use crate::btr::bitmap_laws::{
    array_holds, bitset_holds, digit, half, lemma_array_container_rows, lemma_bit_is_a_digit,
    lemma_bitset_rows, lemma_run_container_rows, runs_hold, runs_stay,
};
use crate::btr::column_laws::{
    joined, laid_out, lemma_joined_at, lemma_laid_out, lemma_laid_out_len,
};
use crate::btr::error::Error;
use crate::btr::part::word_at;
use crate::btr::roaring::{
    container, containers, half_at, header, layout, listed, next_container, nothing, run_flag, set_of,
    Layout, Marks,
};
use crate::bytes::{le_bytes, lemma_le_bytes_len, lemma_le_of_le_bytes, lemma_pow_widths};

verus! {

/// The low halves that share a high half, in one of the three ways they are written.
pub ghost enum Lows {
    /// A list of them.
    Listed(Seq<u16>),
    /// A bit each, in 8192 bytes.
    Bits(Seq<u8>),
    /// Runs: a start, and how many follow it.
    Runs(Seq<(u16, u16)>),
}

/// A container: its high half, what its header says, which is one less than its cardinality, and its
/// low halves.
pub ghost struct Piece {
    /// The high half.
    pub key: u16,
    /// One less than the cardinality.
    pub less: u16,
    /// The low halves.
    pub lows: Lows,
}

impl Piece {
    /// Whether the container is written the way its cardinality calls for: a list up to 4096 values and
    /// bits above that. Runs stay under their high half.
    pub open spec fn wf(self) -> bool {
        match self.lows {
            Lows::Listed(v) => v.len() <= 4096 && self.less + 1 == v.len(),
            Lows::Bits(b) => b.len() == 8192 && self.less + 1 > 4096,
            Lows::Runs(r) => r.len() <= 0xFFFF && forall|i: int|
                0 <= i < r.len() ==> (#[trigger] r[i]).0 + r[i].1 < 0x1_0000,
        }
    }

    /// The container as bytes.
    pub open spec fn bytes(self) -> Seq<u8> {
        match self.lows {
            Lows::Listed(v) => laid_out(Seq::new(v.len(), |i: int| v[i] as nat), 2),
            Lows::Bits(b) => b,
            Lows::Runs(r) => le_bytes(r.len(), 2) + laid_out(run_numbers(r), 2),
        }
    }

    /// Whether the container holds a row.
    pub open spec fn holds(self, r: int) -> bool {
        let low = r - self.key * 0x1_0000;
        match self.lows {
            Lows::Listed(v) => exists|i: int| 0 <= i < v.len() && #[trigger] v[i] == low,
            Lows::Bits(b) => 0 <= low < 0x1_0000 && digit(b[low / 8], low % 8) == 1,
            Lows::Runs(s) => exists|i: int|
                0 <= i < s.len() && (#[trigger] s[i]).0 <= low <= s[i].0 + s[i].1,
        }
    }
}

/// Starts and lengths in turn.
pub open spec fn run_numbers(r: Seq<(u16, u16)>) -> Seq<nat> {
    Seq::new(
        2 * r.len(),
        |i: int|
            if i % 2 == 0 {
                r[i / 2].0 as nat
            } else {
                r[i / 2].1 as nat
            },
    )
}

/// Numbers laid out two bytes each are read where they lie.
proof fn lemma_halves_read(bytes: Seq<u8>, at: int, numbers: Seq<nat>, i: int)
    requires
        0 <= at,
        at + 2 * numbers.len() <= bytes.len(),
        bytes.subrange(at, at + 2 * numbers.len()) == laid_out(numbers, 2),
        0 <= i < numbers.len(),
        numbers[i] <= 0xFFFF,
    ensures
        half(bytes, at, i) == numbers[i],
        bytes.subrange(at + 2 * i, at + 2 * i + 2) == le_bytes(numbers[i], 2),
{
    lemma_laid_out(numbers, 2, i);
    lemma_pow_widths();
    lemma_le_of_le_bytes(numbers[i], 2);
    assert(bytes.subrange(at + 2 * i, at + 2 * i + 2) =~= bytes.subrange(
        at,
        at + 2 * numbers.len(),
    ).subrange(i * 2, i * 2 + 2));
}

/// A container that was written adds exactly the rows it holds.
#[verifier::spinoff_prover]
proof fn lemma_piece_is_marked(bytes: Seq<u8>, p: Piece, m: Marks)
    requires
        p.wf(),
        0 <= m.at,
        m.at + p.bytes().len() <= bytes.len(),
        bytes.subrange(m.at, m.at + p.bytes().len()) == p.bytes(),
        forall|r: int| #[trigger] p.holds(r) ==> r < m.set.len(),
    ensures
        ({
            let c = container(bytes, p.lows is Runs, p.key, p.less + 1, m);
            &&& c is Ok
            &&& c->Ok_0.at == m.at + p.bytes().len()
            &&& c->Ok_0.set.len() == m.set.len()
            &&& forall|r: int|
                0 <= r < m.set.len() ==> (#[trigger] c->Ok_0.set[r] <==> m.set[r] || p.holds(r))
        }),
{
    let base = p.key * 0x1_0000;
    let cardinality = p.less + 1;
    match p.lows {
        Lows::Listed(v) => {
            let numbers = Seq::new(v.len(), |i: int| v[i] as nat);
            lemma_laid_out_len(numbers, 2);
            assert forall|i: int| 0 <= i < v.len() implies #[trigger] half(bytes, m.at, i)
                == v[i] by {
                lemma_halves_read(bytes, m.at, numbers, i);
            }
            lemma_array_container_rows(bytes, p.key, cardinality, m);
            assert forall|i: int| 0 <= i < cardinality implies base + #[trigger] half(
                bytes,
                m.at,
                i,
            ) < m.set.len() by {
                assert(v[i] == base + v[i] - base);
                assert(p.holds(base + v[i]));
            }
            let c = container(bytes, false, p.key, cardinality, m)->Ok_0;
            assert forall|r: int| 0 <= r < m.set.len() implies (#[trigger] c.set[r] <==> m.set[r]
                || p.holds(r)) by {
                if p.holds(r) {
                    let i = choose|i: int| 0 <= i < v.len() && #[trigger] v[i] == r - base;
                    assert(half(bytes, m.at, i) == r - base);
                }
                if array_holds(bytes, m.at, cardinality, r - base) {
                    let i = choose|i: int|
                        0 <= i < cardinality && #[trigger] half(bytes, m.at, i) == r - base;
                    assert(v[i] == r - base);
                }
            }
        },
        Lows::Bits(b) => {
            assert forall|low: int| 0 <= low < 0x1_0000 implies bytes[m.at + low / 8] == #[trigger] b[
            low / 8] by {
                assert(bytes.subrange(m.at, m.at + 8192)[low / 8] == b[low / 8]);
            }
            lemma_bitset_rows(bytes, p.key, cardinality, m);
            assert forall|low: int| #[trigger] bitset_holds(bytes, m.at, low) implies base + low
                < m.set.len() by {
                assert(b[low / 8] == bytes[m.at + low / 8]);
                assert(p.holds(base + low));
            }
            let c = container(bytes, false, p.key, cardinality, m)->Ok_0;
            assert forall|r: int| 0 <= r < m.set.len() implies (#[trigger] c.set[r] <==> m.set[r]
                || p.holds(r)) by {
                let low = r - base;
                if 0 <= low < 0x1_0000 {
                    assert(b[low / 8] == bytes[m.at + low / 8]);
                }
            }
        },
        Lows::Runs(s) => {
            let numbers = run_numbers(s);
            lemma_laid_out_len(numbers, 2);
            lemma_le_bytes_len(s.len(), 2);
            lemma_pow_widths();
            lemma_le_of_le_bytes(s.len(), 2);
            assert(bytes.subrange(m.at, m.at + 2) =~= p.bytes().subrange(0, 2));
            assert(p.bytes().subrange(0, 2) =~= le_bytes(s.len(), 2));
            assert(half(bytes, m.at, 0) == s.len());
            assert(bytes.subrange(m.at + 2, m.at + 2 + 2 * numbers.len()) =~= p.bytes().skip(2));
            assert(p.bytes().skip(2) =~= laid_out(numbers, 2));
            assert forall|i: int| 0 <= i < s.len() implies #[trigger] half(
                bytes,
                m.at + 2,
                2 * i,
            ) == s[i].0 && half(bytes, m.at + 2, 2 * i + 1) == s[i].1 by {
                lemma_halves_read(bytes, m.at + 2, numbers, 2 * i);
                lemma_halves_read(bytes, m.at + 2, numbers, 2 * i + 1);
            }
            assert forall|i: int| 0 <= i < s.len() implies #[trigger] half(bytes, m.at + 2, 2 * i)
                + half(bytes, m.at + 2, 2 * i + 1) < 0x1_0000 by {
                assert(s[i].0 + s[i].1 < 0x1_0000);
            }
            assert(runs_stay(bytes, m.at + 2, s.len() as int));
            lemma_run_container_rows(bytes, p.key, cardinality, m);
            assert forall|i: int| 0 <= i < s.len() implies base + #[trigger] half(
                bytes,
                m.at + 2,
                2 * i,
            ) + half(bytes, m.at + 2, 2 * i + 1) < m.set.len() by {
                assert(s[i].0 <= s[i].0 + s[i].1);
                assert(p.holds(base + s[i].0 + s[i].1));
            }
            let c = container(bytes, true, p.key, cardinality, m)->Ok_0;
            assert forall|r: int| 0 <= r < m.set.len() implies (#[trigger] c.set[r] <==> m.set[r]
                || p.holds(r)) by {
                let low = r - base;
                if p.holds(r) {
                    let i = choose|i: int|
                        0 <= i < s.len() && (#[trigger] s[i]).0 <= low <= s[i].0 + s[i].1;
                    assert(half(bytes, m.at + 2, 2 * i) <= low);
                }
                if runs_hold(bytes, m.at + 2, s.len() as int, low) {
                    let i = choose|i: int|
                        0 <= i < s.len() && #[trigger] half(bytes, m.at + 2, 2 * i) <= low <= half(
                            bytes,
                            m.at + 2,
                            2 * i,
                        ) + half(bytes, m.at + 2, 2 * i + 1);
                    assert(s[i].0 <= low);
                }
            }
        },
    }
}

/// Containers as bytes.
pub open spec fn piece_bytes(pieces: Seq<Piece>) -> Seq<Seq<u8>> {
    Seq::new(pieces.len(), |i: int| pieces[i].bytes())
}

/// What the header says of each container: its high half, and one less than its cardinality.
pub open spec fn described(pieces: Seq<Piece>) -> Seq<nat> {
    Seq::new(
        2 * pieces.len(),
        |i: int|
            if i % 2 == 0 {
                pieces[i / 2].key as nat
            } else {
                pieces[i / 2].less as nat
            },
    )
}

/// Whether one of the first `n` containers holds a row.
pub open spec fn some_piece_holds(pieces: Seq<Piece>, n: int, r: int) -> bool {
    exists|i: int| 0 <= i < n && (#[trigger] pieces[i]).holds(r)
}

/// Whether every container can be written and holds only rows below a bound.
pub open spec fn all_writable(pieces: Seq<Piece>, rows: nat) -> bool {
    forall|i: int|
        0 <= i < pieces.len() ==> (#[trigger] pieces[i]).wf() && forall|r: int|
            #[trigger] pieces[i].holds(r) ==> r < rows
}

/// Whether flags say which containers are runs, a bit each, the lowest of a byte first.
pub open spec fn flags_say(flags: Seq<u8>, pieces: Seq<Piece>) -> bool {
    &&& flags.len() == (pieces.len() + 7) / 8
    &&& forall|i: int|
        0 <= i < pieces.len() ==> (digit(flags[i / 8], i % 8) == 1 <==> (
        #[trigger] pieces[i]).lows is Runs)
}

/// Where everything lies in a bitmap.
spec fn lies(
    bytes: Seq<u8>,
    l: Layout,
    flags: Seq<u8>,
    pieces: Seq<Piece>,
) -> bool {
    &&& 0 <= l.flags
    &&& 0 <= l.described
    &&& 0 <= l.start
    &&& l.described + 4 * pieces.len() <= bytes.len()
    &&& bytes.subrange(l.described, l.described + 4 * pieces.len()) == laid_out(
        described(pieces),
        2,
    )
    &&& l.start + joined(piece_bytes(pieces)).len() <= bytes.len()
    &&& bytes.subrange(l.start, l.start + joined(piece_bytes(pieces)).len()) == joined(
        piece_bytes(pieces),
    )
    &&& l.runs ==> flags_say(flags, pieces) && l.flags + flags.len() <= bytes.len()
        && bytes.subrange(l.flags, l.flags + flags.len()) == flags
    &&& !l.runs ==> forall|i: int| 0 <= i < pieces.len() ==> !((#[trigger] pieces[i]).lows is Runs)
}

/// One more container adds the rows it holds.
#[verifier::spinoff_prover]
proof fn lemma_next_piece(
    bytes: Seq<u8>,
    l: Layout,
    flags: Seq<u8>,
    pieces: Seq<Piece>,
    k: int,
    m: Marks,
)
    requires
        lies(bytes, l, flags, pieces),
        all_writable(pieces, m.set.len()),
        0 <= k < pieces.len(),
        m.at == l.start + joined(piece_bytes(pieces).take(k)).len(),
    ensures
        ({
            let c = next_container(bytes, l, k, m);
            &&& c is Ok
            &&& c->Ok_0.at == l.start + joined(piece_bytes(pieces).take(k + 1)).len()
            &&& c->Ok_0.set.len() == m.set.len()
            &&& forall|r: int|
                0 <= r < m.set.len() ==> (#[trigger] c->Ok_0.set[r] <==> m.set[r]
                    || pieces[k].holds(r))
        }),
{
    let p = pieces[k];
    let written = piece_bytes(pieces);
    let numbers = described(pieces);
    assert(p.wf());
    lemma_joined_at(written, k);
    assert(written[k] == p.bytes());
    let from = joined(written.take(k)).len() as int;
    let to = joined(written.take(k + 1)).len() as int;
    assert(bytes.subrange(m.at, m.at + p.bytes().len()) =~= bytes.subrange(
        l.start,
        l.start + joined(written).len(),
    ).subrange(from, to));
    assert(numbers.len() == 2 * pieces.len());
    lemma_halves_read(bytes, l.described, numbers, 2 * k);
    lemma_halves_read(bytes, l.described, numbers, 2 * k + 1);
    let entry = l.described + 4 * k;
    assert(half_at(bytes, entry, "a roaring container") == Ok::<u16, Error>(p.key)) by {
        assert(entry == l.described + 2 * (2 * k));
    }
    assert(half_at(bytes, entry + 2, "a roaring container") == Ok::<u16, Error>(p.less)) by {
        assert(entry + 2 == l.described + 2 * (2 * k + 1));
    }
    if l.runs {
        assert(k / 8 < flags.len());
        assert(bytes.subrange(l.flags, l.flags + flags.len())[k / 8] == bytes[l.flags + k / 8]);
        lemma_bit_is_a_digit(flags[k / 8], k % 8);
        assert(run_flag(bytes, l.flags, k) == Ok::<bool, Error>(p.lows is Runs));
    }
    assert forall|r: int| #[trigger] p.holds(r) implies r < m.set.len() by {
        assert(pieces[k].holds(r));
    }
    lemma_piece_is_marked(bytes, p, m);
}

/// The first containers add the rows they hold.
proof fn lemma_pieces_are_marked(
    bytes: Seq<u8>,
    l: Layout,
    flags: Seq<u8>,
    pieces: Seq<Piece>,
    rows: nat,
    n: nat,
)
    requires
        lies(bytes, l, flags, pieces),
        all_writable(pieces, rows),
        n <= pieces.len(),
    ensures
        ({
            let c = containers(bytes, l, nothing(rows), n);
            &&& c is Ok
            &&& c->Ok_0.at == l.start + joined(piece_bytes(pieces).take(n as int)).len()
            &&& c->Ok_0.set.len() == rows
            &&& forall|r: int|
                0 <= r < rows ==> (#[trigger] c->Ok_0.set[r] <==> some_piece_holds(
                    pieces,
                    n as int,
                    r,
                ))
        }),
    decreases n,
{
    if n > 0 {
        let k = n - 1;
        lemma_pieces_are_marked(bytes, l, flags, pieces, rows, k as nat);
        let m = containers(bytes, l, nothing(rows), k as nat)->Ok_0;
        lemma_next_piece(bytes, l, flags, pieces, k, m);
        let c = containers(bytes, l, nothing(rows), n)->Ok_0;
        assert forall|r: int| 0 <= r < rows implies (#[trigger] c.set[r] <==> some_piece_holds(
            pieces,
            n as int,
            r,
        )) by {
            assert(m.set[r] <==> some_piece_holds(pieces, k, r));
            if pieces[k].holds(r) {
                assert(some_piece_holds(pieces, n as int, r));
            }
            if some_piece_holds(pieces, k, r) {
                let i = choose|i: int| 0 <= i < k && (#[trigger] pieces[i]).holds(r);
                assert(pieces[i].holds(r));
            }
        }
    } else {
        assert(piece_bytes(pieces).take(0) =~= Seq::<Seq<u8>>::empty());
    }
}

/// Where each of six byte strings lies when they are put together behind a tag.
proof fn lemma_six_parts(
    a: Seq<u8>,
    b: Seq<u8>,
    c: Seq<u8>,
    d: Seq<u8>,
    e: Seq<u8>,
    f: Seq<u8>,
    all: Seq<u8>,
)
    requires
        all == (seq![2u8] + a + b + c + d + e + f).skip(1),
    ensures
        ({
            let p = a.len() as int;
            let q = p + b.len();
            let r = q + c.len();
            let s = r + d.len();
            let t = s + e.len();
            &&& t <= all.len()
            &&& all.subrange(0, p) == a
            &&& all.subrange(p, q) == b
            &&& all.subrange(q, r) == c
            &&& all.subrange(s, t) == e
        }),
{
    assert(all =~= a + b + c + d + e + f);
    let p = a.len() as int;
    let q = p + b.len();
    let r = q + c.len();
    let s = r + d.len();
    let t = s + e.len();
    assert(all.subrange(0, p) =~= a);
    assert(all.subrange(p, q) =~= b);
    assert(all.subrange(q, r) =~= c);
    assert(all.subrange(s, t) =~= e);
}

/// A bitmap without runs holds exactly the rows that were written into its containers: behind the tag
/// and the cookie 12346 come the number of containers, two numbers for each, an offset for each that is
/// not looked at, and the containers.
pub proof fn lemma_bitmap_comes_back(
    pieces: Seq<Piece>,
    rows: nat,
    offsets: Seq<u8>,
    rest: Seq<u8>,
    bytes: Seq<u8>,
)
    requires
        pieces.len() <= 0x1_0000,
        all_writable(pieces, rows),
        forall|i: int| 0 <= i < pieces.len() ==> !((#[trigger] pieces[i]).lows is Runs),
        offsets.len() == 4 * pieces.len(),
        bytes == seq![2u8] + le_bytes(12346, 4) + le_bytes(pieces.len(), 4) + laid_out(
            described(pieces),
            2,
        ) + offsets + joined(piece_bytes(pieces)) + rest,
    ensures
        set_of(bytes, rows) is Ok,
        set_of(bytes, rows)->Ok_0.len() == rows,
        forall|r: int|
            0 <= r < rows ==> (#[trigger] set_of(bytes, rows)->Ok_0[r] <==> some_piece_holds(
                pieces,
                pieces.len() as int,
                r,
            )),
{
    let n = pieces.len();
    let told = laid_out(described(pieces), 2);
    let area = joined(piece_bytes(pieces));
    let inner = bytes.skip(1);
    lemma_pow_widths();
    lemma_le_bytes_len(12346, 4);
    lemma_le_bytes_len(n, 4);
    lemma_le_of_le_bytes(12346, 4);
    lemma_le_of_le_bytes(n, 4);
    lemma_laid_out_len(described(pieces), 2);
    assert(inner =~= le_bytes(12346, 4) + le_bytes(n, 4) + told + offsets + area + rest);
    assert(inner.subrange(0, 4) =~= le_bytes(12346, 4));
    assert(inner.subrange(4, 8) =~= le_bytes(n, 4));
    let l = layout(false, n as int, 8);
    assert(header(inner) == Ok::<Layout, Error>(l));
    assert(inner.subrange(8, 8 + 4 * n as int) =~= told);
    assert(inner.subrange(l.start, l.start + area.len()) =~= area);
    lemma_pieces_are_marked(inner, l, Seq::empty(), pieces, rows, n);
}

/// A bitmap that may have runs holds exactly the rows that were written into its containers: behind the
/// tag and the cookie 12347, with one less than the number of containers in its high half, come a flag
/// for each container, two numbers for each, an offset for each that is not looked at where there are
/// four containers or more, and the containers.
#[verifier::spinoff_prover]
pub proof fn lemma_bitmap_with_runs_comes_back(
    pieces: Seq<Piece>,
    rows: nat,
    flags: Seq<u8>,
    offsets: Seq<u8>,
    rest: Seq<u8>,
    bytes: Seq<u8>,
)
    requires
        0 < pieces.len() <= 0x1_0000,
        all_writable(pieces, rows),
        flags_say(flags, pieces),
        pieces.len() >= 4 ==> offsets.len() == 4 * pieces.len(),
        pieces.len() < 4 ==> offsets.len() == 0,
        bytes == seq![2u8] + le_bytes((12347 + 0x1_0000 * (pieces.len() - 1)) as nat, 4) + flags
            + laid_out(described(pieces), 2) + offsets + joined(piece_bytes(pieces)) + rest,
    ensures
        set_of(bytes, rows) is Ok,
        set_of(bytes, rows)->Ok_0.len() == rows,
        forall|r: int|
            0 <= r < rows ==> (#[trigger] set_of(bytes, rows)->Ok_0[r] <==> some_piece_holds(
                pieces,
                pieces.len() as int,
                r,
            )),
{
    let n = pieces.len();
    let cookie = (12347 + 0x1_0000 * (n - 1)) as nat;
    let told = laid_out(described(pieces), 2);
    let area = joined(piece_bytes(pieces));
    let inner = bytes.skip(1);
    lemma_pow_widths();
    lemma_le_bytes_len(cookie, 4);
    lemma_le_of_le_bytes(cookie, 4);
    lemma_laid_out_len(described(pieces), 2);
    lemma_six_parts(le_bytes(cookie, 4), flags, told, offsets, area, rest, inner);
    lemma_runs_lie(pieces, flags, offsets.len(), inner);
    let l = layout(true, n as int, 4);
    lemma_pieces_are_marked(inner, l, flags, pieces, rows, n);
}

/// Where everything lies in a bitmap that may have runs.
#[verifier::spinoff_prover]
proof fn lemma_runs_lie(pieces: Seq<Piece>, flags: Seq<u8>, offsets: nat, inner: Seq<u8>)
    requires
        0 < pieces.len() <= 0x1_0000,
        flags_say(flags, pieces),
        pieces.len() >= 4 ==> offsets == 4 * pieces.len(),
        pieces.len() < 4 ==> offsets == 0,
        ({
            let cookie = le_bytes((12347 + 0x1_0000 * (pieces.len() - 1)) as nat, 4);
            let told = laid_out(described(pieces), 2);
            let area = joined(piece_bytes(pieces));
            let q = 4 + flags.len() as int;
            let r = q + told.len();
            let s = r + offsets;
            &&& s + area.len() <= inner.len()
            &&& inner.subrange(0, 4) == cookie
            &&& inner.subrange(4, q) == flags
            &&& inner.subrange(q, r) == told
            &&& inner.subrange(s, s + area.len()) == area
        }),
    ensures
        header(inner) == Ok::<Layout, Error>(layout(true, pieces.len() as int, 4)),
        lies(inner, layout(true, pieces.len() as int, 4), flags, pieces),
{
    let n = pieces.len();
    let cookie = (12347 + 0x1_0000 * (n - 1)) as nat;
    let l = layout(true, n as int, 4);
    lemma_pow_widths();
    lemma_le_of_le_bytes(cookie, 4);
    lemma_laid_out_len(described(pieces), 2);
    assert(cookie % 0x1_0000 == 12347 && cookie / 0x1_0000 == n - 1);
    assert(laid_out(described(pieces), 2).len() == 4 * n);
    assert(l.described == 4 + flags.len());
    assert(l.start == l.described + 4 * n + offsets);
}

/// A list of rows reads as exactly those rows: behind the tag come how many there are and four bytes
/// each.
pub proof fn lemma_row_list_comes_back(
    list: Seq<u32>,
    rows: nat,
    rest: Seq<u8>,
    bytes: Seq<u8>,
)
    requires
        list.len() <= u32::MAX,
        forall|i: int| 0 <= i < list.len() ==> (#[trigger] list[i]) < rows,
        bytes == seq![1u8] + le_bytes(list.len(), 4) + laid_out(
            Seq::new(list.len(), |i: int| list[i] as nat),
            4,
        ) + rest,
    ensures
        set_of(bytes, rows) is Ok,
        set_of(bytes, rows)->Ok_0.len() == rows,
        forall|r: int|
            0 <= r < rows ==> (#[trigger] set_of(bytes, rows)->Ok_0[r] <==> exists|i: int|
                0 <= i < list.len() && #[trigger] list[i] == r),
{
    let numbers = Seq::new(list.len(), |i: int| list[i] as nat);
    lemma_pow_widths();
    lemma_le_bytes_len(list.len(), 4);
    lemma_le_of_le_bytes(list.len(), 4);
    lemma_laid_out_len(numbers, 4);
    assert(bytes.subrange(1, 5) =~= le_bytes(list.len(), 4));
    assert(word_at(bytes, 1, "a roaring value list") == Ok::<u32, Error>(list.len() as u32));
    assert(bytes.subrange(5, 5 + 4 * list.len() as int) =~= laid_out(numbers, 4));
    lemma_list_is_marked(bytes, list, rows, list.len());
}

/// The first values of a list are marked.
proof fn lemma_list_is_marked(bytes: Seq<u8>, list: Seq<u32>, rows: nat, n: nat)
    requires
        n <= list.len(),
        forall|i: int| 0 <= i < list.len() ==> (#[trigger] list[i]) < rows,
        5 + 4 * list.len() <= bytes.len(),
        bytes.subrange(5, 5 + 4 * list.len() as int) == laid_out(
            Seq::new(list.len(), |i: int| list[i] as nat),
            4,
        ),
    ensures
        ({
            let c = listed(bytes, nothing(rows), n);
            &&& c is Ok
            &&& c->Ok_0.len() == rows
            &&& forall|r: int|
                0 <= r < rows ==> (#[trigger] c->Ok_0[r] <==> exists|i: int|
                    0 <= i < n && #[trigger] list[i] == r)
        }),
    decreases n,
{
    if n > 0 {
        let k = n - 1;
        let numbers = Seq::new(list.len(), |i: int| list[i] as nat);
        lemma_list_is_marked(bytes, list, rows, k as nat);
        lemma_laid_out(numbers, 4, k);
        lemma_pow_widths();
        lemma_le_of_le_bytes(numbers[k], 4);
        assert(bytes.subrange(4 * k + 5, 4 * k + 5 + 4) =~= bytes.subrange(
            5,
            5 + 4 * list.len() as int,
        ).subrange(k * 4, k * 4 + 4));
        assert(word_at(bytes, 4 * k + 5, "a roaring value list") == Ok::<u32, Error>(list[k]));
        assert(list[k] < rows);
        let before = listed(bytes, nothing(rows), k as nat)->Ok_0;
        let after = listed(bytes, nothing(rows), n)->Ok_0;
        assert(after == before.update(list[k] as int, true));
        assert forall|r: int| 0 <= r < rows implies (#[trigger] after[r] <==> exists|i: int|
            0 <= i < n && #[trigger] list[i] == r) by {
            if after[r] && r != list[k] {
                assert(before[r]);
                let i = choose|i: int| 0 <= i < k && #[trigger] list[i] == r;
                assert(list[i] == r);
            }
        }
    }
}

} // verus!
