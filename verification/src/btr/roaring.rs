//! The Roaring bitmap that a scattered nullmap is stored as.
//!
//! A tag byte and then one of two things: a count and that many values, or the portable format, which
//! is a header that describes containers and then the containers. A container covers the values that
//! share a high half, and holds their low halves as a list, as a bitset or as a list of runs.
//!
//! What comes out is one entry a row saying whether the set holds it. Whether the set holds the present
//! rows or the null ones is decided elsewhere.
use vstd::prelude::*;

use crate::btr::error::{Error, Result};
use crate::btr::part::{agrees, plus, read_u32, sat, word_at};
use crate::bytes::{bit, le, u16_of};

verus! {

/// The tag saying the rest is a count and then the values.
pub const ARRAY: u8 = 1;

/// The tag saying the rest is the portable format.
pub const CONTAINER: u8 = 2;

/// The cookie of a portable bitmap that has run containers in it, in the low half of its word. The
/// high half holds one less than the number of containers.
pub const COOKIE_WITH_RUNS: u32 = 12347;

/// The cookie of a portable bitmap that has none, which is followed by the container count.
pub const COOKIE_NO_RUNS: u32 = 12346;

/// How few containers a bitmap with runs can have and still be written without an offset each.
pub const NO_OFFSET_THRESHOLD: usize = 4;

/// The largest cardinality still written as a list of values.
pub const ARRAY_MAX: u32 = 4096;

/// How many bytes a bitset container occupies.
pub const BITSET_BYTES: usize = 8192;

/// How many containers a bitmap can have, one for each high half of a value.
pub const MAX_CONTAINERS: usize = 65536;

/// The two byte number at an offset.
pub open spec fn half_at(bytes: Seq<u8>, at: int, what: &'static str) -> Result<u16> {
    if at + 2 > bytes.len() {
        Err(
            Error::Truncated {
                what,
                from: sat(at),
                to: sat(at + 2),
                len: bytes.len() as usize,
            },
        )
    } else {
        Ok(le(bytes.subrange(at, at + 2)) as u16)
    }
}

/// What a value past the rows is refused with.
pub open spec fn past_the_end() -> Error {
    Error::Malformed { what: "a roaring bitmap", why: "it holds a row past the end of the chunk" }
}

/// A set with one more value.
pub open spec fn marked(set: Seq<bool>, value: u32) -> Result<Seq<bool>> {
    if value < set.len() {
        Ok(set.update(value as int, true))
    } else {
        Err(past_the_end())
    }
}

/// A set with every value that a predicate picks out of those below a bound.
pub open spec fn marked_where(
    set: Seq<bool>,
    bound: int,
    value: spec_fn(int) -> u32,
    picked: spec_fn(int) -> bool,
) -> Result<Seq<bool>> {
    if exists|k: int| 0 <= k < bound && #[trigger] picked(k) && value(k) >= set.len() {
        Err(past_the_end())
    } else {
        Ok(
            Seq::new(
                set.len(),
                |r: int|
                    set[r] || exists|k: int|
                        0 <= k < bound && #[trigger] picked(k) && value(k) == r,
            ),
        )
    }
}

/// The first `n` values of a list of words.
pub open spec fn listed(bytes: Seq<u8>, set: Seq<bool>, n: nat) -> Result<Seq<bool>>
    decreases n,
{
    if n == 0 {
        Ok(set)
    } else {
        match listed(bytes, set, (n - 1) as nat) {
            Err(e) => Err(e),
            Ok(s) => match word_at(bytes, 4 * (n - 1) + 5, "a roaring value list") {
                Err(e) => Err(e),
                Ok(v) => marked(s, v),
            },
        }
    }
}

/// The first `n` values of an array container.
pub open spec fn arrayed(
    bytes: Seq<u8>,
    at: int,
    base: u32,
    set: Seq<bool>,
    n: nat,
) -> Result<Seq<bool>>
    decreases n,
{
    if n == 0 {
        Ok(set)
    } else {
        match arrayed(bytes, at, base, set, (n - 1) as nat) {
            Err(e) => Err(e),
            Ok(s) => match half_at(bytes, at + 2 * (n - 1), "a roaring array container") {
                Err(e) => Err(e),
                Ok(v) => marked(s, base | (v as u32)),
            },
        }
    }
}

/// Whether a bitset holds its `k`th value.
pub open spec fn in_bitset(bytes: Seq<u8>, at: int, k: int) -> bool {
    bit(bytes[at + k / 8], (k % 8) as u8)
}

/// A bitset container.
pub open spec fn bitsetted(bytes: Seq<u8>, at: int, base: u32, set: Seq<bool>) -> Result<
    Seq<bool>,
> {
    if at + BITSET_BYTES > bytes.len() {
        Err(
            Error::Truncated {
                what: "a roaring bitset container",
                from: sat(at),
                to: sat(at + BITSET_BYTES),
                len: bytes.len() as usize,
            },
        )
    } else {
        marked_where(
            set,
            65536,
            |k: int| base | (k as u32),
            |k: int| in_bitset(bytes, at, k),
        )
    }
}

/// One run: a start, and one less than how many values it holds.
pub open spec fn run_marked(set: Seq<bool>, base: u32, start: u16, length: u16) -> Result<
    Seq<bool>,
> {
    marked_where(set, length + 1, |k: int| base | ((start + k) as u32), |k: int| true)
}

/// The first `n` runs of a run container.
pub open spec fn runs_marked(
    bytes: Seq<u8>,
    at: int,
    base: u32,
    set: Seq<bool>,
    n: nat,
) -> Result<Seq<bool>>
    decreases n,
{
    if n == 0 {
        Ok(set)
    } else {
        match runs_marked(bytes, at, base, set, (n - 1) as nat) {
            Err(e) => Err(e),
            Ok(s) => {
                let entry = at + 2 + 4 * (n - 1);
                match half_at(bytes, entry, "a roaring run") {
                    Err(e) => Err(e),
                    Ok(start) => match half_at(bytes, entry + 2, "a roaring run") {
                        Err(e) => Err(e),
                        Ok(length) => run_marked(s, base, start, length),
                    },
                }
            },
        }
    }
}

/// A set so far, and where the next container starts.
pub ghost struct Marks {
    /// The set.
    pub set: Seq<bool>,
    /// The offset of the next container.
    pub at: int,
}

/// A set and the offset behind the container it came from.
pub open spec fn ends(set: Result<Seq<bool>>, at: int) -> Result<Marks> {
    match set {
        Err(e) => Err(e),
        Ok(set) => Ok(Marks { set, at }),
    }
}

/// What the header of a portable bitmap says.
pub ghost struct Layout {
    /// Whether there may be run containers.
    pub runs: bool,
    /// How many containers there are.
    pub containers: int,
    /// Where the run container flags start.
    pub flags: int,
    /// Where the keys and cardinalities start.
    pub described: int,
    /// Where the containers start.
    pub start: int,
}

/// The layout that a container count implies, with the flags at an offset.
pub open spec fn layout(runs: bool, containers: int, flags: int) -> Layout {
    let described = flags + if runs {
        (containers + 7) / 8
    } else {
        0
    };
    Layout {
        runs,
        containers,
        flags,
        described,
        start: described + 4 * containers + if !runs || containers >= NO_OFFSET_THRESHOLD {
            4 * containers
        } else {
            0
        },
    }
}

/// The header of a portable bitmap.
pub open spec fn header(bytes: Seq<u8>) -> Result<Layout> {
    match word_at(bytes, 0, "a roaring bitmap") {
        Err(e) => Err(e),
        Ok(cookie) => if cookie % 0x1_0000 == COOKIE_WITH_RUNS {
            Ok(layout(true, cookie as int / 0x1_0000 + 1, 4))
        } else if cookie == COOKIE_NO_RUNS {
            match word_at(bytes, 4, "a roaring bitmap") {
                Err(e) => Err(e),
                Ok(n) => if n > MAX_CONTAINERS {
                    Err(
                        Error::Malformed {
                            what: "a roaring bitmap",
                            why: "it claims more containers than there are keys for one to have",
                        },
                    )
                } else {
                    Ok(layout(false, n as int, 8))
                },
            }
        } else {
            Err(
                Error::Malformed {
                    what: "a roaring bitmap",
                    why: "it does not start with either of the cookies the library writes",
                },
            )
        },
    }
}

/// Whether a container is a run container.
pub open spec fn run_flag(bytes: Seq<u8>, flags: int, index: int) -> Result<bool> {
    let at = flags + index / 8;
    if at < bytes.len() {
        Ok(bit(bytes[at], (index % 8) as u8))
    } else {
        Err(
            Error::Truncated {
                what: "the run container flags",
                from: flags as usize,
                to: (at + 1) as usize,
                len: bytes.len() as usize,
            },
        )
    }
}

/// One container: where its bytes start, its key, and its cardinality.
pub open spec fn container(
    bytes: Seq<u8>,
    run: bool,
    key: u16,
    cardinality: int,
    m: Marks,
) -> Result<Marks> {
    let base = ((key as int) * 0x1_0000) as u32;
    if run {
        match half_at(bytes, m.at, "a roaring run container") {
            Err(e) => Err(e),
            Ok(n) => ends(runs_marked(bytes, m.at, base, m.set, n as nat), m.at + 2 + 4 * n),
        }
    } else if cardinality > ARRAY_MAX {
        ends(bitsetted(bytes, m.at, base, m.set), m.at + BITSET_BYTES)
    } else {
        ends(
            arrayed(bytes, m.at, base, m.set, cardinality as nat),
            m.at + 2 * cardinality,
        )
    }
}

/// One more container, by its place in the header. A cardinality is written as one less.
pub open spec fn next_container(bytes: Seq<u8>, l: Layout, i: int, m: Marks) -> Result<Marks> {
    let entry = l.described + 4 * i;
    match half_at(bytes, entry, "a roaring container") {
        Err(e) => Err(e),
        Ok(key) => match half_at(bytes, entry + 2, "a roaring container") {
            Err(e) => Err(e),
            Ok(less) => {
                let run = if l.runs {
                    run_flag(bytes, l.flags, i)
                } else {
                    Ok(false)
                };
                match run {
                    Err(e) => Err(e),
                    Ok(run) => container(bytes, run, key, less + 1, m),
                }
            },
        },
    }
}

/// The first `n` containers.
pub open spec fn containers(bytes: Seq<u8>, l: Layout, set: Seq<bool>, n: nat) -> Result<Marks>
    decreases n,
{
    if n == 0 {
        Ok(Marks { set, at: l.start })
    } else {
        match containers(bytes, l, set, (n - 1) as nat) {
            Err(e) => Err(e),
            Ok(m) => next_container(bytes, l, n - 1, m),
        }
    }
}

/// A portable bitmap.
pub open spec fn portable_set(bytes: Seq<u8>, set: Seq<bool>) -> Result<Seq<bool>> {
    match header(bytes) {
        Err(e) => Err(e),
        Ok(l) => match containers(bytes, l, set, l.containers as nat) {
            Err(e) => Err(e),
            Ok(m) => Ok(m.set),
        },
    }
}

/// A list of values.
pub open spec fn value_set(bytes: Seq<u8>, set: Seq<bool>) -> Result<Seq<bool>> {
    match word_at(bytes, 1, "a roaring value list") {
        Err(e) => Err(e),
        Ok(n) => listed(bytes, set, n as nat),
    }
}

/// A set that holds nothing.
pub open spec fn nothing(rows: nat) -> Seq<bool> {
    Seq::new(rows, |i: int| false)
}

/// The set a serialised bitmap describes, as one entry a row.
pub open spec fn set_of(bytes: Seq<u8>, rows: nat) -> Result<Seq<bool>> {
    if bytes.len() == 0 {
        Err(Error::Truncated { what: "a roaring bitmap", from: 0, to: 1, len: 0 })
    } else if bytes[0] == ARRAY {
        value_set(bytes, nothing(rows))
    } else if bytes[0] == CONTAINER {
        portable_set(bytes.skip(1), nothing(rows))
    } else {
        Err(
            Error::Malformed {
                what: "a roaring bitmap",
                why: "it starts with a tag the library does not write",
            },
        )
    }
}

/// Reads a serialised bitmap and says, for each of `rows` rows, whether the set holds it.
///
/// A value outside the rows is refused.
pub fn read(bytes: &[u8], rows: usize) -> (r: Result<Vec<bool>>)
    ensures
        agrees(r, set_of(bytes@, rows as nat)),
{
    let len: usize = bytes.len();
    if len == 0 {
        return Err(Error::Truncated { what: "a roaring bitmap", from: 0, to: 1, len });
    }
    let mut set: Vec<bool> = Vec::new();
    let mut i: usize = 0;
    while i < rows
        invariant
            0 <= i <= rows,
            set@ == nothing(i as nat),
        decreases rows - i,
    {
        set.push(false);
        i = i + 1;
        assert(set@ =~= nothing(i as nat));
    }
    if bytes[0] == ARRAY {
        values(bytes, &mut set)?;
        Ok(set)
    } else if bytes[0] == CONTAINER {
        let rest = &bytes[1..len];
        assert(rest@ =~= bytes@.skip(1));
        portable(rest, &mut set)?;
        Ok(set)
    } else {
        Err(
            Error::Malformed {
                what: "a roaring bitmap",
                why: "it starts with a tag the library does not write",
            },
        )
    }
}

/// Whether marking came out as stated.
pub open spec fn came_out<T>(r: Result<T>, set: Seq<bool>, s: Result<Seq<bool>>) -> bool {
    match s {
        Ok(v) => r is Ok && set == v,
        Err(e) => r is Err && r->Err_0 == e,
    }
}

/// Values that stop early stop there however many there are.
proof fn lemma_listed_stops(bytes: Seq<u8>, set: Seq<bool>, k: nat, n: nat)
    requires
        k <= n,
        listed(bytes, set, k) is Err,
    ensures
        listed(bytes, set, n) == listed(bytes, set, k),
    decreases n,
{
    if k < n {
        lemma_listed_stops(bytes, set, k, (n - 1) as nat);
    }
}

/// Values that stop early stop there however many there are.
proof fn lemma_arrayed_stops(bytes: Seq<u8>, at: int, base: u32, set: Seq<bool>, k: nat, n: nat)
    requires
        k <= n,
        arrayed(bytes, at, base, set, k) is Err,
    ensures
        arrayed(bytes, at, base, set, n) == arrayed(bytes, at, base, set, k),
    decreases n,
{
    if k < n {
        lemma_arrayed_stops(bytes, at, base, set, k, (n - 1) as nat);
    }
}

/// Runs that stop early stop there however many there are.
proof fn lemma_runs_stop(bytes: Seq<u8>, at: int, base: u32, set: Seq<bool>, k: nat, n: nat)
    requires
        k <= n,
        runs_marked(bytes, at, base, set, k) is Err,
    ensures
        runs_marked(bytes, at, base, set, n) == runs_marked(bytes, at, base, set, k),
    decreases n,
{
    if k < n {
        lemma_runs_stop(bytes, at, base, set, k, (n - 1) as nat);
    }
}

/// Containers that stop early stop there however many there are.
proof fn lemma_containers_stop(bytes: Seq<u8>, l: Layout, set: Seq<bool>, k: nat, n: nat)
    requires
        k <= n,
        containers(bytes, l, set, k) is Err,
    ensures
        containers(bytes, l, set, n) == containers(bytes, l, set, k),
    decreases n,
{
    if k < n {
        lemma_containers_stop(bytes, l, set, k, (n - 1) as nat);
    }
}

/// Reads the arm that is a count and then the values, one word each.
fn values(bytes: &[u8], set: &mut Vec<bool>) -> (r: Result<()>)
    ensures
        came_out(r, final(set)@, value_set(bytes@, old(set)@)),
{
    let len: usize = bytes.len();
    let count: usize = read_u32(bytes, 1, "a roaring value list")? as usize;
    let mut at: usize = 5;
    let mut i: usize = 0;
    while i < count
        invariant
            0 <= i <= count,
            len == bytes@.len(),
            at == 4 * i + 5,
            at <= len,
            count <= u32::MAX,
            word_at(bytes@, 1, "a roaring value list") == Ok::<u32, Error>(count as u32),
            listed(bytes@, old(set)@, i as nat) == Ok::<Seq<bool>, Error>(set@),
        decreases count - i,
    {
        proof {
            if listed(bytes@, old(set)@, (i + 1) as nat) is Err {
                lemma_listed_stops(bytes@, old(set)@, (i + 1) as nat, count as nat);
            }
        }
        let v: u32 = read_u32(bytes, at, "a roaring value list")?;
        mark(v, set)?;
        at = at + 4;
        i = i + 1;
    }
    Ok(())
}

/// Reads the portable format, which is a header describing the containers and then the containers.
fn portable(bytes: &[u8], set: &mut Vec<bool>) -> (r: Result<()>)
    ensures
        came_out(r, final(set)@, portable_set(bytes@, old(set)@)),
{
    let len: usize = bytes.len();
    let cookie: u32 = read_u32(bytes, 0, "a roaring bitmap")?;
    let runs: bool = cookie % 0x1_0000 == COOKIE_WITH_RUNS;
    let mut at: usize = 4;
    let count: usize;
    if runs {
        count = (cookie / 0x1_0000) as usize + 1;
    } else if cookie == COOKIE_NO_RUNS {
        let described: u32 = read_u32(bytes, 4, "a roaring bitmap")?;
        if described > 65536 {
            return Err(
                Error::Malformed {
                    what: "a roaring bitmap",
                    why: "it claims more containers than there are keys for one to have",
                },
            );
        }
        count = described as usize;
        at = 8;
    } else {
        return Err(
            Error::Malformed {
                what: "a roaring bitmap",
                why: "it does not start with either of the cookies the library writes",
            },
        );
    }
    let flags: usize = at;
    if runs {
        at = at + (count + 7) / 8;
    }
    let described: usize = at;
    at = at + 4 * count;
    if !runs || count >= NO_OFFSET_THRESHOLD {
        at = at + 4 * count;
    }
    let ghost l = layout(runs, count as int, flags as int);
    assert(header(bytes@) == Ok::<Layout, Error>(l));
    let mut i: usize = 0;
    while i < count
        invariant
            0 <= i <= count <= 65536,
            len == bytes@.len(),
            flags <= 8,
            described <= 8200,
            at <= 600000 || at <= len,
            header(bytes@) == Ok::<Layout, Error>(l),
            l == layout(runs, count as int, flags as int),
            described == l.described,
            containers(bytes@, l, old(set)@, i as nat) == Ok::<Marks, Error>(
                Marks { set: set@, at: at as int },
            ),
        decreases count - i,
    {
        proof {
            if containers(bytes@, l, old(set)@, (i + 1) as nat) is Err {
                lemma_containers_stop(bytes@, l, old(set)@, (i + 1) as nat, count as nat);
            }
        }
        let entry: usize = described + 4 * i;
        let key: u16 = read_u16(bytes, entry, "a roaring container")?;
        let less: u16 = read_u16(bytes, entry + 2, "a roaring container")?;
        let cardinality: u32 = less as u32 + 1;
        let base: u32 = key as u32 * 0x1_0000;
        let is_run: bool = if runs {
            flag(bytes, flags, i)?
        } else {
            false
        };
        let end: usize = if is_run {
            run_container(bytes, at, base, set)?
        } else if cardinality > ARRAY_MAX {
            bitset_container(bytes, at, base, set)?
        } else {
            array_container(bytes, at, cardinality, base, set)?
        };
        at = end;
        i = i + 1;
    }
    Ok(())
}

/// Whether the container at `index` is a run container.
fn flag(bytes: &[u8], flags: usize, index: usize) -> (r: Result<bool>)
    requires
        flags <= 8,
        index < 65536,
    ensures
        r == run_flag(bytes@, flags as int, index as int),
{
    let at: usize = flags + index / 8;
    if at >= bytes.len() {
        return Err(
            Error::Truncated {
                what: "the run container flags",
                from: flags,
                to: at + 1,
                len: bytes.len(),
            },
        );
    }
    let k: u8 = (index % 8) as u8;
    Ok((bytes[at] >> k) & 1u8 == 1u8)
}

/// Reads a container that lists its values, and says where it ended.
fn array_container(
    bytes: &[u8],
    at: usize,
    cardinality: u32,
    base: u32,
    set: &mut Vec<bool>,
) -> (r: Result<usize>)
    requires
        at <= 600000 || at <= bytes@.len(),
        0 < cardinality <= ARRAY_MAX,
    ensures
        came_out(r, final(set)@, arrayed(bytes@, at as int, base, old(set)@, cardinality as nat)),
        r is Ok ==> r->Ok_0 == at + 2 * cardinality && r->Ok_0 <= bytes@.len(),
{
    let len: usize = bytes.len();
    let mut pos: usize = at;
    let mut i: u32 = 0;
    while i < cardinality
        invariant
            0 <= i <= cardinality <= 4096,
            len == bytes@.len(),
            pos == at + 2 * i,
            i > 0 ==> pos <= len,
            arrayed(bytes@, at as int, base, old(set)@, i as nat) == Ok::<Seq<bool>, Error>(set@),
        decreases cardinality - i,
    {
        proof {
            if arrayed(bytes@, at as int, base, old(set)@, (i + 1) as nat) is Err {
                lemma_arrayed_stops(
                    bytes@,
                    at as int,
                    base,
                    old(set)@,
                    (i + 1) as nat,
                    cardinality as nat,
                );
            }
        }
        let v: u16 = read_u16(bytes, pos, "a roaring array container")?;
        mark(base | (v as u32), set)?;
        pos = pos + 2;
        i = i + 1;
    }
    Ok(pos)
}

/// Marks every value that was picked, when none of those is past the end.
proof fn lemma_marked_where_step(
    before: Seq<bool>,
    n: int,
    value: spec_fn(int) -> u32,
    picked: spec_fn(int) -> bool,
    set: Seq<bool>,
)
    requires
        n >= 0,
        marked_where(before, n, value, picked) == Ok::<Seq<bool>, Error>(set),
    ensures
        !picked(n) ==> marked_where(before, n + 1, value, picked) == Ok::<Seq<bool>, Error>(set),
        picked(n) ==> marked_where(before, n + 1, value, picked) == marked(set, value(n)),
{
    if picked(n) && value(n) < before.len() {
        let next = marked_where(before, n + 1, value, picked)->Ok_0;
        assert forall|r: int| 0 <= r < set.len() implies next[r] == set.update(
            value(n) as int,
            true,
        )[r] by {
            if r == value(n) {
                assert(picked(n));
            }
        }
        assert(next =~= set.update(value(n) as int, true));
    } else if !picked(n) {
        let next = marked_where(before, n + 1, value, picked)->Ok_0;
        assert(next =~= set);
    }
}

/// Once a picked value is past the end, picking more changes nothing.
proof fn lemma_marked_where_stops(
    before: Seq<bool>,
    k: int,
    n: int,
    value: spec_fn(int) -> u32,
    picked: spec_fn(int) -> bool,
)
    requires
        k <= n,
        marked_where(before, k, value, picked) is Err,
    ensures
        marked_where(before, n, value, picked) == marked_where(before, k, value, picked),
{
    let w = choose|w: int| 0 <= w < k && #[trigger] picked(w) && value(w) >= before.len();
    assert(0 <= w < n && picked(w) && value(w) >= before.len());
}

/// Marking no value keeps the set.
proof fn lemma_marked_where_none(
    before: Seq<bool>,
    value: spec_fn(int) -> u32,
    picked: spec_fn(int) -> bool,
)
    ensures
        marked_where(before, 0, value, picked) == Ok::<Seq<bool>, Error>(before),
{
    assert(marked_where(before, 0, value, picked)->Ok_0 =~= before);
}

/// Reads a container that is a bitset over everything it covers, and says where it ended.
fn bitset_container(bytes: &[u8], at: usize, base: u32, set: &mut Vec<bool>) -> (r: Result<usize>)
    ensures
        came_out(r, final(set)@, bitsetted(bytes@, at as int, base, old(set)@)),
        r is Ok ==> r->Ok_0 == at + BITSET_BYTES && r->Ok_0 <= bytes@.len(),
{
    let len: usize = bytes.len();
    if len < BITSET_BYTES || at > len - BITSET_BYTES {
        return Err(
            Error::Truncated {
                what: "a roaring bitset container",
                from: at,
                to: plus(at, BITSET_BYTES),
                len,
            },
        );
    }
    let ghost value = |k: int| base | (k as u32);
    let ghost picked = |k: int| in_bitset(bytes@, at as int, k);
    proof {
        lemma_marked_where_none(set@, value, picked);
    }
    let mut k: u32 = 0;
    while k < 65536
        invariant
            0 <= k <= 65536,
            len == bytes@.len(),
            at + 8192 <= len,
            value == (|k: int| base | (k as u32)),
            picked == (|k: int| in_bitset(bytes@, at as int, k)),
            marked_where(old(set)@, k as int, value, picked) == Ok::<Seq<bool>, Error>(set@),
        decreases 65536 - k,
    {
        proof {
            lemma_marked_where_step(old(set)@, k as int, value, picked, set@);
            if marked_where(old(set)@, k + 1, value, picked) is Err {
                lemma_marked_where_stops(old(set)@, k + 1, 65536, value, picked);
            }
        }
        let byte: u8 = bytes[at + (k / 8) as usize];
        let j: u8 = (k % 8) as u8;
        if (byte >> j) & 1u8 == 1u8 {
            mark(base | k, set)?;
        }
        k = k + 1;
    }
    Ok(at + BITSET_BYTES)
}

/// Reads a container that is a list of runs, and says where it ended.
///
/// The cardinality in the header is not used for these.
fn run_container(bytes: &[u8], at: usize, base: u32, set: &mut Vec<bool>) -> (r: Result<usize>)
    requires
        at <= 600000 || at <= bytes@.len(),
    ensures
        match half_at(bytes@, at as int, "a roaring run container") {
            Err(e) => r is Err && r->Err_0 == e,
            Ok(n) => {
                &&& came_out(
                    r,
                    final(set)@,
                    runs_marked(bytes@, at as int, base, old(set)@, n as nat),
                )
                &&& r is Ok ==> r->Ok_0 == at + 2 + 4 * n && r->Ok_0 <= bytes@.len()
            },
        },
{
    let len: usize = bytes.len();
    let runs: u16 = read_u16(bytes, at, "a roaring run container")?;
    let mut entry: usize = at + 2;
    let mut i: u16 = 0;
    while i < runs
        invariant
            0 <= i <= runs,
            len == bytes@.len(),
            entry == at + 2 + 4 * i,
            entry <= len,
            half_at(bytes@, at as int, "a roaring run container") == Ok::<u16, Error>(runs),
            runs_marked(bytes@, at as int, base, old(set)@, i as nat) == Ok::<Seq<bool>, Error>(
                set@,
            ),
        decreases runs - i,
    {
        proof {
            if runs_marked(bytes@, at as int, base, old(set)@, (i + 1) as nat) is Err {
                lemma_runs_stop(
                    bytes@,
                    at as int,
                    base,
                    old(set)@,
                    (i + 1) as nat,
                    runs as nat,
                );
            }
        }
        let start: u16 = read_u16(bytes, entry, "a roaring run")?;
        let length: u16 = read_u16(bytes, entry + 2, "a roaring run")?;
        mark_run(base, start, length, set)?;
        entry = entry + 4;
        i = i + 1;
    }
    Ok(entry)
}

/// Records the values of one run.
fn mark_run(base: u32, start: u16, length: u16, set: &mut Vec<bool>) -> (r: Result<()>)
    ensures
        came_out(r, final(set)@, run_marked(old(set)@, base, start, length)),
{
    let ghost value = |k: int| base | ((start + k) as u32);
    let ghost picked = |k: int| true;
    proof {
        lemma_marked_where_none(set@, value, picked);
    }
    let n: u32 = length as u32 + 1;
    let mut k: u32 = 0;
    while k < n
        invariant
            0 <= k <= n,
            n == length + 1,
            value == (|k: int| base | ((start + k) as u32)),
            picked == (|k: int| true),
            marked_where(old(set)@, k as int, value, picked) == Ok::<Seq<bool>, Error>(set@),
        decreases n - k,
    {
        proof {
            lemma_marked_where_step(old(set)@, k as int, value, picked, set@);
            if marked_where(old(set)@, k + 1, value, picked) is Err {
                lemma_marked_where_stops(old(set)@, k + 1, n as int, value, picked);
            }
        }
        mark(base | (start as u32 + k), set)?;
        k = k + 1;
    }
    Ok(())
}

/// Records that the set holds `value`.
fn mark(value: u32, set: &mut Vec<bool>) -> (r: Result<()>)
    ensures
        came_out(r, final(set)@, marked(old(set)@, value)),
{
    if value as usize >= set.len() {
        return Err(
            Error::Malformed {
                what: "a roaring bitmap",
                why: "it holds a row past the end of the chunk",
            },
        );
    }
    set.set(value as usize, true);
    Ok(())
}

/// Reads a sixteen bit field.
fn read_u16(bytes: &[u8], at: usize, what: &'static str) -> (r: Result<u16>)
    ensures
        r == half_at(bytes@, at as int, what),
{
    let len: usize = bytes.len();
    if len < 2 || at > len - 2 {
        return Err(Error::Truncated { what, from: at, to: plus(at, 2), len });
    }
    Ok(u16_of(&bytes[at..at + 2]))
}

/// The `i`th value of a list of words.
pub open spec fn listed_value(bytes: Seq<u8>, i: int) -> int {
    word_at(bytes, 4 * i + 5, "a roaring value list")->Ok_0 as int
}

/// A list of values is the set of the rows it lists, and nothing else.
pub proof fn lemma_listed_rows(bytes: Seq<u8>, rows: nat, n: nat, r: int)
    requires
        listed(bytes, nothing(rows), n) is Ok,
        0 <= r < rows,
    ensures
        listed(bytes, nothing(rows), n)->Ok_0.len() == rows,
        listed(bytes, nothing(rows), n)->Ok_0[r] <==> exists|i: int|
            0 <= i < n && #[trigger] listed_value(bytes, i) == r,
    decreases n,
{
    if n > 0 {
        lemma_listed_rows(bytes, rows, (n - 1) as nat, r);
        lemma_listed_keep(bytes, nothing(rows), (n - 1) as nat);
        if listed_value(bytes, n - 1) == r {
            assert(0 <= n - 1 < n);
        }
    }
}

/// The row that an entry of an array container stands for.
pub open spec fn array_row(bytes: Seq<u8>, at: int, base: u32, i: int) -> int {
    (base | (le(bytes.subrange(at + 2 * i, at + 2 * i + 2)) as u16 as u32)) as int
}

/// An array container adds the rows it lists to the set, and no others.
pub proof fn lemma_array_rows(bytes: Seq<u8>, at: int, base: u32, set: Seq<bool>, n: nat, r: int)
    requires
        arrayed(bytes, at, base, set, n) is Ok,
        0 <= r < set.len(),
    ensures
        arrayed(bytes, at, base, set, n)->Ok_0[r] <==> set[r] || exists|i: int|
            0 <= i < n && #[trigger] array_row(bytes, at, base, i) == r,
    decreases n,
{
    if n > 0 {
        lemma_array_rows(bytes, at, base, set, (n - 1) as nat, r);
        lemma_arrayed_keep(bytes, at, base, set, (n - 1) as nat);
        if array_row(bytes, at, base, n - 1) == r {
            assert(0 <= n - 1 < n);
        }
    }
}

/// Whether an entry of a run container covers a row.
pub open spec fn in_run(bytes: Seq<u8>, at: int, base: u32, i: int, r: int) -> bool {
    let start = le(bytes.subrange(at + 2 + 4 * i, at + 4 + 4 * i)) as u16;
    let length = le(bytes.subrange(at + 4 + 4 * i, at + 6 + 4 * i)) as u16;
    exists|k: int| 0 <= k <= length && #[trigger] run_row(base, start, k) == r
}

/// The row that lies `k` behind the start of a run.
pub open spec fn run_row(base: u32, start: u16, k: int) -> int {
    (base | ((start + k) as u32)) as int
}

/// A run container adds the rows its runs cover to the set, and no others.
#[verifier::spinoff_prover]
pub proof fn lemma_run_rows(bytes: Seq<u8>, at: int, base: u32, set: Seq<bool>, n: nat, r: int)
    requires
        runs_marked(bytes, at, base, set, n) is Ok,
        0 <= r < set.len(),
    ensures
        runs_marked(bytes, at, base, set, n)->Ok_0[r] <==> set[r] || exists|i: int|
            0 <= i < n && #[trigger] in_run(bytes, at, base, i, r),
    decreases n,
{
    if n > 0 {
        let before = runs_marked(bytes, at, base, set, (n - 1) as nat)->Ok_0;
        lemma_run_rows(bytes, at, base, set, (n - 1) as nat, r);
        lemma_runs_keep(bytes, at, base, set, (n - 1) as nat);
        let entry = at + 2 + 4 * (n - 1);
        let start = half_at(bytes, entry, "a roaring run")->Ok_0;
        let length = half_at(bytes, entry + 2, "a roaring run")->Ok_0;
        let i = n - 1;
        assert(start == le(bytes.subrange(at + 2 + 4 * i, at + 4 + 4 * i)) as u16);
        assert(length == le(bytes.subrange(at + 4 + 4 * i, at + 6 + 4 * i)) as u16);
        let value = |k: int| base | ((start + k) as u32);
        let picked = |k: int| true;
        let after = run_marked(before, base, start, length)->Ok_0;
        assert(after[r] == (before[r] || exists|k: int|
            0 <= k < length + 1 && #[trigger] picked(k) && value(k) == r));
        if in_run(bytes, at, base, n - 1, r) {
            let k = choose|k: int| 0 <= k <= length && #[trigger] run_row(base, start, k) == r;
            assert(picked(k) && value(k) == r);
        }
        if exists|k: int| 0 <= k < length + 1 && #[trigger] picked(k) && value(k) == r {
            let k = choose|k: int| 0 <= k < length + 1 && #[trigger] picked(k) && value(k) == r;
            assert(0 <= k <= length && run_row(base, start, k) == r);
            assert(in_run(bytes, at, base, i, r));
        }
    }
}

/// A container keeps the number of rows.
proof fn lemma_container_keeps(bytes: Seq<u8>, run: bool, key: u16, cardinality: int, m: Marks)
    requires
        cardinality > 0,
        container(bytes, run, key, cardinality, m) is Ok,
    ensures
        container(bytes, run, key, cardinality, m)->Ok_0.set.len() == m.set.len(),
{
    let base = ((key as int) * 0x1_0000) as u32;
    if run {
        let n = half_at(bytes, m.at, "a roaring run container")->Ok_0;
        lemma_runs_keep(bytes, m.at, base, m.set, n as nat);
    } else if cardinality <= ARRAY_MAX {
        lemma_arrayed_keep(bytes, m.at, base, m.set, cardinality as nat);
    }
}

/// Runs keep the number of rows.
proof fn lemma_runs_keep(bytes: Seq<u8>, at: int, base: u32, set: Seq<bool>, n: nat)
    requires
        runs_marked(bytes, at, base, set, n) is Ok,
    ensures
        runs_marked(bytes, at, base, set, n)->Ok_0.len() == set.len(),
    decreases n,
{
    if n > 0 {
        lemma_runs_keep(bytes, at, base, set, (n - 1) as nat);
    }
}

/// Listed values keep the number of rows.
proof fn lemma_arrayed_keep(bytes: Seq<u8>, at: int, base: u32, set: Seq<bool>, n: nat)
    requires
        arrayed(bytes, at, base, set, n) is Ok,
    ensures
        arrayed(bytes, at, base, set, n)->Ok_0.len() == set.len(),
    decreases n,
{
    if n > 0 {
        lemma_arrayed_keep(bytes, at, base, set, (n - 1) as nat);
    }
}

/// Containers keep the number of rows.
proof fn lemma_containers_keep(bytes: Seq<u8>, l: Layout, set: Seq<bool>, n: nat)
    requires
        containers(bytes, l, set, n) is Ok,
    ensures
        containers(bytes, l, set, n)->Ok_0.set.len() == set.len(),
    decreases n,
{
    if n > 0 {
        lemma_containers_keep(bytes, l, set, (n - 1) as nat);
        let m = containers(bytes, l, set, (n - 1) as nat)->Ok_0;
        let entry = l.described + 4 * (n - 1);
        let key = half_at(bytes, entry, "a roaring container")->Ok_0;
        let less = half_at(bytes, entry + 2, "a roaring container")->Ok_0;
        let run = if l.runs {
            run_flag(bytes, l.flags, n - 1)->Ok_0
        } else {
            false
        };
        lemma_container_keeps(bytes, run, key, less + 1, m);
    }
}

/// A bitmap that is read has one entry a row, whatever its bytes claim.
pub proof fn lemma_set_has_one_entry_a_row(bytes: Seq<u8>, rows: nat)
    requires
        set_of(bytes, rows) is Ok,
    ensures
        set_of(bytes, rows)->Ok_0.len() == rows,
{
    if bytes[0] == ARRAY {
        let n = word_at(bytes, 1, "a roaring value list")->Ok_0;
        lemma_listed_keep(bytes, nothing(rows), n as nat);
    } else {
        let l = header(bytes.skip(1))->Ok_0;
        lemma_containers_keep(bytes.skip(1), l, nothing(rows), l.containers as nat);
    }
}

/// Listed values keep the number of rows.
proof fn lemma_listed_keep(bytes: Seq<u8>, set: Seq<bool>, n: nat)
    requires
        listed(bytes, set, n) is Ok,
    ensures
        listed(bytes, set, n)->Ok_0.len() == set.len(),
    decreases n,
{
    if n > 0 {
        lemma_listed_keep(bytes, set, (n - 1) as nat);
    }
}

} // verus!
