//! What was written into a symbol table comes back, and what was compressed with it expands.
use vstd::prelude::*;

use crate::btr::column_laws::{joined, lemma_joined_at};
use crate::btr::error::Error;
use crate::btr::fsst::{expansion, of_length, of_lengths, table_of, Expansion, Symbols};
use crate::bytes::{
    le_bytes, lemma_le_bytes_len, lemma_le_bytes_of_le, lemma_le_of_le_bytes, lemma_pow_widths,
};

verus! {

/// Whether symbols come in eight groups: those of two bytes, those of three, and so on up to eight, and
/// then those of one.
pub open spec fn grouped(groups: Seq<Seq<Seq<u8>>>) -> bool {
    &&& groups.len() == 8
    &&& forall|g: int, k: int|
        0 <= g < 7 && 0 <= k < groups[g].len() ==> (#[trigger] groups[g][k]).len() == g + 2
    &&& forall|k: int| 0 <= k < groups[7].len() ==> (#[trigger] groups[7][k]).len() == 1
}

/// The symbols of the first `n` groups, one group behind the other.
pub open spec fn in_code_order(groups: Seq<Seq<Seq<u8>>>, n: nat) -> Seq<Seq<u8>>
    decreases n,
{
    if n == 0 {
        Seq::empty()
    } else {
        in_code_order(groups, (n - 1) as nat) + groups[n - 1]
    }
}

/// Byte strings of two lists run together are those of one behind those of the other.
proof fn lemma_joined_adds(a: Seq<Seq<u8>>, b: Seq<Seq<u8>>)
    ensures
        joined(a + b) == joined(a) + joined(b),
    decreases b.len(),
{
    if b.len() == 0 {
        assert(a + b =~= a);
        assert(joined(a) + joined(b) =~= joined(a));
    } else {
        lemma_joined_adds(a, b.drop_last());
        assert((a + b).drop_last() =~= a + b.drop_last());
        assert(joined(a + b) =~= joined(a) + joined(b));
    }
}

/// Symbols of one length are read from where they lie.
proof fn lemma_symbols_of_length(
    bytes: Seq<u8>,
    front: Seq<u8>,
    list: Seq<Seq<u8>>,
    back: Seq<u8>,
    before: Seq<Seq<u8>>,
    length: nat,
    n: nat,
)
    requires
        bytes == front + joined(list) + back,
        n <= list.len(),
        before.len() + list.len() <= 255,
        forall|k: int| 0 <= k < list.len() ==> (#[trigger] list[k]).len() == length,
    ensures
        of_length(bytes, Symbols { symbols: before, at: front.len() as int }, length, n) == Ok::<
            Symbols,
            Error,
        >(
            Symbols {
                symbols: before + list.take(n as int),
                at: front.len() as int + joined(list.take(n as int)).len(),
            },
        ),
    decreases n,
{
    if n == 0 {
        assert(before + list.take(0) =~= before);
        assert(joined(list.take(0)).len() == 0);
    } else {
        let k = n - 1;
        lemma_symbols_of_length(bytes, front, list, back, before, length, k as nat);
        lemma_joined_at(list, k);
        assert(list[k].len() == length);
        let at = front.len() as int + joined(list.take(k)).len();
        assert(bytes.subrange(at, at + length) =~= joined(list).subrange(
            joined(list.take(k)).len() as int,
            joined(list.take(n as int)).len() as int,
        ));
        assert((before + list.take(k)).push(list[k]) =~= before + list.take(n as int));
    }
}

/// The eight counts of a table: how many symbols there are of one byte, of two, and so on.
pub open spec fn group_counts(groups: Seq<Seq<Seq<u8>>>) -> Seq<u8> {
    Seq::new(8, |i: int| groups[(i + 7) % 8].len() as u8)
}

/// The groups are read one behind the other.
proof fn lemma_groups_are_read(
    bytes: Seq<u8>,
    front: Seq<u8>,
    groups: Seq<Seq<Seq<u8>>>,
    back: Seq<u8>,
    before: Seq<Seq<u8>>,
    n: nat,
)
    requires
        grouped(groups),
        n <= 8,
        before.len() + in_code_order(groups, n).len() <= 255,
        bytes == front + joined(in_code_order(groups, n)) + back,
    ensures
        of_lengths(
            bytes,
            group_counts(groups),
            Symbols { symbols: before, at: front.len() as int },
            n,
        ) == Ok::<Symbols, Error>(
            Symbols {
                symbols: before + in_code_order(groups, n),
                at: front.len() as int + joined(in_code_order(groups, n)).len(),
            },
        ),
    decreases n,
{
    if n == 0 {
        assert(before + in_code_order(groups, 0) =~= before);
    } else {
        let m = (n - 1) as nat;
        let sofar = in_code_order(groups, m);
        let list = groups[n - 1];
        lemma_joined_adds(sofar, list);
        assert(bytes =~= front + joined(sofar) + (joined(list) + back));
        lemma_groups_are_read(bytes, front, groups, joined(list) + back, before, m);
        assert(bytes =~= (front + joined(sofar)) + joined(list) + back);
        let length = (n % 8) + 1;
        assert(list.len() <= 255);
        assert forall|k: int| 0 <= k < list.len() implies (#[trigger] list[k]).len() == length by {
            assert(groups[n - 1][k] == list[k]);
        }
        lemma_symbols_of_length(
            bytes,
            front + joined(sofar),
            list,
            back,
            before + sofar,
            length,
            list.len(),
        );
        assert(list.take(list.len() as int) =~= list);
        assert((n as int % 8 + 7) % 8 == n - 1);
        assert(group_counts(groups)[n as int % 8] == list.len());
        assert((before + sofar) + list =~= before + in_code_order(groups, n));
    }
}

/// A symbol table of at most two hundred and fifty five symbols reads as exactly the symbols that were
/// written into it, in the order of their codes: those of two bytes first, then those of three and on
/// to eight, and those of one byte last. A zero terminated table has a zero byte in front of them, which
/// is counted and not stored.
pub proof fn lemma_symbol_table_comes_back(
    groups: Seq<Seq<Seq<u8>>>,
    unread: Seq<u8>,
    flags: u8,
    rest: Seq<u8>,
    bytes: Seq<u8>,
)
    requires
        grouped(groups),
        unread.len() == 4,
        in_code_order(groups, 8).len() + (flags % 2) <= 255,
        ({
            let counts = group_counts(groups);
            bytes == unread + le_bytes(20190218, 4) + seq![flags] + counts.update(
                0,
                (counts[0] + flags % 2) as u8,
            ) + joined(in_code_order(groups, 8)) + rest
        }),
    ensures
        flags % 2 == 0 ==> table_of(bytes) == Ok::<Seq<Seq<u8>>, Error>(in_code_order(groups, 8)),
        flags % 2 == 1 ==> table_of(bytes) == Ok::<Seq<Seq<u8>>, Error>(
            seq![seq![0u8]] + in_code_order(groups, 8),
        ),
{
    let counts = group_counts(groups);
    let stored = counts.update(0, (counts[0] + flags % 2) as u8);
    let version = le_bytes(20190218, 4);
    let front = unread + version + seq![flags] + stored;
    let symbols = joined(in_code_order(groups, 8));
    lemma_le_bytes_len(20190218, 4);
    lemma_pow_widths();
    lemma_le_of_le_bytes(20190218, 4);
    assert(bytes =~= front + symbols + rest);
    assert(front.len() == 17);
    assert(bytes.subrange(4, 8) =~= version);
    assert(bytes[8] == flags);
    assert(bytes.subrange(9, 17) =~= stored);
    lemma_last_group(groups);
    assert(counts[0] == groups[7].len());
    if flags % 2 == 1 {
        assert(stored.update(0, (stored[0] - 1) as u8) =~= counts);
        lemma_groups_are_read(bytes, front, groups, rest, seq![seq![0u8]], 8);
    } else {
        assert(stored =~= counts);
        lemma_groups_are_read(bytes, front, groups, rest, Seq::empty(), 8);
        assert(Seq::<Seq<u8>>::empty() + in_code_order(groups, 8) =~= in_code_order(groups, 8));
    }
}

/// The last group is part of the whole.
proof fn lemma_last_group(groups: Seq<Seq<Seq<u8>>>)
    ensures
        groups[7].len() <= in_code_order(groups, 8).len(),
{
}

/// A table of another version is refused, and so is one that says it is zero terminated and counts no
/// symbol of one byte.
pub proof fn lemma_other_tables_are_refused(bytes: Seq<u8>)
    requires
        bytes.len() >= 17,
    ensures
        bytes.subrange(4, 8) != le_bytes(20190218, 4) ==> table_of(bytes) is Err,
        bytes[8] % 2 == 1 && bytes[9] == 0 ==> table_of(bytes) is Err,
{
    lemma_le_bytes_of_le(bytes.subrange(4, 8));
    assert(bytes.subrange(9, 17)[0] == bytes[9]);
}

/// A code behind others that expand whole adds its symbol, if the table has one for it. A code that the
/// table has no symbol for, and an escape with nothing behind it, are refused, and leave what came out
/// before them.
pub proof fn lemma_one_more_code(table: Seq<Seq<u8>>, codes: Seq<u8>, code: u8)
    requires
        expansion(table, codes, 0).end is Ok,
    ensures
        code < 255 && code < table.len() ==> expansion(table, codes.push(code), 0) == (Expansion {
            bytes: expansion(table, codes, 0).bytes + table[code as int],
            end: Ok(()),
        }),
        code == 255 || code >= table.len() ==> expansion(table, codes.push(code), 0).end is Err
            && expansion(table, codes.push(code), 0).bytes == expansion(table, codes, 0).bytes,
{
    lemma_code_behind(table, codes, code, 0);
}

/// A code behind others, seen from inside them.
proof fn lemma_code_behind(table: Seq<Seq<u8>>, codes: Seq<u8>, code: u8, at: int)
    requires
        0 <= at <= codes.len(),
        expansion(table, codes, at).end is Ok,
    ensures
        code < 255 && code < table.len() ==> expansion(table, codes.push(code), at) == (Expansion {
            bytes: expansion(table, codes, at).bytes + table[code as int],
            end: Ok(()),
        }),
        code == 255 || code >= table.len() ==> expansion(table, codes.push(code), at).end is Err
            && expansion(table, codes.push(code), at).bytes == expansion(table, codes, at).bytes,
    decreases codes.len() - at,
{
    let all = codes.push(code);
    let last = if code < 255 && code < table.len() {
        table[code as int]
    } else {
        Seq::empty()
    };
    if at == codes.len() {
        reveal_with_fuel(expansion, 2);
        assert(last + Seq::<u8>::empty() =~= last);
        assert(Seq::<u8>::empty() + last =~= last);
    } else {
        assert(all[at] == codes[at]);
        if codes[at] == 255 {
            assert(all[at + 1] == codes[at + 1]);
            lemma_code_behind(table, codes, code, at + 2);
            let front = seq![codes[at + 1]];
            let rest = expansion(table, codes, at + 2).bytes;
            assert(front + (rest + last) =~= (front + rest) + last);
        } else {
            lemma_code_behind(table, codes, code, at + 1);
            let front = table[codes[at] as int];
            let rest = expansion(table, codes, at + 1).bytes;
            assert(front + (rest + last) =~= (front + rest) + last);
        }
    }
}

/// How many symbols there are of one length, when they are read.
proof fn lemma_of_length_counts(bytes: Seq<u8>, start: Symbols, length: nat, n: nat)
    requires
        of_length(bytes, start, length, n) is Ok,
    ensures
        of_length(bytes, start, length, n)->Ok_0.symbols.len() == start.symbols.len() + n,
        n > 0 ==> start.symbols.len() + n <= 255,
    decreases n,
{
    if n > 0 {
        lemma_of_length_counts(bytes, start, length, (n - 1) as nat);
    }
}

/// How many symbols there are of some lengths, when they are read.
proof fn lemma_of_lengths_counts(bytes: Seq<u8>, counts: Seq<u8>, start: Symbols, n: nat)
    requires
        n <= 8,
        counts.len() == 8,
        start.symbols.len() <= 255,
        of_lengths(bytes, counts, start, n) is Ok,
    ensures
        of_lengths(bytes, counts, start, n)->Ok_0.symbols.len() == start.symbols.len() + count_of(
            counts,
            n,
        ),
        of_lengths(bytes, counts, start, n)->Ok_0.symbols.len() <= 255,
    decreases n,
{
    if n > 0 {
        lemma_of_lengths_counts(bytes, counts, start, (n - 1) as nat);
        let st = of_lengths(bytes, counts, start, (n - 1) as nat)->Ok_0;
        lemma_of_length_counts(bytes, st, (n % 8) + 1, counts[n as int % 8] as nat);
    }
}

/// How many symbols the first `n` of the eight counts add up to, in the order they are read.
spec fn count_of(counts: Seq<u8>, n: nat) -> nat
    decreases n,
{
    if n == 0 {
        0
    } else {
        count_of(counts, (n - 1) as nat) + counts[n as int % 8] as nat
    }
}

/// A table that is read has exactly as many symbols as its eight counts add up to, and never more than
/// there are codes for: two hundred and fifty five.
pub proof fn lemma_a_table_has_as_many_symbols_as_it_counts(bytes: Seq<u8>)
    requires
        table_of(bytes) is Ok,
    ensures
        bytes.len() >= 17,
        table_of(bytes)->Ok_0.len() == bytes[9] + bytes[10] + bytes[11] + bytes[12] + bytes[13]
            + bytes[14] + bytes[15] + bytes[16],
        table_of(bytes)->Ok_0.len() <= 255,
{
    let zero = bytes[8] % 2 == 1;
    let counts = bytes.subrange(9, 17);
    let stored = if zero {
        counts.update(0, (counts[0] - 1) as u8)
    } else {
        counts
    };
    let start = if zero {
        Symbols { symbols: seq![seq![0u8]], at: 17 }
    } else {
        Symbols { symbols: Seq::empty(), at: 17 }
    };
    lemma_of_lengths_counts(bytes, stored, start, 8);
    reveal_with_fuel(count_of, 9);
}

} // verus!
