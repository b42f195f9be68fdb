//! Bit packing: values of one width, end to end, in a stream of 32 bit words.
use vstd::arithmetic::div_mod::{
    lemma_div_denominator, lemma_fundamental_div_mod_converse, lemma_hoist_over_denominator,
    lemma_mod_multiples_vanish,
};
use vstd::arithmetic::power2::{
    lemma2_to64, lemma2_to64_rest, lemma_pow2_adds, lemma_pow2_pos, lemma_pow2_strictly_increases,
    pow2,
};
use vstd::bits::{lemma_u64_shl_is_mul, lemma_u64_shr_is_div};
use vstd::prelude::*;

use crate::btr::error::{Error, Result};
use crate::btr::part::{agrees, read_past, word_at};

verus! {

/// The number whose bits, lowest first, run through consecutive words.
pub open spec fn stream(words: Seq<u32>) -> nat
    decreases words.len(),
{
    if words.len() == 0 {
        0
    } else {
        words[0] as nat + 0x1_0000_0000 * stream(words.drop_first())
    }
}

/// The `width` bits of a stream that start at bit `i * width`.
pub open spec fn packed_value(words: Seq<u32>, width: nat, i: nat) -> nat {
    (stream(words) / pow2(i * width)) % pow2(width)
}

/// How many words hold `count` values of `width` bits.
pub open spec fn words_needed(count: nat, width: nat) -> nat {
    (count * width + 31) / 32
}

/// `n` words that lie `stride` words apart.
pub open spec fn words_read(
    bytes: Seq<u8>,
    at: int,
    stride: nat,
    n: nat,
    what: &'static str,
) -> Result<Seq<u32>>
    decreases n,
{
    if n == 0 {
        Ok(Seq::empty())
    } else {
        match words_read(bytes, at, stride, (n - 1) as nat, what) {
            Err(e) => Err(e),
            Ok(words) => match word_at(bytes, at + 4 * stride * (n - 1), what) {
                Err(e) => Err(e),
                Ok(w) => Ok(words.push(w)),
            },
        }
    }
}

/// `count` values of `width` bits, from words that lie `stride` words apart.
pub open spec fn unpacked(
    bytes: Seq<u8>,
    at: int,
    stride: nat,
    width: nat,
    count: nat,
    what: &'static str,
) -> Result<Seq<u32>> {
    match words_read(bytes, at, stride, words_needed(count, width), what) {
        Err(e) => Err(e),
        Ok(words) => Ok(Seq::new(count, |i: int| packed_value(words, width, i as nat) as u32)),
    }
}

/// Words that were all there end inside the bytes.
pub proof fn lemma_words_read(bytes: Seq<u8>, at: int, stride: nat, n: nat, what: &'static str)
    requires
        words_read(bytes, at, stride, n, what) is Ok,
    ensures
        words_read(bytes, at, stride, n, what)->Ok_0.len() == n,
        n > 0 ==> at + 4 * stride * (n - 1) + 4 <= bytes.len(),
    decreases n,
{
    if n > 0 {
        lemma_words_read(bytes, at, stride, (n - 1) as nat, what);
    }
}

/// A read that stops early stops there however many words were wanted.
proof fn lemma_words_stop(
    bytes: Seq<u8>,
    at: int,
    stride: nat,
    k: nat,
    n: nat,
    what: &'static str,
)
    requires
        k <= n,
        words_read(bytes, at, stride, k, what) is Err,
    ensures
        words_read(bytes, at, stride, n, what) == words_read(bytes, at, stride, k, what),
    decreases n,
{
    if k < n {
        lemma_words_stop(bytes, at, stride, k, (n - 1) as nat, what);
    }
}

/// Dropping words from the front of a stream is dividing by what they could hold.
proof fn lemma_stream_skip(words: Seq<u32>, q: nat)
    requires
        q <= words.len(),
    ensures
        stream(words) / pow2(32 * q) == stream(words.skip(q as int)),
    decreases q,
{
    lemma2_to64();
    if q == 0 {
        assert(words.skip(0) =~= words);
        assert(stream(words) / 1 == stream(words));
    } else {
        let tail = words.drop_first();
        let p = (q - 1) as nat;
        lemma_stream_skip(tail, p);
        assert(tail.skip(p as int) =~= words.skip(q as int));
        lemma_pow2_adds(32, 32 * p);
        lemma_pow2_pos(32 * p);
        lemma_div_denominator(stream(words) as int, pow2(32) as int, pow2(32 * p) as int);
        assert(stream(words) / 0x1_0000_0000 == stream(tail));
        assert(32 + 32 * p == 32 * q);
    }
}

/// A value lies in the two words around where it starts.
proof fn lemma_value_in_pair(words: Seq<u32>, width: nat, i: nat, q: nat, r: nat, pair: nat, rest: nat)
    requires
        width <= 32,
        r < 32,
        i * width == 32 * q + r,
        q <= words.len(),
        stream(words.skip(q as int)) == pair + 0x1_0000_0000_0000_0000 * rest,
    ensures
        packed_value(words, width, i) == (pair / pow2(r)) % pow2(width),
{
    let n = stream(words);
    let t = stream(words.skip(q as int));
    lemma_stream_skip(words, q);
    lemma_pow2_pos(32 * q);
    lemma_pow2_pos(r);
    lemma_pow2_pos(width);
    lemma_pow2_adds(32 * q, r);
    lemma_div_denominator(n as int, pow2(32 * q) as int, pow2(r) as int);
    assert(n / pow2(i * width) == t / pow2(r));
    let left = (64 - r - width) as nat;
    lemma2_to64();
    lemma_pow2_adds(r, width);
    lemma_pow2_adds(r + width, left);
    let k = pow2(left) * rest;
    let a = pow2(r) as int;
    let b = pow2(width) as int;
    assert(0x1_0000_0000_0000_0000 * rest == (b * k) * a) by (nonlinear_arith)
        requires
            0x1_0000_0000_0000_0000 == (a * b) * pow2(left),
            k == pow2(left) * rest,
    ;
    lemma_hoist_over_denominator(pair as int, b * k, a as nat);
    assert(t as int / a == pair as int / a + b * k);
    lemma_mod_multiples_vanish(k as int, pair as int / a, b);
    assert(b * k + pair as int / a == pair as int / a + b * k);
}

/// Packing values of `width` bits: each one shifted past those before it.
pub open spec fn packed(values: Seq<nat>, width: nat) -> nat
    decreases values.len(),
{
    if values.len() == 0 {
        0
    } else {
        values[0] + pow2(width) * packed(values.drop_first(), width)
    }
}

/// A stream that packs values hands back each of them.
pub proof fn lemma_packed_values_come_back(words: Seq<u32>, values: Seq<nat>, width: nat, i: nat)
    requires
        stream(words) == packed(values, width),
        i < values.len(),
        forall|j: int| 0 <= j < values.len() ==> (#[trigger] values[j]) < pow2(width),
    ensures
        packed_value(words, width, i) == values[i as int],
{
    lemma_packed_at(values, width, i);
}

/// The value at one place of a packing.
proof fn lemma_packed_at(values: Seq<nat>, width: nat, i: nat)
    requires
        i < values.len(),
        forall|j: int| 0 <= j < values.len() ==> (#[trigger] values[j]) < pow2(width),
    ensures
        (packed(values, width) / pow2(i * width)) % pow2(width) == values[i as int],
    decreases i,
{
    let n = packed(values, width) as int;
    let rest = packed(values.drop_first(), width) as int;
    let m = pow2(width) as int;
    let v = values[0] as int;
    lemma_pow2_pos(width);
    assert(n == m * rest + v);
    if i == 0 {
        assert(i * width == 0) by (nonlinear_arith)
            requires
                i == 0,
        ;
        lemma2_to64();
        assert(n / 1 == n);
        lemma_mod_multiples_vanish(rest, v, m);
        vstd::arithmetic::div_mod::lemma_small_mod(v as nat, m as nat);
    } else {
        let tail = values.drop_first();
        let p = (i - 1) as nat;
        assert forall|j: int| 0 <= j < tail.len() implies (#[trigger] tail[j]) < pow2(width) by {
            assert(tail[j] == values[j + 1]);
        }
        lemma_packed_at(tail, width, p);
        assert(i * width == width + p * width) by (nonlinear_arith)
            requires
                i == p + 1,
        ;
        lemma_pow2_adds(width, p * width);
        lemma_pow2_pos(p * width);
        lemma_div_denominator(n, m, pow2(p * width) as int);
        lemma_fundamental_div_mod_converse(n, m, rest, v);
    }
}

/// Unpacks `count` values held at `width` bits each, where `count` is at most thirty two.
///
/// The packed form is a bit stream running least significant bit first through little endian words.
/// `stride` is how many words apart this stream's words are: one for the ordinary layout, and four for
/// the vectorised one, where a lane's words have the other three lanes' words between them. Only the
/// words that the values are in are read, so a width of zero reads none and means zeroes.
pub fn unpack(
    bytes: &[u8],
    at: usize,
    stride: usize,
    width: usize,
    count: usize,
    what: &'static str,
) -> (r: Result<Vec<u32>>)
    requires
        width <= 32,
        count <= 32,
    ensures
        agrees(r, unpacked(bytes@, at as int, stride as nat, width as nat, count as nat, what)),
{
    assert(count * width <= 1024) by (nonlinear_arith)
        requires
            count <= 32,
            width <= 32,
    ;
    let words: usize = (count * width + 31) / 32;
    let mut held: Vec<u32> = Vec::new();
    let mut k: usize = 0;
    while k < words
        invariant
            0 <= k <= words <= 32,
            words == words_needed(count as nat, width as nat),
            words_read(bytes@, at as int, stride as nat, k as nat, what) == Ok::<Seq<u32>, Error>(
                held@,
            ),
        decreases words - k,
    {
        assert(stride * (4 * k) == 4 * stride * k) by (nonlinear_arith);
        let off: usize = match stride.checked_mul(4 * k) {
            Some(off) => off,
            None => usize::MAX,
        };
        assert(bytes.len() <= usize::MAX);
        assert(word_at(bytes@, at + off, what) == word_at(bytes@, at + 4 * stride * k, what));
        match read_past(bytes, at, off, what) {
            Ok(w) => {
                held.push(w);
            },
            Err(e) => {
                proof {
                    lemma_words_stop(
                        bytes@,
                        at as int,
                        stride as nat,
                        (k + 1) as nat,
                        words as nat,
                        what,
                    );
                }
                return Err(e);
            },
        }
        k = k + 1;
    }
    proof {
        lemma_words_read(bytes@, at as int, stride as nat, words as nat, what);
        lemma2_to64();
        lemma2_to64_rest();
        if width < 32 {
            lemma_pow2_strictly_increases(width as nat, 32);
        }
        lemma_pow2_pos(width as nat);
        lemma_u64_shl_is_mul(1, width as u64);
    }
    let modulus: u64 = 1u64 << (width as u64);
    let mut out: Vec<u32> = Vec::new();
    let mut i: usize = 0;
    while i < count
        invariant
            0 <= i <= count <= 32,
            width <= 32,
            modulus == pow2(width as nat),
            0 < modulus <= 0x1_0000_0000,
            words == words_needed(count as nat, width as nat),
            held@.len() == words,
            out@ == Seq::new(
                i as nat,
                |j: int| packed_value(held@, width as nat, j as nat) as u32,
            ),
        decreases count - i,
    {
        assert(i * width <= 1024 && i * width + width <= count * width) by (nonlinear_arith)
            requires
                i < count <= 32,
                width <= 32,
        ;
        let start: usize = i * width;
        let q: usize = start / 32;
        let r: u64 = (start % 32) as u64;
        let mut pair: u64 = 0;
        let ghost mut rest: nat = 0;
        if q < held.len() {
            pair = held[q] as u64;
            proof {
                let s = held@.skip(q as int);
                assert(s[0] == held@[q as int]);
                assert(s.drop_first() =~= held@.skip(q + 1));
                assert(stream(s) == s[0] as nat + 0x1_0000_0000 * stream(held@.skip(q + 1)));
            }
            if q + 1 < held.len() {
                pair = pair + 0x1_0000_0000 * held[q + 1] as u64;
                proof {
                    let s = held@.skip(q + 1);
                    assert(s[0] == held@[q + 1]);
                    assert(s.drop_first() =~= held@.skip(q + 2));
                    assert(stream(s) == s[0] as nat + 0x1_0000_0000 * stream(held@.skip(q + 2)));
                    rest = stream(held@.skip(q + 2));
                }
            } else {
                assert(held@.skip(q + 1).len() == 0);
            }
        } else {
            assert(width == 0);
            assert(held@.skip(q as int).len() == 0);
        }
        proof {
            lemma_value_in_pair(
                held@,
                width as nat,
                i as nat,
                q as nat,
                r as nat,
                pair as nat,
                rest,
            );
            lemma_u64_shr_is_div(pair, r);
        }
        let value: u64 = (pair >> r) % modulus;
        out.push(value as u32);
        i = i + 1;
        assert(out@ =~= Seq::new(
            i as nat,
            |j: int| packed_value(held@, width as nat, j as nat) as u32,
        ));
    }
    Ok(out)
}

} // verus!
