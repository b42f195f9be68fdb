//! Little-endian integers as byte strings.
use vstd::prelude::*;
use vstd::arithmetic::power::pow;

verus! {

/// The value of a little-endian byte string.
pub open spec fn le(s: Seq<u8>) -> nat
    decreases s.len(),
{
    if s.len() == 0 {
        0
    } else {
        s[0] as nat + 256 * le(s.drop_first())
    }
}

/// A value as `n` little-endian bytes.
pub open spec fn le_bytes(v: nat, n: nat) -> Seq<u8>
    decreases n,
{
    if n == 0 {
        Seq::empty()
    } else {
        seq![(v % 256) as u8] + le_bytes(v / 256, (n - 1) as nat)
    }
}

/// `n` zero bytes.
pub open spec fn zeros(n: nat) -> Seq<u8> {
    Seq::new(n, |i: int| 0u8)
}

/// A value takes exactly the bytes it was given.
pub broadcast proof fn lemma_le_bytes_len(v: nat, n: nat)
    ensures
        #[trigger] le_bytes(v, n).len() == n,
    decreases n,
{
    if n > 0 {
        lemma_le_bytes_len(v / 256, (n - 1) as nat);
    }
}

/// A byte string of a width holds a value of that width.
pub proof fn lemma_le_bound(s: Seq<u8>)
    ensures
        le(s) < pow(256, s.len()),
    decreases s.len(),
{
    reveal(pow);
    if s.len() > 0 {
        lemma_le_bound(s.drop_first());
        assert(pow(256, s.len()) == 256 * pow(256, (s.len() - 1) as nat));
    }
}

/// Reading back what was written gives the value, as long as it fits.
pub proof fn lemma_le_of_le_bytes(v: nat, n: nat)
    requires
        v < pow(256, n),
    ensures
        le(le_bytes(v, n)) == v,
    decreases n,
{
    reveal(pow);
    if n > 0 {
        let rest = le_bytes(v / 256, (n - 1) as nat);
        assert(pow(256, n) == 256 * pow(256, (n - 1) as nat));
        assert(v / 256 < pow(256, (n - 1) as nat)) by (nonlinear_arith)
            requires
                v < 256 * pow(256, (n - 1) as nat),
        ;
        lemma_le_of_le_bytes(v / 256, (n - 1) as nat);
        assert(le_bytes(v, n).drop_first() =~= rest);
    }
}

/// Writing back what was read gives the bytes.
pub proof fn lemma_le_bytes_of_le(s: Seq<u8>)
    ensures
        le_bytes(le(s), s.len()) == s,
    decreases s.len(),
{
    if s.len() > 0 {
        lemma_le_bytes_of_le(s.drop_first());
        assert(le(s) % 256 == s[0] as nat);
        assert(le(s) / 256 == le(s.drop_first()));
        assert(le_bytes(le(s), s.len()) =~= s);
    } else {
        assert(le_bytes(le(s), s.len()) =~= s);
    }
}

/// The widths a record is made of, written out.
pub proof fn lemma_pow_widths()
    ensures
        pow(256, 1) == 0x100,
        pow(256, 2) == 0x1_0000,
        pow(256, 4) == 0x1_0000_0000,
        pow(256, 8) == 0x1_0000_0000_0000_0000,
{
    reveal_with_fuel(pow, 9);
}

/// Two bytes as a number.
pub proof fn lemma_le_2(s: Seq<u8>)
    requires
        s.len() == 2,
    ensures
        le(s) == s[0] as nat + 0x100 * s[1] as nat,
        le(s) <= u16::MAX,
{
    reveal_with_fuel(le, 3);
    assert(s.drop_first()[0] == s[1]);
    assert(s.drop_first().drop_first().len() == 0);
}

/// Four bytes as a number.
pub proof fn lemma_le_4(s: Seq<u8>)
    requires
        s.len() == 4,
    ensures
        le(s) == s[0] as nat + 0x100 * s[1] as nat + 0x1_0000 * s[2] as nat + 0x100_0000
            * s[3] as nat,
        le(s) <= u32::MAX,
{
    reveal_with_fuel(le, 5);
    let a = s.drop_first();
    let b = a.drop_first();
    let c = b.drop_first();
    assert(a[0] == s[1] && b[0] == s[2] && c[0] == s[3]);
    assert(c.drop_first().len() == 0);
}

/// Eight bytes as two halves of four.
pub proof fn lemma_le_split(s: Seq<u8>, n: int)
    requires
        0 <= n <= s.len(),
    ensures
        le(s) == le(s.take(n)) + pow(256, n as nat) * le(s.skip(n)),
    decreases n,
{
    reveal(pow);
    if n == 0 {
        assert(s.skip(0) =~= s);
        assert(pow(256, 0) == 1);
        assert(le(s.take(0)) == 0);
        assert(1 * le(s) == le(s));
    } else {
        let t = s.drop_first();
        lemma_le_split(t, n - 1);
        assert(s.take(n).drop_first() =~= t.take(n - 1));
        assert(s.skip(n) =~= t.skip(n - 1));
        assert(pow(256, n as nat) == 256 * pow(256, (n - 1) as nat));
        let p = pow(256, (n - 1) as nat);
        let q = le(s.skip(n));
        assert(256 * (p * q) == (256 * p) * q) by (nonlinear_arith);
    }
}

/// Eight bytes fit in a machine word.
pub proof fn lemma_le_8(s: Seq<u8>)
    requires
        s.len() == 8,
    ensures
        le(s) == le(s.take(4)) + 0x1_0000_0000 * le(s.skip(4)),
        le(s) <= u64::MAX,
{
    lemma_le_split(s, 4);
    lemma_le_bound(s);
    lemma_pow_widths();
}

/// Two little-endian bytes.
pub fn u16_of(b: &[u8]) -> (r: u16)
    requires
        b@.len() == 2,
    ensures
        r as nat == le(b@),
{
    proof {
        lemma_le_2(b@);
    }
    b[0] as u16 + 0x100 * b[1] as u16
}

/// Four little-endian bytes.
pub fn u32_of(b: &[u8]) -> (r: u32)
    requires
        b@.len() == 4,
    ensures
        r as nat == le(b@),
{
    proof {
        lemma_le_4(b@);
    }
    b[0] as u32 + 0x100 * b[1] as u32 + 0x1_0000 * b[2] as u32 + 0x100_0000 * b[3] as u32
}

/// Eight little-endian bytes.
pub fn u64_of(b: &[u8]) -> (r: u64)
    requires
        b@.len() == 8,
    ensures
        r as nat == le(b@),
{
    proof {
        lemma_le_8(b@);
        lemma_le_4(b@.take(4));
        lemma_le_4(b@.skip(4));
    }
    let low: u64 = b[0] as u64 + 0x100 * b[1] as u64 + 0x1_0000 * b[2] as u64 + 0x100_0000
        * b[3] as u64;
    let high: u64 = b[4] as u64 + 0x100 * b[5] as u64 + 0x1_0000 * b[6] as u64 + 0x100_0000
        * b[7] as u64;
    low + 0x1_0000_0000 * high
}

/// A two byte number as its bytes.
pub fn u16_bytes(v: u16) -> (r: [u8; 2])
    ensures
        r@ == le_bytes(v as nat, 2),
{
    let r = [(v % 256) as u8, (v / 256) as u8];
    proof {
        reveal_with_fuel(le_bytes, 3);
        assert((v as nat / 256) % 256 == v as nat / 256);
        assert(r@ =~= le_bytes(v as nat, 2));
    }
    r
}

/// A four byte number as its bytes.
pub fn u32_bytes(v: u32) -> (r: [u8; 4])
    ensures
        r@ == le_bytes(v as nat, 4),
{
    let a: u32 = v / 256;
    let b: u32 = a / 256;
    let c: u32 = b / 256;
    let r = [(v % 256) as u8, (a % 256) as u8, (b % 256) as u8, (c % 256) as u8];
    proof {
        reveal_with_fuel(le_bytes, 5);
        assert(r@ =~= le_bytes(v as nat, 4));
    }
    r
}

/// An eight byte number as its bytes.
pub fn u64_bytes(v: u64) -> (r: [u8; 8])
    ensures
        r@ == le_bytes(v as nat, 8),
{
    let a: u64 = v / 256;
    let b: u64 = a / 256;
    let c: u64 = b / 256;
    let d: u64 = c / 256;
    let e: u64 = d / 256;
    let f: u64 = e / 256;
    let g: u64 = f / 256;
    let r = [
        (v % 256) as u8,
        (a % 256) as u8,
        (b % 256) as u8,
        (c % 256) as u8,
        (d % 256) as u8,
        (e % 256) as u8,
        (f % 256) as u8,
        (g % 256) as u8,
    ];
    proof {
        reveal_with_fuel(le_bytes, 9);
        assert(r@ =~= le_bytes(v as nat, 8));
    }
    r
}

/// Whether a bit of a byte is set, counting from the lowest.
pub open spec fn bit(b: u8, k: u8) -> bool {
    (b >> k) & 1u8 == 1u8
}

/// No bit of zero is set.
pub proof fn lemma_bit_zero(k: u8)
    requires
        k < 8,
    ensures
        !bit(0u8, k),
{
    assert(k < 8 ==> (0u8 >> k) & 1u8 != 1u8) by (bit_vector);
}

/// Setting a bit sets that bit and no other.
pub proof fn lemma_bit_set(b: u8, k: u8, j: u8)
    requires
        k < 8,
        j < 8,
    ensures
        bit(b | (1u8 << k), j) == (bit(b, j) || j == k),
{
    assert(k < 8 && j < 8 ==> (((b | (1u8 << k)) >> j) & 1u8 == 1u8) == ((b >> j) & 1u8 == 1u8 || j
        == k)) by (bit_vector);
}

/// The bits of an intersection.
pub proof fn lemma_bit_and(a: u8, b: u8, k: u8)
    requires
        k < 8,
    ensures
        bit(a & b, k) == (bit(a, k) && bit(b, k)),
{
    assert(k < 8 ==> (((a & b) >> k) & 1u8 == 1u8) == ((a >> k) & 1u8 == 1u8 && (b >> k) & 1u8
        == 1u8)) by (bit_vector);
}

/// The bits of a difference.
pub proof fn lemma_bit_and_not(a: u8, b: u8, k: u8)
    requires
        k < 8,
    ensures
        bit(a & !b, k) == (bit(a, k) && !bit(b, k)),
{
    assert(k < 8 ==> (((a & !b) >> k) & 1u8 == 1u8) == ((a >> k) & 1u8 == 1u8 && (b >> k) & 1u8
        != 1u8)) by (bit_vector);
}

/// The bits of a union.
pub proof fn lemma_bit_or(a: u8, b: u8, k: u8)
    requires
        k < 8,
    ensures
        bit(a | b, k) == (bit(a, k) || bit(b, k)),
{
    assert(k < 8 ==> (((a | b) >> k) & 1u8 == 1u8) == ((a >> k) & 1u8 == 1u8 || (b >> k) & 1u8
        == 1u8)) by (bit_vector);
}

/// Two bytes with the same bits are the same byte.
pub proof fn lemma_bit_ext(a: u8, b: u8)
    requires
        forall|k: u8| k < 8 ==> bit(a, k) == bit(b, k),
    ensures
        a == b,
{
    assert(bit(a, 0) == bit(b, 0) && bit(a, 1) == bit(b, 1) && bit(a, 2) == bit(b, 2) && bit(a, 3)
        == bit(b, 3) && bit(a, 4) == bit(b, 4) && bit(a, 5) == bit(b, 5) && bit(a, 6) == bit(b, 6)
        && bit(a, 7) == bit(b, 7));
    assert(((a >> 0u8) & 1u8 == 1u8) == ((b >> 0u8) & 1u8 == 1u8) && ((a >> 1u8) & 1u8 == 1u8) == ((
    b >> 1u8) & 1u8 == 1u8) && ((a >> 2u8) & 1u8 == 1u8) == ((b >> 2u8) & 1u8 == 1u8) && ((a
        >> 3u8) & 1u8 == 1u8) == ((b >> 3u8) & 1u8 == 1u8) && ((a >> 4u8) & 1u8 == 1u8) == ((b
        >> 4u8) & 1u8 == 1u8) && ((a >> 5u8) & 1u8 == 1u8) == ((b >> 5u8) & 1u8 == 1u8) && ((a
        >> 6u8) & 1u8 == 1u8) == ((b >> 6u8) & 1u8 == 1u8) && ((a >> 7u8) & 1u8 == 1u8) == ((b
        >> 7u8) & 1u8 == 1u8) ==> a == b) by (bit_vector);
}

/// Whether two runs of bytes are the same.
pub fn same(a: &[u8], b: &[u8]) -> (r: bool)
    ensures
        r == (a@ == b@),
{
    if a.len() != b.len() {
        return false;
    }
    let mut i: usize = 0;
    while i < a.len()
        invariant
            0 <= i <= a@.len(),
            a@.len() == b@.len(),
            forall|j: int| 0 <= j < i ==> a@[j] == b@[j],
        decreases a@.len() - i,
    {
        if a[i] != b[i] {
            return false;
        }
        i = i + 1;
    }
    assert(a@ =~= b@);
    true
}

/// Appends some bytes.
pub fn append(out: &mut Vec<u8>, data: &[u8])
    ensures
        final(out)@ == old(out)@ + data@,
{
    let mut i: usize = 0;
    assert(out@ =~= old(out)@ + data@.take(0));
    while i < data.len()
        invariant
            0 <= i <= data@.len(),
            out@ == old(out)@ + data@.take(i as int),
        decreases data@.len() - i,
    {
        out.push(data[i]);
        i = i + 1;
        assert(out@ =~= old(out)@ + data@.take(i as int));
    }
    assert(data@.take(i as int) =~= data@);
}

/// A copy of some bytes.
pub fn copied(data: &[u8]) -> (r: Vec<u8>)
    ensures
        r@ == data@,
{
    let mut out: Vec<u8> = Vec::new();
    append(&mut out, data);
    assert(out@ =~= data@);
    out
}

} // verus!
