//! Content digests.
//!
//! Every section carries one, the footer commits to all of them, and the trailer commits to the footer.
use vstd::prelude::*;
use vstd::string::*;

use crate::text::{hex2, hex2_text, put};

verus! {

/// What `blake3::hash` gives for some bytes: thirty two bytes that depend on those bytes alone.
pub uninterp spec fn blake3_hash(bytes: Seq<u8>) -> [u8; 32];

/// The digest of some bytes, as a byte string.
pub open spec fn blake3_of(bytes: Seq<u8>) -> Seq<u8> {
    blake3_hash(bytes)@
}

/// `blake3::hash`: the digest of some bytes.
///
/// Believed of it: the same bytes always give the same thirty two bytes, which have the name
/// [`blake3_hash`]. What those bytes are is not stated.
#[verifier::external_body]
fn hash(bytes: &[u8]) -> (r: [u8; 32])
    ensures
        r@ == blake3_hash(bytes@)@,
{
    *blake3::hash(bytes).as_bytes()
}

/// `blake3::Hasher`: the digest of two runs of bytes, fed to it one after the other.
///
/// Believed of it: feeding it in pieces gives what [`blake3_hash`] names for the pieces put together.
#[verifier::external_body]
fn hash_parts(first: &[u8], second: &[u8]) -> (r: [u8; 32])
    ensures
        r@ == blake3_hash(first@ + second@)@,
{
    *blake3::Hasher::new().update(first).update(second).finalize().as_bytes()
}

/// Some bytes as hexadecimal digits.
pub open spec fn hex_text(s: Seq<u8>) -> Seq<char>
    decreases s.len(),
{
    if s.len() == 0 {
        Seq::empty()
    } else {
        hex_text(s.drop_last()) + hex2_text(s.last())
    }
}

/// The digits of the first bytes are the first digits.
proof fn lemma_hex_take(s: Seq<u8>, k: int)
    requires
        0 <= k <= s.len(),
    ensures
        hex_text(s).len() == 2 * s.len(),
        hex_text(s.take(k)) == hex_text(s).take(2 * k),
    decreases s.len(),
{
    if s.len() == 0 {
        assert(s.take(k) =~= s);
        assert(hex_text(s).take(0) =~= hex_text(s));
    } else if k == s.len() {
        assert(s.take(k) =~= s);
        lemma_hex_take(s.drop_last(), 0);
        assert(hex_text(s).take(2 * k) =~= hex_text(s));
    } else {
        lemma_hex_take(s.drop_last(), k);
        assert(s.drop_last().take(k) =~= s.take(k));
        assert(hex_text(s).take(2 * k) =~= hex_text(s.drop_last()).take(2 * k));
    }
}

/// Each byte of a digest is two digits of its text, in the order of the bytes.
pub proof fn lemma_two_digits_a_byte(s: Seq<u8>, i: int)
    requires
        0 <= i < s.len(),
    ensures
        hex_text(s).len() == 2 * s.len(),
        hex_text(s).subrange(2 * i, 2 * i + 2) == hex2_text(s[i]),
{
    let upto = s.take(i + 1);
    lemma_hex_take(s, i + 1);
    lemma_hex_take(upto, i);
    assert(upto.drop_last() =~= s.take(i));
    lemma_hex_take(s, i);
    assert(hex_text(s).subrange(2 * i, 2 * i + 2) =~= hex_text(upto).subrange(2 * i, 2 * i + 2));
    assert(hex_text(upto).subrange(2 * i, 2 * i + 2) =~= hex2_text(s[i]));
}

/// Appends some bytes as hexadecimal digits.
fn append_hex(out: &mut String, bytes: &[u8])
    ensures
        final(out)@ == old(out)@ + hex_text(bytes@),
{
    let mut i: usize = 0;
    assert(out@ =~= old(out)@ + hex_text(bytes@.take(0)));
    while i < bytes.len()
        invariant
            0 <= i <= bytes@.len(),
            out@ == old(out)@ + hex_text(bytes@.take(i as int)),
        decreases bytes@.len() - i,
    {
        out.append(hex2(bytes[i]).as_str());
        i = i + 1;
        proof {
            let s = bytes@.take(i as int);
            assert(s.drop_last() =~= bytes@.take(i - 1));
            assert(s.last() == bytes@[i - 1]);
            assert(out@ =~= old(out)@ + hex_text(s));
        }
    }
    assert(bytes@.take(i as int) =~= bytes@);
}

/// A BLAKE3 hash of some part of a container.
#[derive(Clone, Copy, PartialEq, Eq, Hash)]
pub struct Digest(pub [u8; 32]);

impl core::fmt::Debug for Digest {
    /// Puts the front of the digest where it can be told from other text.
    fn fmt(&self, f: &mut core::fmt::Formatter<'_>) -> core::fmt::Result {
        put(f, self.labelled().as_str())
    }
}

impl View for Digest {
    type V = Seq<u8>;

    open spec fn view(&self) -> Seq<u8> {
        self.0@
    }
}

impl Digest {
    /// The digest of some bytes.
    #[must_use]
    pub fn of(bytes: &[u8]) -> (r: Self)
        ensures
            r@ == blake3_of(bytes@),
    {
        Digest(hash(bytes))
    }

    /// The digest of two runs of bytes, one after the other.
    pub(crate) fn of_parts(first: &[u8], second: &[u8]) -> (r: Self)
        ensures
            r@ == blake3_of(first@ + second@),
    {
        Digest(hash_parts(first, second))
    }

    /// Thirty two bytes as a digest.
    pub(crate) fn read(raw: &[u8]) -> (r: Self)
        requires
            raw@.len() == 32,
        ensures
            r@ == raw@,
    {
        let mut digest: [u8; 32] = [0u8;32];
        let mut i: usize = 0;
        while i < 32
            invariant
                0 <= i <= 32,
                raw@.len() == 32,
                forall|j: int| 0 <= j < i ==> digest@[j] == raw@[j],
            decreases 32 - i,
        {
            digest[i] = raw[i];
            i = i + 1;
        }
        assert(digest@ =~= raw@);
        Digest(digest)
    }

    /// The raw bytes.
    #[must_use]
    pub fn as_bytes(&self) -> (r: &[u8; 32])
        ensures
            r@ == self@,
    {
        &self.0
    }

    /// Whether two digests are the same.
    pub(crate) fn matches(&self, other: &Digest) -> (r: bool)
        ensures
            r == (self@ == other@),
    {
        let mut i: usize = 0;
        while i < 32
            invariant
                0 <= i <= 32,
                forall|j: int| 0 <= j < i ==> self.0@[j] == other.0@[j],
            decreases 32 - i,
        {
            if self.0[i] != other.0[i] {
                return false;
            }
            i = i + 1;
        }
        assert(self@ =~= other@);
        true
    }

    /// The digest as hexadecimal digits.
    pub fn text(&self) -> (r: String)
        ensures
            r@ == hex_text(self@),
    {
        let mut s = "".to_owned();
        proof {
            reveal_strlit("");
        }
        append_hex(&mut s, self.0.as_slice());
        assert(s@ =~= hex_text(self@));
        s
    }

    /// The first sixteen hexadecimal digits, for a message. Not for deciding whether two things are
    /// the same.
    #[must_use]
    pub fn short(&self) -> (r: String)
        ensures
            r@ == hex_text(self@).take(16),
    {
        let mut s = "".to_owned();
        proof {
            reveal_strlit("");
            lemma_hex_take(self@, 8);
        }
        let front = &self.0.as_slice()[0..8];
        assert(front@ =~= self@.take(8));
        append_hex(&mut s, front);
        assert(s@ =~= hex_text(self@).take(16));
        s
    }

    /// The short form with what it is around it.
    fn labelled(&self) -> (r: String)
        ensures
            r@ == "Digest("@ + hex_text(self@).take(16) + ")"@,
    {
        let mut s = "Digest(".to_owned();
        s.append(self.short().as_str());
        s.append(")");
        s
    }
}

} // verus!
