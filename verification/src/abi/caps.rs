//! Capabilities, and the set of them each side carries.
//!
//! A capability is one bit meaning "this side can do this thing". Naming them, and not numbering
//! versions, lets a host offer any combination.
use vstd::prelude::*;
use vstd::string::*;

use crate::abi::error::Result;
use crate::abi::wire::{Input, Reader, Step};
use crate::bytes::{bit, lemma_bit_and, lemma_bit_and_not, lemma_bit_ext, lemma_bit_or, lemma_bit_set};
use crate::text::{decimal, decimal_text};

verus! {

/// One capability, identified by its bit position.
#[derive(Clone, Copy, PartialEq, Eq, PartialOrd, Ord, Hash, Debug, Structural)]
pub struct Capability(pub u16);

/// The name assigned to a capability, if there is one.
pub open spec fn capability_name(cap: Capability) -> Option<&'static str> {
    if cap.0 == Capability::REQUIRE_RANGE {
        Some("require-range")
    } else if cap.0 == Capability::SLIDING_WINDOW {
        Some("sliding-window")
    } else if cap.0 == Capability::PROJECTION {
        Some("projection")
    } else if cap.0 == Capability::FILTER_PUSHDOWN {
        Some("filter-pushdown")
    } else if cap.0 == Capability::RANDOM_ACCESS {
        Some("random-access")
    } else if cap.0 == Capability::STATELESS {
        Some("stateless")
    } else if cap.0 == Capability::RESUMABLE {
        Some("resumable")
    } else {
        None
    }
}

/// What a capability prints as.
pub open spec fn capability_text(cap: Capability) -> Seq<char> {
    match capability_name(cap) {
        Some(name) => name@,
        None => "capability bit "@ + decimal_text(cap.0 as nat),
    }
}

impl Capability {
    /// The decoder pulls bytes of the source by asking for ranges.
    pub const REQUIRE_RANGE: u16 = 0;

    /// The host can move a window over a source larger than the guest can address.
    pub const SLIDING_WINDOW: u16 = 1;

    /// The decoder honours a column projection.
    pub const PROJECTION: u16 = 2;

    /// The decoder honours a filter pushed down to it.
    pub const FILTER_PUSHDOWN: u16 = 3;

    /// The decoder can start at an arbitrary row.
    pub const RANDOM_ACCESS: u16 = 4;

    /// The decoder keeps no state between calls.
    pub const STATELESS: u16 = 5;

    /// The decoder can be interrupted partway through and resumed.
    pub const RESUMABLE: u16 = 6;

    /// The name of this capability, if it is an assigned one.
    #[must_use]
    pub fn name(self) -> (r: Option<&'static str>)
        ensures
            r == capability_name(self),
    {
        if self.0 == Capability::REQUIRE_RANGE {
            Some("require-range")
        } else if self.0 == Capability::SLIDING_WINDOW {
            Some("sliding-window")
        } else if self.0 == Capability::PROJECTION {
            Some("projection")
        } else if self.0 == Capability::FILTER_PUSHDOWN {
            Some("filter-pushdown")
        } else if self.0 == Capability::RANDOM_ACCESS {
            Some("random-access")
        } else if self.0 == Capability::STATELESS {
            Some("stateless")
        } else if self.0 == Capability::RESUMABLE {
            Some("resumable")
        } else {
            None
        }
    }

    /// What this capability prints as.
    pub fn text(self) -> (r: String)
        ensures
            r@ == capability_text(self),
    {
        match self.name() {
            Some(name) => name.to_owned(),
            None => {
                let mut s = "capability bit ".to_owned();
                s.append(decimal(self.0 as u64).as_str());
                s
            },
        }
    }
}

/// What a capability set holds: thirty two bytes of bits, and whether the bytes it was read from had
/// bits past those.
pub ghost struct Caps {
    /// One bit per capability, lowest bit of the first byte first.
    pub bits: Seq<u8>,
    /// Whether there were bits this build cannot hold.
    pub beyond: bool,
}

impl Caps {
    /// Whether a capability is in the set.
    pub open spec fn has(self, cap: Capability) -> bool {
        cap.0 <= CapabilitySet::MAX_BIT && bit(self.bits[cap.0 as int / 8], (cap.0 % 8) as u8)
    }

    /// The set a byte string describes. A missing byte is zero.
    pub open spec fn of(bytes: Seq<u8>) -> Caps {
        Caps {
            bits: Seq::new(
                CapabilitySet::BYTES as nat,
                |i: int|
                    if i < bytes.len() {
                        bytes[i]
                    } else {
                        0u8
                    },
            ),
            beyond: exists|i: int| CapabilitySet::BYTES <= i < bytes.len() && bytes[i] != 0,
        }
    }

    /// The shortest byte string that describes the bits this build can hold.
    pub open spec fn wire(self) -> Seq<u8> {
        trimmed(self.bits)
    }
}

/// A byte string without the zero bytes at its end.
pub open spec fn trimmed(s: Seq<u8>) -> Seq<u8>
    decreases s.len(),
{
    if s.len() == 0 || s.last() != 0 {
        s
    } else {
        trimmed(s.drop_last())
    }
}

/// Trimming takes away zero bytes at the end and nothing else.
pub proof fn lemma_trimmed(s: Seq<u8>)
    ensures
        trimmed(s).len() <= s.len(),
        trimmed(s) == s.take(trimmed(s).len() as int),
        forall|i: int| trimmed(s).len() <= i < s.len() ==> s[i] == 0,
        trimmed(s).len() > 0 ==> trimmed(s).last() != 0,
    decreases s.len(),
{
    if s.len() == 0 || s.last() != 0 {
        assert(s.take(s.len() as int) =~= s);
    } else {
        let t = s.drop_last();
        lemma_trimmed(t);
        let n = trimmed(t).len() as int;
        assert(s.take(n) =~= t.take(n));
        assert forall|i: int| n <= i < s.len() implies s[i] == 0 by {
            if i < t.len() {
                assert(t[i] == 0);
            }
        }
    }
}

/// The wire form of a set reads back as the same set, as far as this build can hold it.
pub proof fn lemma_wire_form_reads_back(c: Caps)
    requires
        c.bits.len() == CapabilitySet::BYTES,
    ensures
        Caps::of(c.wire()) == (Caps { bits: c.bits, beyond: false }),
        c.wire().len() <= CapabilitySet::BYTES,
{
    lemma_trimmed(c.bits);
    assert(Caps::of(c.wire()).bits =~= c.bits);
}

/// Two sets with the same members hold the same bits.
pub proof fn lemma_same_members(a: Caps, b: Caps)
    requires
        a.bits.len() == CapabilitySet::BYTES,
        b.bits.len() == CapabilitySet::BYTES,
        forall|cap: Capability| #[trigger] a.has(cap) == b.has(cap),
    ensures
        a.bits == b.bits,
{
    assert forall|i: int| 0 <= i < 32 implies a.bits[i] == b.bits[i] by {
        assert forall|k: u8| k < 8 implies bit(a.bits[i], k) == bit(b.bits[i], k) by {
            let cap = Capability((8 * i + k) as u16);
            assert(cap.0 as int / 8 == i && cap.0 as int % 8 == k);
            assert(a.has(cap) == b.has(cap));
        }
        lemma_bit_ext(a.bits[i], b.bits[i]);
    }
    assert(a.bits =~= b.bits);
}

/// A set of capabilities.
///
/// It holds 256 of them in a fixed thirty two bytes. On the wire it is a variable-length byte string,
/// so that it can become wider, and the set remembers if that happened.
#[derive(Clone, Copy, PartialEq, Eq, Debug)]
pub struct CapabilitySet {
    bits: [u8; 32],
    beyond: bool,
}

impl View for CapabilitySet {
    type V = Caps;

    closed spec fn view(&self) -> Caps {
        Caps { bits: self.bits@, beyond: self.beyond }
    }
}

impl Default for CapabilitySet {
    /// An empty set.
    fn default() -> (r: Self)
        ensures
            r@ == Caps::of(Seq::empty()),
    {
        CapabilitySet::new()
    }
}

impl CapabilitySet {
    /// How many bytes of bits this build carries.
    pub const BYTES: usize = 32;

    /// The highest capability bit this build can represent.
    pub const MAX_BIT: u16 = 255;

    /// A set always carries all of its bytes.
    pub broadcast proof fn lemma_width(self)
        ensures
            #[trigger] self@.bits.len() == CapabilitySet::BYTES,
    {
    }

    /// An empty set.
    #[must_use]
    pub fn new() -> (r: Self)
        ensures
            r@ == Caps::of(Seq::empty()),
            forall|cap: Capability| !(#[trigger] r@.has(cap)),
    {
        let bits: [u8; 32] = [
            0, 0, 0, 0, 0, 0, 0, 0, 0, 0, 0, 0, 0, 0, 0, 0,
            0, 0, 0, 0, 0, 0, 0, 0, 0, 0, 0, 0, 0, 0, 0, 0,
        ];
        let r = CapabilitySet { bits, beyond: false };
        proof {
            let none = Caps::of(Seq::empty());
            assert forall|i: int| 0 <= i < 32 implies bits@[i] == none.bits[i] by {
                assert(bits[i] == 0);
            }
            assert(bits@ =~= none.bits);
            assert forall|cap: Capability| !(#[trigger] r@.has(cap)) by {
                crate::bytes::lemma_bit_zero((cap.0 % 8) as u8);
            }
        }
        r
    }

    /// Adds a capability and returns the set. One above [`CapabilitySet::MAX_BIT`] is ignored.
    #[must_use]
    pub fn with(self, cap: Capability) -> (r: Self)
        ensures
            forall|c: Capability| #[trigger]
                r@.has(c) == (self@.has(c) || (c == cap && cap.0 <= CapabilitySet::MAX_BIT)),
            r@.beyond == self@.beyond,
    {
        let mut out = self;
        if cap.0 <= CapabilitySet::MAX_BIT {
            let byte: usize = (cap.0 / 8) as usize;
            let k: u8 = (cap.0 % 8) as u8;
            let was: u8 = self.bits[byte];
            out.bits[byte] = was | (1u8 << k);
            proof {
                assert forall|c: Capability| #[trigger]
                    out@.has(c) == (self@.has(c) || c == cap) by {
                    if c.0 <= CapabilitySet::MAX_BIT && c.0 as int / 8 == byte {
                        lemma_bit_set(was, k, (c.0 % 8) as u8);
                    }
                }
            }
        }
        out
    }

    /// Whether the set contains a capability.
    #[must_use]
    pub fn contains(self, cap: Capability) -> (r: bool)
        ensures
            r == self@.has(cap),
    {
        if cap.0 > CapabilitySet::MAX_BIT {
            return false;
        }
        let byte: usize = (cap.0 / 8) as usize;
        let k: u8 = (cap.0 % 8) as u8;
        (self.bits[byte] >> k) & 1u8 == 1u8
    }

    /// Whether the set is empty as far as this build can tell.
    #[must_use]
    pub fn is_empty(self) -> (r: bool)
        ensures
            r == (!self@.beyond && forall|cap: Capability| !(#[trigger] self@.has(cap))),
    {
        let mut i: usize = 0;
        while i < 32
            invariant
                0 <= i <= 32,
                forall|j: int| 0 <= j < i ==> self.bits@[j] == 0,
            decreases 32 - i,
        {
            if self.bits[i] != 0 {
                proof {
                    if forall|cap: Capability| !(#[trigger] self@.has(cap)) {
                        assert forall|k: u8| k < 8 implies bit(self.bits@[i as int], k) == bit(0u8, k) by {
                            crate::bytes::lemma_bit_zero(k);
                            let cap = Capability((8 * i + k) as u16);
                            assert(cap.0 as int / 8 == i && cap.0 as int % 8 == k);
                            assert(!self@.has(cap));
                        }
                        lemma_bit_ext(self.bits@[i as int], 0u8);
                    }
                }
                return false;
            }
            i = i + 1;
        }
        proof {
            assert forall|cap: Capability| !(#[trigger] self@.has(cap)) by {
                crate::bytes::lemma_bit_zero((cap.0 % 8) as u8);
            }
        }
        !self.beyond
    }

    /// Whether the bytes this set was read from had bits set past what this build can hold.
    ///
    /// A decoder may require a capability that has no name here. Dropping such a bit would make it
    /// look like a decoder that requires nothing.
    #[must_use]
    pub fn has_bits_beyond_this_build(self) -> (r: bool)
        ensures
            r == self@.beyond,
    {
        self.beyond
    }

    /// Reads a set from its wire form.
    #[must_use]
    pub fn from_bytes(bytes: &[u8]) -> (r: Self)
        ensures
            r@ == Caps::of(bytes@),
    {
        let mut bits: [u8; 32] = [0u8;32];
        let mut beyond: bool = false;
        let mut i: usize = 0;
        while i < bytes.len()
            invariant
                0 <= i <= bytes@.len(),
                forall|j: int| 0 <= j < 32 && j < i ==> bits@[j] == bytes@[j],
                forall|j: int| i <= j < 32 ==> bits@[j] == 0,
                beyond == exists|j: int| 32 <= j < i && bytes@[j] != 0,
            decreases bytes@.len() - i,
        {
            if i < 32 {
                bits[i] = bytes[i];
            } else if bytes[i] != 0 {
                beyond = true;
                assert(bytes@[i as int] != 0);
            }
            i = i + 1;
        }
        let r = CapabilitySet { bits, beyond };
        assert(r@.bits =~= Caps::of(bytes@).bits);
        r
    }

    /// The wire form, with trailing zero bytes trimmed off so that an empty set costs nothing.
    #[must_use]
    pub fn as_bytes(&self) -> (r: &[u8])
        ensures
            r@ == self@.wire(),
    {
        let mut end: usize = 32;
        assert(self.bits@.take(32) =~= self.bits@);
        while end > 0 && self.bits[end - 1] == 0
            invariant
                0 <= end <= 32,
                trimmed(self.bits@) == trimmed(self.bits@.take(end as int)),
            decreases end,
        {
            proof {
                let s = self.bits@.take(end as int);
                assert(s.last() == 0);
                assert(s.drop_last() =~= self.bits@.take(end - 1));
            }
            end = end - 1;
        }
        &self.bits.as_slice()[0..end]
    }

    /// The capabilities in this set that are not in `other`.
    ///
    /// The bits past this build stay, because a bit with no name here is one `other` does not offer.
    #[must_use]
    pub fn difference(self, other: Self) -> (r: Self)
        ensures
            forall|c: Capability| #[trigger] r@.has(c) == (self@.has(c) && !other@.has(c)),
            r@.beyond == self@.beyond,
    {
        let mut out = CapabilitySet::new();
        let mut i: usize = 0;
        while i < 32
            invariant
                0 <= i <= 32,
                forall|j: int| 0 <= j < i ==> out.bits@[j] == self.bits@[j] & !other.bits@[j],
            decreases 32 - i,
        {
            out.bits[i] = self.bits[i] & !other.bits[i];
            i = i + 1;
        }
        out.beyond = self.beyond;
        proof {
            assert forall|c: Capability| #[trigger]
                out@.has(c) == (self@.has(c) && !other@.has(c)) by {
                if c.0 <= CapabilitySet::MAX_BIT {
                    let j = c.0 as int / 8;
                    lemma_bit_and_not(self.bits@[j], other.bits@[j], (c.0 % 8) as u8);
                }
            }
        }
        out
    }

    /// The capabilities in both sets.
    #[must_use]
    pub fn intersection(self, other: Self) -> (r: Self)
        ensures
            forall|c: Capability| #[trigger] r@.has(c) == (self@.has(c) && other@.has(c)),
            !r@.beyond,
    {
        let mut out = CapabilitySet::new();
        let mut i: usize = 0;
        while i < 32
            invariant
                0 <= i <= 32,
                !out.beyond,
                forall|j: int| 0 <= j < i ==> out.bits@[j] == self.bits@[j] & other.bits@[j],
            decreases 32 - i,
        {
            out.bits[i] = self.bits[i] & other.bits[i];
            i = i + 1;
        }
        proof {
            assert forall|c: Capability| #[trigger]
                out@.has(c) == (self@.has(c) && other@.has(c)) by {
                if c.0 <= CapabilitySet::MAX_BIT {
                    let j = c.0 as int / 8;
                    lemma_bit_and(self.bits@[j], other.bits@[j], (c.0 % 8) as u8);
                }
            }
        }
        out
    }

    /// The capabilities in either set.
    #[must_use]
    pub fn union(self, other: Self) -> (r: Self)
        ensures
            forall|c: Capability| #[trigger] r@.has(c) == (self@.has(c) || other@.has(c)),
            r@.beyond == (self@.beyond || other@.beyond),
    {
        let mut out = CapabilitySet::new();
        let mut i: usize = 0;
        while i < 32
            invariant
                0 <= i <= 32,
                forall|j: int| 0 <= j < i ==> out.bits@[j] == self.bits@[j] | other.bits@[j],
            decreases 32 - i,
        {
            out.bits[i] = self.bits[i] | other.bits[i];
            i = i + 1;
        }
        out.beyond = self.beyond || other.beyond;
        proof {
            assert forall|c: Capability| #[trigger]
                out@.has(c) == (self@.has(c) || other@.has(c)) by {
                if c.0 <= CapabilitySet::MAX_BIT {
                    let j = c.0 as int / 8;
                    lemma_bit_or(self.bits@[j], other.bits@[j], (c.0 % 8) as u8);
                }
            }
        }
        out
    }

    /// Every capability in the set, lowest bit first.
    ///
    /// Bits past [`CapabilitySet::MAX_BIT`] cannot be listed.
    pub fn iter(&self) -> (r: Vec<Capability>)
        ensures
            forall|c: Capability| self@.has(c) <==> #[trigger] r@.contains(c),
            forall|i: int, j: int| 0 <= i < j < r@.len() ==> r@[i].0 < r@[j].0,
    {
        let mut r: Vec<Capability> = Vec::new();
        let mut n: u16 = 0;
        while n <= 255
            invariant
                0 <= n <= 256,
                forall|i: int| 0 <= i < r@.len() ==> (#[trigger] r@[i]).0 < n && self@.has(r@[i]),
                forall|c: Capability| c.0 < n && self@.has(c) ==> #[trigger] r@.contains(c),
                forall|i: int, j: int| 0 <= i < j < r@.len() ==> r@[i].0 < r@[j].0,
            decreases 256 - n,
        {
            let ghost before = r@;
            if self.contains(Capability(n)) {
                r.push(Capability(n));
                assert(r@[before.len() as int] == Capability(n));
            }
            proof {
                assert forall|c: Capability| c.0 < n + 1 && self@.has(c) implies #[trigger]
                    r@.contains(c) by {
                    if c.0 < n {
                        assert(before.contains(c));
                        let i = choose|i: int| 0 <= i < before.len() && before[i] == c;
                        assert(r@[i] == c);
                    } else {
                        assert(c == Capability(n));
                    }
                }
            }
            n = n + 1;
        }
        r
    }
}

impl Input {
    /// A length-prefixed capability set.
    pub open spec fn capability_set(self) -> Step<Caps> {
        let b = self.var_bytes();
        match b.out {
            Err(e) => Step { out: Err(e), at: b.at },
            Ok(s) => Step { out: Ok(Caps::of(s)), at: b.at },
        }
    }
}

impl<'a> Reader<'a> {
    /// Reads a length-prefixed capability set.
    pub fn capability_set(&mut self) -> (r: Result<CapabilitySet>)
        requires
            old(self).wf(),
        ensures
            match old(self)@.capability_set().out {
                Ok(c) => r is Ok && r->Ok_0@ == c,
                Err(e) => r is Err && r->Err_0 == e,
            },
            final(self)@ == old(self)@.to(old(self)@.capability_set().at),
            final(self).wf(),
    {
        let b = self.var_bytes()?;
        Ok(CapabilitySet::from_bytes(b))
    }
}

} // verus!
