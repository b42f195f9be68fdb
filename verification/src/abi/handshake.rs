//! Working out whether the host and the decoder can work together.
//!
//! Every path through here ends in an agreement that both sides can name, or in a refusal that says
//! which capability was the problem.
use vstd::prelude::*;

use crate::abi::caps::{Capability, CapabilitySet, Caps};
use crate::abi::message::{
    Hello, HelloAck, HelloAckView, HelloView, Refusal, RefusalReason, RefusalView,
};

verus! {

/// What the two sides agreed on.
#[derive(Clone, Copy, PartialEq, Eq, Debug)]
pub struct Agreement {
    /// The major version both sides speak.
    pub abi_major: u16,
    /// The minor version both sides speak, which is the lower of the two.
    pub abi_minor: u16,
    /// The capabilities the host offers and the decoder asked for, required or optional.
    pub agreed: CapabilitySet,
    /// Carried over from the host's [`Hello`].
    pub window_bytes: u64,
    /// Carried over from the host's [`Hello`].
    pub max_batch_rows: u64,
}

/// Whether the decoder requires a capability that the host does not offer.
pub open spec fn lacks(offered: Caps, required: Caps, cap: Capability) -> bool {
    required.has(cap) && !offered.has(cap)
}

/// What a host and a decoder come to.
pub open spec fn negotiated(
    hello: HelloView,
    ack: HelloAckView,
    r: Result<Agreement, RefusalView>,
) -> bool {
    if ack.abi_major > hello.abi_major {
        r == Err::<Agreement, RefusalView>(
            RefusalView::plain(
                RefusalReason::ABI_TOO_NEW,
                "the decoder was built against a later major version of the iris ABI than this host speaks"@,
            ),
        )
    } else if ack.abi_major < hello.abi_major {
        r == Err::<Agreement, RefusalView>(
            RefusalView::plain(
                RefusalReason::ABI_TOO_OLD,
                "the decoder was built against an earlier major version of the iris ABI than this host speaks"@,
            ),
        )
    } else if ack.required.beyond {
        r == Err::<Agreement, RefusalView>(
            RefusalView::plain(
                RefusalReason::MISSING_CAPABILITY,
                "the decoder requires a capability that is past the end of the bitset this host understands"@,
            ),
        )
    } else if exists|cap: Capability| #[trigger] lacks(hello.offered, ack.required, cap) {
        &&& r is Err
        &&& r->Err_0.reason == RefusalReason(RefusalReason::MISSING_CAPABILITY)
        &&& lacks(hello.offered, ack.required, r->Err_0.capability)
        &&& forall|cap: Capability| #[trigger]
            lacks(hello.offered, ack.required, cap) ==> r->Err_0.capability.0 <= cap.0
        &&& r->Err_0.detail == "the decoder requires a capability this host does not offer"@
    } else {
        &&& r is Ok
        &&& r->Ok_0.abi_major == hello.abi_major
        &&& r->Ok_0.abi_minor == if hello.abi_minor <= ack.abi_minor {
            hello.abi_minor
        } else {
            ack.abi_minor
        }
        &&& forall|cap: Capability| #[trigger]
            r->Ok_0.agreed@.has(cap) == (hello.offered.has(cap) && (ack.required.has(cap)
                || ack.optional.has(cap)))
        &&& !r->Ok_0.agreed@.beyond
        &&& r->Ok_0.window_bytes == hello.window_bytes
        &&& r->Ok_0.max_batch_rows == hello.max_batch_rows
    }
}

/// An outcome with its refusal taken for what it says.
pub open spec fn outcome(r: Result<Agreement, Refusal<'_>>) -> Result<Agreement, RefusalView> {
    match r {
        Ok(a) => Ok(a),
        Err(e) => Err(e@),
    }
}

/// Decides whether a host and a decoder can work together.
///
/// A decoder may require a capability that had no name when this host was compiled. That is checked
/// before the sets are compared, because comparing them cannot see it.
pub fn negotiate(hello: &Hello, ack: &HelloAck<'_>) -> (r: Result<Agreement, Refusal<'static>>)
    ensures
        negotiated(hello@, ack@, outcome(r)),
{
    if ack.abi_major > hello.abi_major {
        return Err(
            Refusal::new(
                RefusalReason(RefusalReason::ABI_TOO_NEW),
                "the decoder was built against a later major version of the iris ABI than this host speaks",
            ),
        );
    }
    if ack.abi_major < hello.abi_major {
        return Err(
            Refusal::new(
                RefusalReason(RefusalReason::ABI_TOO_OLD),
                "the decoder was built against an earlier major version of the iris ABI than this host speaks",
            ),
        );
    }
    if ack.required.has_bits_beyond_this_build() {
        return Err(
            Refusal::new(
                RefusalReason(RefusalReason::MISSING_CAPABILITY),
                "the decoder requires a capability that is past the end of the bitset this host understands",
            ),
        );
    }
    let missing = ack.required.difference(hello.offered);
    let named = missing.iter();
    proof {
        assert forall|cap: Capability| lacks(hello.offered@, ack.required@, cap) <==> #[trigger]
            missing@.has(cap) by {}
    }
    if named.len() > 0 {
        let cap = named[0];
        proof {
            assert(named@.contains(cap));
            assert(missing@.has(cap));
            assert(lacks(hello.offered@, ack.required@, cap));
            assert forall|c: Capability| #[trigger]
                lacks(hello.offered@, ack.required@, c) implies cap.0 <= c.0 by {
                assert(missing@.has(c));
                assert(named@.contains(c));
            }
        }
        return Err(
            Refusal {
                reason: RefusalReason(RefusalReason::MISSING_CAPABILITY),
                capability: cap,
                detail: "the decoder requires a capability this host does not offer",
            },
        );
    }
    proof {
        assert forall|cap: Capability| !(#[trigger] lacks(hello.offered@, ack.required@, cap)) by {
            if lacks(hello.offered@, ack.required@, cap) {
                assert(missing@.has(cap));
                assert(named@.contains(cap));
            }
        }
    }
    let abi_minor: u16 = if hello.abi_minor <= ack.abi_minor {
        hello.abi_minor
    } else {
        ack.abi_minor
    };
    let asked = ack.required.union(ack.optional);
    Ok(
        Agreement {
            abi_major: hello.abi_major,
            abi_minor,
            agreed: hello.offered.intersection(asked),
            window_bytes: hello.window_bytes,
            max_batch_rows: hello.max_batch_rows,
        },
    )
}

impl Agreement {
    /// Whether a capability is in force for this pairing.
    #[must_use]
    pub fn has(&self, cap: Capability) -> (r: bool)
        ensures
            r == self.agreed@.has(cap),
    {
        self.agreed.contains(cap)
    }
}

/// An agreement covers everything the decoder cannot run without, and it never covers anything that
/// one side did not offer or the other did not ask for.
pub proof fn lemma_agreement_covers_what_is_required(
    hello: HelloView,
    ack: HelloAckView,
    a: Agreement,
    cap: Capability,
)
    requires
        negotiated(hello, ack, Ok(a)),
    ensures
        hello.abi_major == ack.abi_major,
        ack.required.has(cap) ==> a.agreed@.has(cap),
        a.agreed@.has(cap) ==> hello.offered.has(cap),
        a.agreed@.has(cap) ==> ack.required.has(cap) || ack.optional.has(cap),
{
    if ack.required.has(cap) {
        assert(!lacks(hello.offered, ack.required, cap));
    }
}

/// A decoder that requires something the host does not offer, whether or not it has a name here, is
/// never agreed with.
pub proof fn lemma_a_missing_requirement_is_refused(
    hello: HelloView,
    ack: HelloAckView,
    r: Result<Agreement, RefusalView>,
    cap: Capability,
)
    requires
        negotiated(hello, ack, r),
        ack.required.beyond || (ack.required.has(cap) && !hello.offered.has(cap)),
    ensures
        r is Err,
        ack.abi_major == hello.abi_major ==> r->Err_0.reason.0 == RefusalReason::MISSING_CAPABILITY,
{
    if !ack.required.beyond {
        assert(lacks(hello.offered, ack.required, cap));
    }
}

/// An agreement is on the lower of the two minor versions and on the host's window and largest batch. It
/// is come to exactly when the major versions are the same and the decoder requires nothing that the
/// host does not offer. A decoder with a higher major version is too new, and one with a lower too old.
pub proof fn lemma_agreement_takes_the_lower_minor(
    hello: HelloView,
    ack: HelloAckView,
    r: Result<Agreement, RefusalView>,
)
    requires
        negotiated(hello, ack, r),
    ensures
        r is Ok ==> {
            let a = r->Ok_0;
            &&& a.abi_major == hello.abi_major == ack.abi_major
            &&& a.abi_minor <= hello.abi_minor
            &&& a.abi_minor <= ack.abi_minor
            &&& a.abi_minor == hello.abi_minor || a.abi_minor == ack.abi_minor
            &&& a.window_bytes == hello.window_bytes
            &&& a.max_batch_rows == hello.max_batch_rows
        },
        r is Ok <==> hello.abi_major == ack.abi_major && !ack.required.beyond && forall|
            cap: Capability,
        |
            ack.required.has(cap) ==> #[trigger] hello.offered.has(cap),
        ack.abi_major > hello.abi_major ==> r is Err && r->Err_0.reason.0 == 2,
        ack.abi_major < hello.abi_major ==> r is Err && r->Err_0.reason.0 == 3,
        ack.abi_major == hello.abi_major && r is Err ==> r->Err_0.reason.0 == 1,
{
    if r is Ok {
        assert forall|cap: Capability| ack.required.has(cap) implies #[trigger] hello.offered.has(
            cap,
        ) by {
            assert(!lacks(hello.offered, ack.required, cap));
        }
    } else if hello.abi_major == ack.abi_major && !ack.required.beyond {
        let cap = choose|cap: Capability| #[trigger] lacks(hello.offered, ack.required, cap);
        assert(ack.required.has(cap) && !hello.offered.has(cap));
    }
}

/// What is agreed on is exactly what the host offers and the decoder asked for, required or optional, and
/// nothing that has no place in the set. A refusal for want of a capability names one that is required and
/// not offered, and none lower is.
pub proof fn lemma_what_is_agreed_on_and_what_is_missing(
    hello: HelloView,
    ack: HelloAckView,
    r: Result<Agreement, RefusalView>,
    cap: Capability,
)
    requires
        negotiated(hello, ack, r),
    ensures
        r is Ok ==> !r->Ok_0.agreed@.beyond,
        r is Ok && hello.offered.has(cap) && ack.required.has(cap) ==> r->Ok_0.agreed@.has(cap),
        r is Ok && hello.offered.has(cap) && ack.optional.has(cap) ==> r->Ok_0.agreed@.has(cap),
        r is Ok && !hello.offered.has(cap) ==> !r->Ok_0.agreed@.has(cap),
        r is Ok && !ack.required.has(cap) && !ack.optional.has(cap) ==> !r->Ok_0.agreed@.has(cap),
        r is Err && hello.abi_major == ack.abi_major && !ack.required.beyond ==> {
            let named = r->Err_0.capability;
            &&& ack.required.has(named)
            &&& !hello.offered.has(named)
            &&& ack.required.has(cap) && !hello.offered.has(cap) ==> named.0 <= cap.0
        },
        r is Err && (hello.abi_major != ack.abi_major || ack.required.beyond)
            ==> r->Err_0.capability.0 == 0xFFFF,
{
    if ack.required.has(cap) && !hello.offered.has(cap) {
        assert(lacks(hello.offered, ack.required, cap));
    }
}

} // verus!
