//! What a decoder says when it cannot do what it was asked.
use vstd::prelude::*;
use vstd::string::*;

use crate::abi;
use crate::abi::caps::{capability_name, Capability};
use crate::abi::message::{reason_text, Refusal, RefusalReason, RefusalView};

verus! {

/// A decoder declining to go on.
///
/// It carries what a [`Refusal`] does: a reason a host can branch on, the capability involved when
/// there was one, and a line of text. The text is a literal, because the moment where a decoder has run
/// out of something is the worst one to allocate in.
#[derive(Clone, Copy, PartialEq, Eq, Debug)]
pub struct Error {
    reason: RefusalReason,
    capability: Capability,
    detail: &'static str,
}

/// What a decoder returns.
pub type Result<T> = core::result::Result<T, Error>;

impl View for Error {
    type V = RefusalView;

    closed spec fn view(&self) -> RefusalView {
        RefusalView {
            reason: self.reason,
            capability: self.capability,
            detail: self.detail@,
        }
    }
}

/// What a record that could not be read or written comes to.
///
/// Two outcomes survive, because they are the two a host can act on: the bytes were wrong, or the
/// decoder ran out of room.
pub open spec fn refusal_for(err: abi::Error) -> RefusalView {
    match err {
        abi::Error::BufferFull { .. } | abi::Error::LengthOverflow => RefusalView::plain(
            RefusalReason::RESOURCE_LIMIT,
            "the decoder ran out of room encoding its answer"@,
        ),
        _ => RefusalView::plain(
            RefusalReason::MALFORMED,
            "the decoder could not read a record the host sent it"@,
        ),
    }
}

/// What a refusal prints as.
pub open spec fn refusal_text(e: RefusalView) -> Seq<char> {
    match capability_name(e.capability) {
        Some(name) if e.reason.0 == RefusalReason::MISSING_CAPABILITY => reason_text(e.reason)
            + ": "@ + e.detail + " ("@ + name@ + ")"@,
        _ => reason_text(e.reason) + ": "@ + e.detail,
    }
}

impl Error {
    /// A refusal with a reason and no particular capability attached.
    #[must_use]
    pub fn new(reason: RefusalReason, detail: &'static str) -> (r: Self)
        ensures
            r@ == RefusalView::plain(reason.0, detail@),
    {
        Error { reason, capability: Capability(u16::MAX), detail }
    }

    /// The bytes the decoder was given do not describe what they claim to.
    #[must_use]
    pub fn malformed(detail: &'static str) -> (r: Self)
        ensures
            r@ == RefusalView::plain(RefusalReason::MALFORMED, detail@),
    {
        Error::new(RefusalReason(RefusalReason::MALFORMED), detail)
    }

    /// The decoder needs something the host did not offer.
    #[must_use]
    pub fn missing(capability: Capability, detail: &'static str) -> (r: Self)
        ensures
            r@ == (RefusalView {
                reason: RefusalReason(RefusalReason::MISSING_CAPABILITY),
                capability,
                detail: detail@,
            }),
    {
        Error { reason: RefusalReason(RefusalReason::MISSING_CAPABILITY), capability, detail }
    }

    /// The request is larger than the decoder is willing to serve.
    #[must_use]
    pub fn resource_limit(detail: &'static str) -> (r: Self)
        ensures
            r@ == RefusalView::plain(RefusalReason::RESOURCE_LIMIT, detail@),
    {
        Error::new(RefusalReason(RefusalReason::RESOURCE_LIMIT), detail)
    }

    /// The decoder could do this and is choosing not to.
    #[must_use]
    pub fn policy(detail: &'static str) -> (r: Self)
        ensures
            r@ == RefusalView::plain(RefusalReason::POLICY, detail@),
    {
        Error::new(RefusalReason(RefusalReason::POLICY), detail)
    }

    /// A refusal that arrived from the other side.
    #[must_use]
    pub fn from_refusal(refusal: Refusal<'static>) -> (r: Self)
        ensures
            r@ == refusal@,
    {
        Error { reason: refusal.reason, capability: refusal.capability, detail: refusal.detail }
    }

    /// A record that could not be read or written.
    #[must_use]
    pub fn from_abi(err: abi::Error) -> (r: Self)
        ensures
            r@ == refusal_for(err),
    {
        match err {
            abi::Error::BufferFull { .. } | abi::Error::LengthOverflow => Error::resource_limit(
                "the decoder ran out of room encoding its answer",
            ),
            _ => Error::malformed("the decoder could not read a record the host sent it"),
        }
    }

    /// Which capability was missing, when that is what went wrong.
    #[must_use]
    pub fn capability(&self) -> (r: Option<Capability>)
        ensures
            r == (if self@.reason.0 == RefusalReason::MISSING_CAPABILITY && self@.capability.0
                != u16::MAX {
                Some(self@.capability)
            } else {
                None::<Capability>
            }),
    {
        if self.reason.0 != RefusalReason::MISSING_CAPABILITY || self.capability.0 == u16::MAX {
            None
        } else {
            Some(self.capability)
        }
    }

    /// Why the decoder stopped.
    #[must_use]
    pub fn reason(&self) -> (r: RefusalReason)
        ensures
            r == self@.reason,
    {
        self.reason
    }

    /// The text, for a human.
    #[must_use]
    pub fn detail(&self) -> (r: &'static str)
        ensures
            r@ == self@.detail,
    {
        self.detail
    }

    /// The same thing in the form that goes on the wire.
    #[must_use]
    pub fn as_refusal(&self) -> (r: Refusal<'static>)
        ensures
            r@ == self@,
    {
        Refusal { reason: self.reason, capability: self.capability, detail: self.detail }
    }

    /// What this refusal prints as.
    pub fn text(&self) -> (r: String)
        ensures
            r@ == refusal_text(self@),
    {
        let mut s = self.reason.text();
        s.append(": ");
        s.append(self.detail);
        if self.reason.0 == RefusalReason::MISSING_CAPABILITY {
            if let Some(name) = self.capability.name() {
                s.append(" (");
                s.append(name);
                s.append(")");
            }
        }
        s
    }
}

} // verus!
