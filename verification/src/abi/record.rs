//! Record framing.
//!
//! Every message is a tagged, versioned, length prefixed record. A reader that does not recognise a
//! tag steps over the record, and one that knows a tag but not all of its fields reads the fields it
//! knows and steps over the rest.
use vstd::prelude::*;
use vstd::string::*;

use crate::abi::error::{Error, Result};
use crate::abi::wire::{
    lemma_run_is_flat, group_run_push, pad, Input, Op, Output, Reader, Step, Writer, Wrote, ALIGN,
};
use crate::bytes::{le_bytes, lemma_le_bytes_len};
use crate::text::{hex4, hex4_text};

verus! {

/// Which kind of record this is.
///
/// A number and not an enumeration, so that a tag nobody here has heard of can be represented and
/// stepped over.
#[derive(Clone, Copy, PartialEq, Eq, PartialOrd, Ord, Hash, Debug, Structural)]
pub struct Tag(pub u16);

/// The name assigned to a tag, if there is one.
pub open spec fn tag_name(tag: Tag) -> Option<&'static str> {
    if tag.0 == Tag::HELLO {
        Some("Hello")
    } else if tag.0 == Tag::HELLO_ACK {
        Some("HelloAck")
    } else if tag.0 == Tag::REFUSAL {
        Some("Refusal")
    } else if tag.0 == Tag::SCAN_REQUEST {
        Some("ScanRequest")
    } else if tag.0 == Tag::RANGE_REQUEST {
        Some("RangeRequest")
    } else if tag.0 == Tag::BATCH {
        Some("Batch")
    } else {
        None
    }
}

/// What a tag prints as.
pub open spec fn tag_text(tag: Tag) -> Seq<char> {
    match tag_name(tag) {
        Some(name) => name@ + " (0x"@ + hex4_text(tag.0) + ")"@,
        None => (if tag.0 >= Tag::EXPERIMENTAL_BASE {
            "experimental 0x"@
        } else {
            "unknown 0x"@
        }) + hex4_text(tag.0),
    }
}

impl Tag {
    /// The host introducing itself and saying what it can do.
    pub const HELLO: u16 = 0x0001;

    /// The decoder answering, and saying what it needs.
    pub const HELLO_ACK: u16 = 0x0002;

    /// Either side declining to go on, with a reason.
    pub const REFUSAL: u16 = 0x0003;

    /// The host asking the decoder for a run of rows.
    pub const SCAN_REQUEST: u16 = 0x0010;

    /// The decoder asking for bytes of the source it has not been given yet.
    pub const RANGE_REQUEST: u16 = 0x0020;

    /// The decoder handing back one batch of decoded rows.
    pub const BATCH: u16 = 0x0030;

    /// The first tag in the range reserved for private extensions, which is never assigned a
    /// meaning here.
    pub const EXPERIMENTAL_BASE: u16 = 0xFF00;

    /// Whether this tag is in the private extension range.
    #[must_use]
    pub fn is_experimental(self) -> (r: bool)
        ensures
            r == (self.0 >= Tag::EXPERIMENTAL_BASE),
    {
        self.0 >= Tag::EXPERIMENTAL_BASE
    }

    /// The name of this tag, if it is an assigned one.
    #[must_use]
    pub fn name(self) -> (r: Option<&'static str>)
        ensures
            r == tag_name(self),
    {
        if self.0 == Tag::HELLO {
            Some("Hello")
        } else if self.0 == Tag::HELLO_ACK {
            Some("HelloAck")
        } else if self.0 == Tag::REFUSAL {
            Some("Refusal")
        } else if self.0 == Tag::SCAN_REQUEST {
            Some("ScanRequest")
        } else if self.0 == Tag::RANGE_REQUEST {
            Some("RangeRequest")
        } else if self.0 == Tag::BATCH {
            Some("Batch")
        } else {
            None
        }
    }

    /// What this tag prints as.
    pub fn text(self) -> (r: String)
        ensures
            r@ == tag_text(self),
    {
        match self.name() {
            Some(name) => {
                let mut s = name.to_owned();
                s.append(" (0x");
                s.append(hex4(self.0).as_str());
                s.append(")");
                s
            },
            None => {
                let mut s = if self.is_experimental() {
                    "experimental 0x".to_owned()
                } else {
                    "unknown 0x".to_owned()
                };
                s.append(hex4(self.0).as_str());
                s
            },
        }
    }
}

/// The eight bytes in front of every record payload.
#[derive(Clone, Copy, PartialEq, Eq, Debug, Structural)]
pub struct Header {
    /// Which record this is.
    pub tag: Tag,
    /// Which version of that record's layout the payload uses.
    ///
    /// It goes up only when a field is removed or changes meaning.
    pub version: u16,
    /// How many bytes of payload follow, not counting the padding after them.
    pub len: u32,
}

impl Header {
    /// How wide a header is, in bytes.
    pub const SIZE: usize = 8;
}

impl Input {
    /// A header and the payload it describes, leaving the cursor past the padding.
    ///
    /// The padding after the last record of a buffer may be missing.
    pub open spec fn record(self) -> Step<(Header, Seq<u8>)> {
        let t = self.u16();
        match t.out {
            Err(e) => Step { out: Err(e), at: t.at },
            Ok(tag) => {
                let v = self.to(t.at).u16();
                match v.out {
                    Err(e) => Step { out: Err(e), at: v.at },
                    Ok(version) => {
                        let n = self.to(v.at).u32();
                        match n.out {
                            Err(e) => Step { out: Err(e), at: n.at },
                            Ok(len) => self.to(n.at).payload(Header { tag: Tag(tag), version, len }),
                        }
                    },
                }
            },
        }
    }

    /// The payload a header describes.
    pub open spec fn payload(self, header: Header) -> Step<(Header, Seq<u8>)> {
        let len = header.len as int;
        if self.left() < len {
            Step {
                out: Err(
                    Error::Truncated { needed: len as usize, available: self.left() as usize },
                ),
                at: self.bytes.len() as int,
            }
        } else {
            Step {
                out: Ok((header, self.bytes.subrange(self.at, self.at + len))),
                at: if len + pad(len) < self.left() {
                    self.at + len + pad(len)
                } else {
                    self.bytes.len() as int
                },
            }
        }
    }
}

impl<'a> Reader<'a> {
    /// Reads a record header and returns a reader over just that record's payload.
    ///
    /// This reader is left at the next record, past the payload and its padding.
    pub fn record(&mut self) -> (r: Result<(Header, Reader<'a>)>)
        requires
            old(self).wf(),
        ensures
            match old(self)@.record().out {
                Ok((header, payload)) => {
                    &&& r is Ok
                    &&& r->Ok_0.0 == header
                    &&& r->Ok_0.1@ == Input::over(payload)
                    &&& r->Ok_0.1.wf()
                },
                Err(e) => r is Err && r->Err_0 == e,
            },
            final(self)@ == old(self)@.to(old(self)@.record().at),
            final(self).wf(),
    {
        let tag: u16 = self.u16()?;
        let version: u16 = self.u16()?;
        let len: u32 = self.u32()?;
        let payload_len: usize = len as usize;
        let left: usize = self.remaining();
        let body_len: usize = if left <= payload_len {
            left
        } else {
            let fill: usize = (ALIGN - payload_len % ALIGN) % ALIGN;
            if left - payload_len < fill {
                left
            } else {
                payload_len + fill
            }
        };
        let ghost at = self@.at;
        let mut body = self.sub(body_len)?;
        if body.remaining() < payload_len {
            return Err(Error::Truncated { needed: payload_len, available: body.remaining() });
        }
        let payload = body.sub(payload_len)?;
        assert(payload@.bytes =~= old(self)@.bytes.subrange(at, at + payload_len));
        Ok((Header { tag: Tag(tag), version, len }, payload))
    }
}

/// The writes in front of a payload, with the length still to be filled in.
pub open spec fn header_ops(tag: Tag, version: u16, len: u32) -> Seq<Op> {
    Seq::<Op>::empty()
        .push(Op::Raw(le_bytes(tag.0 as nat, 2)))
        .push(Op::Raw(le_bytes(version as nat, 2)))
        .push(Op::Raw(le_bytes(len as nat, 4)))
}

impl Output {
    /// A header with no length yet.
    pub open spec fn begin(self, tag: Tag, version: u16) -> Wrote {
        self.run(header_ops(tag, version, 0))
    }

    /// The length of a payload that started at `start`, filled in, and the padding after it.
    pub open spec fn end(self, start: int) -> Wrote {
        let len = self.at - start;
        if len > u32::MAX {
            Wrote { out: Err(Error::LengthOverflow), to: self }
        } else {
            let p = self.patch(start - 4, len as u32);
            if p.out is Err {
                p
            } else {
                p.to.align()
            }
        }
    }

    /// A record whose payload is a list of fields.
    pub open spec fn record(self, tag: Tag, version: u16, fields: Seq<Op>) -> Wrote {
        let h = self.begin(tag, version);
        if h.out is Err {
            h
        } else {
            let b = h.to.run(fields);
            if b.out is Err {
                b
            } else {
                b.to.end(h.to.at)
            }
        }
    }
}

impl<'a> Writer<'a> {
    /// Writes a record, filling in its length once the body has been written.
    ///
    /// The body may only append.
    pub fn record<F: FnOnce(&mut Writer<'a>) -> Result<()>>(
        &mut self,
        tag: Tag,
        version: u16,
        body: F,
    ) -> (r: Result<()>)
        requires
            old(self).wf(),
            forall|w: &mut Writer<'a>| w.wf() ==> call_requires(body, (w,)),
            forall|w: &mut Writer<'a>, b: Result<()>|
                w.wf() && #[trigger] call_ensures(body, (w,), b) ==> {
                    &&& final(w).wf()
                    &&& final(w)@.bytes.len() == w@.bytes.len()
                    &&& final(w)@.at >= w@.at
                    &&& final(final(w).buf)@ == final(w.buf)@
                },
        ensures
            ({
                let h = old(self)@.begin(tag, version);
                if h.out is Err {
                    (Wrote { out: r, to: final(self)@ }) == h
                } else {
                    exists|w: &mut Writer<'a>, b: Result<()>|
                        {
                            &&& w@ == h.to
                            &&& #[trigger] call_ensures(body, (w,), b)
                            &&& (Wrote { out: r, to: final(self)@ }) == (if b is Err {
                                Wrote { out: b, to: final(w)@ }
                            } else {
                                final(w)@.end(h.to.at)
                            })
                        }
                }
            }),
            final(self).wf(),
            final(final(self).buf)@ == final(old(self).buf)@,
    {
        self.begin(tag, version)?;
        let start: usize = self.position();
        body(self)?;
        self.end(start)
    }

    /// Writes a header with no length yet.
    fn begin(&mut self, tag: Tag, version: u16) -> (r: Result<()>)
        requires
            old(self).wf(),
        ensures
            (Wrote { out: r, to: final(self)@ }) == old(self)@.begin(tag, version),
            final(self).wf(),
            final(self)@.bytes.len() == old(self)@.bytes.len(),
            r is Ok ==> final(self)@.at == old(self)@.at + 8,
            final(final(self).buf)@ == final(old(self).buf)@,
    {
        broadcast use {group_run_push, lemma_le_bytes_len};

        proof {
            lemma_run_is_flat(self@, header_ops(tag, version, 0), 0);
        }
        self.u16(tag.0)?;
        self.u16(version)?;
        self.u32(0)
    }

    /// Fills in the length of a payload that started at `start`, and pads it out.
    fn end(&mut self, start: usize) -> (r: Result<()>)
        requires
            old(self).wf(),
            8 <= start <= old(self)@.at,
        ensures
            (Wrote { out: r, to: final(self)@ }) == old(self)@.end(start as int),
            final(self).wf(),
            final(final(self).buf)@ == final(old(self).buf)@,
    {
        let len: usize = self.position() - start;
        if len > 0xFFFF_FFFF {
            return Err(Error::LengthOverflow);
        }
        self.patch_u32(start - 4, len as u32)?;
        self.align()
    }
}

} // verus!
