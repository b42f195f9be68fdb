//! Reading and writing the values that records are built out of.
//!
//! Everything on the wire is little-endian. A variable-length field carries a four byte length and is
//! padded so that the cursor lands back on a multiple of eight.
use vstd::prelude::*;
use vstd::string::*;
use vstd::utf8::{decode_utf8, encode_utf8, valid_utf8};

use crate::abi::error::{Error, Result};
use crate::bytes::{
    le, le_bytes, lemma_le_bytes_len, u16_bytes, u16_of, u32_bytes, u32_of, u64_bytes, u64_of,
    zeros,
};

verus! {

/// How wide the alignment of a record payload is, in bytes.
pub const ALIGN: usize = 8;

/// How many bytes lie between `n` and the next multiple of [`ALIGN`].
pub open spec fn pad(n: int) -> nat {
    ((8 - n % 8) % 8) as nat
}

/// The next multiple of [`ALIGN`], which is `n` itself if it is one.
pub open spec fn aligned(n: int) -> int {
    n + pad(n)
}

/// Rounds `n` up to the next multiple of [`ALIGN`].
#[must_use]
pub fn align_up(n: usize) -> (r: usize)
    requires
        aligned(n as int) <= usize::MAX,
    ensures
        r as int == aligned(n as int),
        r % 8 == 0,
{
    let over: usize = n % ALIGN;
    if over == 0 {
        n
    } else {
        n + (ALIGN - over)
    }
}

/// Where a reader stands.
pub ghost struct Input {
    /// What is being read.
    pub bytes: Seq<u8>,
    /// How far into it the cursor is.
    pub at: int,
}

/// What one read gives back, and where it leaves the cursor.
pub ghost struct Step<T> {
    /// The value, or why there is none.
    pub out: Result<T>,
    /// The cursor afterwards.
    pub at: int,
}

impl<T> Step<T> {
    /// The same failure, of another read.
    pub open spec fn fail<U>(self) -> Step<U> {
        Step { out: Err(self.out->Err_0), at: self.at }
    }
}

/// Whether a read came out as stated.
pub open spec fn agrees<T: View>(r: Result<T>, s: Result<T::V>) -> bool {
    match s {
        Ok(v) => r is Ok && r->Ok_0@ == v,
        Err(e) => r is Err && r->Err_0 == e,
    }
}

impl Input {
    /// The cursor at the front of a buffer.
    pub open spec fn over(bytes: Seq<u8>) -> Input {
        Input { bytes, at: 0 }
    }

    /// Whether the cursor is inside the buffer.
    pub open spec fn wf(self) -> bool {
        0 <= self.at <= self.bytes.len() <= usize::MAX
    }

    /// How many bytes are left.
    pub open spec fn left(self) -> int {
        self.bytes.len() - self.at
    }

    /// The same buffer with the cursor elsewhere.
    pub open spec fn to(self, at: int) -> Input {
        Input { bytes: self.bytes, at }
    }

    /// The next `n` bytes.
    pub open spec fn take(self, n: int) -> Step<Seq<u8>> {
        if n > self.left() {
            Step {
                out: Err(
                    Error::Truncated { needed: n as usize, available: self.left() as usize },
                ),
                at: self.at,
            }
        } else {
            Step { out: Ok(self.bytes.subrange(self.at, self.at + n)), at: self.at + n }
        }
    }

    /// The next byte.
    pub open spec fn u8(self) -> Step<u8> {
        let b = self.take(1);
        match b.out {
            Ok(s) => Step { out: Ok(s[0]), at: b.at },
            Err(e) => Step { out: Err(e), at: b.at },
        }
    }

    /// The next two bytes, as a number.
    pub open spec fn u16(self) -> Step<u16> {
        let b = self.take(2);
        match b.out {
            Ok(s) => Step { out: Ok(le(s) as u16), at: b.at },
            Err(e) => Step { out: Err(e), at: b.at },
        }
    }

    /// The next four bytes, as a number.
    pub open spec fn u32(self) -> Step<u32> {
        let b = self.take(4);
        match b.out {
            Ok(s) => Step { out: Ok(le(s) as u32), at: b.at },
            Err(e) => Step { out: Err(e), at: b.at },
        }
    }

    /// The next eight bytes, as a number.
    pub open spec fn u64(self) -> Step<u64> {
        let b = self.take(8);
        match b.out {
            Ok(s) => Step { out: Ok(le(s) as u64), at: b.at },
            Err(e) => Step { out: Err(e), at: b.at },
        }
    }

    /// A number that may not be there: nothing left means absent.
    pub open spec fn opt_u64(self) -> Step<Option<u64>> {
        if self.left() == 0 {
            Step { out: Ok(None), at: self.at }
        } else {
            let v = self.u64();
            match v.out {
                Ok(n) => Step { out: Ok(Some(n)), at: v.at },
                Err(e) => Step { out: Err(e), at: v.at },
            }
        }
    }

    /// Past the next `n` bytes.
    pub open spec fn skip(self, n: int) -> Step<()> {
        let b = self.take(n);
        match b.out {
            Ok(_) => Step { out: Ok(()), at: b.at },
            Err(e) => Step { out: Err(e), at: b.at },
        }
    }

    /// Up to the next multiple of eight.
    pub open spec fn align(self) -> Step<()> {
        self.skip(pad(self.at) as int)
    }

    /// A length, that many bytes, and the padding after them.
    pub open spec fn var_bytes(self) -> Step<Seq<u8>> {
        let n = self.u32();
        match n.out {
            Err(e) => Step { out: Err(e), at: n.at },
            Ok(len) => {
                let b = self.to(n.at).take(len as int);
                match b.out {
                    Err(e) => Step { out: Err(e), at: b.at },
                    Ok(s) => {
                        let p = self.to(b.at).align();
                        match p.out {
                            Err(e) => Step { out: Err(e), at: p.at },
                            Ok(_) => Step { out: Ok(s), at: p.at },
                        }
                    },
                }
            },
        }
    }

    /// A variable-length field that has to be text.
    pub open spec fn var_str(self) -> Step<Seq<char>> {
        let b = self.var_bytes();
        match b.out {
            Err(e) => Step { out: Err(e), at: b.at },
            Ok(s) => Step {
                out: if valid_utf8(s) {
                    Ok(decode_utf8(s))
                } else {
                    Err(Error::NotUtf8)
                },
                at: b.at,
            },
        }
    }
}

/// Whether a read of bytes came out as stated.
pub open spec fn same_bytes(r: Result<&[u8]>, s: Result<Seq<u8>>) -> bool {
    match s {
        Ok(q) => r is Ok && r->Ok_0@ == q,
        Err(e) => r is Err && r->Err_0 == e,
    }
}

/// Whether a read of text came out as stated.
pub open spec fn same_text(r: Result<&str>, s: Result<Seq<char>>) -> bool {
    match s {
        Ok(q) => r is Ok && r->Ok_0@ == q,
        Err(e) => r is Err && r->Err_0 == e,
    }
}

/// `core::str::from_utf8`: the text a byte string encodes, if it is valid UTF-8.
///
/// Believed of it: it accepts exactly the byte strings that are valid UTF-8, and what it returns is
/// the text they encode.
#[verifier::external_body]
pub(crate) fn text_of(b: &[u8]) -> (r: Option<&str>)
    ensures
        r is Some <==> valid_utf8(b@),
        r is Some ==> r->Some_0@ == decode_utf8(b@),
{
    core::str::from_utf8(b).ok()
}

/// A cursor that reads values out of a byte slice.
///
/// It borrows its input and hands back borrowed slices, so decoding a record copies nothing.
#[derive(Debug)]
pub struct Reader<'a> {
    buf: &'a [u8],
    pos: usize,
}

impl<'a> View for Reader<'a> {
    type V = Input;

    closed spec fn view(&self) -> Input {
        Input { bytes: self.buf@, at: self.pos as int }
    }
}

impl<'a> Clone for Reader<'a> {
    /// A second cursor over the same bytes, standing at the same place.
    fn clone(&self) -> (r: Self)
        ensures
            r@ == self@,
    {
        Reader { buf: self.buf, pos: self.pos }
    }
}

impl<'a> Reader<'a> {
    /// Whether the cursor is inside the buffer.
    pub open spec fn wf(&self) -> bool {
        self@.wf()
    }

    /// Starts reading at the beginning of `buf`.
    #[must_use]
    pub fn new(buf: &'a [u8]) -> (r: Self)
        ensures
            r@ == Input::over(buf@),
            r.wf(),
    {
        proof {
            assert(buf.len() <= usize::MAX);
        }
        Reader { buf, pos: 0 }
    }

    /// How many bytes are left.
    #[must_use]
    pub fn remaining(&self) -> (r: usize)
        requires
            self.wf(),
        ensures
            r as int == self@.left(),
    {
        self.buf.len() - self.pos
    }

    /// Whether the reader has consumed everything.
    #[must_use]
    pub fn is_empty(&self) -> (r: bool)
        requires
            self.wf(),
        ensures
            r == (self@.left() == 0),
    {
        self.remaining() == 0
    }

    /// How far into the buffer the cursor is.
    #[must_use]
    pub fn position(&self) -> (r: usize)
        ensures
            r as int == self@.at,
    {
        self.pos
    }

    fn take(&mut self, n: usize) -> (r: Result<&'a [u8]>)
        requires
            old(self).wf(),
        ensures
            same_bytes(r, old(self)@.take(n as int).out),
            final(self)@ == old(self)@.to(old(self)@.take(n as int).at),
            final(self).wf(),
    {
        let available = self.remaining();
        if n > available {
            return Err(Error::Truncated { needed: n, available });
        }
        let out = &self.buf[self.pos..self.pos + n];
        self.pos = self.pos + n;
        Ok(out)
    }

    /// Reads one byte.
    pub fn u8(&mut self) -> (r: Result<u8>)
        requires
            old(self).wf(),
        ensures
            r == old(self)@.u8().out,
            final(self)@ == old(self)@.to(old(self)@.u8().at),
            final(self).wf(),
    {
        let b = self.take(1)?;
        Ok(b[0])
    }

    /// Reads a little-endian `u16`.
    pub fn u16(&mut self) -> (r: Result<u16>)
        requires
            old(self).wf(),
        ensures
            r == old(self)@.u16().out,
            final(self)@ == old(self)@.to(old(self)@.u16().at),
            final(self).wf(),
    {
        let b = self.take(2)?;
        Ok(u16_of(b))
    }

    /// Reads a little-endian `u32`.
    pub fn u32(&mut self) -> (r: Result<u32>)
        requires
            old(self).wf(),
        ensures
            r == old(self)@.u32().out,
            final(self)@ == old(self)@.to(old(self)@.u32().at),
            final(self).wf(),
    {
        let b = self.take(4)?;
        Ok(u32_of(b))
    }

    /// Reads a little-endian `u64`.
    pub fn u64(&mut self) -> (r: Result<u64>)
        requires
            old(self).wf(),
        ensures
            r == old(self)@.u64().out,
            final(self)@ == old(self)@.to(old(self)@.u64().at),
            final(self).wf(),
    {
        let b = self.take(8)?;
        Ok(u64_of(b))
    }

    /// Reads a `u64` that a later version of a record appended, if the writer knew about it.
    ///
    /// Nothing left means the writer predates the field. Something left but not enough means the
    /// payload was cut.
    pub fn opt_u64(&mut self) -> (r: Result<Option<u64>>)
        requires
            old(self).wf(),
        ensures
            r == old(self)@.opt_u64().out,
            final(self)@ == old(self)@.to(old(self)@.opt_u64().at),
            final(self).wf(),
    {
        if self.is_empty() {
            return Ok(None);
        }
        let v: u64 = self.u64()?;
        Ok(Some(v))
    }

    /// Reads exactly `n` bytes and borrows them from the input.
    pub fn bytes(&mut self, n: usize) -> (r: Result<&'a [u8]>)
        requires
            old(self).wf(),
        ensures
            same_bytes(r, old(self)@.take(n as int).out),
            final(self)@ == old(self)@.to(old(self)@.take(n as int).at),
            final(self).wf(),
    {
        self.take(n)
    }

    /// Skips `n` bytes.
    pub fn skip(&mut self, n: usize) -> (r: Result<()>)
        requires
            old(self).wf(),
        ensures
            r == old(self)@.skip(n as int).out,
            final(self)@ == old(self)@.to(old(self)@.skip(n as int).at),
            final(self).wf(),
    {
        let _ = self.take(n)?;
        Ok(())
    }

    /// Skips forward to the next alignment boundary.
    pub fn align(&mut self) -> (r: Result<()>)
        requires
            old(self).wf(),
        ensures
            r == old(self)@.align().out,
            final(self)@ == old(self)@.to(old(self)@.align().at),
            final(self).wf(),
    {
        let over: usize = self.pos % ALIGN;
        self.skip((ALIGN - over) % ALIGN)
    }

    /// Reads a length-prefixed byte string, including its trailing padding.
    pub fn var_bytes(&mut self) -> (r: Result<&'a [u8]>)
        requires
            old(self).wf(),
        ensures
            same_bytes(r, old(self)@.var_bytes().out),
            final(self)@ == old(self)@.to(old(self)@.var_bytes().at),
            final(self).wf(),
    {
        let len: u32 = self.u32()?;
        let out = self.take(len as usize)?;
        self.align()?;
        Ok(out)
    }

    /// Reads a length-prefixed UTF-8 string.
    pub fn var_str(&mut self) -> (r: Result<&'a str>)
        requires
            old(self).wf(),
        ensures
            same_text(r, old(self)@.var_str().out),
            final(self)@ == old(self)@.to(old(self)@.var_str().at),
            final(self).wf(),
    {
        let b = self.var_bytes()?;
        match text_of(b) {
            Some(text) => Ok(text),
            None => Err(Error::NotUtf8),
        }
    }

    /// Splits off a reader over the next `n` bytes and steps this one past them.
    pub fn sub(&mut self, n: usize) -> (r: Result<Reader<'a>>)
        requires
            old(self).wf(),
        ensures
            match old(self)@.take(n as int).out {
                Ok(s) => r is Ok && r->Ok_0@ == Input::over(s) && r->Ok_0.wf(),
                Err(e) => r is Err && r->Err_0 == e,
            },
            final(self)@ == old(self)@.to(old(self)@.take(n as int).at),
            final(self).wf(),
    {
        let b = self.take(n)?;
        Ok(Reader::new(b))
    }
}

/// Where a writer stands.
pub ghost struct Output {
    /// The whole buffer, written or not.
    pub bytes: Seq<u8>,
    /// How much of it has been written.
    pub at: int,
}

/// What one write gives back, and what it leaves behind.
pub ghost struct Wrote {
    /// Whether it fit.
    pub out: Result<()>,
    /// The buffer and the cursor afterwards.
    pub to: Output,
}

/// One thing to write.
pub ghost enum Op {
    /// Bytes as they stand.
    Raw(Seq<u8>),
    /// Bytes behind their length, padded out.
    Var(Seq<u8>),
    /// Zeroes up to the next multiple of eight.
    Align,
}

/// The bytes of a variable-length field that starts at offset `at`.
pub open spec fn var_field(b: Seq<u8>, at: int) -> Seq<u8> {
    le_bytes(b.len(), 4) + b + zeros(pad(at + 4 + b.len()))
}

impl Op {
    /// The bytes this puts down at offset `at`.
    pub open spec fn bytes_at(self, at: int) -> Seq<u8> {
        match self {
            Op::Raw(b) => b,
            Op::Var(b) => var_field(b, at),
            Op::Align => zeros(pad(at)),
        }
    }

    /// Whether the length in front of the bytes can describe them.
    pub open spec fn describable(self) -> bool {
        self matches Op::Var(b) ==> b.len() <= u32::MAX
    }
}

/// The bytes that a list of writes puts down from offset `at` on.
pub open spec fn flat(ops: Seq<Op>, at: int) -> Seq<u8>
    decreases ops.len(),
{
    if ops.len() == 0 {
        Seq::empty()
    } else {
        let front = flat(ops.drop_last(), at);
        front + ops.last().bytes_at(at + front.len())
    }
}

/// Whether every field of a list can be described by its length.
pub open spec fn all_describable(ops: Seq<Op>) -> bool {
    forall|i: int| 0 <= i < ops.len() ==> (#[trigger] ops[i]).describable()
}

impl Output {
    /// The cursor at the front of a buffer.
    pub open spec fn over(bytes: Seq<u8>) -> Output {
        Output { bytes, at: 0 }
    }

    /// Whether the cursor is inside the buffer.
    pub open spec fn wf(self) -> bool {
        0 <= self.at <= self.bytes.len() <= usize::MAX
    }

    /// How much room is left.
    pub open spec fn left(self) -> int {
        self.bytes.len() - self.at
    }

    /// Everything written so far.
    pub open spec fn written(self) -> Seq<u8> {
        self.bytes.take(self.at)
    }

    /// The buffer with `b` laid over it from offset `at`.
    #[verifier::opaque]
    pub open spec fn laid(bytes: Seq<u8>, at: int, b: Seq<u8>) -> Seq<u8> {
        bytes.take(at) + b + bytes.skip(at + b.len())
    }

    /// Bytes as they stand.
    pub open spec fn put(self, b: Seq<u8>) -> Wrote {
        if b.len() > self.left() {
            Wrote {
                out: Err(
                    Error::BufferFull {
                        needed: b.len() as usize,
                        available: self.left() as usize,
                    },
                ),
                to: self,
            }
        } else {
            Wrote {
                out: Ok(()),
                to: Output {
                    bytes: Self::laid(self.bytes, self.at, b),
                    at: self.at + b.len(),
                },
            }
        }
    }

    /// Zeroes up to the next multiple of eight.
    pub open spec fn align(self) -> Wrote {
        self.put(zeros(pad(self.at)))
    }

    /// A length, the bytes, and the padding after them.
    pub open spec fn var(self, b: Seq<u8>) -> Wrote {
        if b.len() > u32::MAX {
            Wrote { out: Err(Error::LengthOverflow), to: self }
        } else {
            let n = self.put(le_bytes(b.len(), 4));
            if n.out is Err {
                n
            } else {
                let d = n.to.put(b);
                if d.out is Err {
                    d
                } else {
                    d.to.align()
                }
            }
        }
    }

    /// One thing to write.
    #[verifier::opaque]
    pub open spec fn step(self, op: Op) -> Wrote {
        match op {
            Op::Raw(b) => self.put(b),
            Op::Var(b) => self.var(b),
            Op::Align => self.align(),
        }
    }

    /// Several, stopping at the first that does not fit.
    pub open spec fn run(self, ops: Seq<Op>) -> Wrote
        decreases ops.len(),
    {
        if ops.len() == 0 {
            Wrote { out: Ok(()), to: self }
        } else {
            let front = self.run(ops.drop_last());
            if front.out is Err {
                front
            } else {
                front.to.step(ops.last())
            }
        }
    }

    /// Four bytes already written, overwritten.
    pub open spec fn patch(self, at: int, v: u32) -> Wrote {
        if at + 4 > self.at {
            let needed = if at + 4 > usize::MAX {
                usize::MAX
            } else {
                (at + 4) as usize
            };
            Wrote {
                out: Err(Error::BufferFull { needed, available: self.at as usize }),
                to: self,
            }
        } else {
            Wrote {
                out: Ok(()),
                to: Output {
                    bytes: Self::laid(self.bytes, at, le_bytes(v as nat, 4)),
                    at: self.at,
                },
            }
        }
    }
}

/// A list that ends in plain bytes is its first writes and then those.
pub broadcast proof fn lemma_run_push_raw(o: Output, ops: Seq<Op>, b: Seq<u8>)
    ensures
        #[trigger] o.run(ops.push(Op::Raw(b))) == (if o.run(ops).out is Err {
            o.run(ops)
        } else {
            o.run(ops).to.put(b)
        }),
{
    reveal(Output::step);
    assert(ops.push(Op::Raw(b)).drop_last() =~= ops);
}

/// A list that ends in a variable-length field is its first writes and then that.
pub broadcast proof fn lemma_run_push_var(o: Output, ops: Seq<Op>, b: Seq<u8>)
    ensures
        #[trigger] o.run(ops.push(Op::Var(b))) == (if o.run(ops).out is Err {
            o.run(ops)
        } else {
            o.run(ops).to.var(b)
        }),
{
    reveal(Output::step);
    assert(ops.push(Op::Var(b)).drop_last() =~= ops);
}

/// How a list of writes unfolds from its end.
pub broadcast group group_run_push {
    lemma_run_push_raw,
    lemma_run_push_var,
}

/// The bytes of a list are those of its first fields and then the last one.
pub broadcast proof fn lemma_flat_push(ops: Seq<Op>, op: Op, at: int)
    ensures
        #[trigger] flat(ops.push(op), at) == flat(ops, at) + op.bytes_at(
            at + flat(ops, at).len(),
        ),
{
    assert(ops.push(op).drop_last() =~= ops);
}

/// Laying bytes over a buffer keeps its size.
pub broadcast proof fn lemma_laid_len(bytes: Seq<u8>, at: int, b: Seq<u8>)
    requires
        0 <= at,
        at + b.len() <= bytes.len(),
    ensures
        #[trigger] Output::laid(bytes, at, b).len() == bytes.len(),
{
    reveal(Output::laid);
}

/// Two writes in a row are one write of both.
pub proof fn lemma_put_put(o: Output, a: Seq<u8>, b: Seq<u8>)
    requires
        o.wf(),
    ensures
        o.put(a).out is Ok ==> (o.put(a).to.put(b).out is Ok <==> o.put(a + b).out is Ok),
        o.put(a + b).out is Ok ==> o.put(a).out is Ok,
        o.put(a).out is Ok && o.put(a).to.put(b).out is Ok ==> o.put(a).to.put(b) == o.put(a + b),
{
    broadcast use lemma_laid_len;

    if o.put(a).out is Ok && o.put(a).to.put(b).out is Ok {
        reveal(Output::laid);
        assert(o.put(a).to.put(b).to.bytes =~= o.put(a + b).to.bytes);
    }
}

/// A write leaves what was written before it, and the size of the buffer, alone.
pub proof fn lemma_put_keeps(o: Output, b: Seq<u8>, n: int)
    requires
        o.wf(),
        0 <= n <= o.at,
    ensures
        o.put(b).to.wf(),
        o.put(b).to.bytes.len() == o.bytes.len(),
        o.put(b).to.at >= o.at,
        o.put(b).to.bytes.take(n) == o.bytes.take(n),
{
    reveal(Output::laid);
    assert(o.put(b).to.bytes.take(n) =~= o.bytes.take(n));
}

/// One write puts down exactly its bytes, and it works exactly when they can be described and fit.
pub proof fn lemma_step_is_flat(o: Output, op: Op, k: int)
    requires
        o.wf(),
        0 <= k <= o.at,
    ensures
        o.step(op).out is Ok <==> op.describable() && op.bytes_at(o.at).len() <= o.left(),
        o.step(op).out is Ok ==> o.step(op) == o.put(op.bytes_at(o.at)),
        o.step(op).to.wf(),
        o.step(op).to.bytes.len() == o.bytes.len(),
        o.step(op).to.at >= o.at,
        o.step(op).to.bytes.take(k) == o.bytes.take(k),
{
    reveal(Output::step);
    match op {
        Op::Raw(b) => {
            lemma_put_keeps(o, b, k);
        },
        Op::Align => {
            lemma_put_keeps(o, zeros(pad(o.at)), k);
        },
        Op::Var(b) => {
            if b.len() <= u32::MAX {
                let len = le_bytes(b.len(), 4);
                lemma_le_bytes_len(b.len(), 4);
                let n = o.put(len);
                lemma_put_keeps(o, len, k);
                lemma_put_put(o, len, b);
                let fill = zeros(pad(o.at + 4 + b.len()));
                lemma_put_put(o, len + b, fill);
                if n.out is Ok {
                    let d = n.to.put(b);
                    lemma_put_keeps(n.to, b, k);
                    if d.out is Ok {
                        lemma_put_keeps(d.to, fill, k);
                    }
                }
            }
        },
    }
}

/// Describing a list is describing its first fields and its last one.
proof fn lemma_describable_split(ops: Seq<Op>)
    requires
        ops.len() > 0,
    ensures
        all_describable(ops) <==> all_describable(ops.drop_last()) && ops.last().describable(),
{
    let init = ops.drop_last();
    if all_describable(ops) {
        assert forall|i: int| 0 <= i < init.len() implies (#[trigger] init[i]).describable() by {
            assert(ops[i].describable());
        }
        assert(ops[ops.len() - 1].describable());
    }
    if all_describable(init) && ops.last().describable() {
        assert forall|i: int| 0 <= i < ops.len() implies (#[trigger] ops[i]).describable() by {
            if i < init.len() {
                assert(init[i].describable());
            }
        }
    }
}

/// A list of writes puts down exactly its bytes, and it works exactly when every length can describe
/// its field and the bytes fit. What was written before stays.
#[verifier::spinoff_prover]
pub proof fn lemma_run_is_flat(o: Output, ops: Seq<Op>, k: int)
    requires
        o.wf(),
        0 <= k <= o.at,
    ensures
        o.run(ops).out is Ok <==> all_describable(ops) && flat(ops, o.at).len() <= o.left(),
        o.run(ops).out is Ok ==> o.run(ops) == o.put(flat(ops, o.at)),
        o.run(ops).to.wf(),
        o.run(ops).to.bytes.len() == o.bytes.len(),
        o.run(ops).to.at >= o.at,
        o.run(ops).to.bytes.take(k) == o.bytes.take(k),
    decreases ops.len(),
{
    if ops.len() == 0 {
        assert(Output::laid(o.bytes, o.at, flat(ops, o.at)) =~= o.bytes) by {
            reveal(Output::laid);
        }
    } else {
        let init = ops.drop_last();
        lemma_run_is_flat(o, init, k);
        lemma_describable_split(ops);
        let front = o.run(init);
        let last = ops.last();
        if front.out is Ok {
            let f = flat(init, o.at);
            let x = last.bytes_at(o.at + f.len());
            assert(front.to.at == o.at + f.len());
            lemma_step_is_flat(front.to, last, k);
            lemma_put_put(o, f, x);
            assert(flat(ops, o.at) == f + x);
            assert(o.run(ops) == front.to.step(last));
            if front.to.step(last).out is Ok {
                assert(front.to.step(last) == front.to.put(x));
            }
        } else {
            assert(o.run(ops) == front);
            assert(flat(ops, o.at).len() >= flat(init, o.at).len());
        }
    }
}

/// A cursor that writes values into a byte slice.
///
/// It never grows its buffer.
#[derive(Debug)]
pub struct Writer<'a> {
    /// The buffer being written into.
    pub buf: &'a mut [u8],
    /// How much of it has been written.
    pub pos: usize,
}

impl<'a> View for Writer<'a> {
    type V = Output;

    open spec fn view(&self) -> Output {
        Output { bytes: self.buf@, at: self.pos as int }
    }
}

impl<'a> Writer<'a> {
    /// Whether the cursor is inside the buffer.
    pub open spec fn wf(&self) -> bool {
        self@.wf()
    }

    /// Starts writing at the beginning of `buf`.
    #[must_use]
    pub fn new(buf: &'a mut [u8]) -> (r: Self)
        ensures
            r@ == Output::over(old(buf)@),
            r.wf(),
            final(r.buf)@ == final(buf)@,
    {
        proof {
            assert(buf.len() <= usize::MAX);
        }
        Writer { buf, pos: 0 }
    }

    /// How many bytes have been written.
    #[must_use]
    pub fn position(&self) -> (r: usize)
        ensures
            r as int == self@.at,
    {
        self.pos
    }

    /// How much room is left.
    #[must_use]
    pub fn remaining(&self) -> (r: usize)
        requires
            self.wf(),
        ensures
            r as int == self@.left(),
    {
        self.buf.len() - self.pos
    }

    /// Everything written so far.
    #[must_use]
    pub fn written(&self) -> (r: &[u8])
        requires
            self.wf(),
        ensures
            r@ == self@.written(),
    {
        &self.buf[0..self.pos]
    }

    fn room(&mut self, n: usize) -> (r: Result<usize>)
        requires
            old(self).wf(),
        ensures
            n <= old(self)@.left() ==> {
                &&& r == Ok::<usize, Error>(old(self).pos)
                &&& final(self)@ == (Output { bytes: old(self)@.bytes, at: old(self)@.at + n })
            },
            n > old(self)@.left() ==> r == Err::<usize, Error>(
                Error::BufferFull { needed: n, available: old(self)@.left() as usize },
            ) && final(self)@ == old(self)@,
            final(self).wf(),
            final(final(self).buf)@ == final(old(self).buf)@,
    {
        let available = self.remaining();
        if n > available {
            return Err(Error::BufferFull { needed: n, available });
        }
        let at = self.pos;
        self.pos = at + n;
        Ok(at)
    }

    /// Writes one byte.
    pub fn u8(&mut self, v: u8) -> (r: Result<()>)
        requires
            old(self).wf(),
        ensures
            (Wrote { out: r, to: final(self)@ }) == old(self)@.put(seq![v]),
            final(self).wf(),
            final(final(self).buf)@ == final(old(self).buf)@,
    {
        let at: usize = self.room(1)?;
        self.buf[at] = v;
        proof {
            reveal(Output::laid);
        }
        assert(self@.bytes =~= Output::laid(old(self)@.bytes, old(self)@.at, seq![v]));
        Ok(())
    }

    /// Writes a little-endian `u16`.
    pub fn u16(&mut self, v: u16) -> (r: Result<()>)
        requires
            old(self).wf(),
        ensures
            (Wrote { out: r, to: final(self)@ }) == old(self)@.put(le_bytes(v as nat, 2)),
            final(self).wf(),
            final(final(self).buf)@ == final(old(self).buf)@,
    {
        self.raw(&u16_bytes(v))
    }

    /// Writes a little-endian `u32`.
    pub fn u32(&mut self, v: u32) -> (r: Result<()>)
        requires
            old(self).wf(),
        ensures
            (Wrote { out: r, to: final(self)@ }) == old(self)@.put(le_bytes(v as nat, 4)),
            final(self).wf(),
            final(final(self).buf)@ == final(old(self).buf)@,
    {
        self.raw(&u32_bytes(v))
    }

    /// Writes a little-endian `u64`.
    pub fn u64(&mut self, v: u64) -> (r: Result<()>)
        requires
            old(self).wf(),
        ensures
            (Wrote { out: r, to: final(self)@ }) == old(self)@.put(le_bytes(v as nat, 8)),
            final(self).wf(),
            final(final(self).buf)@ == final(old(self).buf)@,
    {
        self.raw(&u64_bytes(v))
    }

    /// Writes bytes with no length prefix and no padding.
    pub fn raw(&mut self, v: &[u8]) -> (r: Result<()>)
        requires
            old(self).wf(),
        ensures
            (Wrote { out: r, to: final(self)@ }) == old(self)@.put(v@),
            final(self).wf(),
            final(final(self).buf)@ == final(old(self).buf)@,
    {
        let at: usize = self.room(v.len())?;
        self.lay(at, v);
        Ok(())
    }

    /// Overwrites the buffer from `at` with `v`.
    fn lay(&mut self, at: usize, v: &[u8])
        requires
            at + v@.len() <= old(self)@.bytes.len() <= usize::MAX,
        ensures
            final(self)@ == (Output {
                bytes: Output::laid(old(self)@.bytes, at as int, v@),
                at: old(self)@.at,
            }),
            final(self)@.bytes.len() == old(self)@.bytes.len(),
            final(final(self).buf)@ == final(old(self).buf)@,
    {
        proof {
            reveal(Output::laid);
        }
        let mut i: usize = 0;
        assert(self@.bytes =~= Output::laid(old(self)@.bytes, at as int, v@.take(0)));
        while i < v.len()
            invariant
                0 <= i <= v@.len(),
                at + v@.len() <= old(self)@.bytes.len() <= usize::MAX,
                self.pos == old(self).pos,
                self@.bytes.len() == old(self)@.bytes.len(),
                self@.bytes == Output::laid(old(self)@.bytes, at as int, v@.take(i as int)),
                final(self.buf)@ == final(old(self).buf)@,
            decreases v@.len() - i,
        {
            self.buf[at + i] = v[i];
            i = i + 1;
            proof {
                reveal(Output::laid);
            }
            assert(self@.bytes =~= Output::laid(old(self)@.bytes, at as int, v@.take(i as int)));
        }
        assert(v@.take(i as int) =~= v@);
        assert(self@.bytes =~= Output::laid(old(self)@.bytes, at as int, v@));
    }

    /// Writes zeroes up to the next alignment boundary.
    pub fn align(&mut self) -> (r: Result<()>)
        requires
            old(self).wf(),
        ensures
            (Wrote { out: r, to: final(self)@ }) == old(self)@.align(),
            final(self).wf(),
            final(final(self).buf)@ == final(old(self).buf)@,
    {
        let over: usize = self.pos % ALIGN;
        let pad: usize = (ALIGN - over) % ALIGN;
        let zero: [u8; 7] = [0, 0, 0, 0, 0, 0, 0];
        let ghost z = zeros(pad as nat);
        let fill = &zero.as_slice()[0..pad];
        assert(fill@ =~= z);
        self.raw(fill)
    }

    /// Writes a length-prefixed byte string and pads it out.
    pub fn var_bytes(&mut self, v: &[u8]) -> (r: Result<()>)
        requires
            old(self).wf(),
        ensures
            (Wrote { out: r, to: final(self)@ }) == old(self)@.var(v@),
            final(self).wf(),
            final(final(self).buf)@ == final(old(self).buf)@,
    {
        if v.len() > 0xFFFF_FFFF {
            return Err(Error::LengthOverflow);
        }
        self.u32(v.len() as u32)?;
        self.raw(v)?;
        self.align()
    }

    /// Writes a length-prefixed string.
    pub fn var_str(&mut self, v: &str) -> (r: Result<()>)
        requires
            old(self).wf(),
        ensures
            (Wrote { out: r, to: final(self)@ }) == old(self)@.var(encode_utf8(v@)),
            final(self).wf(),
            final(final(self).buf)@ == final(old(self).buf)@,
    {
        self.var_bytes(v.as_bytes())
    }

    /// Overwrites a `u32` that was already written, at absolute offset `at`.
    ///
    /// Nothing changes if that is not inside what was written.
    pub fn patch_u32(&mut self, at: usize, v: u32) -> (r: Result<()>)
        requires
            old(self).wf(),
        ensures
            (Wrote { out: r, to: final(self)@ }) == old(self)@.patch(at as int, v),
            final(self).wf(),
            final(final(self).buf)@ == final(old(self).buf)@,
    {
        if self.pos < 4 || at > self.pos - 4 {
            return Err(
                Error::BufferFull { needed: at.saturating_add(4), available: self.pos },
            );
        }
        self.lay(at, &u32_bytes(v));
        Ok(())
    }
}

} // verus!
