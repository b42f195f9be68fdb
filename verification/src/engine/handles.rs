//! What crosses a C boundary.
//!
//! Every fallible entry point returns a status and hands a message back with the call that produced it.
use vstd::prelude::*;
use vstd::string::*;
use vstd::utf8::encode_utf8;

use crate::bytes::append;

verus! {

/// The call succeeded and nothing was written to the error argument.
pub const IRIS_OK: i32 = 0;

/// The call failed and the reason is in the error argument, unless it was null.
pub const IRIS_ERROR: i32 = 1;

/// An argument the call cannot do without was null, so nothing was attempted.
pub const IRIS_INVALID: i32 = 2;

/// Text as a C caller takes it: its bytes and a nul behind them, if there is none among them.
pub open spec fn terminated(text: Seq<char>) -> Option<Seq<u8>> {
    if encode_utf8(text).contains(0u8) {
        None
    } else {
        Some(encode_utf8(text).push(0u8))
    }
}

/// Text as a C caller takes it, or nothing if it holds a nul.
pub fn c_text(text: &str) -> (r: Option<Vec<u8>>)
    ensures
        match terminated(text@) {
            Some(b) => r is Some && r->Some_0@ == b,
            None => r is None,
        },
{
    let bytes = text.as_bytes();
    let mut i: usize = 0;
    while i < bytes.len()
        invariant
            0 <= i <= bytes@.len(),
            bytes@ == encode_utf8(text@),
            forall|j: int| 0 <= j < i ==> bytes@[j] != 0,
        decreases bytes@.len() - i,
    {
        if bytes[i] == 0 {
            assert(bytes@[i as int] == 0u8);
            assert(bytes@.contains(0u8));
            return None;
        }
        i = i + 1;
    }
    let mut out: Vec<u8> = Vec::new();
    append(&mut out, bytes);
    out.push(0);
    assert(out@ =~= encode_utf8(text@).push(0u8));
    Some(out)
}

/// The status and the message of a failure.
///
/// A caller that does not want the message still gets the status, and so does one whose message cannot
/// be handed over because it holds a nul.
pub fn report(asked: bool, message: &str) -> (r: (i32, Option<Vec<u8>>))
    ensures
        r.0 == IRIS_ERROR,
        asked ==> match terminated(message@) {
            Some(b) => r.1 is Some && r.1->Some_0@ == b,
            None => r.1 is None,
        },
        !asked ==> r.1 is None,
{
    if asked {
        (IRIS_ERROR, c_text(message))
    } else {
        (IRIS_ERROR, None)
    }
}

/// The name of a container as a C caller takes it, or why it cannot be handed over.
///
/// A nul inside a name is refused and not cut off.
pub fn name_for_c(name: &str) -> (r: core::result::Result<Vec<u8>, &'static str>)
    ensures
        match terminated(name@) {
            Some(b) => r is Ok && r->Ok_0@ == b,
            None => r == Err::<Vec<u8>, &'static str>(
                "the name in this container contains a nul byte",
            ),
        },
{
    match c_text(name) {
        Some(b) => Ok(b),
        None => Err("the name in this container contains a nul byte"),
    }
}

/// Whether a scan was given what it cannot do without: a dataset, somewhere to put the stream, and
/// columns unless it asks for none.
pub fn scan_allowed(dataset: bool, out: bool, columns: bool, count: usize) -> (r: i32)
    ensures
        r == (if dataset && out && (columns || count == 0) {
            IRIS_OK
        } else {
            IRIS_INVALID
        }),
{
    if !dataset || !out || (!columns && count != 0) {
        IRIS_INVALID
    } else {
        IRIS_OK
    }
}

} // verus!
