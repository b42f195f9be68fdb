//! What the guard refuses, and the rule it refused under.
use vstd::prelude::*;
use vstd::string::*;

verus! {

/// The rule an array broke.
#[derive(Clone, Copy, PartialEq, Eq, Hash, Debug, Structural)]
pub enum Invariant {
    /// The schema nests deeper than the guard will walk.
    Depth,
    /// The type is one the guard does not know how to check.
    Unsupported,
    /// The batch does not have the number of arrays the schema calls for.
    Arrays,
    /// The batch does not have the number of buffers the schema calls for.
    Buffers,
    /// A top level array is not as long as the batch says it is.
    Rows,
    /// A child array is shorter than its parent needs it to be.
    ChildLength,
    /// The declared null count is not what the validity bitmap says.
    NullCount,
    /// The validity bitmap has fewer bits than the array has slots.
    Validity,
    /// A buffer is shorter than the array's length requires.
    BufferLength,
    /// A length and a width multiply to more than this host can address.
    Size,
    /// Offsets run backwards.
    OffsetOrder,
    /// An offset points past the end of the thing it indexes.
    OffsetRange,
    /// A dictionary key is not a slot in the dictionary.
    DictionaryIndex,
    /// A view points at a data buffer that is not there, or past the end of one that is.
    ViewBuffer,
}

/// The name of a rule.
pub open spec fn invariant_name(i: Invariant) -> &'static str {
    match i {
        Invariant::Depth => "nesting depth",
        Invariant::Unsupported => "known types",
        Invariant::Arrays => "array count",
        Invariant::Buffers => "buffer count",
        Invariant::Rows => "row count",
        Invariant::ChildLength => "child length",
        Invariant::NullCount => "null count",
        Invariant::Validity => "validity length",
        Invariant::BufferLength => "buffer length",
        Invariant::Size => "addressable size",
        Invariant::OffsetOrder => "offset order",
        Invariant::OffsetRange => "offset range",
        Invariant::DictionaryIndex => "dictionary index",
        Invariant::ViewBuffer => "view buffer",
    }
}

impl Invariant {
    /// The rule's name, as it appears in a message.
    #[must_use]
    pub fn name(self) -> (r: &'static str)
        ensures
            r == invariant_name(self),
    {
        match self {
            Invariant::Depth => "nesting depth",
            Invariant::Unsupported => "known types",
            Invariant::Arrays => "array count",
            Invariant::Buffers => "buffer count",
            Invariant::Rows => "row count",
            Invariant::ChildLength => "child length",
            Invariant::NullCount => "null count",
            Invariant::Validity => "validity length",
            Invariant::BufferLength => "buffer length",
            Invariant::Size => "addressable size",
            Invariant::OffsetOrder => "offset order",
            Invariant::OffsetRange => "offset range",
            Invariant::DictionaryIndex => "dictionary index",
            Invariant::ViewBuffer => "view buffer",
        }
    }
}

/// An array the guard will not let through: which rule, where in the batch, and what the numbers were.
#[derive(Clone, PartialEq, Eq, Debug)]
pub struct Violation {
    /// The rule that was broken.
    pub invariant: Invariant,
    /// Where in the batch, as a dotted path of field names.
    pub path: String,
    /// The numbers, for whoever has to fix the decoder.
    pub detail: String,
}

/// What a [`Violation`] says.
pub ghost struct ViolationView {
    /// The rule.
    pub rule: Invariant,
    /// Where.
    pub path: Seq<char>,
    /// The numbers.
    pub detail: Seq<char>,
}

impl View for Violation {
    type V = ViolationView;

    open spec fn view(&self) -> ViolationView {
        ViolationView { rule: self.invariant, path: self.path@, detail: self.detail@ }
    }
}

/// What the guard returns.
pub type Result<T> = core::result::Result<T, Violation>;

/// A violation at a path. The empty path is the batch itself.
pub open spec fn broken(rule: Invariant, path: Seq<char>, detail: Seq<char>) -> ViolationView {
    ViolationView {
        rule,
        path: if path.len() == 0 {
            "the batch"@
        } else {
            path
        },
        detail,
    }
}

/// Whether a check came out as stated.
pub open spec fn found(r: Result<()>, fault: Option<ViolationView>) -> bool {
    match fault {
        None => r is Ok,
        Some(e) => r is Err && r->Err_0@ == e,
    }
}

/// The sentence a violation prints as.
pub open spec fn violation_text(v: ViolationView) -> Seq<char> {
    v.path + " breaks the "@ + invariant_name(v.rule)@ + " rule: "@ + v.detail
}

/// Whether text is empty.
fn is_blank(s: &str) -> (r: bool)
    ensures
        r == (s@.len() == 0),
{
    s.unicode_len() == 0
}

impl Violation {
    /// A violation at a path.
    pub(crate) fn at(rule: Invariant, path: &str, detail: String) -> (r: Self)
        ensures
            r@ == broken(rule, path@, detail@),
    {
        Violation {
            invariant: rule,
            path: if is_blank(path) {
                "the batch".to_owned()
            } else {
                path.to_owned()
            },
            detail,
        }
    }

    /// The sentence this violation prints as.
    pub fn text(&self) -> (r: String)
        ensures
            r@ == violation_text(self@),
    {
        let mut s = self.path.as_str().to_owned();
        s.append(" breaks the ");
        s.append(self.invariant.name());
        s.append(" rule: ");
        s.append(self.detail.as_str());
        s
    }
}

} // verus!
