//! How many buffers and children each type takes.
//!
//! Null takes nothing. The fixed width types take a validity buffer and a values buffer, the variable
//! width ones a validity buffer, offsets and values, lists and maps a validity buffer, offsets and one
//! child, and fixed size lists and structs a validity buffer and their children. Unions, dictionaries,
//! run end encoding and the view types are refused by name.
use vstd::prelude::*;
use vstd::string::*;

use crate::guard::error::{broken, Invariant, Result, Violation, ViolationView};
use crate::guard::schema::{nested, DataType, Field, Kind};

verus! {

/// What one array takes out of a batch.
#[derive(Clone, Copy, PartialEq, Eq, Debug)]
pub struct Layout<'a> {
    /// Whether the array has a validity buffer. Only null arrays do not.
    pub validity: bool,
    /// How many buffers follow the validity one.
    pub values: usize,
    /// The children, in order.
    pub children: &'a [Field],
}

/// How many buffers follow the validity one, for a type that is carried.
pub open spec fn value_buffers(kind: Kind) -> Option<usize> {
    match kind {
        Kind::Null | Kind::FixedSizeList(_) | Kind::Struct => Some(0),
        Kind::Utf8 | Kind::Binary | Kind::LargeUtf8 | Kind::LargeBinary => Some(2),
        Kind::Other => None,
        _ => Some(1),
    }
}

/// What a type that is not carried is refused with.
pub open spec fn unsupported(data_type: DataType, path: Seq<char>) -> ViolationView {
    broken(
        Invariant::Unsupported,
        path,
        "this build does not carry "@ + data_type.printed@ + " columns"@,
    )
}

/// The layout of one type.
pub fn layout<'a>(data_type: &'a DataType, path: &str) -> (r: Result<Layout<'a>>)
    ensures
        match value_buffers(data_type.kind) {
            Some(values) => {
                &&& r is Ok
                &&& r->Ok_0.validity == (data_type.kind != Kind::Null)
                &&& r->Ok_0.values == values
                &&& r->Ok_0.children@ == (if nested(data_type.kind) {
                    data_type.children@
                } else {
                    Seq::<Field>::empty()
                })
            },
            None => r is Err && r->Err_0@ == unsupported(*data_type, path@),
        },
{
    let none: &'a [Field] = &[];
    assert(none@ =~= Seq::<Field>::empty());
    match data_type.kind {
        Kind::Null => Ok(Layout { validity: false, values: 0, children: none }),
        Kind::Utf8 | Kind::Binary | Kind::LargeUtf8 | Kind::LargeBinary => Ok(
            Layout { validity: true, values: 2, children: none },
        ),
        Kind::List | Kind::LargeList | Kind::Mapping => Ok(
            Layout { validity: true, values: 1, children: data_type.children.as_slice() },
        ),
        Kind::FixedSizeList(_) | Kind::Struct => Ok(
            Layout { validity: true, values: 0, children: data_type.children.as_slice() },
        ),
        Kind::Other => {
            let mut detail = "this build does not carry ".to_owned();
            detail.append(data_type.printed.as_str());
            detail.append(" columns");
            Err(Violation::at(Invariant::Unsupported, path, detail))
        },
        _ => Ok(Layout { validity: true, values: 1, children: none }),
    }
}

/// How wide one slot of a fixed width type is, in bits.
pub open spec fn bits_of(kind: Kind) -> Option<u64> {
    match kind {
        Kind::Boolean => Some(1),
        Kind::Int8 | Kind::UInt8 => Some(8),
        Kind::Int16 | Kind::UInt16 | Kind::Float16 => Some(16),
        Kind::Int32
        | Kind::UInt32
        | Kind::Float32
        | Kind::Date32
        | Kind::Time32
        | Kind::Decimal32
        | Kind::IntervalYearMonth => Some(32),
        Kind::Int64
        | Kind::UInt64
        | Kind::Float64
        | Kind::Date64
        | Kind::Time64
        | Kind::Timestamp
        | Kind::Duration
        | Kind::Decimal64
        | Kind::IntervalDayTime => Some(64),
        Kind::Decimal128 | Kind::IntervalMonthDayNano => Some(128),
        Kind::Decimal256 => Some(256),
        Kind::FixedSizeBinary(width) => if width >= 0 {
            Some((8 * width) as u64)
        } else {
            None
        },
        _ => None,
    }
}

/// How wide one slot of a fixed width type is, in bits.
///
/// Bits because of booleans. A negative width is not a width.
pub fn slot_bits(kind: Kind) -> (r: Option<u64>)
    ensures
        r == bits_of(kind),
{
    match kind {
        Kind::Boolean => Some(1),
        Kind::Int8 | Kind::UInt8 => Some(8),
        Kind::Int16 | Kind::UInt16 | Kind::Float16 => Some(16),
        Kind::Int32
        | Kind::UInt32
        | Kind::Float32
        | Kind::Date32
        | Kind::Time32
        | Kind::Decimal32
        | Kind::IntervalYearMonth => Some(32),
        Kind::Int64
        | Kind::UInt64
        | Kind::Float64
        | Kind::Date64
        | Kind::Time64
        | Kind::Timestamp
        | Kind::Duration
        | Kind::Decimal64
        | Kind::IntervalDayTime => Some(64),
        Kind::Decimal128 | Kind::IntervalMonthDayNano => Some(128),
        Kind::Decimal256 => Some(256),
        Kind::FixedSizeBinary(width) => {
            if width >= 0 {
                Some(8 * width as u64)
            } else {
                None
            }
        },
        _ => None,
    }
}

/// How wide the offsets of a variable length type are, in bytes.
pub open spec fn offsets_of(kind: Kind) -> Option<u64> {
    match kind {
        Kind::Utf8 | Kind::Binary | Kind::List | Kind::Mapping => Some(4),
        Kind::LargeUtf8 | Kind::LargeBinary | Kind::LargeList => Some(8),
        _ => None,
    }
}

/// How wide the offsets of a variable length type are, in bytes.
pub fn offset_width(kind: Kind) -> (r: Option<u64>)
    ensures
        r == offsets_of(kind),
{
    match kind {
        Kind::Utf8 | Kind::Binary | Kind::List | Kind::Mapping => Some(4),
        Kind::LargeUtf8 | Kind::LargeBinary | Kind::LargeList => Some(8),
        _ => None,
    }
}

} // verus!
