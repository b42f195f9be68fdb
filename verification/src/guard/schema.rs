//! A schema as the guard sees it.
//!
//! A type is the shape of its arrays, the fields under it, and what it prints as. Units, time zones,
//! precisions and metadata change no buffer, so they are not here.
use vstd::prelude::*;

verus! {

/// The shape of an array.
#[derive(Clone, Copy, PartialEq, Eq, Debug, Structural)]
pub enum Kind {
    /// No buffers at all.
    Null,
    /// One bit a slot.
    Boolean,
    /// Eight bits, signed.
    Int8,
    /// Sixteen bits, signed.
    Int16,
    /// Thirty two bits, signed.
    Int32,
    /// Sixty four bits, signed.
    Int64,
    /// Eight bits, unsigned.
    UInt8,
    /// Sixteen bits, unsigned.
    UInt16,
    /// Thirty two bits, unsigned.
    UInt32,
    /// Sixty four bits, unsigned.
    UInt64,
    /// Sixteen bits of floating point.
    Float16,
    /// Thirty two bits of floating point.
    Float32,
    /// Sixty four bits of floating point.
    Float64,
    /// Days.
    Date32,
    /// Milliseconds.
    Date64,
    /// A time of day in thirty two bits.
    Time32,
    /// A time of day in sixty four bits.
    Time64,
    /// A point in time.
    Timestamp,
    /// A span of time.
    Duration,
    /// A span of months.
    IntervalYearMonth,
    /// A span of days and milliseconds.
    IntervalDayTime,
    /// A span of months, days and nanoseconds.
    IntervalMonthDayNano,
    /// A decimal in thirty two bits.
    Decimal32,
    /// A decimal in sixty four bits.
    Decimal64,
    /// A decimal in a hundred and twenty eight bits.
    Decimal128,
    /// A decimal in two hundred and fifty six bits.
    Decimal256,
    /// This many bytes a slot.
    FixedSizeBinary(i32),
    /// Text behind four byte offsets.
    Utf8,
    /// Bytes behind four byte offsets.
    Binary,
    /// Text behind eight byte offsets.
    LargeUtf8,
    /// Bytes behind eight byte offsets.
    LargeBinary,
    /// A child behind four byte offsets.
    List,
    /// A child behind eight byte offsets.
    LargeList,
    /// Entries behind four byte offsets.
    Mapping,
    /// A child with this many slots a row.
    FixedSizeList(i32),
    /// A child per field.
    Struct,
    /// Anything that is not carried.
    Other,
}

/// A type.
#[derive(PartialEq, Eq, Debug)]
pub struct DataType {
    /// The shape of its arrays.
    pub kind: Kind,
    /// The fields under it, where the shape has any.
    pub children: Vec<Field>,
    /// What it prints as.
    pub printed: String,
}

/// A named type.
#[derive(PartialEq, Eq, Debug)]
pub struct Field {
    /// The name.
    pub name: String,
    /// The type.
    pub data_type: DataType,
}

/// The columns of a batch.
#[derive(PartialEq, Eq, Debug)]
pub struct Schema {
    /// One field per column.
    pub fields: Vec<Field>,
}

/// Whether arrays of this shape have arrays under them.
pub open spec fn nested(kind: Kind) -> bool {
    match kind {
        Kind::List | Kind::LargeList | Kind::Mapping | Kind::FixedSizeList(_) | Kind::Struct => true,
        _ => false,
    }
}

/// How many fields there are at and under a field.
pub open spec fn weight(f: Field) -> nat
    decreases f, 0nat,
{
    1 + weights(f.data_type.children, f.data_type.children@.len())
}

/// How many fields there are at and under the first `n` of some fields.
pub open spec fn weights(fields: Vec<Field>, n: nat) -> nat
    decreases fields, n,
{
    if n == 0 || n > fields@.len() {
        0
    } else {
        weights(fields, (n - 1) as nat) + weight(fields@[n - 1])
    }
}

/// Whether two types are the same.
pub open spec fn same_type(a: DataType, b: DataType) -> bool
    decreases a, 0nat,
{
    &&& a.kind == b.kind
    &&& a.printed@ == b.printed@
    &&& a.children@.len() == b.children@.len()
    &&& same_fields(a.children, b.children, a.children@.len())
}

/// Whether the first `n` of some fields are the same.
pub open spec fn same_fields(a: Vec<Field>, b: Vec<Field>, n: nat) -> bool
    decreases a, n,
{
    n == 0 || n > a@.len() || n > b@.len() || {
        &&& same_fields(a, b, (n - 1) as nat)
        &&& a@[n - 1].name@ == b@[n - 1].name@
        &&& same_type(a@[n - 1].data_type, b@[n - 1].data_type)
    }
}

/// Fields that are the same stay so when more are put behind them.
proof fn lemma_same_fields_stay(a: Vec<Field>, b: Vec<Field>, c: Vec<Field>, n: nat)
    requires
        same_fields(a, b, n),
        n <= a@.len(),
        n <= b@.len() <= c@.len(),
        forall|i: int| 0 <= i < b@.len() ==> b@[i] == c@[i],
    ensures
        same_fields(a, c, n),
    decreases n,
{
    if n > 0 {
        lemma_same_fields_stay(a, b, c, (n - 1) as nat);
    }
}

/// Copies a type and everything under it.
fn copied_type(t: &DataType) -> (r: DataType)
    ensures
        same_type(*t, r),
    decreases *t, 0nat,
{
    DataType { kind: t.kind, children: copied_fields(&t.children), printed: t.printed.clone() }
}

/// Copies fields and everything under them.
fn copied_fields(fields: &Vec<Field>) -> (r: Vec<Field>)
    ensures
        r@.len() == fields@.len(),
        same_fields(*fields, r, fields@.len()),
    decreases *fields, 1nat,
{
    let mut out: Vec<Field> = Vec::new();
    let mut i: usize = 0;
    while i < fields.len()
        invariant
            0 <= i <= fields@.len(),
            out@.len() == i,
            same_fields(*fields, out, i as nat),
        decreases fields@.len() - i,
    {
        let f = &fields[i];
        let ghost before = out;
        out.push(Field { name: f.name.clone(), data_type: copied_type(&f.data_type) });
        proof {
            lemma_same_fields_stay(*fields, before, out, i as nat);
        }
        i = i + 1;
    }
    out
}

impl Clone for DataType {
    /// The same type.
    fn clone(&self) -> (r: Self)
        ensures
            same_type(*self, r),
    {
        copied_type(self)
    }
}

impl Clone for Field {
    /// The same field.
    fn clone(&self) -> (r: Self)
        ensures
            r.name@ == self.name@,
            same_type(self.data_type, r.data_type),
    {
        Field { name: self.name.clone(), data_type: copied_type(&self.data_type) }
    }
}

impl Clone for Schema {
    /// The same columns.
    fn clone(&self) -> (r: Self)
        ensures
            r.fields@.len() == self.fields@.len(),
            same_fields(self.fields, r.fields, self.fields@.len()),
    {
        Schema { fields: copied_fields(&self.fields) }
    }
}

} // verus!
