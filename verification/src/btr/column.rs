//! What comes out of a chunk.
use vstd::prelude::*;
use vstd::std_specs::cmp::PartialEqSpecImpl;

use crate::bytes::same;

verus! {

/// A decoded chunk, one variant per column type.
///
/// The values for null rows are whatever the scheme put there. The nullmap says which rows meant
/// anything.
#[derive(Debug, Clone)]
pub enum Column {
    /// A column of signed 32 bit integers, one per row.
    Integer(Vec<i32>),
    /// A column of doubles, one per row, each as its IEEE 754 bit pattern.
    Double(Vec<u64>),
    /// A column of byte strings, one per row.
    Text(Strings),
}

/// What a [`Column`] holds.
pub ghost enum ColumnView {
    /// Integers.
    Integer(Seq<i32>),
    /// Bit patterns of doubles.
    Double(Seq<u64>),
    /// Byte strings.
    Text(StringsView),
}

impl View for Column {
    type V = ColumnView;

    open spec fn view(&self) -> ColumnView {
        match self {
            Column::Integer(v) => ColumnView::Integer(v@),
            Column::Double(v) => ColumnView::Double(v@),
            Column::Text(v) => ColumnView::Text(v@),
        }
    }
}

/// Whether a bit pattern stands for no number.
pub open spec fn not_a_number(bits: u64) -> bool {
    bits % 0x8000_0000_0000_0000 > 0x7FF0_0000_0000_0000
}

/// Whether two bit patterns stand for the same number. There are two zeros, and what is no number is
/// not even itself.
pub open spec fn same_number(a: u64, b: u64) -> bool {
    &&& !not_a_number(a)
    &&& !not_a_number(b)
    &&& a == b || (a % 0x8000_0000_0000_0000 == 0 && b % 0x8000_0000_0000_0000 == 0)
}

/// A bit pattern is no number exactly when its eleven bits of exponent are all set and its fifty two bits
/// of fraction are not all clear. Any other is the same number as itself, and as another exactly when
/// both are zeros, whatever their sign.
pub proof fn lemma_same_number(a: u64, b: u64)
    ensures
        not_a_number(a) <==> (a / 0x10_0000_0000_0000) % 0x800 == 0x7FF && a % 0x10_0000_0000_0000
            != 0,
        same_number(a, a) <==> !not_a_number(a),
        same_number(a, b) == same_number(b, a),
        not_a_number(a) || not_a_number(b) ==> !same_number(a, b),
        a != b && same_number(a, b) ==> (a == 0 || a == 0x8000_0000_0000_0000) && (b == 0 || b
            == 0x8000_0000_0000_0000),
        same_number(0, 0x8000_0000_0000_0000),
{
}

/// Whether two columns of doubles are the same row by row.
pub open spec fn same_numbers(a: Seq<u64>, b: Seq<u64>) -> bool {
    a.len() == b.len() && forall|i: int|
        0 <= i < a.len() ==> same_number(#[trigger] a[i], b[i])
}

impl ColumnView {
    /// Whether two columns are the same, doubles being compared as numbers.
    pub open spec fn same(self, other: ColumnView) -> bool {
        match (self, other) {
            (ColumnView::Integer(a), ColumnView::Integer(b)) => a == b,
            (ColumnView::Double(a), ColumnView::Double(b)) => same_numbers(a, b),
            (ColumnView::Text(a), ColumnView::Text(b)) => a == b,
            _ => false,
        }
    }
}

/// Whether two lists of integers are the same.
fn same_integers(a: &Vec<i32>, b: &Vec<i32>) -> (r: bool)
    ensures
        r == (a@ == b@),
{
    if a.len() != b.len() {
        return false;
    }
    let mut i: usize = 0;
    while i < a.len()
        invariant
            0 <= i <= a@.len(),
            a@.len() == b@.len(),
            forall|j: int| 0 <= j < i ==> a@[j] == b@[j],
        decreases a@.len() - i,
    {
        if a[i] != b[i] {
            return false;
        }
        i = i + 1;
    }
    assert(a@ =~= b@);
    true
}

/// Whether two lists of bit patterns stand for the same numbers.
fn same_doubles(a: &Vec<u64>, b: &Vec<u64>) -> (r: bool)
    ensures
        r == same_numbers(a@, b@),
{
    if a.len() != b.len() {
        return false;
    }
    let mut i: usize = 0;
    while i < a.len()
        invariant
            0 <= i <= a@.len(),
            a@.len() == b@.len(),
            forall|j: int| 0 <= j < i ==> same_number(#[trigger] a@[j], b@[j]),
        decreases a@.len() - i,
    {
        let p: u64 = a[i] % 0x8000_0000_0000_0000;
        let q: u64 = b[i] % 0x8000_0000_0000_0000;
        if p > 0x7FF0_0000_0000_0000 || q > 0x7FF0_0000_0000_0000 || (a[i] != b[i] && (p != 0 || q
            != 0)) {
            assert(!same_number(a@[i as int], b@[i as int]));
            return false;
        }
        i = i + 1;
    }
    true
}

impl PartialEq for Column {
    /// Whether two columns hold the same, doubles being compared as numbers.
    fn eq(&self, other: &Self) -> (r: bool) {
        match (self, other) {
            (Column::Integer(a), Column::Integer(b)) => same_integers(a, b),
            (Column::Double(a), Column::Double(b)) => same_doubles(a, b),
            (Column::Text(a), Column::Text(b)) => a.same(b),
            _ => false,
        }
    }
}

impl PartialEqSpecImpl for Column {
    open spec fn obeys_eq_spec() -> bool {
        true
    }

    open spec fn eq_spec(&self, other: &Self) -> bool {
        self@.same(other@)
    }
}

/// A column of byte strings.
///
/// All the bytes lie in one buffer, with an offset per row plus one on the end, so that every length
/// is a subtraction. The bytes need not be UTF-8.
#[derive(Debug, Clone, PartialEq, Eq)]
pub struct Strings {
    offsets: Vec<u32>,
    bytes: Vec<u8>,
}

/// What a [`Strings`] holds.
pub ghost struct StringsView {
    /// One offset per row, and one on the end.
    pub offsets: Seq<u32>,
    /// Every row's bytes, run together.
    pub bytes: Seq<u8>,
}

impl View for Strings {
    type V = StringsView;

    closed spec fn view(&self) -> StringsView {
        StringsView { offsets: self.offsets@, bytes: self.bytes@ }
    }
}

impl StringsView {
    /// Whether the terminating offset is there.
    pub open spec fn wf(self) -> bool {
        self.offsets.len() > 0
    }

    /// How many rows there are.
    pub open spec fn rows(self) -> int {
        self.offsets.len() - 1
    }

    /// One row, if there is one and its offsets describe bytes that are there.
    pub open spec fn row(self, row: int) -> Option<Seq<u8>> {
        if 0 <= row < self.rows() && self.offsets[row] <= self.offsets[row + 1]
            <= self.bytes.len() {
            Some(self.bytes.subrange(self.offsets[row] as int, self.offsets[row + 1] as int))
        } else {
            None
        }
    }
}

impl Default for Strings {
    /// No offsets and no bytes.
    fn default() -> (r: Self)
        ensures
            r@.offsets == Seq::<u32>::empty(),
            r@.bytes == Seq::<u8>::empty(),
    {
        Strings { offsets: Vec::new(), bytes: Vec::new() }
    }
}

impl Strings {
    /// Builds a column from offsets and bytes.
    ///
    /// There is always one more offset than there are rows, so an empty list of them is a caller that
    /// lost the terminator.
    #[must_use]
    pub fn new(offsets: Vec<u32>, bytes: Vec<u8>) -> (r: Self)
        requires
            offsets@.len() > 0,
        ensures
            r@ == (StringsView { offsets: offsets@, bytes: bytes@ }),
            r@.wf(),
    {
        Strings { offsets, bytes }
    }

    /// How many rows there are.
    #[must_use]
    pub fn len(&self) -> (r: usize)
        requires
            self@.wf(),
        ensures
            r as int == self@.rows(),
    {
        self.offsets.len() - 1
    }

    /// Whether there are no rows.
    #[must_use]
    pub fn is_empty(&self) -> (r: bool)
        requires
            self@.wf(),
        ensures
            r == (self@.rows() == 0),
    {
        self.len() == 0
    }

    /// The offsets, one per row plus one on the end.
    #[must_use]
    pub fn offsets(&self) -> (r: &[u32])
        ensures
            r@ == self@.offsets,
    {
        self.offsets.as_slice()
    }

    /// Every row's bytes, run together.
    #[must_use]
    pub fn bytes(&self) -> (r: &[u8])
        ensures
            r@ == self@.bytes,
    {
        self.bytes.as_slice()
    }

    /// Whether the offsets and the bytes are the same.
    fn same(&self, other: &Strings) -> (r: bool)
        ensures
            r == (self@ == other@),
    {
        if self.offsets.len() != other.offsets.len() {
            return false;
        }
        let mut i: usize = 0;
        while i < self.offsets.len()
            invariant
                0 <= i <= self.offsets@.len(),
                self.offsets@.len() == other.offsets@.len(),
                forall|j: int| 0 <= j < i ==> self.offsets@[j] == other.offsets@[j],
            decreases self.offsets@.len() - i,
        {
            if self.offsets[i] != other.offsets[i] {
                return false;
            }
            i = i + 1;
        }
        assert(self.offsets@ =~= other.offsets@);
        same(self.bytes.as_slice(), other.bytes.as_slice())
    }

    /// One row, or `None` past the end.
    #[must_use]
    pub fn get(&self, row: usize) -> (r: Option<&[u8]>)
        ensures
            match self@.row(row as int) {
                Some(s) => r is Some && r->Some_0@ == s,
                None => r is None,
            },
    {
        if row >= self.offsets.len() || row + 1 >= self.offsets.len() {
            return None;
        }
        let from: usize = self.offsets[row] as usize;
        let to: usize = self.offsets[row + 1] as usize;
        if from > to || to > self.bytes.len() {
            return None;
        }
        Some(&self.bytes.as_slice()[from..to])
    }
}

} // verus!
