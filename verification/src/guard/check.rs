//! The walk that decides whether a batch can be read.
use vstd::prelude::*;
use vstd::string::*;

use crate::abi::message::Node;
use crate::bytes::{bit, le};
use crate::guard::error::{broken, found, Invariant, Result, Violation, ViolationView};
use crate::guard::indirect::{held, read_signed, signed_value};
use crate::guard::layout::{bits_of, layout, offsets_of, slot_bits, unsupported, value_buffers};
use crate::guard::schema::{nested, weight, weights, DataType, Field, Kind, Schema};
use crate::text::{decimal, decimal_text, signed, signed_text};

verus! {

/// How deep a schema is allowed to nest.
///
/// Everything behind the guard walks a schema recursively, so one without a bound is a stack overflow,
/// which a host cannot turn into a failed query.
pub const MAX_DEPTH: usize = 64;

/// The path of a field under another.
pub open spec fn child_path(path: Seq<char>, name: Seq<char>) -> Seq<char> {
    path + "."@ + name
}

/// What a schema that nests too deep is refused with.
pub open spec fn too_deep(path: Seq<char>) -> ViolationView {
    broken(
        Invariant::Depth,
        path,
        "this build walks "@ + decimal_text(MAX_DEPTH as nat)
            + " levels of nesting and this is deeper"@,
    )
}

/// What is wrong with a field and those under it, on their own. A field comes before those under it,
/// and later siblings before earlier ones.
pub open spec fn field_fault(f: Field, depth: nat, path: Seq<char>) -> Option<ViolationView>
    decreases f, 0nat,
{
    if depth > MAX_DEPTH {
        Some(too_deep(path))
    } else if value_buffers(f.data_type.kind) is None {
        Some(unsupported(f.data_type, path))
    } else if nested(f.data_type.kind) {
        children_fault(f.data_type.children, f.data_type.children@.len(), depth + 1, path)
    } else {
        None
    }
}

/// What is wrong with the first `n` fields under a path.
pub open spec fn children_fault(
    fields: Vec<Field>,
    n: nat,
    depth: nat,
    path: Seq<char>,
) -> Option<ViolationView>
    decreases fields, n,
{
    if n == 0 || n > fields@.len() {
        None
    } else {
        let f = fields@[n - 1];
        match field_fault(f, depth, child_path(path, f.name@)) {
            Some(e) => Some(e),
            None => children_fault(fields, (n - 1) as nat, depth, path),
        }
    }
}

/// What is wrong with the first `n` columns of a schema.
pub open spec fn columns_fault(fields: Vec<Field>, n: nat) -> Option<ViolationView>
    decreases n,
{
    if n == 0 || n > fields@.len() {
        None
    } else {
        let f = fields@[n - 1];
        match field_fault(f, 1, f.name@) {
            Some(e) => Some(e),
            None => columns_fault(fields, (n - 1) as nat),
        }
    }
}

/// What is wrong with a schema on its own.
pub open spec fn schema_fault(schema: Schema) -> Option<ViolationView> {
    columns_fault(schema.fields, schema.fields@.len())
}

/// A field still to be looked at.
ghost struct Item {
    field: Field,
    depth: nat,
    path: Seq<char>,
}

/// What is wrong with the fields still to be looked at, the last one first.
spec fn items_fault(items: Seq<Item>) -> Option<ViolationView>
    decreases items.len(),
{
    if items.len() == 0 {
        None
    } else {
        match field_fault(items.last().field, items.last().depth, items.last().path) {
            Some(e) => Some(e),
            None => items_fault(items.drop_last()),
        }
    }
}

/// How many fields there are at and under those still to be looked at.
spec fn items_weight(items: Seq<Item>) -> nat
    decreases items.len(),
{
    if items.len() == 0 {
        0
    } else {
        items_weight(items.drop_last()) + weight(items.last().field)
    }
}

/// The first `n` fields under a path, to be looked at.
spec fn child_items(fields: Vec<Field>, n: nat, depth: nat, path: Seq<char>) -> Seq<Item> {
    Seq::new(
        n,
        |i: int|
            Item { field: fields@[i], depth, path: child_path(path, fields@[i].name@) },
    )
}

/// The first `n` columns, to be looked at.
spec fn column_items(fields: Vec<Field>, n: nat) -> Seq<Item> {
    Seq::new(n, |i: int| Item { field: fields@[i], depth: 1, path: fields@[i].name@ })
}

/// Looking at the fields under a path comes before what was there already.
proof fn lemma_child_items(base: Seq<Item>, fields: Vec<Field>, n: nat, depth: nat, path: Seq<char>)
    requires
        n <= fields@.len(),
    ensures
        items_fault(base + child_items(fields, n, depth, path)) == (match children_fault(
            fields,
            n,
            depth,
            path,
        ) {
            Some(e) => Some(e),
            None => items_fault(base),
        }),
        items_weight(base + child_items(fields, n, depth, path)) == items_weight(base) + weights(
            fields,
            n,
        ),
    decreases n,
{
    let all = base + child_items(fields, n, depth, path);
    if n == 0 {
        assert(all =~= base);
    } else {
        lemma_child_items(base, fields, (n - 1) as nat, depth, path);
        assert(all.drop_last() =~= base + child_items(fields, (n - 1) as nat, depth, path));
    }
}

/// Looking at the columns is looking at the schema.
proof fn lemma_column_items(fields: Vec<Field>, n: nat)
    requires
        n <= fields@.len(),
    ensures
        items_fault(column_items(fields, n)) == columns_fault(fields, n),
    decreases n,
{
    let all = column_items(fields, n);
    if n > 0 {
        lemma_column_items(fields, (n - 1) as nat);
        assert(all.drop_last() =~= column_items(fields, (n - 1) as nat));
    }
}

/// The fields still to be looked at, taken for what they are.
spec fn items_of(work: Seq<(&Field, usize, String)>) -> Seq<Item> {
    Seq::new(
        work.len(),
        |i: int| Item { field: *work[i].0, depth: work[i].1 as nat, path: work[i].2@ },
    )
}

/// Checks a schema on its own, before anything is read against it.
///
/// The walk is a worklist: a recursive depth check would overflow the stack on exactly the input it
/// exists to refuse.
pub fn check_schema(schema: &Schema) -> (r: Result<()>)
    ensures
        found(r, schema_fault(*schema)),
{
    let mut work: Vec<(&Field, usize, String)> = Vec::new();
    let mut i: usize = 0;
    while i < schema.fields.len()
        invariant
            0 <= i <= schema.fields@.len(),
            items_of(work@) == column_items(schema.fields, i as nat),
        decreases schema.fields@.len() - i,
    {
        let field = &schema.fields[i];
        let ghost before = work@;
        work.push((field, 1, field.name.as_str().to_owned()));
        i = i + 1;
        assert(items_of(work@) =~= items_of(before).push(
            Item { field: *field, depth: 1, path: field.name@ },
        ));
        assert(items_of(work@) =~= column_items(schema.fields, i as nat));
    }
    proof {
        lemma_column_items(schema.fields, i as nat);
    }
    while work.len() > 0
        invariant
            schema_fault(*schema) == items_fault(items_of(work@)),
        decreases items_weight(items_of(work@)),
    {
        let ghost before = items_of(work@);
        match work.pop() {
            None => {},
            Some((field, depth, path)) => {
                let ghost base = items_of(work@);
                proof {
                    assert(before.drop_last() =~= base);
                    assert(before.last() == (Item {
                        field: *field,
                        depth: depth as nat,
                        path: path@,
                    }));
                }
                if depth > MAX_DEPTH {
                    let mut s = "this build walks ".to_owned();
                    s.append(decimal(MAX_DEPTH as u64).as_str());
                    s.append(" levels of nesting and this is deeper");
                    return Err(Violation::at(Invariant::Depth, path.as_str(), s));
                }
                let shape = layout(&field.data_type, path.as_str())?;
                let ghost fields = field.data_type.children;
                let mut k: usize = 0;
                assert(base + child_items(fields, 0, (depth + 1) as nat, path@) =~= base);
                while k < shape.children.len()
                    invariant
                        0 <= k <= shape.children@.len(),
                        depth <= MAX_DEPTH,
                        fields == field.data_type.children,
                        shape.children@ == (if nested(field.data_type.kind) {
                            fields@
                        } else {
                            Seq::<Field>::empty()
                        }),
                        items_of(work@) == base + child_items(
                            fields,
                            k as nat,
                            (depth + 1) as nat,
                            path@,
                        ),
                    decreases shape.children@.len() - k,
                {
                    let child = &shape.children[k];
                    let mut name = path.as_str().to_owned();
                    name.append(".");
                    name.append(child.name.as_str());
                    let ghost was = work@;
                    let ghost item = Item {
                        field: *child,
                        depth: (depth + 1) as nat,
                        path: name@,
                    };
                    work.push((child, depth + 1, name));
                    k = k + 1;
                    assert(items_of(work@) =~= items_of(was).push(item));
                    assert(item.path == child_path(path@, child.name@));
                    assert(items_of(work@) =~= base + child_items(
                        fields,
                        k as nat,
                        (depth + 1) as nat,
                        path@,
                    ));
                }
                proof {
                    lemma_child_items(base, fields, k as nat, (depth + 1) as nat, path@);
                    if !nested(field.data_type.kind) {
                        assert(k == 0);
                    }
                }
            },
        }
    }
    Ok(())
}

/// How many of the first `n` bits are clear.
pub open spec fn clear_bits(bitmap: Seq<u8>, n: nat) -> nat
    decreases n,
{
    if n == 0 {
        0
    } else {
        clear_bits(bitmap, (n - 1) as nat) + if bit(
            bitmap[(n - 1) / 8],
            ((n - 1) % 8) as u8,
        ) {
            0nat
        } else {
            1nat
        }
    }
}

/// How many bits there are to look at: the first `len`, or as many as the bitmap has.
pub open spec fn bits_seen(bitmap: Seq<u8>, len: u64) -> nat {
    if len <= 8 * bitmap.len() {
        len as nat
    } else {
        8 * bitmap.len()
    }
}

/// How many of the first `len` bits are clear.
pub fn count_nulls(bitmap: &[u8], len: u64) -> (r: u64)
    ensures
        r == clear_bits(bitmap@, bits_seen(bitmap@, len)),
{
    let mut nulls: u64 = 0;
    let mut seen: u64 = 0;
    let mut byte: usize = 0;
    while byte < bitmap.len() && seen < len
        invariant
            0 <= byte <= bitmap@.len(),
            seen <= len,
            seen == len || seen == 8 * byte,
            seen <= 8 * byte,
            nulls == clear_bits(bitmap@, seen as nat),
            nulls <= seen,
        decreases bitmap@.len() - byte,
    {
        let b: u8 = bitmap[byte];
        let mut k: u8 = 0;
        while k < 8 && seen < len
            invariant
                0 <= k <= 8,
                byte < bitmap@.len(),
                b == bitmap@[byte as int],
                seen <= len,
                seen == 8 * byte + k,
                nulls == clear_bits(bitmap@, seen as nat),
                nulls <= seen,
            decreases 8 - k,
        {
            if (b >> k) & 1u8 != 1u8 {
                nulls = nulls + 1;
            }
            seen = seen + 1;
            k = k + 1;
        }
        byte = byte + 1;
    }
    nulls
}

/// How many bytes hold some bits.
pub open spec fn bytes_for(bits: int) -> int {
    (bits + 7) / 8
}

/// What is wrong with a validity bitmap. An empty one means every slot is present.
pub open spec fn validity_fault(
    bitmap: Seq<u8>,
    len: u64,
    null_count: u64,
    path: Seq<char>,
) -> Option<ViolationView> {
    let counted = clear_bits(bitmap, bits_seen(bitmap, len));
    if bitmap.len() == 0 {
        if null_count != 0 {
            Some(
                broken(
                    Invariant::NullCount,
                    path,
                    "there is no validity buffer and this array says it has "@ + decimal_text(
                        null_count as nat,
                    ) + " nulls"@,
                ),
            )
        } else {
            None
        }
    } else if bitmap.len() < bytes_for(len as int) {
        Some(
            broken(
                Invariant::Validity,
                path,
                decimal_text(len as nat) + " slots need "@ + decimal_text(
                    bytes_for(len as int) as nat,
                ) + " bytes of validity and there are "@ + decimal_text(bitmap.len()),
            ),
        )
    } else if counted != null_count {
        Some(
            broken(
                Invariant::NullCount,
                path,
                "this array says it has "@ + decimal_text(null_count as nat)
                    + " nulls and its bitmap has "@ + decimal_text(counted),
            ),
        )
    } else {
        None
    }
}

/// Checks a validity bitmap against the length and the null count that were declared beside it.
fn check_validity(bitmap: &[u8], len: u64, null_count: u64, path: &str) -> (r: Result<()>)
    ensures
        found(r, validity_fault(bitmap@, len, null_count, path@)),
{
    if bitmap.len() == 0 {
        if null_count != 0 {
            let mut s = "there is no validity buffer and this array says it has ".to_owned();
            s.append(decimal(null_count).as_str());
            s.append(" nulls");
            return Err(Violation::at(Invariant::NullCount, path, s));
        }
        return Ok(());
    }
    let needed: u64 = if len % 8 == 0 {
        len / 8
    } else {
        len / 8 + 1
    };
    let have: u64 = bitmap.len() as u64;
    if have < needed {
        let mut s = decimal(len);
        s.append(" slots need ");
        s.append(decimal(needed).as_str());
        s.append(" bytes of validity and there are ");
        s.append(decimal(have).as_str());
        return Err(Violation::at(Invariant::Validity, path, s));
    }
    let counted: u64 = count_nulls(bitmap, len);
    if counted != null_count {
        let mut s = "this array says it has ".to_owned();
        s.append(decimal(null_count).as_str());
        s.append(" nulls and its bitmap has ");
        s.append(decimal(counted).as_str());
        return Err(Violation::at(Invariant::NullCount, path, s));
    }
    Ok(())
}

/// One offset.
pub open spec fn offset_at(offsets: Seq<u8>, width: nat, i: int) -> int {
    signed_value(le(offsets.subrange(i * width, i * width + width)), width)
}

/// What is wrong with one offset, given the one before it.
pub open spec fn offset_fault(
    offsets: Seq<u8>,
    width: nat,
    i: int,
    path: Seq<char>,
) -> Option<ViolationView> {
    let offset = offset_at(offsets, width, i);
    let previous = offset_at(offsets, width, i - 1);
    if offset < 0 {
        Some(
            broken(
                Invariant::OffsetRange,
                path,
                "offset "@ + decimal_text(i as nat) + " is "@ + signed_text(offset)
                    + ", and an offset is a position"@,
            ),
        )
    } else if i > 0 && offset < previous {
        Some(
            broken(
                Invariant::OffsetOrder,
                path,
                "offset "@ + decimal_text(i as nat) + " is "@ + signed_text(offset)
                    + " and the one before it is "@ + signed_text(previous),
            ),
        )
    } else {
        None
    }
}

/// What is wrong with the first bad one of the first `n` offsets.
pub open spec fn offsets_fault(
    offsets: Seq<u8>,
    width: nat,
    n: nat,
    path: Seq<char>,
) -> Option<ViolationView>
    decreases n,
{
    if n == 0 {
        None
    } else {
        match offsets_fault(offsets, width, (n - 1) as nat, path) {
            Some(e) => Some(e),
            None => offset_fault(offsets, width, n - 1, path),
        }
    }
}

/// Where a run of offsets ends, or what is wrong with it. There is one more offset than there are
/// slots, except that an array with no slots may have no offsets at all.
pub open spec fn offsets_end(
    offsets: Seq<u8>,
    len: u64,
    width: nat,
    path: Seq<char>,
) -> core::result::Result<u64, ViolationView> {
    let entries = (len + 1) as nat;
    let needed = (entries * width) as nat;
    if len == 0 && offsets.len() == 0 {
        Ok(0)
    } else if needed > u64::MAX {
        Err(
            broken(
                Invariant::Size,
                path,
                decimal_text(entries) + " offsets of "@ + decimal_text(width)
                    + " bytes is more than this host can address"@,
            ),
        )
    } else if offsets.len() < needed {
        Err(
            broken(
                Invariant::BufferLength,
                path,
                decimal_text(len as nat) + " slots need "@ + decimal_text(needed)
                    + " bytes of offsets and there are "@ + decimal_text(offsets.len()),
            ),
        )
    } else {
        match offsets_fault(offsets, width, entries, path) {
            Some(e) => Err(e),
            None => Ok(offset_at(offsets, width, len as int) as u64),
        }
    }
}

/// A fault early on is the fault of the whole run.
proof fn lemma_offsets_fault_stays(
    offsets: Seq<u8>,
    width: nat,
    k: nat,
    n: nat,
    path: Seq<char>,
)
    requires
        k <= n,
        offsets_fault(offsets, width, k, path) is Some,
    ensures
        offsets_fault(offsets, width, n, path) == offsets_fault(offsets, width, k, path),
    decreases n,
{
    if k < n {
        lemma_offsets_fault_stays(offsets, width, k, (n - 1) as nat, path);
    }
}

/// One more than a length, as text.
fn one_more(len: u64) -> (r: String)
    ensures
        r@ == decimal_text((len + 1) as nat),
{
    let mut s = decimal(len / 10 + (if len % 10 == 9 {
        1
    } else {
        0
    }));
    let last: u64 = if len % 10 == 9 {
        0
    } else {
        len % 10 + 1
    };
    if len < 9 {
        return decimal(last);
    }
    let tail = decimal(last);
    let ghost before = s@;
    s.append(tail.as_str());
    proof {
        let n = (len + 1) as nat;
        assert(n / 10 == (len / 10 + (if len % 10 == 9 {
            1int
        } else {
            0int
        })));
        assert(n % 10 == last as nat);
        assert(decimal_text(last as nat) == seq![crate::text::digit_char(last as nat)]);
        assert(s@ =~= before.push(crate::text::digit_char(n % 10)));
    }
    s
}

/// How many bytes the offsets of an array take, if that fits.
fn offsets_needed(len: u64, width: u64) -> (r: Option<u64>)
    requires
        width == 4 || width == 8,
    ensures
        (len + 1) * width > u64::MAX ==> r is None,
        (len + 1) * width <= u64::MAX ==> r is Some && r->Some_0 == (len + 1) * width && len + 1
            <= u64::MAX,
{
    if len == u64::MAX {
        None
    } else {
        product(len + 1, width)
    }
}

/// Checks that a run of offsets is ordered, in range and long enough, and returns the last one.
///
/// What the last one has to be inside is for the caller to say: a byte count for a string, and a slot
/// count for a list.
fn check_offsets(offsets: &[u8], len: u64, width: u64, path: &str) -> (r: Result<u64>)
    requires
        width == 4 || width == 8,
    ensures
        match offsets_end(offsets@, len, width as nat, path@) {
            Ok(last) => r is Ok && r->Ok_0 == last,
            Err(e) => r is Err && r->Err_0@ == e,
        },
{
    if len == 0 && offsets.len() == 0 {
        return Ok(0);
    }
    let needed: u64 = match offsets_needed(len, width) {
        Some(needed) => needed,
        None => {
            let mut s = one_more(len);
            s.append(" offsets of ");
            s.append(decimal(width).as_str());
            s.append(" bytes is more than this host can address");
            return Err(Violation::at(Invariant::Size, path, s));
        },
    };
    let have: u64 = offsets.len() as u64;
    if have < needed {
        let mut s = decimal(len);
        s.append(" slots need ");
        s.append(decimal(needed).as_str());
        s.append(" bytes of offsets and there are ");
        s.append(decimal(have).as_str());
        return Err(Violation::at(Invariant::BufferLength, path, s));
    }
    assert(len + 1 <= (len + 1) * width) by (nonlinear_arith)
        requires
            width >= 1,
    ;
    check_order(offsets, (len + 1) as usize, width as usize, path)
}

/// Checks that the first `count` offsets are positions that never run backwards, and returns the last
/// one.
fn check_order(offsets: &[u8], count: usize, wide: usize, path: &str) -> (r: Result<u64>)
    requires
        wide == 4 || wide == 8,
        0 < count,
        count * wide <= offsets@.len(),
    ensures
        match offsets_fault(offsets@, wide as nat, count as nat, path@) {
            Some(e) => r is Err && r->Err_0@ == e,
            None => r is Ok && r->Ok_0 == offset_at(offsets@, wide as nat, count - 1),
        },
{
    let total: usize = offsets.len();
    let mut previous: i64 = 0;
    let mut index: usize = 0;
    while index < count
        invariant
            0 <= index <= count,
            0 < count,
            wide == 4 || wide == 8,
            total == offsets@.len(),
            count * wide <= total,
            index > 0 ==> previous == offset_at(offsets@, wide as nat, index - 1),
            index > 0 ==> previous >= 0,
            offsets_fault(offsets@, wide as nat, index as nat, path@) is None,
        decreases count - index,
    {
        assert(index * wide + wide <= count * wide) by (nonlinear_arith)
            requires
                index < count,
        ;
        proof {
            if offsets_fault(offsets@, wide as nat, (index + 1) as nat, path@) is Some {
                lemma_offsets_fault_stays(
                    offsets@,
                    wide as nat,
                    (index + 1) as nat,
                    count as nat,
                    path@,
                );
            }
        }
        let at: usize = index * wide;
        let offset: i64 = read_signed(&offsets[at..at + wide]);
        if offset < 0 {
            let mut s = "offset ".to_owned();
            s.append(decimal(index as u64).as_str());
            s.append(" is ");
            s.append(signed(offset).as_str());
            s.append(", and an offset is a position");
            return Err(Violation::at(Invariant::OffsetRange, path, s));
        }
        if index > 0 && offset < previous {
            let mut s = "offset ".to_owned();
            s.append(decimal(index as u64).as_str());
            s.append(" is ");
            s.append(signed(offset).as_str());
            s.append(" and the one before it is ");
            s.append(signed(previous).as_str());
            return Err(Violation::at(Invariant::OffsetOrder, path, s));
        }
        previous = offset;
        index = index + 1;
    }
    Ok(previous as u64)
}

/// What is wrong with a string or binary column: offsets into a buffer of bytes.
pub open spec fn variable_fault(
    width: nat,
    len: u64,
    offsets: Seq<u8>,
    have: nat,
    path: Seq<char>,
) -> Option<ViolationView> {
    match offsets_end(offsets, len, width, path) {
        Err(e) => Some(e),
        Ok(last) => if last > have {
            Some(
                broken(
                    Invariant::OffsetRange,
                    path,
                    "the last offset is "@ + decimal_text(last as nat)
                        + " and the values buffer is "@ + decimal_text(have) + " bytes"@,
                ),
            )
        } else {
            None
        },
    }
}

/// What is wrong with a list or a map: offsets into a child's slots.
pub open spec fn list_fault(
    width: nat,
    len: u64,
    offsets: Seq<u8>,
    child: u64,
    path: Seq<char>,
) -> Option<ViolationView> {
    match offsets_end(offsets, len, width, path) {
        Err(e) => Some(e),
        Ok(last) => if last > child {
            Some(
                broken(
                    Invariant::OffsetRange,
                    path,
                    "the last offset is "@ + decimal_text(last as nat)
                        + " and the child array has "@ + decimal_text(child as nat) + " slots"@,
                ),
            )
        } else {
            None
        },
    }
}

/// What is wrong with a fixed size list: no offsets, so the whole check is the multiplication.
pub open spec fn fixed_list_fault(
    len: u64,
    size: i32,
    child: u64,
    path: Seq<char>,
) -> Option<ViolationView> {
    if size < 0 {
        Some(
            broken(
                Invariant::ChildLength,
                path,
                "a fixed size list cannot hold "@ + signed_text(size as int) + " values a row"@,
            ),
        )
    } else if len * size > u64::MAX {
        Some(
            broken(
                Invariant::Size,
                path,
                decimal_text(len as nat) + " rows of "@ + decimal_text(size as nat)
                    + " values is more than this host can address"@,
            ),
        )
    } else if child < len * size {
        Some(
            broken(
                Invariant::ChildLength,
                path,
                decimal_text(len as nat) + " rows of "@ + decimal_text(size as nat)
                    + " values need "@ + decimal_text((len * size) as nat)
                    + " slots and the child has "@ + decimal_text(child as nat),
            ),
        )
    } else {
        None
    }
}

/// What is wrong with a struct: the first of its first `n` children that is shorter than it.
pub open spec fn struct_fault(
    fields: Seq<Field>,
    lengths: Seq<u64>,
    len: u64,
    n: nat,
    path: Seq<char>,
) -> Option<ViolationView>
    decreases n,
{
    if n == 0 {
        None
    } else {
        match struct_fault(fields, lengths, len, (n - 1) as nat, path) {
            Some(e) => Some(e),
            None => if lengths[n - 1] < len {
                Some(
                    broken(
                        Invariant::ChildLength,
                        path,
                        "this struct has "@ + decimal_text(len as nat) + " rows and its "@
                            + fields[n - 1].name@ + " field has "@ + decimal_text(
                            lengths[n - 1] as nat,
                        ),
                    ),
                )
            } else {
                None
            },
        }
    }
}

/// What is wrong with a column whose slots are all the same width.
pub open spec fn fixed_fault(
    data_type: DataType,
    len: u64,
    have: nat,
    path: Seq<char>,
) -> Option<ViolationView> {
    match bits_of(data_type.kind) {
        None => Some(
            broken(
                Invariant::Unsupported,
                path,
                "this build does not know how wide a "@ + data_type.printed@ + " slot is"@,
            ),
        ),
        Some(bits) => if len * bits > u64::MAX {
            Some(
                broken(
                    Invariant::Size,
                    path,
                    decimal_text(len as nat) + " slots of "@ + decimal_text(bits as nat)
                        + " bits is more than this host can address"@,
                ),
            )
        } else if have < bytes_for(len * bits) {
            Some(
                broken(
                    Invariant::BufferLength,
                    path,
                    decimal_text(len as nat) + " slots of "@ + decimal_text(bits as nat)
                        + " bits need "@ + decimal_text(bytes_for(len * bits) as nat)
                        + " bytes and there are "@ + decimal_text(have),
                ),
            )
        } else {
            None
        },
    }
}

/// What is wrong with the buffers an array takes for itself, once its children are known.
pub open spec fn values_fault(
    data_type: DataType,
    len: u64,
    buffers: Seq<Seq<u8>>,
    lengths: Seq<u64>,
    path: Seq<char>,
) -> Option<ViolationView> {
    let child = if lengths.len() > 0 {
        lengths[0]
    } else {
        0
    };
    match data_type.kind {
        Kind::Null => None,
        Kind::Utf8 | Kind::Binary | Kind::LargeUtf8 | Kind::LargeBinary => variable_fault(
            offsets_of(data_type.kind)->Some_0 as nat,
            len,
            buffers[0],
            buffers[1].len(),
            path,
        ),
        Kind::List | Kind::LargeList | Kind::Mapping => list_fault(
            offsets_of(data_type.kind)->Some_0 as nat,
            len,
            buffers[0],
            child,
            path,
        ),
        Kind::FixedSizeList(size) => fixed_list_fault(len, size, child, path),
        Kind::Struct => struct_fault(
            data_type.children@,
            lengths,
            len,
            lengths.len(),
            path,
        ),
        _ => fixed_fault(data_type, len, buffers[0].len(), path),
    }
}

/// A string or a binary column.
fn check_variable(width: u64, len: u64, offsets: &[u8], have: usize, path: &str) -> (r: Result<()>)
    requires
        width == 4 || width == 8,
    ensures
        found(r, variable_fault(width as nat, len, offsets@, have as nat, path@)),
{
    let last: u64 = check_offsets(offsets, len, width, path)?;
    if last > have as u64 {
        let mut s = "the last offset is ".to_owned();
        s.append(decimal(last).as_str());
        s.append(" and the values buffer is ");
        s.append(decimal(have as u64).as_str());
        s.append(" bytes");
        return Err(Violation::at(Invariant::OffsetRange, path, s));
    }
    Ok(())
}

/// A list or a map.
fn check_list(width: u64, len: u64, offsets: &[u8], child: u64, path: &str) -> (r: Result<()>)
    requires
        width == 4 || width == 8,
    ensures
        found(r, list_fault(width as nat, len, offsets@, child, path@)),
{
    let last: u64 = check_offsets(offsets, len, width, path)?;
    if last > child {
        let mut s = "the last offset is ".to_owned();
        s.append(decimal(last).as_str());
        s.append(" and the child array has ");
        s.append(decimal(child).as_str());
        s.append(" slots");
        return Err(Violation::at(Invariant::OffsetRange, path, s));
    }
    Ok(())
}

/// More than a quotient is more than what was divided.
proof fn lemma_over(a: u64, b: u64)
    requires
        b > 0,
    ensures
        a > u64::MAX / b ==> a * b > u64::MAX,
        a <= u64::MAX / b ==> a * b <= u64::MAX,
{
    assert(a > u64::MAX / b ==> a * b > u64::MAX) by (nonlinear_arith)
        requires
            b > 0,
    ;
    assert(a <= u64::MAX / b ==> a * b <= u64::MAX) by (nonlinear_arith)
        requires
            b > 0,
    ;
}

/// A product, if it fits.
fn product(a: u64, b: u64) -> (r: Option<u64>)
    ensures
        a * b > u64::MAX ==> r is None,
        a * b <= u64::MAX ==> r is Some && r->Some_0 == a * b,
{
    if b == 0 {
        assert(a * b == 0) by (nonlinear_arith)
            requires
                b == 0,
        ;
        return Some(0);
    }
    proof {
        lemma_over(a, b);
    }
    if a > u64::MAX / b {
        None
    } else {
        Some(a * b)
    }
}

/// A fixed size list.
fn check_fixed_size_list(len: u64, size: i32, child: u64, path: &str) -> (r: Result<()>)
    ensures
        found(r, fixed_list_fault(len, size, child, path@)),
{
    if size < 0 {
        let mut s = "a fixed size list cannot hold ".to_owned();
        s.append(signed(size as i64).as_str());
        s.append(" values a row");
        return Err(Violation::at(Invariant::ChildLength, path, s));
    }
    match product(len, size as u64) {
        None => {
            let mut s = decimal(len);
            s.append(" rows of ");
            s.append(decimal(size as u64).as_str());
            s.append(" values is more than this host can address");
            Err(Violation::at(Invariant::Size, path, s))
        },
        Some(needed) => {
            if child < needed {
                let mut s = decimal(len);
                s.append(" rows of ");
                s.append(decimal(size as u64).as_str());
                s.append(" values need ");
                s.append(decimal(needed).as_str());
                s.append(" slots and the child has ");
                s.append(decimal(child).as_str());
                return Err(Violation::at(Invariant::ChildLength, path, s));
            }
            Ok(())
        },
    }
}

/// A column whose slots are all the same width.
fn check_fixed_width(data_type: &DataType, len: u64, have: usize, path: &str) -> (r: Result<()>)
    ensures
        found(r, fixed_fault(*data_type, len, have as nat, path@)),
{
    match slot_bits(data_type.kind) {
        None => {
            let mut s = "this build does not know how wide a ".to_owned();
            s.append(data_type.printed.as_str());
            s.append(" slot is");
            Err(Violation::at(Invariant::Unsupported, path, s))
        },
        Some(bits) => match product(len, bits) {
            None => {
                let mut s = decimal(len);
                s.append(" slots of ");
                s.append(decimal(bits).as_str());
                s.append(" bits is more than this host can address");
                Err(Violation::at(Invariant::Size, path, s))
            },
            Some(total) => {
                let needed: u64 = if total % 8 == 0 {
                    total / 8
                } else {
                    total / 8 + 1
                };
                if (have as u64) < needed {
                    let mut s = decimal(len);
                    s.append(" slots of ");
                    s.append(decimal(bits).as_str());
                    s.append(" bits need ");
                    s.append(decimal(needed).as_str());
                    s.append(" bytes and there are ");
                    s.append(decimal(have as u64).as_str());
                    return Err(Violation::at(Invariant::BufferLength, path, s));
                }
                Ok(())
            },
        },
    }
}

/// A fault early on is the fault of the whole struct.
proof fn lemma_struct_fault_stays(
    fields: Seq<Field>,
    lengths: Seq<u64>,
    len: u64,
    k: nat,
    n: nat,
    path: Seq<char>,
)
    requires
        k <= n,
        struct_fault(fields, lengths, len, k, path) is Some,
    ensures
        struct_fault(fields, lengths, len, n, path) == struct_fault(fields, lengths, len, k, path),
    decreases n,
{
    if k < n {
        lemma_struct_fault_stays(fields, lengths, len, k, (n - 1) as nat, path);
    }
}

/// A struct, whose fields are read by its own length.
fn check_struct(fields: &[Field], lengths: &Vec<u64>, len: u64, path: &str) -> (r: Result<()>)
    requires
        lengths@.len() == fields@.len(),
    ensures
        found(r, struct_fault(fields@, lengths@, len, lengths@.len(), path@)),
{
    let mut i: usize = 0;
    while i < lengths.len()
        invariant
            0 <= i <= lengths@.len(),
            lengths@.len() == fields@.len(),
            struct_fault(fields@, lengths@, len, i as nat, path@) is None,
        decreases lengths@.len() - i,
    {
        proof {
            if struct_fault(fields@, lengths@, len, (i + 1) as nat, path@) is Some {
                lemma_struct_fault_stays(
                    fields@,
                    lengths@,
                    len,
                    (i + 1) as nat,
                    lengths@.len(),
                    path@,
                );
            }
        }
        if lengths[i] < len {
            let mut s = "this struct has ".to_owned();
            s.append(decimal(len).as_str());
            s.append(" rows and its ");
            s.append(fields[i].name.as_str());
            s.append(" field has ");
            s.append(decimal(lengths[i]).as_str());
            return Err(Violation::at(Invariant::ChildLength, path, s));
        }
        i = i + 1;
    }
    Ok(())
}

/// Slices, taken for what they hold.
pub open spec fn seen(slices: Seq<&[u8]>) -> Seq<Seq<u8>> {
    Seq::new(slices.len(), |i: int| slices[i]@)
}

/// Checks the buffers an array takes for itself, once its children are known.
fn check_values(
    data_type: &DataType,
    len: u64,
    buffers: &Vec<&[u8]>,
    lengths: &Vec<u64>,
    path: &str,
) -> (r: Result<()>)
    requires
        value_buffers(data_type.kind) == Some(buffers@.len() as usize),
        nested(data_type.kind) ==> lengths@.len() == data_type.children@.len(),
        !nested(data_type.kind) ==> lengths@.len() == 0,
    ensures
        found(r, values_fault(*data_type, len, seen(buffers@), lengths@, path@)),
{
    let child: u64 = if lengths.len() > 0 {
        lengths[0]
    } else {
        0
    };
    match data_type.kind {
        Kind::Null => Ok(()),
        Kind::Utf8 | Kind::Binary => check_variable(4, len, buffers[0], buffers[1].len(), path),
        Kind::LargeUtf8 | Kind::LargeBinary => check_variable(
            8,
            len,
            buffers[0],
            buffers[1].len(),
            path,
        ),
        Kind::List | Kind::Mapping => check_list(4, len, buffers[0], child, path),
        Kind::LargeList => check_list(8, len, buffers[0], child, path),
        Kind::FixedSizeList(size) => check_fixed_size_list(len, size, child, path),
        Kind::Struct => check_struct(data_type.children.as_slice(), lengths, len, path),
        _ => check_fixed_width(data_type, len, buffers[0].len(), path),
    }
}

/// The two flat lists of a batch.
pub ghost struct Lists {
    /// One entry per array.
    pub nodes: Seq<Node>,
    /// One entry per buffer.
    pub buffers: Seq<Seq<u8>>,
}

/// A position in them.
pub ghost struct Place {
    /// The next array.
    pub node: int,
    /// The next buffer.
    pub buffer: int,
}

/// What a batch with too few arrays is refused with.
pub open spec fn no_more_arrays(b: Lists, path: Seq<char>) -> ViolationView {
    broken(
        Invariant::Arrays,
        path,
        "the schema calls for more arrays than the batch has, which is "@ + decimal_text(
            b.nodes.len(),
        ),
    )
}

/// What a batch with too few buffers is refused with.
pub open spec fn no_more_buffers(b: Lists, path: Seq<char>) -> ViolationView {
    broken(
        Invariant::Buffers,
        path,
        "the schema calls for more buffers than the batch has, which is "@ + decimal_text(
            b.buffers.len(),
        ),
    )
}

/// What is wrong with the validity of an array, whose buffer, if it has one, is the next one.
pub open spec fn head_fault(
    data_type: DataType,
    node: Node,
    b: Lists,
    at: int,
    path: Seq<char>,
) -> Option<ViolationView> {
    if data_type.kind != Kind::Null {
        if at >= b.buffers.len() {
            Some(no_more_buffers(b, path))
        } else {
            validity_fault(b.buffers[at], node.length, node.null_count, path)
        }
    } else if node.null_count != 0 {
        Some(
            broken(
                Invariant::NullCount,
                path,
                "a "@ + data_type.printed@
                    + " column has no validity buffer and this one says it has "@ + decimal_text(
                    node.null_count as nat,
                ) + " nulls"@,
            ),
        )
    } else {
        None
    }
}

/// Where the buffers an array takes for itself start, behind its validity buffer.
pub open spec fn values_at(data_type: DataType, at: Place) -> int {
    if data_type.kind != Kind::Null {
        at.buffer + 1
    } else {
        at.buffer
    }
}

/// How long an array is and where those behind it start, or what is wrong with it or those under it.
pub open spec fn walk(f: Field, path: Seq<char>, b: Lists, at: Place) -> core::result::Result<
    (u64, Place),
    ViolationView,
>
    decreases f, 0nat,
{
    let data_type = f.data_type;
    let node = b.nodes[at.node];
    let from = values_at(data_type, at);
    if at.node >= b.nodes.len() {
        Err(no_more_arrays(b, path))
    } else if value_buffers(data_type.kind) is None {
        Err(unsupported(data_type, path))
    } else if head_fault(data_type, node, b, at.buffer, path) is Some {
        Err(head_fault(data_type, node, b, at.buffer, path)->Some_0)
    } else if from + value_buffers(data_type.kind)->Some_0 > b.buffers.len() {
        Err(no_more_buffers(b, path))
    } else {
        let to = from + value_buffers(data_type.kind)->Some_0;
        let inside = Place { node: at.node + 1, buffer: to };
        let under = if nested(data_type.kind) {
            walk_children(data_type.children, data_type.children@.len(), path, b, inside)
        } else {
            Ok((Seq::empty(), inside))
        };
        match under {
            Err(e) => Err(e),
            Ok((lengths, after)) => match values_fault(
                data_type,
                node.length,
                b.buffers.subrange(from, to),
                lengths,
                path,
            ) {
                Some(e) => Err(e),
                None => Ok((node.length, after)),
            },
        }
    }
}

/// How long the first `n` arrays under another are and where those behind them start.
pub open spec fn walk_children(
    fields: Vec<Field>,
    n: nat,
    path: Seq<char>,
    b: Lists,
    at: Place,
) -> core::result::Result<(Seq<u64>, Place), ViolationView>
    decreases fields, n,
{
    if n == 0 || n > fields@.len() {
        Ok((Seq::empty(), at))
    } else {
        match walk_children(fields, (n - 1) as nat, path, b, at) {
            Err(e) => Err(e),
            Ok((lengths, next)) => {
                let f = fields@[n - 1];
                match walk(f, child_path(path, f.name@), b, next) {
                    Err(e) => Err(e),
                    Ok((len, after)) => Ok((lengths.push(len), after)),
                }
            },
        }
    }
}

/// Where the arrays behind the first `n` columns start, or what is wrong with those columns.
pub open spec fn walk_columns(fields: Seq<Field>, n: nat, rows: u64, b: Lists) -> core::result::Result<
    Place,
    ViolationView,
>
    decreases n,
{
    if n == 0 {
        Ok(Place { node: 0, buffer: 0 })
    } else {
        match walk_columns(fields, (n - 1) as nat, rows, b) {
            Err(e) => Err(e),
            Ok(at) => {
                let f = fields[n - 1];
                match walk(f, f.name@, b, at) {
                    Err(e) => Err(e),
                    Ok((len, after)) => if len != rows {
                        Err(
                            broken(
                                Invariant::Rows,
                                f.name@,
                                "the batch says "@ + decimal_text(rows as nat)
                                    + " rows and this column has "@ + decimal_text(len as nat),
                            ),
                        )
                    } else {
                        Ok(after)
                    },
                }
            },
        }
    }
}

/// What is wrong with a batch that has something left over.
pub open spec fn leftover_fault(b: Lists, at: Place) -> Option<ViolationView> {
    if at.node != b.nodes.len() {
        Some(
            broken(
                Invariant::Arrays,
                Seq::empty(),
                "the batch has "@ + decimal_text(b.nodes.len())
                    + " arrays and the schema accounts for "@ + decimal_text(at.node as nat),
            ),
        )
    } else if at.buffer != b.buffers.len() {
        Some(
            broken(
                Invariant::Buffers,
                Seq::empty(),
                "the batch has "@ + decimal_text(b.buffers.len())
                    + " buffers and the schema accounts for "@ + decimal_text(at.buffer as nat),
            ),
        )
    } else {
        None
    }
}

/// What is wrong with a batch.
pub open spec fn batch_fault(schema: Schema, rows: u64, b: Lists) -> Option<ViolationView> {
    match schema_fault(schema) {
        Some(e) => Some(e),
        None => match walk_columns(schema.fields@, schema.fields@.len(), rows, b) {
            Err(e) => Some(e),
            Ok(at) => leftover_fault(b, at),
        },
    }
}

/// Whether arrays of this shape have arrays under them.
fn is_nested(kind: Kind) -> (r: bool)
    ensures
        r == nested(kind),
{
    match kind {
        Kind::List | Kind::LargeList | Kind::Mapping | Kind::FixedSizeList(_) | Kind::Struct => {
            true
        },
        _ => false,
    }
}

/// A position in the batch's two flat lists.
struct Cursor<'a> {
    nodes: &'a [Node],
    buffers: &'a [Vec<u8>],
    node: usize,
    buffer: usize,
}

impl<'a> Cursor<'a> {
    spec fn lists(&self) -> Lists {
        Lists { nodes: self.nodes@, buffers: held(self.buffers@) }
    }

    spec fn place(&self) -> Place {
        Place { node: self.node as int, buffer: self.buffer as int }
    }

    spec fn wf(&self) -> bool {
        self.node <= self.nodes@.len() && self.buffer <= self.buffers@.len()
    }

    /// Checks one array and everything under it, returning how long it is.
    ///
    /// Children are walked before the parent's own buffers are checked, because a list's offsets mean
    /// something only once its child's length is known.
    fn array(&mut self, field: &Field, path: &str) -> (r: Result<u64>)
        requires
            old(self).wf(),
        ensures
            match walk(*field, path@, old(self).lists(), old(self).place()) {
                Ok((len, after)) => r is Ok && r->Ok_0 == len && final(self).place() == after,
                Err(e) => r is Err && r->Err_0@ == e,
            },
            final(self).lists() == old(self).lists(),
            final(self).wf(),
        decreases *field, 0nat,
    {
        let ghost b = self.lists();
        let ghost at = self.place();
        let node = self.next_node(path)?;
        let data_type = &field.data_type;
        let shape = layout(data_type, path)?;
        self.head(data_type, node, path)?;
        let ghost from = self.place().buffer;
        assert(from == values_at(*data_type, at));
        let taken = self.take(shape.values, path)?;
        let ghost inside = self.place();
        let lengths = if is_nested(data_type.kind) {
            self.children(&data_type.children, path)?
        } else {
            Vec::new()
        };
        assert(nested(data_type.kind) || lengths@ =~= Seq::<u64>::empty());
        check_values(data_type, node.length, &taken, &lengths, path)?;
        Ok(node.length)
    }

    /// Checks the arrays under another, returning how long each of them is.
    fn children(&mut self, fields: &Vec<Field>, path: &str) -> (r: Result<Vec<u64>>)
        requires
            old(self).wf(),
        ensures
            match walk_children(
                *fields,
                fields@.len(),
                path@,
                old(self).lists(),
                old(self).place(),
            ) {
                Ok((lengths, after)) => {
                    &&& r is Ok
                    &&& r->Ok_0@ == lengths
                    &&& r->Ok_0@.len() == fields@.len()
                    &&& final(self).place() == after
                },
                Err(e) => r is Err && r->Err_0@ == e,
            },
            final(self).lists() == old(self).lists(),
            final(self).wf(),
        decreases *fields, 1nat,
    {
        let ghost b = self.lists();
        let ghost at = self.place();
        let mut lengths: Vec<u64> = Vec::new();
        let mut k: usize = 0;
        assert(lengths@ =~= Seq::<u64>::empty());
        while k < fields.len()
            invariant
                0 <= k <= fields@.len(),
                self.lists() == b,
                b == old(self).lists(),
                at == old(self).place(),
                self.wf(),
                lengths@.len() == k,
                walk_children(*fields, k as nat, path@, b, at) == Ok::<
                    (Seq<u64>, Place),
                    ViolationView,
                >((lengths@, self.place())),
            decreases fields@.len() - k,
        {
            let child = &fields[k];
            proof {
                assert(decreases_to!(*fields => fields[k as int]));
                if walk_children(*fields, (k + 1) as nat, path@, b, at) is Err {
                    lemma_children_stop(*fields, (k + 1) as nat, fields@.len(), path@, b, at);
                }
            }
            let mut name = path.to_owned();
            name.append(".");
            name.append(child.name.as_str());
            assert(name@ == child_path(path@, child.name@));
            let len: u64 = self.array(child, name.as_str())?;
            lengths.push(len);
            k = k + 1;
        }
        Ok(lengths)
    }

    /// Checks the validity of an array, taking its validity buffer if it has one.
    fn head(&mut self, data_type: &DataType, node: Node, path: &str) -> (r: Result<()>)
        requires
            old(self).wf(),
        ensures
            found(
                r,
                head_fault(
                    *data_type,
                    node,
                    old(self).lists(),
                    old(self).place().buffer,
                    path@,
                ),
            ),
            final(self).lists() == old(self).lists(),
            final(self).wf(),
            final(self).node == old(self).node,
            r is Ok ==> final(self).place().buffer == values_at(*data_type, old(self).place()),
    {
        match data_type.kind {
            Kind::Null => {
                if node.null_count != 0 {
                    let mut s = "a ".to_owned();
                    s.append(data_type.printed.as_str());
                    s.append(" column has no validity buffer and this one says it has ");
                    s.append(decimal(node.null_count).as_str());
                    s.append(" nulls");
                    return Err(Violation::at(Invariant::NullCount, path, s));
                }
                Ok(())
            },
            _ => {
                let bitmap = self.next_buffer(path)?;
                check_validity(bitmap, node.length, node.null_count, path)
            },
        }
    }

    /// Takes the next `n` buffers.
    fn take(&mut self, n: usize, path: &str) -> (r: Result<Vec<&'a [u8]>>)
        requires
            old(self).wf(),
        ensures
            final(self).lists() == old(self).lists(),
            final(self).wf(),
            final(self).node == old(self).node,
            old(self).buffer + n > old(self).lists().buffers.len() ==> r is Err && r->Err_0@
                == no_more_buffers(old(self).lists(), path@),
            old(self).buffer + n <= old(self).lists().buffers.len() ==> {
                &&& r is Ok
                &&& r->Ok_0@.len() == n
                &&& seen(r->Ok_0@) == old(self).lists().buffers.subrange(
                    old(self).buffer as int,
                    old(self).buffer + n,
                )
                &&& final(self).buffer == old(self).buffer + n
            },
    {
        let ghost b = self.lists();
        let ghost from = self.buffer as int;
        let mut taken: Vec<&'a [u8]> = Vec::new();
        let mut i: usize = 0;
        assert(seen(taken@) =~= b.buffers.subrange(from, from));
        while i < n
            invariant
                0 <= i <= n,
                self.lists() == b,
                b == old(self).lists(),
                from == old(self).buffer,
                self.wf(),
                self.node == old(self).node,
                self.buffer == from + i,
                taken@.len() == i,
                seen(taken@) == b.buffers.subrange(from, from + i),
            decreases n - i,
        {
            let ghost before = taken@;
            let bytes = self.next_buffer(path)?;
            taken.push(bytes);
            i = i + 1;
            assert(seen(taken@) =~= seen(before).push(bytes@));
            assert(seen(taken@) =~= b.buffers.subrange(from, from + i));
        }
        Ok(taken)
    }

    fn next_node(&mut self, path: &str) -> (r: Result<Node>)
        requires
            old(self).wf(),
        ensures
            final(self).lists() == old(self).lists(),
            final(self).buffer == old(self).buffer,
            final(self).wf(),
            old(self).node < old(self).nodes@.len() ==> {
                &&& r is Ok
                &&& r->Ok_0 == old(self).nodes@[old(self).node as int]
                &&& final(self).node == old(self).node + 1
            },
            old(self).node >= old(self).nodes@.len() ==> r is Err && r->Err_0@ == no_more_arrays(
                old(self).lists(),
                path@,
            ),
    {
        if self.node >= self.nodes.len() {
            let mut s = "the schema calls for more arrays than the batch has, which is ".to_owned();
            s.append(decimal(self.nodes.len() as u64).as_str());
            return Err(Violation::at(Invariant::Arrays, path, s));
        }
        let node = self.nodes[self.node];
        self.node = self.node + 1;
        Ok(node)
    }

    fn next_buffer(&mut self, path: &str) -> (r: Result<&'a [u8]>)
        requires
            old(self).wf(),
        ensures
            final(self).lists() == old(self).lists(),
            final(self).node == old(self).node,
            final(self).wf(),
            old(self).buffer < old(self).buffers@.len() ==> {
                &&& r is Ok
                &&& r->Ok_0@ == old(self).lists().buffers[old(self).buffer as int]
                &&& final(self).buffer == old(self).buffer + 1
            },
            old(self).buffer >= old(self).buffers@.len() ==> r is Err && r->Err_0@
                == no_more_buffers(old(self).lists(), path@),
    {
        if self.buffer >= self.buffers.len() {
            let mut s =
                "the schema calls for more buffers than the batch has, which is ".to_owned();
            s.append(decimal(self.buffers.len() as u64).as_str());
            return Err(Violation::at(Invariant::Buffers, path, s));
        }
        let bytes = self.buffers[self.buffer].as_slice();
        self.buffer = self.buffer + 1;
        Ok(bytes)
    }

    /// Checks that the batch had nothing left over.
    ///
    /// A spare array or buffer means that this host and the decoder disagree about the shape.
    fn finish(&self) -> (r: Result<()>)
        ensures
            found(r, leftover_fault(self.lists(), self.place())),
    {
        if self.node != self.nodes.len() {
            let mut s = "the batch has ".to_owned();
            s.append(decimal(self.nodes.len() as u64).as_str());
            s.append(" arrays and the schema accounts for ");
            s.append(decimal(self.node as u64).as_str());
            proof {
                reveal_strlit("");
                assert(""@ =~= Seq::<char>::empty());
            }
            return Err(Violation::at(Invariant::Arrays, "", s));
        }
        if self.buffer != self.buffers.len() {
            let mut s = "the batch has ".to_owned();
            s.append(decimal(self.buffers.len() as u64).as_str());
            s.append(" buffers and the schema accounts for ");
            s.append(decimal(self.buffer as u64).as_str());
            proof {
                reveal_strlit("");
                assert(""@ =~= Seq::<char>::empty());
            }
            return Err(Violation::at(Invariant::Buffers, "", s));
        }
        Ok(())
    }
}

/// Children that stop early stop there however many there are.
proof fn lemma_children_stop(
    fields: Vec<Field>,
    k: nat,
    n: nat,
    path: Seq<char>,
    b: Lists,
    at: Place,
)
    requires
        1 <= k <= n <= fields@.len(),
        walk_children(fields, k, path, b, at) is Err,
    ensures
        walk_children(fields, n, path, b, at) == walk_children(fields, k, path, b, at),
    decreases n,
{
    if k < n {
        lemma_children_stop(fields, k, (n - 1) as nat, path, b, at);
    }
}

/// Columns that stop early stop there however many there are.
proof fn lemma_columns_stop(fields: Seq<Field>, k: nat, n: nat, rows: u64, b: Lists)
    requires
        k <= n,
        walk_columns(fields, k, rows, b) is Err,
    ensures
        walk_columns(fields, n, rows, b) == walk_columns(fields, k, rows, b),
    decreases n,
{
    if k < n {
        lemma_columns_stop(fields, k, (n - 1) as nat, rows, b);
    }
}

/// Checks one batch against the schema it claims to be.
///
/// If this passes, every offset is inside the buffer or child it indexes, every buffer is long enough
/// for the slots its array claims, and every array is long enough for the parent that points into it.
pub fn check(schema: &Schema, rows: u64, nodes: &[Node], buffers: &[Vec<u8>]) -> (r: Result<()>)
    ensures
        found(r, batch_fault(*schema, rows, (Lists { nodes: nodes@, buffers: held(buffers@) }))),
{
    check_schema(schema)?;
    let mut cursor = Cursor { nodes, buffers, node: 0, buffer: 0 };
    let ghost b = cursor.lists();
    let mut i: usize = 0;
    while i < schema.fields.len()
        invariant
            0 <= i <= schema.fields@.len(),
            cursor.wf(),
            cursor.lists() == b,
            b == (Lists { nodes: nodes@, buffers: held(buffers@) }),
            schema_fault(*schema) is None,
            walk_columns(schema.fields@, i as nat, rows, b) == Ok::<Place, ViolationView>(
                cursor.place(),
            ),
        decreases schema.fields@.len() - i,
    {
        let field = &schema.fields[i];
        proof {
            if walk_columns(schema.fields@, (i + 1) as nat, rows, b) is Err {
                lemma_columns_stop(
                    schema.fields@,
                    (i + 1) as nat,
                    schema.fields@.len(),
                    rows,
                    b,
                );
            }
        }
        let len: u64 = cursor.array(field, field.name.as_str())?;
        if len != rows {
            let mut s = "the batch says ".to_owned();
            s.append(decimal(rows).as_str());
            s.append(" rows and this column has ");
            s.append(decimal(len).as_str());
            return Err(Violation::at(Invariant::Rows, field.name.as_str(), s));
        }
        i = i + 1;
    }
    cursor.finish()
}

} // verus!
