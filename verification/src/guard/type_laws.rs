//! What a batch that passes holds, type by type.
use vstd::prelude::*;

use crate::bytes::{bit, le, lemma_le_4, lemma_le_8, lemma_le_bound, lemma_pow_widths};
use crate::guard::check::{
    batch_fault, bits_seen, clear_bits, offset_at, schema_fault, values_at, walk, Lists, Place,
};
use crate::guard::indirect::{
    dictionary_fault, key_fault, keys_fault, slots_fault, view_at, view_fault, views_fault,
};
use crate::guard::laws::{
    addressable, arrays, arrays_under, buffers, buffers_under, carried, column_sound, columns_past,
    height, lemma_columns_past, lemma_a_batch_passes_exactly_when_it_is_sound,
    lemma_a_schema_passes_exactly_when_it_is_carried, lemma_walk_is_sound, lengths_under,
    offsets_sound, sound, validity_sound, values_sound,
};
use crate::guard::layout::value_buffers;
use crate::guard::schema::{nested, DataType, Field, Kind, Schema};

verus! {

/// Whether some bytes have room for some slots of a fixed width type: a bit for a boolean, one byte,
/// two, four, eight, sixteen or thirty two for the types of that many, and its own width for a fixed
/// size binary.
pub open spec fn room_for(kind: Kind, slots: int, bytes: int) -> bool {
    &&& kind == Kind::Boolean ==> slots <= 8 * bytes
    &&& kind == Kind::Int8 || kind == Kind::UInt8 ==> slots <= bytes
    &&& kind == Kind::Int16 || kind == Kind::UInt16 || kind == Kind::Float16 ==> 2 * slots <= bytes
    &&& kind == Kind::Int32 || kind == Kind::UInt32 || kind == Kind::Float32 ==> 4 * slots <= bytes
    &&& kind == Kind::Date32 || kind == Kind::Time32 ==> 4 * slots <= bytes
    &&& kind == Kind::Decimal32 || kind == Kind::IntervalYearMonth ==> 4 * slots <= bytes
    &&& kind == Kind::Int64 || kind == Kind::UInt64 || kind == Kind::Float64 ==> 8 * slots <= bytes
    &&& kind == Kind::Date64 || kind == Kind::Time64 ==> 8 * slots <= bytes
    &&& kind == Kind::Timestamp || kind == Kind::Duration ==> 8 * slots <= bytes
    &&& kind == Kind::Decimal64 || kind == Kind::IntervalDayTime ==> 8 * slots <= bytes
    &&& kind == Kind::Decimal128 || kind == Kind::IntervalMonthDayNano ==> 16 * slots <= bytes
    &&& kind == Kind::Decimal256 ==> 32 * slots <= bytes
    &&& kind matches Kind::FixedSizeBinary(width) ==> width >= 0 && width * slots <= bytes
}

/// Whether every slot of a type has the same width, and that width is its own.
pub open spec fn fixed_width(kind: Kind) -> bool {
    match kind {
        Kind::Null
        | Kind::Utf8
        | Kind::Binary
        | Kind::LargeUtf8
        | Kind::LargeBinary
        | Kind::List
        | Kind::LargeList
        | Kind::Mapping
        | Kind::FixedSizeList(_)
        | Kind::Struct
        | Kind::Other => false,
        _ => true,
    }
}

/// The values of a fixed width array are sound exactly when there is room for them.
proof fn lemma_room(data_type: DataType, slots: u64, own: Seq<Seq<u8>>, lengths: Seq<u64>)
    requires
        fixed_width(data_type.kind),
    ensures
        values_sound(data_type, slots, own, lengths) ==> room_for(
            data_type.kind,
            slots as int,
            own[0].len() as int,
        ),
        room_for(data_type.kind, slots as int, own[0].len() as int) && own[0].len()
            <= 0x1FFF_FFFF_FFFF_FFFF ==> values_sound(data_type, slots, own, lengths),
{
    if let Kind::FixedSizeBinary(width) = data_type.kind {
        if width >= 0 {
            assert(slots * (8 * width) == 8 * (width * slots)) by (nonlinear_arith);
        }
    }
}

/// An array of a fixed width type passes exactly when its validity is sound and the buffer behind it
/// has room for the width of its type in every slot. It takes those two buffers and no others.
#[verifier::spinoff_prover]
pub proof fn lemma_fixed_width_array_holds_its_slots(
    f: Field,
    path: Seq<char>,
    b: Lists,
    at: Place,
)
    requires
        addressable(b),
        0 <= at.node < b.nodes.len(),
        0 <= at.buffer,
        at.buffer + 1 < b.buffers.len(),
        b.buffers[at.buffer + 1].len() <= 0x1FFF_FFFF_FFFF_FFFF,
        fixed_width(f.data_type.kind),
    ensures
        walk(f, path, b, at) is Ok <==> validity_sound(b.buffers[at.buffer], b.nodes[at.node])
            && room_for(
            f.data_type.kind,
            b.nodes[at.node].length as int,
            b.buffers[at.buffer + 1].len() as int,
        ),
        walk(f, path, b, at) is Ok ==> walk(f, path, b, at)->Ok_0.1 == (Place {
            node: at.node + 1,
            buffer: at.buffer + 2,
        }),
{
    lemma_walk_is_sound(f, path, b, at);
    let own = b.buffers.subrange(at.buffer + 1, at.buffer + 2);
    lemma_room(f.data_type, b.nodes[at.node].length, own, Seq::empty());
    assert(own[0] == b.buffers[at.buffer + 1]);
    assert(values_at(f.data_type, at) == at.buffer + 1);
    assert(!nested(f.data_type.kind));
    assert(value_buffers(f.data_type.kind) == Some(1usize));
}

/// Where a column's first array and first buffer are: behind those of every column before it.
proof fn lemma_column_place(schema: Schema, rows: u64, b: Lists, k: int)
    requires
        addressable(b),
        batch_fault(schema, rows, b) is None,
        0 <= k < schema.fields@.len(),
    ensures
        ({
            let at = columns_past(schema.fields@, k as nat);
            &&& 0 <= at.node < b.nodes.len()
            &&& 0 <= at.buffer
            &&& sound(schema.fields@[k], b, at)
            &&& b.nodes[at.node].length == rows
        }),
{
    lemma_a_batch_passes_exactly_when_it_is_sound(schema, rows, b);
    lemma_columns_past(schema.fields@, k as nat);
    assert(column_sound(schema.fields@, k, rows, b));
    reveal(column_sound);
}

/// Every fixed width column of a batch that passes has room for the width of its type in every row.
pub proof fn lemma_fixed_width_columns_hold_their_rows(schema: Schema, rows: u64, b: Lists, k: int)
    requires
        addressable(b),
        batch_fault(schema, rows, b) is None,
        0 <= k < schema.fields@.len(),
        fixed_width(schema.fields@[k].data_type.kind),
    ensures
        ({
            let at = columns_past(schema.fields@, k as nat);
            &&& 0 <= at.buffer
            &&& at.buffer + 1 < b.buffers.len()
            &&& room_for(
                schema.fields@[k].data_type.kind,
                rows as int,
                b.buffers[at.buffer + 1].len() as int,
            )
        }),
{
    lemma_column_place(schema, rows, b, k);
    let at = columns_past(schema.fields@, k as nat);
    let f = schema.fields@[k];
    let own = b.buffers.subrange(at.buffer + 1, at.buffer + 2);
    lemma_room(f.data_type, rows, own, Seq::empty());
    assert(values_at(f.data_type, at) == at.buffer + 1);
    assert(!nested(f.data_type.kind));
    assert(value_buffers(f.data_type.kind) == Some(1usize));
    assert(own[0] == b.buffers[at.buffer + 1]);
}

/// The number in the `i`th place of some bytes, `width` bytes a place, the lowest byte first.
pub open spec fn number_at(bytes: Seq<u8>, width: int, i: int) -> nat {
    le(bytes.subrange(i * width, i * width + width))
}

/// Whether there is one more offset than there are slots, each no smaller than the one before it, none
/// past a limit, and none with its highest bit set. No slots may do with no offsets.
pub open spec fn offsets_inside(offsets: Seq<u8>, slots: int, width: int, limit: int) -> bool {
    ||| slots == 0 && offsets.len() == 0
    ||| {
        &&& (slots + 1) * width <= offsets.len()
        &&& forall|i: int|
            0 <= i <= slots ==> #[trigger] number_at(offsets, width, i) <= limit && (width == 4
                ==> number_at(offsets, width, i) <= i32::MAX) && (width == 8 ==> number_at(
                offsets,
                width,
                i,
            ) <= i64::MAX)
        &&& forall|i: int|
            0 < i <= slots ==> number_at(offsets, width, i - 1) <= #[trigger] number_at(
                offsets,
                width,
                i,
            )
    }
}

/// Offsets are sound exactly when they point inside.
proof fn lemma_offsets_inside(offsets: Seq<u8>, slots: u64, width: nat, limit: int)
    requires
        width == 4 || width == 8,
    ensures
        offsets_sound(offsets, slots, width, limit) <==> offsets_inside(
            offsets,
            slots as int,
            width as int,
            limit,
        ),
{
    if (slots + 1) * width <= offsets.len() {
        assert forall|i: int| 0 <= i <= slots implies {
            let v = #[trigger] number_at(offsets, width as int, i);
            let o = offset_at(offsets, width, i);
            let top = if width == 4 {
                i32::MAX as int
            } else {
                i64::MAX as int
            };
            (o >= 0 <==> v <= top) && (v <= top ==> o == v)
        } by {
            assert(0 <= i * width && i * width + width <= (slots + 1) * width) by (nonlinear_arith)
                requires
                    0 <= i <= slots,
            ;
            let s = offsets.subrange(i * width, i * width + width);
            if width == 4 {
                lemma_le_4(s);
            } else {
                lemma_le_8(s);
            }
        }
        if offsets_sound(offsets, slots, width, limit) {
            assert forall|i: int| 0 <= i <= slots implies #[trigger] number_at(
                offsets,
                width as int,
                i,
            ) <= limit && (width == 4 ==> number_at(offsets, width as int, i) <= i32::MAX) && (width
                == 8 ==> number_at(offsets, width as int, i) <= i64::MAX) by {
                assert(0 <= offset_at(offsets, width, i) <= limit);
            }
            assert forall|i: int| 0 < i <= slots implies number_at(offsets, width as int, i - 1)
                <= #[trigger] number_at(offsets, width as int, i) by {
                assert(number_at(offsets, width as int, i - 1) == offset_at(offsets, width, i - 1));
                assert(offset_at(offsets, width, i - 1) <= offset_at(offsets, width, i));
            }
        }
        if offsets_inside(offsets, slots as int, width as int, limit) {
            assert forall|i: int| 0 <= i <= slots implies 0 <= #[trigger] offset_at(
                offsets,
                width,
                i,
            ) <= limit by {
                assert(number_at(offsets, width as int, i) <= limit);
            }
            assert forall|i: int| 0 < i <= slots implies offset_at(offsets, width, i - 1)
                <= #[trigger] offset_at(offsets, width, i) by {
                assert(number_at(offsets, width as int, i - 1) <= number_at(
                    offsets,
                    width as int,
                    i,
                ));
            }
        }
    }
}

/// An array of text or of bytes passes exactly when its validity is sound and its offsets, four bytes
/// each or eight for the large types, never run backwards and never leave the bytes behind them. It
/// takes those three buffers and no others.
#[verifier::spinoff_prover]
pub proof fn lemma_text_array_stays_in_its_bytes(f: Field, path: Seq<char>, b: Lists, at: Place)
    requires
        addressable(b),
        0 <= at.node < b.nodes.len(),
        0 <= at.buffer,
        at.buffer + 2 < b.buffers.len(),
        f.data_type.kind is Utf8 || f.data_type.kind is Binary || f.data_type.kind is LargeUtf8
            || f.data_type.kind is LargeBinary,
    ensures
        walk(f, path, b, at) is Ok <==> validity_sound(b.buffers[at.buffer], b.nodes[at.node])
            && offsets_inside(
            b.buffers[at.buffer + 1],
            b.nodes[at.node].length as int,
            if f.data_type.kind is Utf8 || f.data_type.kind is Binary {
                4
            } else {
                8
            },
            b.buffers[at.buffer + 2].len() as int,
        ),
        walk(f, path, b, at) is Ok ==> walk(f, path, b, at)->Ok_0.1 == (Place {
            node: at.node + 1,
            buffer: at.buffer + 3,
        }),
{
    lemma_walk_is_sound(f, path, b, at);
    let own = b.buffers.subrange(at.buffer + 1, at.buffer + 3);
    let slots = b.nodes[at.node].length;
    assert(own[0] == b.buffers[at.buffer + 1]);
    assert(own[1] == b.buffers[at.buffer + 2]);
    lemma_offsets_inside(own[0], slots, 4, own[1].len() as int);
    lemma_offsets_inside(own[0], slots, 8, own[1].len() as int);
    assert(values_at(f.data_type, at) == at.buffer + 1);
    assert(!nested(f.data_type.kind));
    assert(value_buffers(f.data_type.kind) == Some(2usize));
}

/// Lists and maps that pass have offsets, four bytes each or eight for the large type, that never run
/// backwards and never leave the slots of their child; a fixed size list has its size in slots of its
/// child for every row; and every child of a struct is as long as it.
#[verifier::spinoff_prover]
pub proof fn lemma_nested_array_stays_in_its_children(f: Field, path: Seq<char>, b: Lists, at: Place)
    requires
        addressable(b),
        0 <= at.node,
        0 <= at.buffer,
        walk(f, path, b, at) is Ok,
    ensures
        ({
            let kind = f.data_type.kind;
            let children = f.data_type.children;
            let slots = b.nodes[at.node].length as int;
            let child = b.nodes[at.node + 1].length as int;
            &&& (kind is List || kind is Mapping) && children@.len() > 0 ==> offsets_inside(
                b.buffers[at.buffer + 1],
                slots,
                4,
                child,
            )
            &&& kind is LargeList && children@.len() > 0 ==> offsets_inside(
                b.buffers[at.buffer + 1],
                slots,
                8,
                child,
            )
            &&& kind is FixedSizeList && children@.len() > 0 ==> kind->FixedSizeList_0 >= 0 && slots
                * kind->FixedSizeList_0 <= child
            &&& kind is Struct ==> forall|i: int|
                0 <= i < children@.len() ==> (#[trigger] b.nodes[at.node + 1 + arrays_under(
                    children,
                    i as nat,
                )]).length >= slots
        }),
{
    lemma_walk_is_sound(f, path, b, at);
    let children = f.data_type.children;
    let slots = b.nodes[at.node].length;
    if nested(f.data_type.kind) {
        let from = at.buffer + 1;
        let to = from + value_buffers(f.data_type.kind)->Some_0;
        let own = b.buffers.subrange(from, to);
        let inside = Place { node: at.node + 1, buffer: to };
        let lengths = lengths_under(children, children@.len(), b, inside);
        assert(values_at(f.data_type, at) == from);
        assert(values_sound(f.data_type, slots, own, lengths));
        if children@.len() > 0 {
            assert(arrays_under(children, 0) == 0);
            assert(lengths[0] == b.nodes[at.node + 1].length);
            if own.len() > 0 {
                assert(own[0] == b.buffers[from]);
                lemma_offsets_inside(own[0], slots, 4, lengths[0] as int);
                lemma_offsets_inside(own[0], slots, 8, lengths[0] as int);
            }
        }
        if f.data_type.kind is Struct {
            assert forall|i: int| 0 <= i < children@.len() implies (#[trigger] b.nodes[at.node + 1
                + arrays_under(children, i as nat)]).length >= slots by {
                assert(lengths[i] >= slots);
            }
        }
    }
}

/// How many arrays and buffers each type takes: one array and those of its children; no buffers for a
/// null, two for a fixed width type, three for text and bytes, two and those of its child for a list
/// or a map, and one and those of its children for a fixed size list or a struct. Only what is none of
/// these is not carried.
pub proof fn lemma_arrays_and_buffers_of_a_type(f: Field)
    ensures
        ({
            let kind = f.data_type.kind;
            let children = f.data_type.children;
            let n = children@.len();
            &&& kind is Other ==> !carried(f)
            &&& !(kind is Other) && !(nested(kind)) ==> carried(f)
            &&& nested(kind) <==> kind is List || kind is LargeList || kind is Mapping || kind
                is FixedSizeList || kind is Struct
            &&& kind is Null ==> arrays(f) == 1 && buffers(f) == 0
            &&& fixed_width(kind) ==> arrays(f) == 1 && buffers(f) == 2
            &&& kind is Utf8 || kind is Binary || kind is LargeUtf8 || kind is LargeBinary
                ==> arrays(f) == 1 && buffers(f) == 3
            &&& kind is List || kind is LargeList || kind is Mapping ==> arrays(f) == 1
                + arrays_under(children, n) && buffers(f) == 2 + buffers_under(children, n)
            &&& kind is FixedSizeList || kind is Struct ==> arrays(f) == 1 + arrays_under(
                children,
                n,
            ) && buffers(f) == 1 + buffers_under(children, n)
        }),
{
}

/// The slots of a bitmap, of the first `n`, whose bit is clear.
pub open spec fn clear_slots(bitmap: Seq<u8>, n: int) -> Set<int> {
    Set::new(|i: int| 0 <= i < n && !bit(bitmap[i / 8], (i % 8) as u8))
}

/// Counting the clear bits counts the clear slots.
pub proof fn lemma_clear_bits_are_clear_slots(bitmap: Seq<u8>, n: nat)
    ensures
        clear_slots(bitmap, n as int).finite(),
        clear_bits(bitmap, n) == clear_slots(bitmap, n as int).len(),
    decreases n,
{
    if n == 0 {
        assert(clear_slots(bitmap, 0) =~= Set::<int>::empty());
    } else {
        let i = n - 1;
        lemma_clear_bits_are_clear_slots(bitmap, i as nat);
        if bit(bitmap[i / 8], (i % 8) as u8) {
            assert(clear_slots(bitmap, n as int) =~= clear_slots(bitmap, i));
        } else {
            assert(clear_slots(bitmap, n as int) =~= clear_slots(bitmap, i).insert(i));
        }
    }
}

/// An array that passes has exactly as many nulls as it declares: none without a bitmap, and with one
/// as many as slots whose bit is clear, every slot having a bit. A null array declares none.
pub proof fn lemma_an_array_that_passes_counted_its_nulls(
    f: Field,
    path: Seq<char>,
    b: Lists,
    at: Place,
)
    requires
        addressable(b),
        0 <= at.node,
        0 <= at.buffer,
        walk(f, path, b, at) is Ok,
    ensures
        ({
            let node = b.nodes[at.node];
            let bitmap = b.buffers[at.buffer];
            if f.data_type.kind is Null || bitmap.len() == 0 {
                node.null_count == 0
            } else {
                node.length <= 8 * bitmap.len() && node.null_count == clear_slots(
                    bitmap,
                    node.length as int,
                ).len()
            }
        }),
{
    lemma_walk_is_sound(f, path, b, at);
    lemma_clear_bits_are_clear_slots(b.buffers[at.buffer], b.nodes[at.node].length as nat);
}

/// A schema that passes nests no deeper than sixty four levels and holds no type that is not carried;
/// and every schema like that passes.
pub proof fn lemma_a_schema_nests_at_most_sixty_four_levels(schema: Schema)
    ensures
        schema_fault(schema) is None <==> forall|k: int|
            0 <= k < schema.fields@.len() ==> height(#[trigger] schema.fields@[k]) <= 64 && carried(
                schema.fields@[k],
            ),
{
    lemma_a_schema_passes_exactly_when_it_is_carried(schema);
}

/// Whether a number of some bytes, taken as signed, is not negative.
pub open spec fn not_negative(v: nat, width: int) -> bool {
    &&& width == 1 ==> v <= i8::MAX
    &&& width == 2 ==> v <= i16::MAX
    &&& width == 4 ==> v <= i32::MAX
    &&& width == 8 ==> v <= i64::MAX
}

/// Dictionary keys of an integer type pass exactly when there are enough bytes for them, one, two, four
/// or eight a key as the type says, and each is a position in the dictionary, which a negative number
/// is not.
pub proof fn lemma_keys_are_positions(
    keys: Seq<u8>,
    key_type: DataType,
    len: u64,
    dictionary_len: u64,
    path: Seq<char>,
    width: int,
    is_signed: bool,
)
    requires
        ({
            let kind = key_type.kind;
            ||| kind is Int8 && width == 1 && is_signed
            ||| kind is Int16 && width == 2 && is_signed
            ||| kind is Int32 && width == 4 && is_signed
            ||| kind is Int64 && width == 8 && is_signed
            ||| kind is UInt8 && width == 1 && !is_signed
            ||| kind is UInt16 && width == 2 && !is_signed
            ||| kind is UInt32 && width == 4 && !is_signed
            ||| kind is UInt64 && width == 8 && !is_signed
        }),
        keys.len() <= usize::MAX,
    ensures
        dictionary_fault(keys, key_type, len, dictionary_len, path) is None <==> len * width
            <= keys.len() && forall|slot: int|
            0 <= slot < len ==> #[trigger] number_at(keys, width, slot) < dictionary_len && (
            is_signed ==> not_negative(number_at(keys, width, slot), width)),
{
    assert(len <= len * width) by (nonlinear_arith)
        requires
            width >= 1,
    ;
    if len * width <= keys.len() {
        lemma_keys_fault(keys, width as nat, is_signed, len, len as nat, dictionary_len, path);
    }
}

/// The keys of the first slots have no fault exactly when each is a position.
proof fn lemma_keys_fault(
    keys: Seq<u8>,
    width: nat,
    is_signed: bool,
    len: u64,
    n: nat,
    dictionary_len: u64,
    path: Seq<char>,
)
    requires
        width == 1 || width == 2 || width == 4 || width == 8,
        n <= len,
        len * width <= keys.len(),
    ensures
        keys_fault(keys, width, is_signed, n, dictionary_len, path) is None <==> forall|slot: int|
            0 <= slot < n ==> #[trigger] number_at(keys, width as int, slot) < dictionary_len && (
            is_signed ==> not_negative(number_at(keys, width as int, slot), width as int)),
    decreases n,
{
    if n > 0 {
        let slot = n - 1;
        lemma_keys_fault(keys, width, is_signed, len, slot as nat, dictionary_len, path);
        assert(0 <= slot * width && slot * width + width <= len * width) by (nonlinear_arith)
            requires
                0 <= slot < len,
        ;
        let v = number_at(keys, width as int, slot);
        lemma_le_bound(keys.subrange(slot * width, slot * width + width));
        lemma_pow_widths();
        assert(key_fault(keys, width, is_signed, slot, dictionary_len, path) is None <==> v
            < dictionary_len && (is_signed ==> not_negative(v, width as int)));
        if keys_fault(keys, width, is_signed, n, dictionary_len, path) is None {
            assert forall|i: int| 0 <= i < n implies #[trigger] number_at(keys, width as int, i)
                < dictionary_len && (is_signed ==> not_negative(
                number_at(keys, width as int, i),
                width as int,
            )) by {}
        }
    }
}

/// Views pass exactly when there is one of sixteen bytes for every slot and nothing ragged behind them,
/// and each is at most twelve bytes long or lies, by the index and the offset in its last eight bytes,
/// inside one of the data buffers.
pub proof fn lemma_views_lie_inside(views: Seq<u8>, data: Seq<Seq<u8>>, len: u64, path: Seq<char>)
    requires
        views.len() <= usize::MAX,
    ensures
        views_fault(views, data, len, path) is None <==> 16 * len <= views.len() && views.len() % 16
            == 0 && forall|slot: int|
            0 <= slot < len ==> #[trigger] number_at(views, 4, 4 * slot) <= 12 || (number_at(
                views,
                4,
                4 * slot + 2,
            ) < data.len() && number_at(views, 4, 4 * slot + 3) + number_at(views, 4, 4 * slot)
                <= data[number_at(views, 4, 4 * slot + 2) as int].len()),
{
    if 16 * len <= views.len() {
        lemma_slots_fault(views, data, len, len as nat, path);
    }
}

/// The views of the first slots have no fault exactly when each is short or lies inside a buffer.
proof fn lemma_slots_fault(views: Seq<u8>, data: Seq<Seq<u8>>, len: u64, n: nat, path: Seq<char>)
    requires
        n <= len,
        16 * len <= views.len(),
    ensures
        slots_fault(views, data, n, path) is None <==> forall|slot: int|
            0 <= slot < n ==> #[trigger] number_at(views, 4, 4 * slot) <= 12 || (number_at(
                views,
                4,
                4 * slot + 2,
            ) < data.len() && number_at(views, 4, 4 * slot + 3) + number_at(views, 4, 4 * slot)
                <= data[number_at(views, 4, 4 * slot + 2) as int].len()),
    decreases n,
{
    if n > 0 {
        let slot = n - 1;
        lemma_slots_fault(views, data, len, slot as nat, path);
        let v = views.subrange(16 * slot, 16 * slot + 16);
        assert(v.subrange(0, 4) =~= views.subrange(4 * slot * 4, 4 * slot * 4 + 4));
        assert(v.subrange(8, 12) =~= views.subrange(
            (4 * slot + 2) * 4,
            (4 * slot + 2) * 4 + 4,
        ));
        assert(v.subrange(12, 16) =~= views.subrange(
            (4 * slot + 3) * 4,
            (4 * slot + 3) * 4 + 4,
        ));
        lemma_le_4(v.subrange(0, 4));
        lemma_le_4(v.subrange(8, 12));
        lemma_le_4(v.subrange(12, 16));
        let short = number_at(views, 4, 4 * slot);
        assert(view_at(views, slot).0 == short);
        if slots_fault(views, data, n, path) is None {
            assert(view_fault(views, data, slot, path) is None);
        }
    }
}

/// Only integers are dictionary keys.
pub proof fn lemma_only_integers_are_keys(
    keys: Seq<u8>,
    key_type: DataType,
    len: u64,
    dictionary_len: u64,
    path: Seq<char>,
)
    requires
        dictionary_fault(keys, key_type, len, dictionary_len, path) is None,
    ensures
        ({
            let kind = key_type.kind;
            ||| kind is Int8 || kind is Int16 || kind is Int32 || kind is Int64
            ||| kind is UInt8 || kind is UInt16 || kind is UInt32 || kind is UInt64
        }),
{
}

/// Counting nulls looks at the first `len` bits, or at all there are if there are fewer, and counts those
/// that are clear.
pub proof fn lemma_counted_nulls(bitmap: Seq<u8>, len: u64)
    ensures
        clear_bits(bitmap, bits_seen(bitmap, len)) == Set::new(
            |i: int| 0 <= i < len && i < 8 * bitmap.len() && !bit(bitmap[i / 8], (i % 8) as u8),
        ).len(),
{
    let n = bits_seen(bitmap, len);
    lemma_clear_bits_are_clear_slots(bitmap, n);
    assert(clear_slots(bitmap, n as int) =~= Set::new(
        |i: int| 0 <= i < len && i < 8 * bitmap.len() && !bit(bitmap[i / 8], (i % 8) as u8),
    ));
}

} // verus!
