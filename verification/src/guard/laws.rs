//! What it means for a batch to pass.
use vstd::prelude::*;

use crate::abi::message::Node;
use crate::guard::check::{
    batch_fault, children_fault, clear_bits, columns_fault, field_fault, offset_at, offset_fault,
    offsets_end, offsets_fault, schema_fault, struct_fault, validity_fault, values_at, values_fault,
    walk, walk_children, walk_columns, Lists, Place, MAX_DEPTH,
};
use crate::guard::layout::{bits_of, offsets_of, value_buffers};
use crate::guard::schema::{nested, DataType, Field, Kind, Schema};

verus! {

/// How many arrays a field takes, with those under it.
pub open spec fn arrays(f: Field) -> nat
    decreases f, 0nat,
{
    if nested(f.data_type.kind) {
        1 + arrays_under(f.data_type.children, f.data_type.children@.len())
    } else {
        1
    }
}

/// How many arrays the first `n` of some fields take.
pub open spec fn arrays_under(fields: Vec<Field>, n: nat) -> nat
    decreases fields, n,
{
    if n == 0 || n > fields@.len() {
        0
    } else {
        arrays_under(fields, (n - 1) as nat) + arrays(fields@[n - 1])
    }
}

/// How many buffers a field takes, with those under it.
pub open spec fn buffers(f: Field) -> nat
    decreases f, 0nat,
{
    let own = value_buffers(f.data_type.kind)->Some_0 as nat + if f.data_type.kind != Kind::Null {
        1nat
    } else {
        0nat
    };
    if nested(f.data_type.kind) {
        own + buffers_under(f.data_type.children, f.data_type.children@.len())
    } else {
        own
    }
}

/// How many buffers the first `n` of some fields take.
pub open spec fn buffers_under(fields: Vec<Field>, n: nat) -> nat
    decreases fields, n,
{
    if n == 0 || n > fields@.len() {
        0
    } else {
        buffers_under(fields, (n - 1) as nat) + buffers(fields@[n - 1])
    }
}

/// Where the first `n` fields under a place leave off.
pub open spec fn past(fields: Vec<Field>, n: nat, at: Place) -> Place {
    Place {
        node: at.node + arrays_under(fields, n),
        buffer: at.buffer + buffers_under(fields, n),
    }
}

/// Whether the validity of an array can be read and says what was declared.
pub open spec fn validity_sound(bitmap: Seq<u8>, node: Node) -> bool {
    if bitmap.len() == 0 {
        node.null_count == 0
    } else {
        &&& node.length <= 8 * bitmap.len()
        &&& node.null_count == clear_bits(bitmap, node.length as nat)
    }
}

/// Whether offsets are there for every slot, never run backwards, and stay inside what they index.
pub open spec fn offsets_sound(offsets: Seq<u8>, len: u64, width: nat, limit: int) -> bool {
    ||| len == 0 && offsets.len() == 0
    ||| {
        &&& (len + 1) * width <= offsets.len()
        &&& forall|i: int| 0 <= i <= len ==> 0 <= #[trigger] offset_at(offsets, width, i) <= limit
        &&& forall|i: int|
            0 < i <= len ==> offset_at(offsets, width, i - 1) <= #[trigger] offset_at(
                offsets,
                width,
                i,
            )
    }
}

/// Whether the buffers an array takes for itself hold what its length says, and its children are long
/// enough for it.
pub open spec fn values_sound(
    data_type: DataType,
    len: u64,
    own: Seq<Seq<u8>>,
    lengths: Seq<u64>,
) -> bool {
    let child = if lengths.len() > 0 {
        lengths[0]
    } else {
        0
    };
    match data_type.kind {
        Kind::Null => true,
        Kind::Utf8 | Kind::Binary | Kind::LargeUtf8 | Kind::LargeBinary => offsets_sound(
            own[0],
            len,
            offsets_of(data_type.kind)->Some_0 as nat,
            own[1].len() as int,
        ),
        Kind::List | Kind::LargeList | Kind::Mapping => offsets_sound(
            own[0],
            len,
            offsets_of(data_type.kind)->Some_0 as nat,
            child as int,
        ),
        Kind::FixedSizeList(size) => size >= 0 && len * size <= child,
        Kind::Struct => forall|i: int| 0 <= i < lengths.len() ==> #[trigger] lengths[i] >= len,
        kind => bits_of(kind) is Some && len * bits_of(kind)->Some_0 <= 8 * own[0].len() && len
            * bits_of(kind)->Some_0 <= u64::MAX,
    }
}

/// Whether an array and those under it can be read without a read leaving its buffer.
pub open spec fn sound(f: Field, b: Lists, at: Place) -> bool
    decreases f, 0nat,
{
    let data_type = f.data_type;
    let node = b.nodes[at.node];
    let from = values_at(data_type, at);
    let to = from + value_buffers(data_type.kind)->Some_0;
    let inside = Place { node: at.node + 1, buffer: to };
    &&& at.node < b.nodes.len()
    &&& value_buffers(data_type.kind) is Some
    &&& to <= b.buffers.len()
    &&& data_type.kind == Kind::Null ==> node.null_count == 0
    &&& data_type.kind != Kind::Null ==> at.buffer < b.buffers.len() && validity_sound(
        b.buffers[at.buffer],
        node,
    )
    &&& nested(data_type.kind) ==> sound_under(
        data_type.children,
        data_type.children@.len(),
        b,
        inside,
    )
    &&& values_sound(
        data_type,
        node.length,
        b.buffers.subrange(from, to),
        if nested(data_type.kind) {
            lengths_under(data_type.children, data_type.children@.len(), b, inside)
        } else {
            Seq::empty()
        },
    )
}

/// Whether the first `n` arrays under a place can be read.
pub open spec fn sound_under(fields: Vec<Field>, n: nat, b: Lists, at: Place) -> bool
    decreases fields, n,
{
    n == 0 || n > fields@.len() || (sound_under(fields, (n - 1) as nat, b, at) && sound(
        fields@[n - 1],
        b,
        past(fields, (n - 1) as nat, at),
    ))
}

/// How long the first `n` arrays under a place are.
pub open spec fn lengths_under(fields: Vec<Field>, n: nat, b: Lists, at: Place) -> Seq<u64> {
    Seq::new(n, |i: int| b.nodes[at.node + arrays_under(fields, i as nat)].length)
}

/// Whether every buffer can be addressed.
pub open spec fn addressable(b: Lists) -> bool {
    forall|i: int| 0 <= i < b.buffers.len() ==> (#[trigger] b.buffers[i]).len() <= u64::MAX
}

/// A run of offsets has no fault exactly when none of its offsets has one.
proof fn lemma_offsets_fault(offsets: Seq<u8>, width: nat, n: nat, path: Seq<char>)
    ensures
        offsets_fault(offsets, width, n, path) is None <==> forall|i: int|
            0 <= i < n ==> (#[trigger] offset_at(offsets, width, i)) >= 0 && (i > 0 ==> offset_at(
                offsets,
                width,
                i - 1,
            ) <= offset_at(offsets, width, i)),
    decreases n,
{
    if n > 0 {
        lemma_offsets_fault(offsets, width, (n - 1) as nat, path);
        let last = offset_at(offsets, width, n - 1);
        if offsets_fault(offsets, width, n, path) is None {
            assert(offset_fault(offsets, width, n - 1, path) is None);
        }
    }
}

/// Offsets that never run backwards are none of them past the last.
proof fn lemma_offsets_below_last(offsets: Seq<u8>, width: nat, n: int, i: int)
    requires
        0 <= i <= n,
        forall|j: int|
            0 < j <= n ==> offset_at(offsets, width, j - 1) <= #[trigger] offset_at(
                offsets,
                width,
                j,
            ),
    ensures
        offset_at(offsets, width, i) <= offset_at(offsets, width, n),
    decreases n - i,
{
    if i < n {
        lemma_offsets_below_last(offsets, width, n, i + 1);
        assert(offset_at(offsets, width, i + 1 - 1) <= offset_at(offsets, width, i + 1));
    }
}

/// Offsets pass, and their end is inside a limit, exactly when they are sound.
proof fn lemma_offsets_sound(
    offsets: Seq<u8>,
    len: u64,
    width: nat,
    limit: int,
    path: Seq<char>,
)
    requires
        offsets.len() <= u64::MAX,
        width > 0,
        0 <= limit <= u64::MAX,
        width == 4 || width == 8,
    ensures
        (offsets_end(offsets, len, width, path) is Ok && offsets_end(
            offsets,
            len,
            width,
            path,
        )->Ok_0 <= limit) <==> offsets_sound(offsets, len, width, limit),
{
    let n = (len + 1) as nat;
    lemma_offsets_fault(offsets, width, n, path);
    let end = offsets_end(offsets, len, width, path);
    if !(len == 0 && offsets.len() == 0) && n * width <= offsets.len() {
        if end is Ok {
            assert(offset_at(offsets, width, len as int) >= 0);
            lemma_offset_small(offsets, width, len as int);
            if end->Ok_0 <= limit {
                assert forall|i: int| 0 <= i <= len implies 0 <= #[trigger] offset_at(
                    offsets,
                    width,
                    i,
                ) <= limit by {
                    lemma_offsets_below_last(offsets, width, len as int, i);
                }
            }
        }
        if offsets_sound(offsets, len, width, limit) {
            assert(offset_at(offsets, width, len as int) <= limit);
            lemma_offset_small(offsets, width, len as int);
            assert forall|i: int| 0 <= i < n implies (#[trigger] offset_at(offsets, width, i)) >= 0
                && (i > 0 ==> offset_at(offsets, width, i - 1) <= offset_at(
                offsets,
                width,
                i,
            )) by {}
        }
    }
}

/// An offset fits in the word it is read into.
proof fn lemma_offset_small(offsets: Seq<u8>, width: nat, i: int)
    requires
        width == 4 || width == 8,
        0 <= i,
        (i + 1) * width <= offsets.len(),
    ensures
        offset_at(offsets, width, i) <= i64::MAX,
{
    assert(i * width + width <= offsets.len() && 0 <= i * width) by (nonlinear_arith)
        requires
            (i + 1) * width <= offsets.len(),
            0 <= i,
    ;
    let s = offsets.subrange(i * width, i * width + width);
    if width == 4 {
        crate::bytes::lemma_le_4(s);
    } else {
        crate::bytes::lemma_le_8(s);
    }
}

/// A struct has no fault exactly when none of its children is shorter than it.
proof fn lemma_struct_fault(
    fields: Seq<Field>,
    lengths: Seq<u64>,
    len: u64,
    n: nat,
    path: Seq<char>,
)
    requires
        n <= lengths.len(),
    ensures
        struct_fault(fields, lengths, len, n, path) is None <==> forall|i: int|
            0 <= i < n ==> #[trigger] lengths[i] >= len,
    decreases n,
{
    if n > 0 {
        lemma_struct_fault(fields, lengths, len, (n - 1) as nat, path);
        if struct_fault(fields, lengths, len, n, path) is None {
            assert(lengths[n - 1] >= len);
        }
    }
}

/// The buffers of an array pass exactly when they are sound.
proof fn lemma_values_sound(
    data_type: DataType,
    len: u64,
    own: Seq<Seq<u8>>,
    lengths: Seq<u64>,
    path: Seq<char>,
)
    requires
        value_buffers(data_type.kind) == Some(own.len() as usize),
        own.len() <= 2,
        forall|i: int| 0 <= i < own.len() ==> (#[trigger] own[i]).len() <= u64::MAX,
    ensures
        values_fault(data_type, len, own, lengths, path) is None <==> values_sound(
            data_type,
            len,
            own,
            lengths,
        ),
{
    let child = if lengths.len() > 0 {
        lengths[0]
    } else {
        0
    };
    match data_type.kind {
        Kind::Null => {},
        Kind::Utf8 | Kind::Binary | Kind::LargeUtf8 | Kind::LargeBinary => {
            assert(own[0].len() <= u64::MAX && own[1].len() <= u64::MAX);
            lemma_offsets_sound(
                own[0],
                len,
                offsets_of(data_type.kind)->Some_0 as nat,
                own[1].len() as int,
                path,
            );
        },
        Kind::List | Kind::LargeList | Kind::Mapping => {
            assert(own[0].len() <= u64::MAX);
            lemma_offsets_sound(
                own[0],
                len,
                offsets_of(data_type.kind)->Some_0 as nat,
                child as int,
                path,
            );
        },
        Kind::FixedSizeList(size) => {},
        Kind::Struct => {
            lemma_struct_fault(data_type.children@, lengths, len, lengths.len(), path);
        },
        _ => {
            assert(own[0].len() <= u64::MAX);
        },
    }
}

/// The validity of an array passes exactly when it is sound.
proof fn lemma_validity_sound(bitmap: Seq<u8>, node: Node, path: Seq<char>)
    ensures
        validity_fault(bitmap, node.length, node.null_count, path) is None <==> validity_sound(
            bitmap,
            node,
        ),
{
}

/// An array passes the walk exactly when it is sound, and then it takes exactly the arrays and buffers
/// that its type calls for.
pub proof fn lemma_walk_is_sound(f: Field, path: Seq<char>, b: Lists, at: Place)
    requires
        addressable(b),
        0 <= at.node,
        0 <= at.buffer,
    ensures
        walk(f, path, b, at) is Ok <==> sound(f, b, at),
        walk(f, path, b, at) is Ok ==> walk(f, path, b, at)->Ok_0 == (
            b.nodes[at.node].length,
            Place { node: at.node + arrays(f), buffer: at.buffer + buffers(f) },
        ),
    decreases f, 0nat,
{
    let data_type = f.data_type;
    let node = b.nodes[at.node];
    let from = values_at(data_type, at);
    if at.node < b.nodes.len() && value_buffers(data_type.kind) is Some {
        if data_type.kind != Kind::Null && at.buffer < b.buffers.len() {
            lemma_validity_sound(b.buffers[at.buffer], node, path);
        }
        let to = from + value_buffers(data_type.kind)->Some_0;
        if to <= b.buffers.len() {
            let inside = Place { node: at.node + 1, buffer: to };
            let own = b.buffers.subrange(from, to);
            assert forall|i: int| 0 <= i < own.len() implies (#[trigger] own[i]).len()
                <= u64::MAX by {
                assert(own[i] == b.buffers[from + i]);
            }
            if nested(data_type.kind) {
                let kids = data_type.children;
                lemma_children_are_sound(kids, kids@.len(), path, b, inside);
                lemma_values_sound(
                    data_type,
                    node.length,
                    own,
                    lengths_under(kids, kids@.len(), b, inside),
                    path,
                );
            } else {
                lemma_values_sound(data_type, node.length, own, Seq::empty(), path);
            }
        }
    }
}

/// The arrays under another pass the walk exactly when they are sound.
proof fn lemma_children_are_sound(
    fields: Vec<Field>,
    n: nat,
    path: Seq<char>,
    b: Lists,
    at: Place,
)
    requires
        addressable(b),
        0 <= at.node,
        0 <= at.buffer,
        n <= fields@.len(),
    ensures
        walk_children(fields, n, path, b, at) is Ok <==> sound_under(fields, n, b, at),
        walk_children(fields, n, path, b, at) is Ok ==> walk_children(fields, n, path, b, at)->Ok_0
            == (lengths_under(fields, n, b, at), past(fields, n, at)),
    decreases fields, n,
{
    if n == 0 {
        assert(lengths_under(fields, n, b, at) =~= Seq::<u64>::empty());
    } else {
        let k = (n - 1) as nat;
        lemma_children_are_sound(fields, k, path, b, at);
        let f = fields@[n - 1];
        assert(fields[n - 1] == f);
        let next = past(fields, k, at);
        lemma_walk_is_sound(
            f,
            crate::guard::check::child_path(path, f.name@),
            b,
            next,
        );
        if walk_children(fields, n, path, b, at) is Ok {
            assert(lengths_under(fields, k, b, at).push(b.nodes[next.node].length)
                =~= lengths_under(fields, n, b, at));
        }
    }
}

/// Where the first `n` columns leave off.
pub open spec fn columns_past(fields: Seq<Field>, n: nat) -> Place
    decreases n,
{
    if n == 0 {
        Place { node: 0, buffer: 0 }
    } else {
        let at = columns_past(fields, (n - 1) as nat);
        Place {
            node: at.node + arrays(fields[n - 1]),
            buffer: at.buffer + buffers(fields[n - 1]),
        }
    }
}

/// Whether a column can be read and has as many rows as the batch.
#[verifier::opaque]
pub open spec fn column_sound(fields: Seq<Field>, k: int, rows: u64, b: Lists) -> bool {
    let at = columns_past(fields, k as nat);
    &&& sound(fields[k], b, at)
    &&& b.nodes[at.node].length == rows
}

/// Whether a batch is what its schema says: every column can be read and has as many rows as the
/// batch, and no array or buffer is left over.
pub open spec fn batch_sound(schema: Schema, rows: u64, b: Lists) -> bool {
    let n = schema.fields@.len();
    let end = columns_past(schema.fields@, n);
    &&& schema_fault(schema) is None
    &&& forall|k: int| 0 <= k < n ==> #[trigger] column_sound(schema.fields@, k, rows, b)
    &&& end.node == b.nodes.len()
    &&& end.buffer == b.buffers.len()
}

/// Columns start at or behind the front.
pub proof fn lemma_columns_past(fields: Seq<Field>, n: nat)
    ensures
        columns_past(fields, n).node >= 0,
        columns_past(fields, n).buffer >= 0,
    decreases n,
{
    if n > 0 {
        lemma_columns_past(fields, (n - 1) as nat);
    }
}

/// The columns pass exactly when each is sound and has the right number of rows.
proof fn lemma_columns_are_sound(fields: Seq<Field>, n: nat, rows: u64, b: Lists)
    requires
        addressable(b),
        n <= fields.len(),
    ensures
        walk_columns(fields, n, rows, b) is Ok <==> forall|k: int|
            0 <= k < n ==> #[trigger] column_sound(fields, k, rows, b),
        walk_columns(fields, n, rows, b) is Ok ==> walk_columns(fields, n, rows, b)->Ok_0
            == columns_past(fields, n),
    decreases n,
{
    if n > 0 {
        let m = (n - 1) as nat;
        lemma_columns_are_sound(fields, m, rows, b);
        lemma_last_column_is_sound(fields, n, rows, b);
        if walk_columns(fields, n, rows, b) is Ok {
            assert forall|k: int| 0 <= k < n implies #[trigger] column_sound(
                fields,
                k,
                rows,
                b,
            ) by {}
        }
    }
}

/// One more column passes exactly when it is sound.
#[verifier::spinoff_prover]
proof fn lemma_last_column_is_sound(fields: Seq<Field>, n: nat, rows: u64, b: Lists)
    requires
        addressable(b),
        0 < n <= fields.len(),
        walk_columns(fields, (n - 1) as nat, rows, b) is Ok ==> walk_columns(
            fields,
            (n - 1) as nat,
            rows,
            b,
        )->Ok_0 == columns_past(fields, (n - 1) as nat),
    ensures
        walk_columns(fields, n, rows, b) is Ok <==> walk_columns(
            fields,
            (n - 1) as nat,
            rows,
            b,
        ) is Ok && column_sound(fields, n - 1, rows, b),
        walk_columns(fields, n, rows, b) is Ok ==> walk_columns(fields, n, rows, b)->Ok_0
            == columns_past(fields, n),
{
    let m = (n - 1) as nat;
    lemma_columns_past(fields, m);
    let f = fields[n - 1];
    let at = columns_past(fields, m);
    lemma_walk_is_sound(f, f.name@, b, at);
    reveal(column_sound);
    assert(column_sound(fields, n - 1, rows, b) == (sound(f, b, at) && b.nodes[at.node].length
        == rows));
}

/// A batch passes exactly when it is sound. So whatever passes can be read without a read leaving its
/// buffer, and nothing sound is refused.
pub proof fn lemma_a_batch_passes_exactly_when_it_is_sound(schema: Schema, rows: u64, b: Lists)
    requires
        addressable(b),
    ensures
        batch_fault(schema, rows, b) is None <==> batch_sound(schema, rows, b),
{
    lemma_columns_are_sound(schema.fields@, schema.fields@.len(), rows, b);
}

/// How deep a field nests, counting itself.
pub open spec fn height(f: Field) -> nat
    decreases f, 0nat,
{
    if nested(f.data_type.kind) {
        1 + heights(f.data_type.children, f.data_type.children@.len())
    } else {
        1
    }
}

/// How deep the deepest of the first `n` of some fields nests.
pub open spec fn heights(fields: Vec<Field>, n: nat) -> nat
    decreases fields, n,
{
    if n == 0 || n > fields@.len() {
        0
    } else {
        let h = height(fields@[n - 1]);
        let rest = heights(fields, (n - 1) as nat);
        if h > rest {
            h
        } else {
            rest
        }
    }
}

/// Whether a field and those under it are of types that are carried.
pub open spec fn carried(f: Field) -> bool
    decreases f, 0nat,
{
    &&& value_buffers(f.data_type.kind) is Some
    &&& nested(f.data_type.kind) ==> all_carried(
        f.data_type.children,
        f.data_type.children@.len(),
    )
}

/// Whether the first `n` of some fields are of types that are carried.
pub open spec fn all_carried(fields: Vec<Field>, n: nat) -> bool
    decreases fields, n,
{
    n == 0 || n > fields@.len() || (all_carried(fields, (n - 1) as nat) && carried(fields@[n - 1]))
}

/// A field passes on its own exactly when it nests no deeper than allowed and all its types are
/// carried.
pub proof fn lemma_field_passes(f: Field, depth: nat, path: Seq<char>)
    requires
        depth >= 1,
    ensures
        field_fault(f, depth, path) is None <==> depth + height(f) - 1 <= MAX_DEPTH && carried(f),
    decreases f, 0nat,
{
    if depth <= MAX_DEPTH && value_buffers(f.data_type.kind) is Some && nested(f.data_type.kind) {
        let kids = f.data_type.children;
        lemma_children_pass(kids, kids@.len(), depth + 1, path);
    }
}

/// The fields under a path pass exactly when none nests too deep and all their types are carried.
proof fn lemma_children_pass(fields: Vec<Field>, n: nat, depth: nat, path: Seq<char>)
    requires
        2 <= depth <= MAX_DEPTH + 1,
        n <= fields@.len(),
    ensures
        children_fault(fields, n, depth, path) is None <==> depth + heights(fields, n) - 1
            <= MAX_DEPTH && all_carried(fields, n),
    decreases fields, n,
{
    if n > 0 {
        lemma_children_pass(fields, (n - 1) as nat, depth, path);
        let f = fields@[n - 1];
        assert(fields[n - 1] == f);
        lemma_field_passes(f, depth, crate::guard::check::child_path(path, f.name@));
    }
}

/// A schema passes on its own exactly when every column nests no deeper than allowed and all the types
/// in it are carried.
pub proof fn lemma_a_schema_passes_exactly_when_it_is_carried(schema: Schema)
    ensures
        schema_fault(schema) is None <==> forall|k: int|
            0 <= k < schema.fields@.len() ==> height(#[trigger] schema.fields@[k]) <= MAX_DEPTH
                && carried(schema.fields@[k]),
{
    lemma_columns_pass(schema.fields, schema.fields@.len());
}

/// The first `n` columns pass exactly when each does.
proof fn lemma_columns_pass(fields: Vec<Field>, n: nat)
    requires
        n <= fields@.len(),
    ensures
        columns_fault(fields, n) is None <==> forall|k: int|
            0 <= k < n ==> height(#[trigger] fields@[k]) <= MAX_DEPTH && carried(fields@[k]),
    decreases n,
{
    if n > 0 {
        lemma_columns_pass(fields, (n - 1) as nat);
        let f = fields@[n - 1];
        lemma_field_passes(f, 1, f.name@);
        if columns_fault(fields, n) is None {
            assert forall|k: int| 0 <= k < n implies height(#[trigger] fields@[k]) <= MAX_DEPTH
                && carried(fields@[k]) by {}
        }
        if forall|k: int|
            0 <= k < n ==> height(#[trigger] fields@[k]) <= MAX_DEPTH && carried(fields@[k]) {
            assert(height(fields@[n - 1]) <= MAX_DEPTH);
        }
    }
}

} // verus!
