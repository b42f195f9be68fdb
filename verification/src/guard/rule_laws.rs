//! Which rule a fault breaks.
use vstd::prelude::*;

use crate::guard::check::{
    child_path, field_fault, fixed_fault, fixed_list_fault, head_fault, leftover_fault, list_fault,
    offset_at, offset_fault, offsets_end, offsets_fault, struct_fault, validity_fault, values_at,
    values_fault, variable_fault, walk, walk_children, walk_columns, Lists, Place,
};
use crate::guard::indirect::{
    dictionary_fault, key_width, keys_fault, slots_fault, views_fault,
};
use crate::guard::layout::{bits_of, value_buffers};
use crate::guard::schema::{nested, DataType, Field};

verus! {

/// A validity buffer is too short exactly when it is there and has fewer bits than slots; otherwise what
/// is wrong with it is the number of nulls.
pub proof fn lemma_validity_rules(bitmap: Seq<u8>, len: u64, null_count: u64, path: Seq<char>)
    requires
        validity_fault(bitmap, len, null_count, path) is Some,
    ensures
        ({
            let rule = validity_fault(bitmap, len, null_count, path)->Some_0.rule;
            &&& rule is Validity <==> bitmap.len() > 0 && 8 * bitmap.len() < len
            &&& rule is Validity || rule is NullCount
        }),
{
}

/// The first bad offset of a run says which rule the run breaks.
proof fn lemma_first_bad_offset(offsets: Seq<u8>, width: nat, n: nat, path: Seq<char>)
    requires
        offsets_fault(offsets, width, n, path) is Some,
    ensures
        exists|i: int|
            {
                &&& 0 <= i < n
                &&& offsets_fault(offsets, width, n, path) == offset_fault(offsets, width, i, path)
                &&& forall|j: int|
                    0 <= j < i ==> 0 <= #[trigger] offset_at(offsets, width, j)
                &&& 0 > #[trigger] offset_at(offsets, width, i) || (i > 0 && offset_at(
                    offsets,
                    width,
                    i,
                ) < offset_at(offsets, width, i - 1))
            },
    decreases n,
{
    if n > 0 {
        if offsets_fault(offsets, width, (n - 1) as nat, path) is Some {
            lemma_first_bad_offset(offsets, width, (n - 1) as nat, path);
            let i = choose|i: int|
                {
                    &&& 0 <= i < n - 1
                    &&& offsets_fault(offsets, width, (n - 1) as nat, path) == offset_fault(
                        offsets,
                        width,
                        i,
                        path,
                    )
                    &&& forall|j: int|
                        0 <= j < i ==> 0 <= #[trigger] offset_at(offsets, width, j)
                    &&& 0 > #[trigger] offset_at(offsets, width, i) || (i > 0 && offset_at(
                        offsets,
                        width,
                        i,
                    ) < offset_at(offsets, width, i - 1))
                };
            assert(0 > offset_at(offsets, width, i) || (i > 0 && offset_at(offsets, width, i)
                < offset_at(offsets, width, i - 1)));
        } else {
            lemma_no_bad_offset(offsets, width, (n - 1) as nat, path);
            assert(0 > offset_at(offsets, width, n - 1) || (n - 1 > 0 && offset_at(
                offsets,
                width,
                n - 1,
            ) < offset_at(offsets, width, n - 1 - 1)));
        }
    }
}

/// A run with nothing wrong has no negative offset.
proof fn lemma_no_bad_offset(offsets: Seq<u8>, width: nat, n: nat, path: Seq<char>)
    requires
        offsets_fault(offsets, width, n, path) is None,
    ensures
        forall|j: int| 0 <= j < n ==> 0 <= #[trigger] offset_at(offsets, width, j),
    decreases n,
{
    if n > 0 {
        lemma_no_bad_offset(offsets, width, (n - 1) as nat, path);
        assert(offset_fault(offsets, width, n - 1, path) is None);
    }
}

/// Offsets that are refused take more room than can be addressed, or more than there is, or have a first
/// bad one that is negative and so out of range, or less than the one before it and so out of order.
pub proof fn lemma_offset_rules(offsets: Seq<u8>, len: u64, width: nat, path: Seq<char>)
    requires
        offsets_end(offsets, len, width, path) is Err,
    ensures
        ({
            let rule = offsets_end(offsets, len, width, path)->Err_0.rule;
            let needed = (len + 1) * width;
            &&& rule is Size <==> needed > u64::MAX
            &&& rule is BufferLength <==> offsets.len() < needed <= u64::MAX
            &&& rule is OffsetRange ==> exists|i: int|
                0 <= i <= len && #[trigger] offset_at(offsets, width, i) < 0
            &&& rule is OffsetOrder ==> exists|i: int|
                0 < i <= len && #[trigger] offset_at(offsets, width, i) < offset_at(
                    offsets,
                    width,
                    i - 1,
                )
            &&& rule is Size || rule is BufferLength || rule is OffsetRange || rule is OffsetOrder
        }),
{
    let n = (len + 1) as nat;
    if n * width <= u64::MAX && offsets.len() >= n * width {
        lemma_first_bad_offset(offsets, width, n, path);
        let i = choose|i: int|
            {
                &&& 0 <= i < n
                &&& offsets_fault(offsets, width, n, path) == offset_fault(offsets, width, i, path)
                &&& forall|j: int|
                    0 <= j < i ==> 0 <= #[trigger] offset_at(offsets, width, j)
                &&& 0 > #[trigger] offset_at(offsets, width, i) || (i > 0 && offset_at(
                    offsets,
                    width,
                    i,
                ) < offset_at(offsets, width, i - 1))
            };
        assert(0 > offset_at(offsets, width, i) || (i > 0 && offset_at(offsets, width, i)
            < offset_at(offsets, width, i - 1)));
    }
}

/// Offsets that are sound and end past what they index are out of range.
pub proof fn lemma_range_rules(
    offsets: Seq<u8>,
    len: u64,
    width: nat,
    have: nat,
    child: u64,
    path: Seq<char>,
)
    requires
        offsets_end(offsets, len, width, path) is Ok,
    ensures
        variable_fault(width, len, offsets, have, path) is Some ==> variable_fault(
            width,
            len,
            offsets,
            have,
            path,
        )->Some_0.rule is OffsetRange,
        list_fault(width, len, offsets, child, path) is Some ==> list_fault(
            width,
            len,
            offsets,
            child,
            path,
        )->Some_0.rule is OffsetRange,
{
}

/// A fixed size list is refused for its child, unless its slots are more than can be addressed, and a
/// struct always is.
pub proof fn lemma_child_rules(
    len: u64,
    size: i32,
    child: u64,
    fields: Seq<Field>,
    lengths: Seq<u64>,
    n: nat,
    path: Seq<char>,
)
    ensures
        fixed_list_fault(len, size, child, path) is Some ==> {
            let rule = fixed_list_fault(len, size, child, path)->Some_0.rule;
            &&& rule is Size <==> size >= 0 && len * size > u64::MAX
            &&& rule is Size || rule is ChildLength
        },
        struct_fault(fields, lengths, len, n, path) is Some ==> struct_fault(
            fields,
            lengths,
            len,
            n,
            path,
        )->Some_0.rule is ChildLength,
    decreases n,
{
    if n > 0 {
        lemma_child_rules(len, size, child, fields, lengths, (n - 1) as nat, path);
    }
}

/// A fixed width array is refused for its type where that has no width, for its size where that cannot be
/// addressed, and otherwise for a buffer that is too short.
pub proof fn lemma_fixed_rules(data_type: DataType, len: u64, have: nat, path: Seq<char>)
    requires
        fixed_fault(data_type, len, have, path) is Some,
    ensures
        ({
            let rule = fixed_fault(data_type, len, have, path)->Some_0.rule;
            &&& rule is Unsupported <==> bits_of(data_type.kind) is None
            &&& rule is Size <==> bits_of(data_type.kind) is Some && len * bits_of(
                data_type.kind,
            )->Some_0 > u64::MAX
            &&& rule is Unsupported || rule is Size || rule is BufferLength
        }),
{
}

/// A field is refused for its depth exactly when it is too deep, and itself for nothing else but a type
/// that is not carried.
pub proof fn lemma_field_rules(f: Field, depth: nat, path: Seq<char>)
    ensures
        depth > 64 ==> field_fault(f, depth, path) is Some && field_fault(
            f,
            depth,
            path,
        )->Some_0.rule is Depth,
        depth <= 64 && f.data_type.kind is Other ==> field_fault(f, depth, path) is Some
            && field_fault(f, depth, path)->Some_0.rule is Unsupported,
{
}

/// Arrays that run out, buffers that run out, and either of them left over, are each refused under the
/// count they break. So is a column with another number of rows than the batch.
pub proof fn lemma_count_rules(
    f: Field,
    path: Seq<char>,
    b: Lists,
    at: Place,
    fields: Seq<Field>,
    n: nat,
    rows: u64,
)
    requires
        0 < n <= fields.len(),
    ensures
        at.node >= b.nodes.len() ==> walk(f, path, b, at) is Err && walk(
            f,
            path,
            b,
            at,
        )->Err_0.rule is Arrays,
        0 <= at.node < b.nodes.len() && !(f.data_type.kind is Null) && !(f.data_type.kind is Other)
            && at.buffer >= b.buffers.len() ==> walk(f, path, b, at) is Err && walk(
            f,
            path,
            b,
            at,
        )->Err_0.rule is Buffers,
        at.node != b.nodes.len() ==> leftover_fault(b, at) is Some && leftover_fault(
            b,
            at,
        )->Some_0.rule is Arrays,
        at.node == b.nodes.len() && at.buffer != b.buffers.len() ==> leftover_fault(b, at) is Some
            && leftover_fault(b, at)->Some_0.rule is Buffers,
        at.node == b.nodes.len() && at.buffer == b.buffers.len() ==> leftover_fault(b, at) is None,
        ({
            let before = walk_columns(fields, (n - 1) as nat, rows, b);
            let one = walk(fields[n - 1], fields[n - 1].name@, b, before->Ok_0);
            before is Ok && one is Ok && one->Ok_0.0 != rows ==> walk_columns(
                fields,
                n,
                rows,
                b,
            ) is Err && walk_columns(fields, n, rows, b)->Err_0.rule is Rows
        }),
{
}

/// Dictionary keys are refused for their type where that is no integer, for their size where that cannot
/// be addressed, for their buffer where that is too short, and otherwise for a key.
pub proof fn lemma_key_rules(
    keys: Seq<u8>,
    key_type: DataType,
    len: u64,
    dictionary_len: u64,
    path: Seq<char>,
)
    requires
        keys.len() <= usize::MAX,
        dictionary_fault(keys, key_type, len, dictionary_len, path) is Some,
    ensures
        ({
            let rule = dictionary_fault(keys, key_type, len, dictionary_len, path)->Some_0.rule;
            let width = key_width(key_type.kind);
            &&& rule is Unsupported <==> width is None
            &&& rule is Size <==> width is Some && (len > usize::MAX || len * width->Some_0.0
                > usize::MAX)
            &&& rule is BufferLength <==> width is Some && len <= usize::MAX && keys.len() < len
                * width->Some_0.0 <= usize::MAX
            &&& rule is Unsupported || rule is Size || rule is BufferLength || rule
                is DictionaryIndex
        }),
{
    if key_width(key_type.kind) is Some {
        let (width, is_signed) = key_width(key_type.kind)->Some_0;
        lemma_keys_break_the_index(keys, width, is_signed, len as nat, dictionary_len, path);
    }
}

/// A bad key breaks the rule on keys.
proof fn lemma_keys_break_the_index(
    keys: Seq<u8>,
    width: nat,
    is_signed: bool,
    n: nat,
    dictionary_len: u64,
    path: Seq<char>,
)
    ensures
        keys_fault(keys, width, is_signed, n, dictionary_len, path) is Some ==> keys_fault(
            keys,
            width,
            is_signed,
            n,
            dictionary_len,
            path,
        )->Some_0.rule is DictionaryIndex,
    decreases n,
{
    if n > 0 {
        lemma_keys_break_the_index(keys, width, is_signed, (n - 1) as nat, dictionary_len, path);
    }
}

/// Views are refused for their size where that cannot be addressed, for their buffer where that is too
/// short or ragged, and otherwise for a view.
pub proof fn lemma_view_rules(views: Seq<u8>, data: Seq<Seq<u8>>, len: u64, path: Seq<char>)
    requires
        views.len() <= usize::MAX,
        views_fault(views, data, len, path) is Some,
    ensures
        ({
            let rule = views_fault(views, data, len, path)->Some_0.rule;
            &&& rule is Size <==> 16 * len > usize::MAX
            &&& rule is BufferLength <==> 16 * len <= usize::MAX && (views.len() < 16 * len
                || views.len() % 16 != 0)
            &&& rule is Size || rule is BufferLength || rule is ViewBuffer
        }),
{
    lemma_slots_break_the_view(views, data, len as nat, path);
}

/// A bad view breaks the rule on views.
proof fn lemma_slots_break_the_view(views: Seq<u8>, data: Seq<Seq<u8>>, n: nat, path: Seq<char>)
    ensures
        slots_fault(views, data, n, path) is Some ==> slots_fault(
            views,
            data,
            n,
            path,
        )->Some_0.rule is ViewBuffer,
    decreases n,
{
    if n > 0 {
        lemma_slots_break_the_view(views, data, (n - 1) as nat, path);
    }
}

/// Whether one path is another or lies under it: its front is the other, and a full stop comes between
/// that and the rest.
pub open spec fn lies_under(path: Seq<char>, other: Seq<char>) -> bool {
    &&& path.len() >= other.len()
    &&& path.take(other.len() as int) == other
    &&& path.len() > other.len() ==> path[other.len() as int] == '.'
}

/// What lies under a path under another lies under that other.
proof fn lemma_under_a_child(path: Seq<char>, other: Seq<char>, name: Seq<char>)
    requires
        lies_under(path, child_path(other, name)),
    ensures
        lies_under(path, other),
{
    reveal_strlit(".");
    let child = child_path(other, name);
    let n = other.len() as int;
    assert(child.take(n) =~= other);
    assert(path.take(n) =~= path.take(child.len() as int).take(n));
    assert(path[n] == path.take(child.len() as int)[n]);
}

/// A path lies under itself.
proof fn lemma_under_itself(path: Seq<char>)
    ensures
        lies_under(path, path),
{
    assert(path.take(path.len() as int) =~= path);
}

/// What is wrong with the buffers of an array is said of that array.
proof fn lemma_values_path(
    data_type: DataType,
    len: u64,
    own: Seq<Seq<u8>>,
    lengths: Seq<u64>,
    path: Seq<char>,
)
    requires
        path.len() > 0,
        values_fault(data_type, len, own, lengths, path) is Some,
    ensures
        values_fault(data_type, len, own, lengths, path)->Some_0.path == path,
{
    lemma_offsets_path(own[0], 4, (len + 1) as nat, path);
    lemma_offsets_path(own[0], 8, (len + 1) as nat, path);
    lemma_struct_path(data_type.children@, lengths, len, lengths.len(), path);
}

/// What is wrong with offsets is said of their array.
proof fn lemma_offsets_path(offsets: Seq<u8>, width: nat, n: nat, path: Seq<char>)
    requires
        path.len() > 0,
    ensures
        offsets_fault(offsets, width, n, path) is Some ==> offsets_fault(
            offsets,
            width,
            n,
            path,
        )->Some_0.path == path,
    decreases n,
{
    if n > 0 {
        lemma_offsets_path(offsets, width, (n - 1) as nat, path);
    }
}

/// What is wrong with the children of a struct is said of the struct.
proof fn lemma_struct_path(
    fields: Seq<Field>,
    lengths: Seq<u64>,
    len: u64,
    n: nat,
    path: Seq<char>,
)
    requires
        path.len() > 0,
    ensures
        struct_fault(fields, lengths, len, n, path) is Some ==> struct_fault(
            fields,
            lengths,
            len,
            n,
            path,
        )->Some_0.path == path,
    decreases n,
{
    if n > 0 {
        lemma_struct_path(fields, lengths, len, (n - 1) as nat, path);
    }
}

/// What is wrong with an array is said of it or of one under it: the path starts with its own, and names
/// are set apart by full stops.
pub proof fn lemma_a_fault_is_said_of_its_array(f: Field, path: Seq<char>, b: Lists, at: Place)
    requires
        path.len() > 0,
        walk(f, path, b, at) is Err,
    ensures
        lies_under(walk(f, path, b, at)->Err_0.path, path),
    decreases f, 0nat,
{
    lemma_under_itself(path);
    let data_type = f.data_type;
    let node = b.nodes[at.node];
    let from = values_at(data_type, at);
    if at.node < b.nodes.len() && value_buffers(data_type.kind) is Some && head_fault(
        data_type,
        node,
        b,
        at.buffer,
        path,
    ) is None && from + value_buffers(data_type.kind)->Some_0 <= b.buffers.len() {
        let to = from + value_buffers(data_type.kind)->Some_0;
        let inside = Place { node: at.node + 1, buffer: to };
        let own = b.buffers.subrange(from, to);
        if nested(data_type.kind) {
            let kids = data_type.children;
            let under = walk_children(kids, kids@.len(), path, b, inside);
            if under is Err {
                lemma_a_fault_is_said_of_a_child(kids, kids@.len(), path, b, inside);
            } else {
                lemma_values_path(data_type, node.length, own, under->Ok_0.0, path);
            }
        } else {
            lemma_values_path(data_type, node.length, own, Seq::empty(), path);
        }
    }
}

/// What is wrong with the arrays under another is said of one under it.
proof fn lemma_a_fault_is_said_of_a_child(
    fields: Vec<Field>,
    n: nat,
    path: Seq<char>,
    b: Lists,
    at: Place,
)
    requires
        path.len() > 0,
        n <= fields@.len(),
        walk_children(fields, n, path, b, at) is Err,
    ensures
        lies_under(walk_children(fields, n, path, b, at)->Err_0.path, path),
    decreases fields, n,
{
    if n > 0 {
        let before = walk_children(fields, (n - 1) as nat, path, b, at);
        if before is Err {
            lemma_a_fault_is_said_of_a_child(fields, (n - 1) as nat, path, b, at);
        } else {
            let f = fields@[n - 1];
            assert(fields[n - 1] == f);
            let next = before->Ok_0.1;
            let child = child_path(path, f.name@);
            lemma_a_fault_is_said_of_its_array(f, child, b, next);
            lemma_under_a_child(walk(f, child, b, next)->Err_0.path, path, f.name@);
        }
    }
}

} // verus!
