//! The adversarial corpus.
//!
//! The sound cases matter as much as the unsound ones: a checker that refuses everything passes every
//! adversarial corpus.
use vstd::prelude::*;
use vstd::string::*;

use crate::abi::message::Node;
use crate::bytes::{
    append, bit, le, le_bytes, lemma_le_of_le_bytes, lemma_pow_widths, u32_bytes, u64_bytes,
};
use crate::guard::check::{
    batch_fault, check, child_path, children_fault, clear_bits, columns_fault, field_fault,
    fixed_fault, offset_at, offsets_end, offsets_fault, schema_fault, struct_fault, walk, walk_children, walk_columns, Lists, Place, MAX_DEPTH,
};
use crate::guard::error::{found, Invariant, Result, ViolationView};
use crate::guard::indirect::{
    check_dictionary, check_views, dictionary_fault, held, key_at, keys_fault, signed_value,
    slots_fault, view_at, views_fault,
};
use crate::guard::schema::{nested, DataType, Field, Kind, Schema};

verus! {

/// One case, and what the guard is supposed to say about it.
#[derive(Clone, Debug)]
pub struct Case {
    /// What the case is called, in prose.
    pub name: &'static str,
    /// Why it is in the corpus.
    pub why: &'static str,
    /// The rule it should break, or `None` if the guard has to accept it.
    pub expected: Option<Invariant>,
    /// The thing to run.
    pub subject: Subject,
}

/// What a case hands the guard.
#[derive(Clone, Debug)]
pub enum Subject {
    /// A whole batch against a schema.
    Batch {
        /// What the batch claims to be.
        schema: Schema,
        /// How many rows the batch claims.
        rows: u64,
        /// One entry per array.
        nodes: Vec<Node>,
        /// One entry per buffer.
        buffers: Vec<Vec<u8>>,
    },
    /// Dictionary keys against a dictionary of a given size.
    Dictionary {
        /// The encoded keys.
        keys: Vec<u8>,
        /// The type one key is stored as.
        key_type: DataType,
        /// How many keys there are.
        len: u64,
        /// How many values the dictionary holds.
        dictionary_len: u64,
    },
    /// Views against the data buffers they point into.
    Views {
        /// The encoded views, sixteen bytes each.
        views: Vec<u8>,
        /// The data buffers.
        data: Vec<Vec<u8>>,
        /// How many views there are.
        len: u64,
    },
}

/// What is wrong with a subject.
pub open spec fn subject_fault(s: Subject) -> Option<ViolationView> {
    match s {
        Subject::Batch { schema, rows, nodes, buffers } => batch_fault(
            schema,
            rows,
            (Lists { nodes: nodes@, buffers: held(buffers@) }),
        ),
        Subject::Dictionary { keys, key_type, len, dictionary_len } => dictionary_fault(
            keys@,
            key_type,
            len,
            dictionary_len,
            "keys"@,
        ),
        Subject::Views { views, data, len } => views_fault(views@, held(data@), len, "views"@),
    }
}

/// Whether the guard says of a case what it is supposed to.
pub open spec fn case_holds(c: Case) -> bool {
    match subject_fault(c.subject) {
        None => c.expected is None,
        Some(v) => c.expected == Some(v.rule),
    }
}

impl Subject {
    /// Runs the case through the guard.
    pub fn run(&self) -> (r: Result<()>)
        ensures
            found(r, subject_fault(*self)),
    {
        match self {
            Subject::Batch { schema, rows, nodes, buffers } => check(
                schema,
                *rows,
                nodes.as_slice(),
                buffers.as_slice(),
            ),
            Subject::Dictionary { keys, key_type, len, dictionary_len } => check_dictionary(
                keys.as_slice(),
                key_type,
                *len,
                *dictionary_len,
                "keys",
            ),
            Subject::Views { views, data, len } => check_views(
                views.as_slice(),
                data.as_slice(),
                *len,
                "views",
            ),
        }
    }
}

/// A type with nothing under it.
fn plain(kind: Kind, printed: &str) -> (r: DataType)
    ensures
        r.kind == kind,
        r.children@.len() == 0,
{
    DataType { kind, children: Vec::new(), printed: printed.to_owned() }
}

/// A named type.
fn field(name: &str, data_type: DataType) -> (r: Field)
    ensures
        r.data_type == data_type,
{
    Field { name: name.to_owned(), data_type }
}

/// A schema of one column.
fn one_column(f: Field) -> (r: Schema)
    ensures
        r.fields@.len() == 1,
        r.fields@[0] == f,
{
    let mut fields: Vec<Field> = Vec::new();
    fields.push(f);
    Schema { fields }
}

/// Numbers of eight bytes.
fn i64s(values: &[u64]) -> (r: Vec<u8>)
    ensures
        r@.len() == 8 * values@.len(),
{
    let mut r: Vec<u8> = Vec::new();
    let mut i: usize = 0;
    while i < values.len()
        invariant
            0 <= i <= values@.len(),
            r@.len() == 8 * i,
        decreases values@.len() - i,
    {
        append(&mut r, u64_bytes(values[i]).as_slice());
        i = i + 1;
    }
    r
}

/// Numbers of four bytes.
fn i32s(values: &[u32]) -> (r: Vec<u8>)
    ensures
        r@.len() == 4 * values@.len(),
        forall|i: int|
            0 <= i < values@.len() ==> r@.subrange(4 * i, 4 * i + 4) == le_bytes(
                #[trigger] values@[i] as nat,
                4,
            ),
{
    let mut r: Vec<u8> = Vec::new();
    let mut i: usize = 0;
    while i < values.len()
        invariant
            0 <= i <= values@.len(),
            r@.len() == 4 * i,
            forall|j: int|
                0 <= j < i ==> r@.subrange(4 * j, 4 * j + 4) == le_bytes(
                    #[trigger] values@[j] as nat,
                    4,
                ),
        decreases values@.len() - i,
    {
        let ghost before = r@;
        let v = u32_bytes(values[i]);
        append(&mut r, v.as_slice());
        proof {
            assert forall|j: int| 0 <= j < i + 1 implies r@.subrange(4 * j, 4 * j + 4) == le_bytes(
                #[trigger] values@[j] as nat,
                4,
            ) by {
                if j < i {
                    assert(r@.subrange(4 * j, 4 * j + 4) =~= before.subrange(4 * j, 4 * j + 4));
                } else {
                    assert(r@.subrange(4 * j, 4 * j + 4) =~= v@);
                }
            }
        }
        i = i + 1;
    }
    r
}

/// One array.
fn node(length: u64, null_count: u64) -> (r: Node)
    ensures
        r == (Node { length, null_count }),
{
    Node { length, null_count }
}

/// The value of four bytes that hold a small number.
proof fn lemma_small(v: nat)
    requires
        v < 0x8000_0000,
    ensures
        le(le_bytes(v, 4)) == v,
        signed_value(le(le_bytes(v, 4)), 4) == v,
{
    lemma_pow_widths();
    lemma_le_of_le_bytes(v, 4);
}

/// A column that nothing is wrong with on its own.
proof fn lemma_flat_schema(schema: Schema)
    requires
        schema.fields@.len() == 1,
        !nested(schema.fields@[0].data_type.kind),
        schema.fields@[0].data_type.kind != Kind::Other,
    ensures
        schema_fault(schema) is None,
{
    reveal_with_fuel(columns_fault, 2);
}

fn sound_integers() -> (r: Case)
    ensures
        case_holds(r),
        r.name == "three integers",
        r.expected is None,
{
    let schema = one_column(field("a", plain(Kind::Int64, "Int64")));
    let mut nodes: Vec<Node> = Vec::new();
    nodes.push(node(3, 0));
    let mut buffers: Vec<Vec<u8>> = Vec::new();
    buffers.push(Vec::new());
    buffers.push(i64s(&[1, 2, 3]));
    proof {
        lemma_flat_schema(schema);
        let b = Lists { nodes: nodes@, buffers: held(buffers@) };
        reveal_with_fuel(walk_columns, 2);
        let f = schema.fields@[0];
        assert(walk(f, f.name@, b, Place { node: 0, buffer: 0 }) == Ok::<
            (u64, Place),
            ViolationView,
        >((3, Place { node: 1, buffer: 2 })));
    }
    Case {
        name: "three integers",
        why: "a checker that refuses everything passes every corpus, so the corpus has to include batches that are fine",
        expected: None,
        subject: Subject::Batch { schema, rows: 3, nodes, buffers },
    }
}

fn sound_strings_with_nulls() -> (r: Case)
    ensures
        case_holds(r),
        r.name == "two strings, one of them null",
        r.expected is None,
{
    let schema = one_column(field("s", plain(Kind::Utf8, "Utf8")));
    let mut nodes: Vec<Node> = Vec::new();
    nodes.push(node(2, 1));
    let mut bitmap: Vec<u8> = Vec::new();
    bitmap.push(1);
    let offsets = i32s(&[0, 2, 2]);
    let mut data: Vec<u8> = Vec::new();
    data.push(104);
    data.push(111);
    let mut buffers: Vec<Vec<u8>> = Vec::new();
    buffers.push(bitmap);
    buffers.push(offsets);
    buffers.push(data);
    proof {
        lemma_flat_schema(schema);
        let b = Lists { nodes: nodes@, buffers: held(buffers@) };
        let f = schema.fields@[0];
        let all = [0u32, 2, 2]@;
        lemma_small(0);
        lemma_small(2);
        assert(all[0] == 0 && all[1] == 2 && all[2] == 2);
        lemma_three_offsets(b.buffers[1], 0, 2, 2, f.name@);
        assert(bit(1u8, 0)) by {
            assert((1u8 >> 0u8) & 1u8 == 1u8) by (bit_vector);
        }
        assert(!bit(1u8, 1)) by {
            assert((1u8 >> 1u8) & 1u8 != 1u8) by (bit_vector);
        }
        reveal_with_fuel(clear_bits, 3);
        assert(clear_bits(b.buffers[0], 2) == 1);
        reveal_with_fuel(walk_columns, 2);
        assert(b.buffers.subrange(1, 3)[0] == b.buffers[1]);
        assert(b.buffers.subrange(1, 3)[1] == b.buffers[2]);
        assert(walk(f, f.name@, b, Place { node: 0, buffer: 0 }) == Ok::<
            (u64, Place),
            ViolationView,
        >((2, Place { node: 1, buffer: 3 })));
    }
    Case {
        name: "two strings, one of them null",
        why: "the validity path and the offsets path are the two that get the most attention here, so both need a case that passes",
        expected: None,
        subject: Subject::Batch { schema, rows: 2, nodes, buffers },
    }
}

/// What three offsets of four bytes come to.
proof fn lemma_three_offsets(offsets: Seq<u8>, a: nat, b: nat, c: nat, path: Seq<char>)
    requires
        offsets.len() == 12,
        a <= b <= c < 0x8000_0000,
        offsets.subrange(0, 4) == le_bytes(a, 4),
        offsets.subrange(4, 8) == le_bytes(b, 4),
        offsets.subrange(8, 12) == le_bytes(c, 4),
    ensures
        offsets_end(offsets, 2, 4, path) == Ok::<u64, ViolationView>(c as u64),
{
    lemma_small(a);
    lemma_small(b);
    lemma_small(c);
    assert(offset_at(offsets, 4, 0) == a);
    assert(offset_at(offsets, 4, 1) == b);
    assert(offset_at(offsets, 4, 2) == c);
    reveal_with_fuel(offsets_fault, 4);
}

fn sound_nested_struct() -> (r: Case)
    ensures
        case_holds(r),
        r.name == "a struct of two integers",
        r.expected is None,
{
    let mut children: Vec<Field> = Vec::new();
    children.push(field("x", plain(Kind::Int64, "Int64")));
    children.push(field("y", plain(Kind::Int64, "Int64")));
    let point = DataType { kind: Kind::Struct, children, printed: "Struct".to_owned() };
    let schema = one_column(field("p", point));
    let mut nodes: Vec<Node> = Vec::new();
    nodes.push(node(2, 0));
    nodes.push(node(2, 0));
    nodes.push(node(2, 0));
    let mut buffers: Vec<Vec<u8>> = Vec::new();
    buffers.push(Vec::new());
    buffers.push(Vec::new());
    buffers.push(i64s(&[1, 2]));
    buffers.push(Vec::new());
    buffers.push(i64s(&[3, 4]));
    proof {
        let f = schema.fields@[0];
        let kids = f.data_type.children;
        let path = f.name@;
        let b = Lists { nodes: nodes@, buffers: held(buffers@) };
        let x = kids@[0];
        let y = kids@[1];
        reveal_with_fuel(field_fault, 3);
        reveal_with_fuel(children_fault, 3);
        reveal_with_fuel(columns_fault, 2);
        assert(field_fault(x, 2, child_path(path, x.name@)) is None);
        assert(field_fault(y, 2, child_path(path, y.name@)) is None);
        assert(children_fault(kids, 2, 2, path) is None);
        assert(schema_fault(schema) is None);
        let at = Place { node: 1, buffer: 1 };
        reveal_with_fuel(walk, 3);
        assert(walk(x, child_path(path, x.name@), b, at) == Ok::<(u64, Place), ViolationView>(
            (2, Place { node: 2, buffer: 3 }),
        ));
        let next = Place { node: 2, buffer: 3 };
        assert(walk(y, child_path(path, y.name@), b, next) == Ok::<(u64, Place), ViolationView>(
            (2, Place { node: 3, buffer: 5 }),
        ));
        reveal_with_fuel(walk_children, 3);
        let lengths = Seq::<u64>::empty().push(2).push(2);
        assert(walk_children(kids, 2, path, b, at) == Ok::<(Seq<u64>, Place), ViolationView>(
            (lengths, Place { node: 3, buffer: 5 }),
        ));
        reveal_with_fuel(struct_fault, 3);
        assert(walk(f, path, b, Place { node: 0, buffer: 0 }) == Ok::<
            (u64, Place),
            ViolationView,
        >((2, Place { node: 3, buffer: 5 })));
        reveal_with_fuel(walk_columns, 2);
    }
    Case {
        name: "a struct of two integers",
        why: "nesting is where the buffer counting is easiest to get wrong in either direction",
        expected: None,
        subject: Subject::Batch { schema, rows: 2, nodes, buffers },
    }
}

fn offset_one_past_the_end() -> (r: Case)
    ensures
        case_holds(r),
        r.name == "an offset one past the end of its buffer",
        r.expected == Some(Invariant::OffsetRange),
{
    let schema = one_column(field("s", plain(Kind::Utf8, "Utf8")));
    let mut nodes: Vec<Node> = Vec::new();
    nodes.push(node(2, 0));
    let offsets = i32s(&[0, 2, 6]);
    let mut data: Vec<u8> = Vec::new();
    data.push(104);
    data.push(111);
    data.push(121);
    data.push(101);
    data.push(97);
    let mut buffers: Vec<Vec<u8>> = Vec::new();
    buffers.push(Vec::new());
    buffers.push(offsets);
    buffers.push(data);
    proof {
        lemma_flat_schema(schema);
        let b = Lists { nodes: nodes@, buffers: held(buffers@) };
        let f = schema.fields@[0];
        let all = [0u32, 2, 6]@;
        assert(all[0] == 0 && all[1] == 2 && all[2] == 6);
        lemma_three_offsets(b.buffers[1], 0, 2, 6, f.name@);
        reveal_with_fuel(walk_columns, 2);
        assert(b.buffers.subrange(1, 3)[0] == b.buffers[1]);
        assert(b.buffers.subrange(1, 3)[1] == b.buffers[2]);
        assert(walk(f, f.name@, b, Place { node: 0, buffer: 0 }) is Err);
    }
    Case {
        name: "an offset one past the end of its buffer",
        why: "the classic off by one. The offsets are ordered and the buffer is nearly long enough, so nothing about the array looks wrong until something reads the last value",
        expected: Some(Invariant::OffsetRange),
        subject: Subject::Batch { schema, rows: 2, nodes, buffers },
    }
}

fn offsets_that_run_backwards() -> (r: Case)
    ensures
        case_holds(r),
        r.name == "offsets that run backwards",
        r.expected == Some(Invariant::OffsetOrder),
{
    let schema = one_column(field("s", plain(Kind::Utf8, "Utf8")));
    let mut nodes: Vec<Node> = Vec::new();
    nodes.push(node(2, 0));
    let offsets = i32s(&[0, 4, 2]);
    let mut data: Vec<u8> = Vec::new();
    data.push(104);
    data.push(111);
    data.push(121);
    data.push(101);
    data.push(97);
    let mut buffers: Vec<Vec<u8>> = Vec::new();
    buffers.push(Vec::new());
    buffers.push(offsets);
    buffers.push(data);
    proof {
        lemma_flat_schema(schema);
        let b = Lists { nodes: nodes@, buffers: held(buffers@) };
        let f = schema.fields@[0];
        let all = [0u32, 4, 2]@;
        assert(all[0] == 0 && all[1] == 4 && all[2] == 2);
        lemma_small(0);
        lemma_small(4);
        lemma_small(2);
        let o = b.buffers[1];
        assert(offset_at(o, 4, 0) == 0);
        assert(offset_at(o, 4, 1) == 4);
        assert(offset_at(o, 4, 2) == 2);
        reveal_with_fuel(offsets_fault, 4);
        assert(offsets_end(o, 2, 4, f.name@) is Err);
        assert(offsets_end(o, 2, 4, f.name@)->Err_0.rule == Invariant::OffsetOrder);
        reveal_with_fuel(walk_columns, 2);
        assert(b.buffers.subrange(1, 3)[0] == b.buffers[1]);
        assert(walk(f, f.name@, b, Place { node: 0, buffer: 0 }) is Err);
    }
    Case {
        name: "offsets that run backwards",
        why: "every offset is inside the buffer, so nothing is out of range until a length is taken and comes out negative",
        expected: Some(Invariant::OffsetOrder),
        subject: Subject::Batch { schema, rows: 2, nodes, buffers },
    }
}

fn null_count_off_by_one() -> (r: Case)
    ensures
        case_holds(r),
        r.name == "a null count off by one",
        r.expected == Some(Invariant::NullCount),
{
    let schema = one_column(field("a", plain(Kind::Int64, "Int64")));
    let mut nodes: Vec<Node> = Vec::new();
    nodes.push(node(3, 2));
    let mut bitmap: Vec<u8> = Vec::new();
    bitmap.push(7);
    let mut buffers: Vec<Vec<u8>> = Vec::new();
    buffers.push(bitmap);
    buffers.push(i64s(&[7, 8, 9]));
    proof {
        lemma_flat_schema(schema);
        let b = Lists { nodes: nodes@, buffers: held(buffers@) };
        let f = schema.fields@[0];
        assert(bit(7u8, 0) && bit(7u8, 1) && bit(7u8, 2)) by {
            assert((7u8 >> 0u8) & 1u8 == 1u8 && (7u8 >> 1u8) & 1u8 == 1u8 && (7u8 >> 2u8) & 1u8
                == 1u8) by (bit_vector);
        }
        reveal_with_fuel(clear_bits, 4);
        assert(clear_bits(b.buffers[0], 3) == 0);
        reveal_with_fuel(walk_columns, 2);
        assert(walk(f, f.name@, b, Place { node: 0, buffer: 0 }) is Err);
    }
    Case {
        name: "a null count off by one",
        why: "the one number in a batch that nothing else would catch. An array that lies about its nulls produces wrong answers rather than an error",
        expected: Some(Invariant::NullCount),
        subject: Subject::Batch { schema, rows: 3, nodes, buffers },
    }
}

fn dictionary_index_equal_to_the_dictionary_length() -> (r: Case)
    ensures
        case_holds(r),
        r.name == "a dictionary index equal to the dictionary length",
        r.expected == Some(Invariant::DictionaryIndex),
{
    let keys = i32s(&[0, 1, 3]);
    proof {
        let all = [0u32, 1, 3]@;
        assert(all[0] == 0 && all[1] == 1 && all[2] == 3);
        lemma_small(0);
        lemma_small(1);
        lemma_small(3);
        assert(key_at(keys@, 4, true, 0) == 0);
        assert(key_at(keys@, 4, true, 1) == 1);
        assert(key_at(keys@, 4, true, 2) == 3);
        reveal_with_fuel(keys_fault, 4);
    }
    Case {
        name: "a dictionary index equal to the dictionary length",
        why: "in range for the arithmetic and one past the end of the data, which is what an off by one in a decoder produces",
        expected: Some(Invariant::DictionaryIndex),
        subject: Subject::Dictionary {
            keys,
            key_type: plain(Kind::Int32, "Int32"),
            len: 3,
            dictionary_len: 3,
        },
    }
}

fn view_buffer_index_equal_to_the_buffer_count() -> (r: Case)
    ensures
        case_holds(r),
        r.name == "a view buffer index equal to the buffer count",
        r.expected == Some(Invariant::ViewBuffer),
{
    let views = i32s(&[18, 0, 1, 0]);
    let mut data: Vec<Vec<u8>> = Vec::new();
    data.push("hello there friend".as_bytes_vec());
    proof {
        let all = [18u32, 0, 1, 0]@;
        assert(all[0] == 18 && all[2] == 1 && all[3] == 0);
        lemma_small(18);
        lemma_small(1);
        lemma_small(0);
        let v = views@.subrange(0, 16);
        assert(v.subrange(0, 4) =~= views@.subrange(0, 4));
        assert(v.subrange(8, 12) =~= views@.subrange(8, 12));
        assert(v.subrange(12, 16) =~= views@.subrange(12, 16));
        assert(view_at(views@, 0) == (18u32, 1u32, 0u32));
        reveal_with_fuel(slots_fault, 2);
    }
    Case {
        name: "a view buffer index equal to the buffer count",
        why: "the same off by one as the dictionary key, in the one array layout where the number of buffers is not fixed by the schema",
        expected: Some(Invariant::ViewBuffer),
        subject: Subject::Views { views, data, len: 1 },
    }
}

fn length_times_width_that_overflows() -> (r: Case)
    ensures
        case_holds(r),
        r.name == "a length times an element width that overflows",
        r.expected == Some(Invariant::Size),
{
    let schema = one_column(field("a", plain(Kind::Int64, "Int64")));
    let mut nodes: Vec<Node> = Vec::new();
    nodes.push(node(u64::MAX, 0));
    let mut buffers: Vec<Vec<u8>> = Vec::new();
    buffers.push(Vec::new());
    buffers.push(i64s(&[1]));
    proof {
        lemma_flat_schema(schema);
        let b = Lists { nodes: nodes@, buffers: held(buffers@) };
        let f = schema.fields@[0];
        reveal_with_fuel(walk_columns, 2);
        assert(b.buffers.subrange(1, 2)[0] == b.buffers[1]);
        assert(fixed_fault(f.data_type, u64::MAX, 8, f.name@)->Some_0.rule == Invariant::Size);
        assert(walk(f, f.name@, b, Place { node: 0, buffer: 0 }) is Err);
    }
    Case {
        name: "a length times an element width that overflows",
        why: "the arithmetic a checker does is itself an attack surface. A length that wraps when multiplied by a width turns a bounds check into a permission slip",
        expected: Some(Invariant::Size),
        subject: Subject::Batch { schema, rows: u64::MAX, nodes, buffers },
    }
}

fn child_one_row_short_of_its_parent() -> (r: Case)
    ensures
        case_holds(r),
        r.name == "a child array one row short of its parent",
        r.expected == Some(Invariant::ChildLength),
{
    let mut children: Vec<Field> = Vec::new();
    children.push(field("x", plain(Kind::Int64, "Int64")));
    let parent = DataType { kind: Kind::Struct, children, printed: "Struct".to_owned() };
    let schema = one_column(field("p", parent));
    let mut nodes: Vec<Node> = Vec::new();
    nodes.push(node(3, 0));
    nodes.push(node(2, 0));
    let mut buffers: Vec<Vec<u8>> = Vec::new();
    buffers.push(Vec::new());
    buffers.push(Vec::new());
    buffers.push(i64s(&[1, 2]));
    proof {
        let f = schema.fields@[0];
        let kids = f.data_type.children;
        let path = f.name@;
        let b = Lists { nodes: nodes@, buffers: held(buffers@) };
        let x = kids@[0];
        reveal_with_fuel(field_fault, 3);
        reveal_with_fuel(children_fault, 2);
        reveal_with_fuel(columns_fault, 2);
        assert(field_fault(x, 2, child_path(path, x.name@)) is None);
        assert(children_fault(kids, 1, 2, path) is None);
        assert(schema_fault(schema) is None);
        let at = Place { node: 1, buffer: 1 };
        reveal_with_fuel(walk, 3);
        assert(walk(x, child_path(path, x.name@), b, at) == Ok::<(u64, Place), ViolationView>(
            (2, Place { node: 2, buffer: 3 }),
        ));
        reveal_with_fuel(walk_children, 2);
        let lengths = Seq::<u64>::empty().push(2);
        assert(walk_children(kids, 1, path, b, at) == Ok::<(Seq<u64>, Place), ViolationView>(
            (lengths, Place { node: 2, buffer: 3 }),
        ));
        reveal_with_fuel(struct_fault, 2);
        assert(walk(f, path, b, Place { node: 0, buffer: 0 }) is Err);
        reveal_with_fuel(walk_columns, 2);
    }
    Case {
        name: "a child array one row short of its parent",
        why: "a struct's fields are read by the parent's length, so a short child is read past its end on the last row and nowhere else",
        expected: Some(Invariant::ChildLength),
        subject: Subject::Batch { schema, rows: 3, nodes, buffers },
    }
}

/// Whether a type is lists of integers, nested this many deep.
spec fn lists_deep(data_type: DataType, n: nat) -> bool
    decreases n,
{
    if n == 0 {
        data_type.kind == Kind::Int64
    } else {
        &&& data_type.kind == Kind::List
        &&& data_type.children@.len() == 1
        &&& lists_deep(data_type.children@[0].data_type, (n - 1) as nat)
    }
}

/// Lists nested past the bound are too deep.
proof fn lemma_lists_too_deep(f: Field, n: nat, depth: nat, path: Seq<char>)
    requires
        lists_deep(f.data_type, n),
        depth + n > MAX_DEPTH,
    ensures
        field_fault(f, depth, path) is Some,
        field_fault(f, depth, path)->Some_0.rule == Invariant::Depth,
    decreases n,
{
    if depth <= MAX_DEPTH {
        let kids = f.data_type.children;
        let child = kids@[0];
        lemma_lists_too_deep(child, (n - 1) as nat, depth + 1, child_path(path, child.name@));
        reveal_with_fuel(children_fault, 2);
    }
}

fn schema_nesting_without_a_bound() -> (r: Case)
    ensures
        case_holds(r),
        r.name == "a schema nested deeper than anything will walk",
        r.expected == Some(Invariant::Depth),
{
    let mut data_type = plain(Kind::Int64, "Int64");
    let mut n: usize = 0;
    while n < MAX_DEPTH + 10
        invariant
            0 <= n <= MAX_DEPTH + 10,
            lists_deep(data_type, n as nat),
        decreases MAX_DEPTH + 10 - n,
    {
        let mut children: Vec<Field> = Vec::new();
        children.push(field("item", data_type));
        data_type = DataType { kind: Kind::List, children, printed: "List".to_owned() };
        n = n + 1;
    }
    let schema = one_column(field("deep", data_type));
    proof {
        let f = schema.fields@[0];
        lemma_lists_too_deep(f, n as nat, 1, f.name@);
        reveal_with_fuel(columns_fault, 2);
    }
    Case {
        name: "a schema nested deeper than anything will walk",
        why: "everything downstream of the guard walks a schema recursively, so an unbounded schema is a stack overflow rather than an error, and a stack overflow is not something a host can turn into a failed query",
        expected: Some(Invariant::Depth),
        subject: Subject::Batch { schema, rows: 0, nodes: Vec::new(), buffers: Vec::new() },
    }
}

/// Every case in the corpus.
#[must_use]
pub fn cases() -> (r: Vec<Case>)
    ensures
        r@.len() == 11,
        forall|i: int| 0 <= i < 11 ==> case_holds(#[trigger] r@[i]),
        forall|i: int| 0 <= i < 3 ==> (#[trigger] r@[i]).expected is None,
        r@[3].expected == Some(Invariant::OffsetRange),
        r@[4].expected == Some(Invariant::NullCount),
        r@[5].expected == Some(Invariant::DictionaryIndex),
        r@[6].expected == Some(Invariant::ViewBuffer),
        r@[7].expected == Some(Invariant::Size),
        r@[8].expected == Some(Invariant::ChildLength),
        r@[9].expected == Some(Invariant::Depth),
        r@[10].expected == Some(Invariant::OffsetOrder),
        r@[0].name == "three integers",
        r@[1].name == "two strings, one of them null",
        r@[2].name == "a struct of two integers",
        r@[3].name == "an offset one past the end of its buffer",
        r@[4].name == "a null count off by one",
        r@[5].name == "a dictionary index equal to the dictionary length",
        r@[6].name == "a view buffer index equal to the buffer count",
        r@[7].name == "a length times an element width that overflows",
        r@[8].name == "a child array one row short of its parent",
        r@[9].name == "a schema nested deeper than anything will walk",
        r@[10].name == "offsets that run backwards",
{
    let mut r: Vec<Case> = Vec::new();
    r.push(sound_integers());
    r.push(sound_strings_with_nulls());
    r.push(sound_nested_struct());
    r.push(offset_one_past_the_end());
    r.push(null_count_off_by_one());
    r.push(dictionary_index_equal_to_the_dictionary_length());
    r.push(view_buffer_index_equal_to_the_buffer_count());
    r.push(length_times_width_that_overflows());
    r.push(child_one_row_short_of_its_parent());
    r.push(schema_nesting_without_a_bound());
    r.push(offsets_that_run_backwards());
    r
}

} // verus!
