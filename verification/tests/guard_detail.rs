//! The numbers a violation carries, and the rules that need a batch of their own.
use iris::abi::message::Node;
use iris::guard::corpus::cases;
use iris::guard::{
    check, check_schema, check_views, DataType, Field, Invariant, Kind, Schema, Violation, MAX_DEPTH,
};

fn plain(kind: Kind, printed: &str) -> DataType {
    DataType { kind, children: Vec::new(), printed: printed.to_owned() }
}

fn column(name: &str, data_type: DataType) -> Schema {
    Schema { fields: vec![Field { name: name.to_owned(), data_type }] }
}

fn list(item: DataType) -> DataType {
    DataType {
        kind: Kind::List,
        children: vec![Field { name: "item".to_owned(), data_type: item }],
        printed: "List".to_owned(),
    }
}

fn node(length: u64, null_count: u64) -> Node {
    Node { length, null_count }
}

fn rule(r: Result<(), Violation>) -> Option<Invariant> {
    r.err().map(|v| v.invariant)
}

#[test]
fn a_violation_prints_as_a_sentence() {
    let v = Violation {
        invariant: Invariant::OffsetOrder,
        path: "a.b".to_owned(),
        detail: "1 then 0".to_owned(),
    };
    assert_eq!(v.text(), "a.b breaks the offset order rule: 1 then 0");
    assert_eq!(Invariant::Size.name(), "addressable size");
}

#[test]
fn a_batch_has_as_many_arrays_and_buffers_as_its_schema() {
    let schema = column("n", plain(Kind::Int8, "Int8"));
    let values = vec![1u8, 2];
    let ok = [Vec::new(), values.clone()];
    assert!(check(&schema, 2, &[node(2, 0)], &ok).is_ok());
    assert_eq!(rule(check(&schema, 2, &[], &ok)), Some(Invariant::Arrays));
    assert_eq!(
        rule(check(&schema, 2, &[node(2, 0), node(2, 0)], &ok)),
        Some(Invariant::Arrays)
    );
    assert_eq!(
        rule(check(&schema, 2, &[node(2, 0)], &[Vec::new()])),
        Some(Invariant::Buffers)
    );
    assert_eq!(
        rule(check(&schema, 2, &[node(2, 0)], &[Vec::new(), values, Vec::new()])),
        Some(Invariant::Buffers)
    );
}

#[test]
fn nulls_are_counted_and_not_believed() {
    let schema = column("n", plain(Kind::Int8, "Int8"));
    let batch = |nulls: u64, bitmap: Vec<u8>| {
        rule(check(&schema, 3, &[node(3, nulls)], &[bitmap, vec![0; 3]]))
    };
    assert_eq!(batch(1, vec![0b101]), None);
    assert_eq!(batch(2, vec![0b101]), Some(Invariant::NullCount));
    // No bitmap at all is a promise that nothing is null.
    assert_eq!(batch(0, Vec::new()), None);
    assert_eq!(batch(1, Vec::new()), Some(Invariant::NullCount));
}

#[test]
fn a_null_column_has_nothing_to_count_nulls_in() {
    let schema = column("n", plain(Kind::Null, "Null"));
    assert!(check(&schema, 4, &[node(4, 0)], &[]).is_ok());
    assert_eq!(
        rule(check(&schema, 4, &[node(3, 0)], &[])),
        Some(Invariant::Rows)
    );
    let err = check(&schema, 4, &[node(4, 4)], &[]).err().unwrap();
    assert_eq!(
        err.text(),
        "n breaks the null count rule: a Null column has no validity buffer and this one says it has 4 nulls"
    );
}

#[test]
fn lists_point_into_their_child() {
    let schema = column("l", list(plain(Kind::Int8, "Int8")));
    let batch = |offsets: &[i32], child: u64| {
        let mut bytes = Vec::new();
        for offset in offsets {
            bytes.extend_from_slice(&offset.to_le_bytes());
        }
        let values = vec![0u8; child as usize];
        rule(check(
            &schema,
            2,
            &[node(2, 0), node(child, 0)],
            &[Vec::new(), bytes, Vec::new(), values],
        ))
    };
    assert_eq!(batch(&[0, 1, 3], 3), None);
    assert_eq!(batch(&[0, 1, 4], 3), Some(Invariant::OffsetRange));
    assert_eq!(batch(&[0, 3, 1], 3), Some(Invariant::OffsetOrder));
    assert_eq!(batch(&[-1, 1, 1], 3), Some(Invariant::OffsetRange));
    assert_eq!(batch(&[0, 1], 3), Some(Invariant::BufferLength));
}

#[test]
fn a_fixed_size_list_needs_a_slot_for_every_value() {
    let fixed = |size: i32| DataType {
        kind: Kind::FixedSizeList(size),
        children: vec![Field {
            name: "item".to_owned(),
            data_type: plain(Kind::Int8, "Int8"),
        }],
        printed: "FixedSizeList".to_owned(),
    };
    let batch = |size: i32, rows: u64, child: u64| {
        let nodes = [node(rows, 0), node(child, 0)];
        let buffers = [Vec::new(), Vec::new(), vec![0u8; child as usize]];
        rule(check(&column("f", fixed(size)), rows, &nodes, &buffers))
    };
    assert_eq!(batch(3, 2, 6), None);
    assert_eq!(batch(3, 2, 5), Some(Invariant::ChildLength));
    assert_eq!(batch(-1, 2, 5), Some(Invariant::ChildLength));
    assert_eq!(batch(3, u64::MAX, 5), Some(Invariant::Size));
}

#[test]
fn a_schema_at_the_bound_is_carried_and_one_past_it_is_not() {
    let nest = |levels: usize| {
        let mut data_type = plain(Kind::Int8, "Int8");
        for _ in 0..levels {
            data_type = list(data_type);
        }
        check_schema(&column("deep", data_type))
    };
    assert!(nest(MAX_DEPTH - 1).is_ok());
    assert_eq!(rule(nest(MAX_DEPTH + 1)), Some(Invariant::Depth));
    assert_eq!(
        rule(check_schema(&column("u", plain(Kind::Other, "Union")))),
        Some(Invariant::Unsupported)
    );
}

#[test]
fn a_view_names_the_buffer_and_the_bytes() {
    let mut view = 20u32.to_le_bytes().to_vec();
    view.extend_from_slice(b"pref");
    view.extend_from_slice(&0u32.to_le_bytes());
    view.extend_from_slice(&4u32.to_le_bytes());
    let data = [vec![0u8; 24]];
    assert!(check_views(&view, &data, 1, "v").is_ok());
    let short = [vec![0u8; 23]];
    let err = check_views(&view, &short, 1, "v").err().unwrap();
    assert_eq!(err.invariant, Invariant::ViewBuffer);
    assert_eq!(err.path, "v");
}

#[test]
fn views_are_a_whole_number_of_views() {
    let data: Vec<Vec<u8>> = Vec::new();
    assert!(check_views(&[0u8; 16], &data, 1, "v").is_ok());
    assert!(check_views(&[0u8; 32], &data, 1, "v").is_ok());
    let err = check_views(&[0u8; 24], &data, 1, "v").err().unwrap();
    assert_eq!(err.invariant, Invariant::BufferLength);
    assert_eq!(err.detail, "24 bytes are not a whole number of 16 byte views");
    let err = check_views(&[0u8; 8], &data, 1, "v").err().unwrap();
    assert_eq!(err.invariant, Invariant::BufferLength);
    assert!(check_views(&[0u8; 4], &data, 0, "v").is_err());
}

#[test]
fn a_copied_schema_is_the_same_schema() {
    let schema = column("a", list(list(plain(Kind::Int64, "Int64"))));
    assert_eq!(schema.clone(), schema);
    for case in cases() {
        let again = case.clone();
        assert_eq!(again.name, case.name);
        assert_eq!(rule(again.subject.run()), case.expected);
    }
}
