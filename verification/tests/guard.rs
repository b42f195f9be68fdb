//! What the guard refuses and what it lets through.
use iris::abi::Node;
use iris::guard::check::count_nulls;
use iris::guard::corpus::{cases, Case};
use iris::guard::layout::{offset_width, slot_bits};
use iris::guard::{
    check, check_dictionary, check_schema, check_views, layout, DataType, Field, Invariant, Kind,
    Schema, MAX_DEPTH,
};
use std::collections::HashSet;

/// A type with nothing under it.
fn plain(kind: Kind, printed: &str) -> DataType {
    DataType {
        kind,
        children: Vec::new(),
        printed: printed.to_owned(),
    }
}

/// A type with fields under it.
fn nested(kind: Kind, printed: &str, children: Vec<Field>) -> DataType {
    DataType {
        kind,
        children,
        printed: printed.to_owned(),
    }
}

fn field(name: &str, data_type: DataType) -> Field {
    Field {
        name: name.to_owned(),
        data_type,
    }
}

fn one_column(field: Field) -> Schema {
    Schema {
        fields: vec![field],
    }
}

fn node(length: u64, null_count: u64) -> Node {
    Node { length, null_count }
}

fn i64s(values: &[i64]) -> Vec<u8> {
    values.iter().flat_map(|v| v.to_le_bytes()).collect()
}

fn i32s(values: &[i32]) -> Vec<u8> {
    values.iter().flat_map(|v| v.to_le_bytes()).collect()
}

#[test]
fn a_sound_batch_passes() {
    let schema = one_column(field("a", plain(Kind::Int64, "Int64")));
    let buffers = vec![Vec::new(), i64s(&[1, 2, 3])];
    check(&schema, 3, &[node(3, 0)], &buffers).expect("this batch is sound");
}

#[test]
fn a_column_shorter_than_the_batch_is_caught() {
    let schema = one_column(field("a", plain(Kind::Int64, "Int64")));
    let buffers = vec![Vec::new(), i64s(&[1, 2])];
    let err = check(&schema, 3, &[node(2, 0)], &buffers).expect_err("two is not three");
    assert_eq!(err.invariant, Invariant::Rows);
}

#[test]
fn a_values_buffer_one_slot_short_is_caught() {
    let schema = one_column(field("a", plain(Kind::Int64, "Int64")));
    let buffers = vec![Vec::new(), i64s(&[1, 2])];
    let err =
        check(&schema, 3, &[node(3, 0)], &buffers).expect_err("three slots need 24 bytes");
    assert_eq!(err.invariant, Invariant::BufferLength);
    assert!(err.text().contains("24 bytes"), "{}", err.text());
}

#[test]
fn a_bitmap_with_too_few_bits_is_caught() {
    let schema = one_column(field("a", plain(Kind::Int64, "Int64")));
    let buffers = vec![Vec::new(), i64s(&[1, 2, 3])];
    // An empty bitmap is fine, so this uses one that is present and too short.
    let short = vec![vec![0xffu8], i64s(&[1; 100])];
    let wide = one_column(field("a", plain(Kind::Int64, "Int64")));
    let err = check(&wide, 100, &[node(100, 0)], &short).expect_err("100 slots need 13 bytes");
    assert_eq!(err.invariant, Invariant::Validity);
    check(&schema, 3, &[node(3, 0)], &buffers).expect("the empty bitmap case still passes");
}

#[test]
fn an_offset_one_past_the_end_is_caught() {
    let schema = one_column(field("s", plain(Kind::Utf8, "Utf8")));
    let buffers = vec![Vec::new(), i32s(&[0, 2, 6]), b"hoyea".to_vec()];
    let err = check(&schema, 2, &[node(2, 0)], &buffers).expect_err("six is past five");
    assert_eq!(err.invariant, Invariant::OffsetRange);
}

#[test]
fn offsets_that_run_backwards_are_caught() {
    let schema = one_column(field("s", plain(Kind::Utf8, "Utf8")));
    let buffers = vec![Vec::new(), i32s(&[0, 4, 2]), b"hoyea".to_vec()];
    let err = check(&schema, 2, &[node(2, 0)], &buffers).expect_err("two is less than four");
    assert_eq!(err.invariant, Invariant::OffsetOrder);
}

#[test]
fn a_child_one_row_short_of_its_parent_is_caught() {
    let children = vec![field("x", plain(Kind::Int64, "Int64"))];
    let schema = one_column(field("p", nested(Kind::Struct, "Struct", children)));
    let buffers = vec![Vec::new(), Vec::new(), i64s(&[1, 2])];
    let err = check(&schema, 3, &[node(3, 0), node(2, 0)], &buffers)
        .expect_err("a struct's child cannot be shorter than the struct");
    assert_eq!(err.invariant, Invariant::ChildLength);
}

#[test]
fn a_length_that_overflows_a_width_is_caught_rather_than_wrapped() {
    let schema = one_column(field("a", plain(Kind::Int64, "Int64")));
    let buffers = vec![Vec::new(), i64s(&[1])];
    let err = check(&schema, u64::MAX, &[node(u64::MAX, 0)], &buffers)
        .expect_err("that many slots is not addressable");
    assert_eq!(err.invariant, Invariant::Size);
}

#[test]
fn a_schema_nested_past_the_bound_is_refused_without_recursing_into_it() {
    let mut data_type = plain(Kind::Int64, "Int64");
    for _ in 0..MAX_DEPTH + 10 {
        data_type = nested(Kind::List, "List", vec![field("item", data_type)]);
    }
    let schema = one_column(field("deep", data_type));
    let err = check_schema(&schema).expect_err("that is deeper than this build walks");
    assert_eq!(err.invariant, Invariant::Depth);
}

#[test]
fn a_schema_at_the_bound_is_still_walked() {
    let mut data_type = plain(Kind::Int64, "Int64");
    for _ in 0..MAX_DEPTH - 1 {
        data_type = nested(Kind::List, "List", vec![field("item", data_type)]);
    }
    let schema = one_column(field("deep", data_type));
    check_schema(&schema).expect("this is exactly as deep as the bound allows");
}

#[test]
fn spare_buffers_are_an_error_rather_than_something_ignored() {
    let schema = one_column(field("a", plain(Kind::Int64, "Int64")));
    let buffers = vec![Vec::new(), i64s(&[1, 2, 3]), i64s(&[4])];
    let err =
        check(&schema, 3, &[node(3, 0)], &buffers).expect_err("a spare buffer is not fine");
    assert_eq!(err.invariant, Invariant::Buffers);
}

#[test]
fn counting_nulls_stops_at_the_length_rather_than_the_byte() {
    // Five slots, all present, in a byte whose top three bits are clear.
    assert_eq!(count_nulls(&[0b0001_1111], 5), 0);
    assert_eq!(count_nulls(&[0b0001_1110], 5), 1);
    assert_eq!(count_nulls(&[0x00, 0xff], 9), 8);
}

#[test]
fn a_flat_column_takes_a_validity_buffer_and_a_values_buffer() {
    let integers = plain(Kind::Int64, "Int64");
    let found = layout(&integers, "a").expect("Int64 is a type iris carries");
    assert!(found.validity);
    assert_eq!(found.values, 1);
    assert!(found.children.is_empty());
}

#[test]
fn a_struct_takes_no_values_buffer_and_one_child_per_field() {
    let fields = vec![
        field("x", plain(Kind::Int64, "Int64")),
        field("y", plain(Kind::Int64, "Int64")),
    ];
    let point = nested(Kind::Struct, "Struct", fields);
    let found = layout(&point, "p").expect("Struct is a type iris carries");
    assert_eq!(found.values, 0);
    assert_eq!(found.children.len(), 2);
}

#[test]
fn null_is_the_one_type_with_no_validity_buffer() {
    let nulls = plain(Kind::Null, "Null");
    let found = layout(&nulls, "n").expect("Null is a type iris carries");
    assert!(!found.validity);
    assert_eq!(found.values, 0);
}

#[test]
fn a_type_this_build_does_not_carry_is_refused_by_name() {
    let dictionary = plain(Kind::Other, "Dictionary(Int32, Utf8)");
    let err = layout(&dictionary, "d").expect_err("a dictionary is not carried yet");
    assert_eq!(err.invariant, Invariant::Unsupported);
    assert!(err.text().contains("Dictionary"), "{}", err.text());
}

#[test]
fn a_boolean_slot_is_one_bit_and_a_timestamp_is_sixty_four() {
    assert_eq!(slot_bits(Kind::Boolean), Some(1));
    assert_eq!(
        slot_bits(Kind::Timestamp),
        Some(64)
    );
    assert_eq!(slot_bits(Kind::FixedSizeBinary(7)), Some(56));
}

#[test]
fn a_negative_fixed_width_is_not_a_width() {
    assert_eq!(slot_bits(Kind::FixedSizeBinary(-1)), None);
}

#[test]
fn the_large_variants_are_the_ones_with_eight_byte_offsets() {
    assert_eq!(offset_width(Kind::Utf8), Some(4));
    assert_eq!(offset_width(Kind::LargeUtf8), Some(8));
    assert_eq!(offset_width(Kind::Int64), None);
}

fn view(length: u32, index: u32, offset: u32) -> Vec<u8> {
    let mut out = Vec::with_capacity(16);
    out.extend_from_slice(&length.to_le_bytes());
    out.extend_from_slice(&[0u8; 4]);
    out.extend_from_slice(&index.to_le_bytes());
    out.extend_from_slice(&offset.to_le_bytes());
    out
}

#[test]
fn keys_inside_the_dictionary_pass() {
    let keys: Vec<u8> = [0i32, 1, 2].iter().flat_map(|k| k.to_le_bytes()).collect();
    check_dictionary(&keys, &plain(Kind::Int32, "Int32"), 3, 3, "d").expect("every key is a slot");
}

#[test]
fn a_key_equal_to_the_dictionary_length_is_caught() {
    let keys: Vec<u8> = [0i32, 3].iter().flat_map(|k| k.to_le_bytes()).collect();
    let err = check_dictionary(&keys, &plain(Kind::Int32, "Int32"), 2, 3, "d")
        .expect_err("three is one past the last slot");
    assert_eq!(err.invariant, Invariant::DictionaryIndex);
    assert!(err.text().contains("has 3 values"), "{}", err.text());
}

#[test]
fn a_negative_key_is_caught_rather_than_read_as_enormous() {
    let keys: Vec<u8> = (-1i32).to_le_bytes().to_vec();
    let err =
        check_dictionary(&keys, &plain(Kind::Int32, "Int32"), 1, 3, "d").expect_err("a key is a position");
    assert_eq!(err.invariant, Invariant::DictionaryIndex);
    assert!(err.text().contains("is -1"), "{}", err.text());
}

#[test]
fn an_unsigned_key_type_is_read_as_unsigned() {
    let keys: Vec<u8> = 200u8.to_le_bytes().to_vec();
    check_dictionary(&keys, &plain(Kind::UInt8, "UInt8"), 1, 255, "d").expect("200 is a slot in 255");
    let err = check_dictionary(&keys, &plain(Kind::UInt8, "UInt8"), 1, 200, "d")
        .expect_err("200 is not a slot in 200");
    assert_eq!(err.invariant, Invariant::DictionaryIndex);
}

#[test]
fn a_key_type_that_is_not_an_integer_is_refused_by_name() {
    let err = check_dictionary(&[], &plain(Kind::Utf8, "Utf8"), 0, 0, "d")
        .expect_err("a string is not a key type");
    assert_eq!(err.invariant, Invariant::Unsupported);
}

#[test]
fn views_inside_their_buffers_pass() {
    let data: Vec<Vec<u8>> = vec![b"hello there friend".to_vec()];
    let views = [view(18, 0, 0), view(4, 0, 3)].concat();
    check_views(&views, &data, 2, "v").expect("both views are inside the buffer");
}

#[test]
fn a_view_buffer_index_equal_to_the_buffer_count_is_caught() {
    let data: Vec<Vec<u8>> = vec![b"hello there friend".to_vec()];
    let views = view(18, 1, 0);
    let err = check_views(&views, &data, 1, "v").expect_err("there is no buffer 1");
    assert_eq!(err.invariant, Invariant::ViewBuffer);
    assert!(err.text().contains("there are 1"), "{}", err.text());
}

#[test]
fn a_view_that_runs_off_the_end_of_its_buffer_is_caught() {
    let data: Vec<Vec<u8>> = vec![b"hello there friend".to_vec()];
    let views = view(18, 0, 1);
    let err = check_views(&views, &data, 1, "v").expect_err("that is one byte too many");
    assert_eq!(err.invariant, Invariant::ViewBuffer);
}

#[test]
fn a_short_value_lives_in_the_view_and_points_at_nothing() {
    let data: Vec<Vec<u8>> = Vec::new();
    let views = view(12, 99, 99);
    check_views(&views, &data, 1, "v").expect("an inline value indexes nothing");
}

#[test]
fn a_views_buffer_that_is_short_is_caught() {
    let data: Vec<Vec<u8>> = Vec::new();
    let err = check_views(&[0u8; 8], &data, 1, "v").expect_err("a view is sixteen bytes");
    assert_eq!(err.invariant, Invariant::BufferLength);
}

#[test]
fn every_unsound_case_is_refused_under_the_rule_it_breaks() {
    let mut checked = 0;
    for Case {
        name,
        why,
        expected,
        subject,
    } in cases()
    {
        let Some(expected) = expected else { continue };
        checked += 1;

        let Err(err) = subject.run() else {
            panic!("the guard accepted \"{name}\", which it must not.\n{why}")
        };

        assert_eq!(
            err.invariant, expected,
            "\"{name}\" was refused under the {} rule and it breaks the {} rule.\n{why}\n\
             The message was: {}",
            err.invariant.name(),
            expected.name(),
            err.text()
        );
    }

    assert!(checked >= 8, "the corpus has shrunk to {checked} cases");
}

#[test]
fn every_sound_case_is_accepted() {
    let mut checked = 0;
    for Case {
        name,
        why,
        expected,
        subject,
    } in cases()
    {
        if expected.is_some() {
            continue;
        }
        checked += 1;

        // A checker that refuses everything passes every adversarial corpus ever written, so this
        // is the half of the corpus that says the guard is worth having.
        if let Err(err) = subject.run() {
            panic!("the guard refused \"{name}\", which is sound.\n{why}\nIt said: {}", err.text());
        }
    }

    assert!(checked >= 3, "the corpus has no sound cases left");
}

#[test]
fn the_cases_have_distinct_names() {
    let mut seen = HashSet::new();
    for case in cases() {
        assert!(
            seen.insert(case.name),
            "two cases are both called \"{}\", and a failure would name either",
            case.name
        );
    }
}
