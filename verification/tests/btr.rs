//! Column parts: the framing, the nullmaps and the schemes.
use iris::btr::column::{Column, Strings};
use iris::btr::error::Error;
use iris::btr::packing::unpack;
use iris::btr::patched::page;
use iris::btr::nullmap::{Nullmap, Presence};
use iris::btr::part::{plus, read_past, read_u32, ColumnType, Part};
use iris::btr::scheme::scheme_name;

/// One chunk: its header, its data, and its nullmap.
fn chunk(scheme: u8, nulls: u8, column: u8, rows: u32, data: &[u8], nullmap: &[u8]) -> Vec<u8> {
    let mut out = vec![scheme, nulls, column, 0xEE];
    out.extend_from_slice(&(data.len() as u32).to_le_bytes());
    out.extend_from_slice(&rows.to_le_bytes());
    out.extend_from_slice(data);
    out.extend_from_slice(nullmap);
    out
}

/// A part of chunks laid out end to end.
fn part(chunks: &[Vec<u8>]) -> Vec<u8> {
    let mut out = (chunks.len() as u32).to_le_bytes().to_vec();
    let mut at = 4 + 4 * chunks.len();
    for chunk in chunks {
        out.extend_from_slice(&(at as u32).to_le_bytes());
        at += chunk.len();
    }
    for chunk in chunks {
        out.extend_from_slice(chunk);
    }
    out
}

fn words(values: &[i32]) -> Vec<u8> {
    let mut out = Vec::new();
    for value in values {
        out.extend_from_slice(&value.to_le_bytes());
    }
    out
}

/// Decodes the only chunk of a part.
fn decoded(scheme: u8, column: u8, rows: u32, data: &[u8]) -> Result<Column, Error> {
    let bytes = part(&[chunk(scheme, 0, column, rows, data, &[])]);
    Part::parse(&bytes).unwrap().chunk(0).unwrap().decode()
}

/// A dictionary: the scheme of its codes, its entries and its codes.
fn dictionary(scheme: u8, entries: &[u8], codes: &[u8]) -> Vec<u8> {
    let mut out = vec![scheme];
    out.extend_from_slice(&(entries.len() as u32).to_le_bytes());
    out.extend_from_slice(entries);
    out.extend_from_slice(codes);
    out
}

/// A run length encoding: the schemes of its values and counts, and both.
fn runs(n: u32, schemes: [u8; 2], values: &[u8], counts: &[u8]) -> Vec<u8> {
    let mut out = n.to_le_bytes().to_vec();
    out.extend_from_slice(&(values.len() as u32).to_le_bytes());
    out.extend_from_slice(&schemes);
    out.extend_from_slice(values);
    out.extend_from_slice(counts);
    out
}

#[test]
fn a_part_gives_back_its_chunks() {
    let bytes = part(&[
        chunk(0, 0, 0, 2, &words(&[7, -7]), &[1, 2]),
        chunk(1, 1, 1, 3, &1.5f64.to_le_bytes(), &[]),
    ]);
    let part = Part::parse(&bytes).unwrap();
    assert_eq!(part.chunks(), 2);

    let first = part.chunk(0).unwrap();
    assert_eq!(first.column(), ColumnType::Integer);
    assert_eq!(first.scheme(), 0);
    assert_eq!(first.rows(), 2);
    assert_eq!(first.data(), words(&[7, -7]).as_slice());
    assert_eq!(first.nullmap().code(), 0);
    assert_eq!(first.nullmap().presence(), Ok(Presence::All(2)));
    assert_eq!(first.decode(), Ok(Column::Integer(vec![7, -7])));

    let second = part.chunk(1).unwrap();
    assert_eq!(second.column(), ColumnType::Double);
    assert_eq!(second.nullmap().presence(), Ok(Presence::Nothing));
    assert_eq!(second.decode(), Ok(Column::Double(vec![1.5f64.to_bits(); 3])));
}

#[test]
fn a_part_too_short_for_its_count_or_its_offsets_is_refused() {
    let err = Part::parse(&[1, 0]).err();
    assert_eq!(
        err,
        Some(Error::Truncated { what: "the chunk count", from: 0, to: 4, len: 2 })
    );
    let err = Part::parse(&[3, 0, 0, 0, 9, 9]).err();
    assert_eq!(
        err,
        Some(Error::Truncated { what: "the offset table", from: 4, to: 16, len: 6 })
    );
    assert_eq!(
        err.unwrap().text(),
        "the part ends after 6 bytes but the offset table needs bytes 4 to 16"
    );
    assert_eq!(Part::parse(&[0, 0, 0, 0]).unwrap().chunks(), 0);
}

#[test]
fn a_chunk_that_is_not_there_is_refused() {
    let bytes = part(&[chunk(0, 0, 0, 0, &[], &[])]);
    let err = Part::parse(&bytes).unwrap().chunk(1).err().unwrap();
    assert_eq!(err, Error::NoSuchChunk { index: 1, count: 1 });
    assert_eq!(err.text(), "chunk 1 was asked for but the part holds 1");
}

#[test]
fn chunks_that_do_not_lie_end_to_end_are_refused() {
    // The second chunk starts where the first one does.
    let mut bytes = part(&[chunk(0, 0, 0, 0, &[], &[]), chunk(0, 0, 0, 0, &[], &[])]);
    let start = bytes[4];
    bytes[8] = start;
    let err = Part::parse(&bytes).unwrap().chunk(0).err().unwrap();
    assert_eq!(err, Error::Overlapping { index: 0, start: 12, end: 12 });
    assert_eq!(err.text(), "chunk 0 starts at 12 and the next one starts at 12");
}

#[test]
fn a_chunk_past_the_end_of_the_part_is_refused() {
    let mut bytes = part(&[chunk(0, 0, 0, 0, &[], &[]), chunk(0, 0, 0, 0, &[], &[])]);
    // The first chunk runs to an offset the part does not reach.
    bytes[8..12].copy_from_slice(&100u32.to_le_bytes());
    let err = Part::parse(&bytes).unwrap().chunk(0).err().unwrap();
    assert_eq!(err, Error::Truncated { what: "a chunk", from: 24, to: 100, len: 36 });

    bytes[4..8].copy_from_slice(&80u32.to_le_bytes());
    let err = Part::parse(&bytes).unwrap().chunk(0).err().unwrap();
    assert_eq!(err, Error::Truncated { what: "a chunk header", from: 80, to: 92, len: 36 });
}

#[test]
fn a_column_type_that_is_not_read_is_refused() {
    let bytes = part(&[chunk(0, 0, 3, 0, &[], &[])]);
    let err = Part::parse(&bytes).unwrap().chunk(0).err().unwrap();
    assert_eq!(err, Error::UnknownColumnType { code: 3 });
    assert_eq!(err.text(), "column type 3 is not one this reads");
}

#[test]
fn a_nullmap_past_the_end_of_its_chunk_is_refused() {
    let mut one = chunk(0, 0, 0, 0, &[1, 2, 3], &[]);
    one[4..8].copy_from_slice(&4u32.to_le_bytes());
    let bytes = part(&[one]);
    let err = Part::parse(&bytes).unwrap().chunk(0).err().unwrap();
    assert_eq!(
        err,
        Error::Overrun { what: "the nullmap offset", claimed: 4, available: 3 }
    );
    assert_eq!(
        err.text(),
        "the nullmap offset says 4 bytes but the chunk has 3 left"
    );
}

#[test]
fn a_nullmap_that_is_a_bitmap_is_not_worked_out() {
    for code in [2u8, 3] {
        let bytes = part(&[chunk(0, code, 0, 0, &[], &[1, 0, 0, 0, 0])]);
        let nullmap = Part::parse(&bytes).unwrap().chunk(0).unwrap().nullmap();
        assert_eq!(nullmap.presence(), Err(Error::UnsupportedNullmap { code }));
    }
    let bytes = part(&[chunk(0, 4, 0, 0, &[], &[])]);
    let nullmap = Part::parse(&bytes).unwrap().chunk(0).unwrap().nullmap();
    let err = nullmap.presence().err().unwrap();
    assert_eq!(err, Error::UnknownNullmap { code: 4 });
    assert_eq!(err.text(), "nullmap encoding 4 is not one the reference defines");
    assert_eq!(
        Error::UnsupportedNullmap { code: 2 }.text(),
        "nullmap encoding 2 is not implemented yet"
    );
}

#[test]
fn a_row_past_the_end_of_the_chunk_is_not_present() {
    let all = Nullmap::new(0, 3, &[]).presence().unwrap();
    assert_eq!(all, Presence::All(3));
    assert!(all.present(0));
    assert!(all.present(2));
    assert!(!all.present(3));
    assert!(!all.present(u32::MAX));
    assert!(!Presence::Nothing.present(0));
    let each = Presence::Each(vec![true, false]);
    assert!(each.present(0));
    assert!(!each.present(1));
    assert!(!each.present(2));
}

#[test]
fn uncompressed_values_lie_back_to_back() {
    assert_eq!(
        decoded(0, 0, 3, &words(&[1, -2, i32::MIN])),
        Ok(Column::Integer(vec![1, -2, i32::MIN]))
    );
    let err = decoded(0, 0, 3, &words(&[1, -2])).err();
    assert_eq!(
        err,
        Some(Error::Overrun { what: "an uncompressed column", claimed: 12, available: 8 })
    );
}

#[test]
fn one_value_stands_for_every_row() {
    assert_eq!(decoded(1, 0, 4, &words(&[-9])), Ok(Column::Integer(vec![-9; 4])));
    assert_eq!(
        decoded(1, 0, 4, &[1, 2, 3]).err(),
        Some(Error::Overrun { what: "a one value column", claimed: 4, available: 3 })
    );
}

#[test]
fn a_dictionary_is_looked_up() {
    let data = dictionary(0, &words(&[100, 200]), &words(&[1, 0, 1]));
    assert_eq!(decoded(2, 0, 3, &data), Ok(Column::Integer(vec![200, 100, 200])));

    // Doubles have wider entries and the same codes.
    let mut entries = 0.5f64.to_le_bytes().to_vec();
    entries.extend_from_slice(&(-2.0f64).to_le_bytes());
    let data = dictionary(1, &entries, &words(&[1]));
    assert_eq!(
        decoded(2, 1, 2, &data),
        Ok(Column::Double(vec![(-2.0f64).to_bits(); 2]))
    );
}

#[test]
fn a_dictionary_that_does_not_describe_itself_is_refused() {
    let outside = Error::Malformed {
        what: "a dictionary",
        why: "a code points outside the dictionary",
    };
    for code in [2, -1] {
        let data = dictionary(0, &words(&[100, 200]), &words(&[code]));
        assert_eq!(decoded(2, 0, 1, &data).err(), Some(outside));
    }
    assert_eq!(
        outside.text(),
        "a dictionary is malformed: a code points outside the dictionary"
    );

    let ragged = dictionary(0, &[1, 2, 3], &words(&[0]));
    assert_eq!(
        decoded(2, 0, 1, &ragged).err(),
        Some(Error::Malformed {
            what: "a dictionary",
            why: "its entries do not divide into whole values",
        })
    );

    let mut long = dictionary(0, &words(&[1]), &[]);
    long[1] = 40;
    assert_eq!(
        decoded(2, 0, 0, &long).err(),
        Some(Error::Overrun { what: "a dictionary", claimed: 40, available: 4 })
    );
    assert_eq!(
        decoded(2, 0, 0, &[]).err(),
        Some(Error::Truncated { what: "a dictionary", from: 0, to: 1, len: 0 })
    );
    assert_eq!(
        decoded(2, 0, 0, &[0, 1]).err(),
        Some(Error::Truncated { what: "a dictionary", from: 1, to: 5, len: 2 })
    );
}

#[test]
fn runs_are_laid_out_one_after_the_other() {
    let data = runs(2, [0, 0], &words(&[5, 6]), &words(&[3, 1]));
    assert_eq!(decoded(3, 0, 4, &data), Ok(Column::Integer(vec![5, 5, 5, 6])));

    let mut values = 1.0f64.to_le_bytes().to_vec();
    values.extend_from_slice(&2.0f64.to_le_bytes());
    let data = runs(2, [0, 1], &values, &words(&[2]));
    let bits = vec![1.0f64.to_bits(), 1.0f64.to_bits(), 2.0f64.to_bits(), 2.0f64.to_bits()];
    assert_eq!(decoded(3, 1, 4, &data), Ok(Column::Double(bits)));

    // A run of no rows adds none.
    let data = runs(2, [0, 0], &words(&[5, 6]), &words(&[0, 2]));
    assert_eq!(decoded(3, 0, 2, &data), Ok(Column::Integer(vec![6, 6])));
}

#[test]
fn runs_have_to_cover_the_chunk_exactly() {
    let why = |rows: u32, counts: &[i32]| {
        let data = runs(2, [0, 0], &words(&[5, 6]), &words(counts));
        match decoded(3, 0, rows, &data).err() {
            Some(Error::Malformed { what, why }) => {
                assert_eq!(what, "a run length encoded column");
                why
            }
            other => panic!("{other:?}"),
        }
    };
    assert_eq!(why(4, &[3, 2]), "its runs cover more rows than the chunk holds");
    assert_eq!(why(4, &[3, -1]), "a run is a negative number of rows long");
    assert_eq!(why(4, &[2, 1]), "its runs do not cover every row of the chunk");
    assert_eq!(why(1, &[1, 1]), "it has more runs than the chunk has rows");
}

#[test]
fn a_run_length_encoding_that_is_cut_short_is_refused() {
    let what = "a run length encoded column";
    let err = |data: &[u8]| decoded(3, 0, 9, data).err().unwrap();
    assert_eq!(err(&[1]), Error::Truncated { what, from: 0, to: 4, len: 1 });
    assert_eq!(err(&[0; 6]), Error::Truncated { what, from: 4, to: 8, len: 6 });
    assert_eq!(err(&[0; 8]), Error::Truncated { what, from: 8, to: 9, len: 8 });
    assert_eq!(err(&[0; 9]), Error::Truncated { what, from: 9, to: 10, len: 9 });
    let mut far = runs(1, [0, 0], &words(&[1]), &words(&[1]));
    far[4] = 200;
    assert_eq!(err(&far), Error::Overrun { what, claimed: 210, available: 18 });
}

#[test]
fn a_cascade_that_goes_too_deep_is_refused() {
    // Each level is a dictionary of one entry whose codes are another dictionary.
    let mut data = dictionary(1, &words(&[0]), &words(&[0]));
    for _ in 0..7 {
        data = dictionary(2, &words(&[0]), &data);
    }
    assert_eq!(decoded(2, 0, 2, &data), Ok(Column::Integer(vec![0, 0])));
    data = dictionary(2, &words(&[0]), &data);
    assert_eq!(
        decoded(2, 0, 2, &data).err(),
        Some(Error::Malformed {
            what: "a cascade of schemes",
            why: "it nests deeper than anything the reference writes",
        })
    );
}

#[test]
fn a_bit_packed_column_skips_its_padding() {
    // One block of a hundred and twenty eight values in four runs of thirty two, one bit each.
    let mut body = Vec::new();
    for word in [128u32, 0x0101_0101, 0xFFFF_FFFF, 0, 0xFFFF_FFFF, 0] {
        body.extend_from_slice(&word.to_le_bytes());
    }
    let mut data = (body.len() as u32 / 4).to_le_bytes().to_vec();
    data.push(3);
    data.extend_from_slice(&[9, 9, 9]);
    data.extend_from_slice(&body);
    match decoded(5, 0, 128, &data) {
        Ok(Column::Integer(values)) => {
            assert_eq!(values.len(), 128);
            assert!(values[..32].iter().all(|&v| v == 1));
            assert!(values[32..64].iter().all(|&v| v == 0));
            assert!(values[64..96].iter().all(|&v| v == 1));
            assert!(values[96..].iter().all(|&v| v == 0));
        }
        other => panic!("{other:?}"),
    }

    let what = "a bit packed column";
    assert_eq!(
        decoded(5, 0, 1, &[1, 0, 0, 0]).err(),
        Some(Error::Truncated { what, from: 4, to: 5, len: 4 })
    );
    assert_eq!(
        decoded(5, 0, 1, &[1, 0, 0, 0, 7]).err(),
        Some(Error::Overrun { what, claimed: 12, available: 5 })
    );
}

/// An uncompressed string column, with offsets counted from the front of the offsets.
fn strings(rows: &[&[u8]]) -> Vec<u8> {
    let header = 4 * (rows.len() + 1);
    let mut body = Vec::new();
    let mut at = header;
    for row in rows {
        body.extend_from_slice(&(at as u32).to_le_bytes());
        at += row.len();
    }
    body.extend_from_slice(&(at as u32).to_le_bytes());
    for row in rows {
        body.extend_from_slice(row);
    }
    let mut out = (body.len() as u32).to_le_bytes().to_vec();
    out.extend_from_slice(&body);
    out
}

#[test]
fn uncompressed_strings_are_rebased_onto_their_bytes() {
    match decoded(0, 2, 3, &strings(&[b"one", b"", b"three"])) {
        Ok(Column::Text(text)) => {
            assert_eq!(text.len(), 3);
            assert!(!text.is_empty());
            assert_eq!(text.offsets(), &[0, 3, 3, 8]);
            assert_eq!(text.bytes(), b"onethree");
            assert_eq!(text.get(0), Some(b"one".as_slice()));
            assert_eq!(text.get(1), Some(b"".as_slice()));
            assert_eq!(text.get(2), Some(b"three".as_slice()));
            assert_eq!(text.get(3), None);
        }
        other => panic!("{other:?}"),
    }
}

#[test]
fn strings_whose_offsets_point_elsewhere_are_refused() {
    let mut data = strings(&[b"one"]);
    data[4] = 7;
    assert_eq!(
        decoded(0, 2, 1, &data).err(),
        Some(Error::Overrun { what: "a string offset", claimed: 7, available: 11 })
    );
    data[4] = 12;
    assert_eq!(
        decoded(0, 2, 1, &data).err(),
        Some(Error::Overrun { what: "a string offset", claimed: 12, available: 11 })
    );
    let data = strings(&[b"one"]);
    assert_eq!(
        decoded(0, 2, 5, &data).err(),
        Some(Error::Overrun { what: "a string offset array", claimed: 24, available: 11 })
    );
    assert_eq!(
        decoded(0, 2, 1, &data[..8]).err(),
        Some(Error::Overrun {
            what: "an uncompressed string column",
            claimed: 11,
            available: 4,
        })
    );
    assert_eq!(
        decoded(0, 2, 1, &[]).err(),
        Some(Error::Truncated {
            what: "an uncompressed string column",
            from: 0,
            to: 4,
            len: 0,
        })
    );
}

#[test]
fn one_string_stands_for_every_row() {
    let mut data = 2u32.to_le_bytes().to_vec();
    data.extend_from_slice(b"hi!");
    match decoded(1, 2, 3, &data) {
        Ok(Column::Text(text)) => {
            assert_eq!(text.offsets(), &[0, 2, 4, 6]);
            assert_eq!(text.bytes(), b"hihihi");
            assert_eq!(text.get(2), Some(b"hi".as_slice()));
        }
        other => panic!("{other:?}"),
    }
    assert_eq!(
        decoded(1, 2, 3, &data[..5]).err(),
        Some(Error::Overrun {
            what: "a one value string column",
            claimed: 2,
            available: 1,
        })
    );
}

#[test]
fn a_scheme_that_is_not_decoded_is_told_from_one_that_is_not_defined() {
    let err = decoded(3, 2, 0, &[]).err().unwrap();
    assert_eq!(
        err,
        Error::UnsupportedScheme { column: ColumnType::String, code: 3 }
    );
    assert_eq!(err.text(), "string scheme FSST is not implemented yet");

    let err = decoded(99, 1, 0, &[]).err().unwrap();
    assert_eq!(err, Error::UnknownScheme { column: ColumnType::Double, code: 99 });
    assert_eq!(err.text(), "double scheme 99 is not one the reference defines");

    assert_eq!(
        decoded(4, 0, 0, &[]).err(),
        Some(Error::UnsupportedScheme { column: ColumnType::Integer, code: 4 })
    );
}

#[test]
fn the_same_code_names_different_schemes() {
    assert_eq!(scheme_name(ColumnType::Integer, 3), "RLE");
    assert_eq!(scheme_name(ColumnType::String, 3), "FSST");
    assert_eq!(scheme_name(ColumnType::Integer, 5), "BP");
    assert_eq!(scheme_name(ColumnType::Double, 5), "PSEUDODECIMAL");
    assert_eq!(scheme_name(ColumnType::Integer, 28), "TRUNCATION_8");
    assert_eq!(scheme_name(ColumnType::Double, 28), "DOUBLE_BP");
    assert_eq!(scheme_name(ColumnType::Double, 30), "unknown");
    assert_eq!(ColumnType::Integer.name(), "integer");
}

#[test]
fn a_row_whose_offsets_run_backwards_is_not_there() {
    let text = Strings::new(vec![0, 4, 2, 9], b"abcd".to_vec());
    assert_eq!(text.get(0), Some(b"abcd".as_slice()));
    assert_eq!(text.get(1), None);
    assert_eq!(text.get(2), None);
    assert!(Strings::new(vec![0], Vec::new()).is_empty());
    assert_eq!(Strings::default().get(0), None);
}

#[test]
fn numbers_are_read_where_they_lie() {
    assert_eq!(read_u32(&[0, 1, 2, 3, 4], 1, "it"), Ok(0x0403_0201));
    assert_eq!(
        read_u32(&[0, 1, 2, 3], 1, "it").err(),
        Some(Error::Truncated { what: "it", from: 1, to: 5, len: 4 })
    );
    assert_eq!(
        read_u32(&[], usize::MAX, "it").err(),
        Some(Error::Truncated { what: "it", from: usize::MAX, to: usize::MAX, len: 0 })
    );
    assert_eq!(read_past(&[9, 9, 1, 0, 0, 0], 1, 1, "it"), Ok(1));
    assert_eq!(plus(usize::MAX, 2), usize::MAX);
    assert_eq!(plus(2, 3), 5);
}

#[test]
fn a_stream_whose_words_lie_too_far_apart_is_refused() {
    let bytes = [0xFFu8; 8];
    assert_eq!(unpack(&bytes, 0, 1, 8, 8, "a stream"), Ok(vec![0xFF; 8]));
    // The first word is there and the second is past what can be addressed.
    assert_eq!(
        unpack(&bytes, 0, usize::MAX, 8, 8, "a stream"),
        Err(Error::Truncated { what: "a stream", from: usize::MAX, to: usize::MAX, len: 8 })
    );
    // Five words apart is twenty bytes on.
    assert_eq!(
        unpack(&bytes, 0, 5, 8, 8, "a stream"),
        Err(Error::Truncated { what: "a stream", from: 20, to: 24, len: 8 })
    );
}

#[test]
fn a_page_past_the_end_of_the_bytes_is_refused() {
    assert_eq!(
        page(&[0u8; 8], 9, 256),
        Err(Error::Truncated { what: "a patched page", from: 9, to: 13, len: 8 })
    );
    assert_eq!(
        page(&[0u8; 8], usize::MAX, 256),
        Err(Error::Truncated { what: "a patched page", from: usize::MAX, to: usize::MAX, len: 8 })
    );
}

#[test]
fn doubles_are_compared_as_numbers() {
    let column = |v: &[f64]| Column::Double(v.iter().map(|d| d.to_bits()).collect());
    assert_eq!(column(&[1.5, -2.0]), column(&[1.5, -2.0]));
    assert_eq!(column(&[0.0]), column(&[-0.0]));
    assert_eq!(column(&[f64::INFINITY]), column(&[f64::INFINITY]));
    assert_ne!(column(&[f64::NAN]), column(&[f64::NAN]));
    assert_ne!(column(&[f64::NAN]), column(&[f64::INFINITY]));
    assert_ne!(column(&[1.0]), column(&[-1.0]));
    assert_ne!(column(&[1.0]), column(&[1.0, 1.0]));
    assert_ne!(column(&[]), Column::Integer(Vec::new()));
    assert_ne!(Column::Integer(vec![1]), Column::Integer(vec![2]));
    let text = |b: &[u8]| Column::Text(Strings::new(vec![0, 1], b.to_vec()));
    assert_eq!(text(b"a"), text(b"a"));
    assert_ne!(text(b"a"), text(b"b"));
}
