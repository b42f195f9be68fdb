//! Roaring bitmaps, in every form they are written in.
use iris::btr::roaring::{
    read, ARRAY, BITSET_BYTES, CONTAINER, COOKIE_NO_RUNS, COOKIE_WITH_RUNS, NO_OFFSET_THRESHOLD,
};
use iris::btr::Error;

/// The portable header for a bitmap whose containers are all described the same way.
///
/// `keys` is a key and a true cardinality a container, and `kinds` says which of them are run
/// containers, which is what decides both the cookie and whether the flag bytes are there.
fn header(keys: &[(u16, u16)], kinds: &[bool]) -> Vec<u8> {
    let runs = kinds.iter().any(|kind| *kind);
    let mut bytes = vec![CONTAINER];
    if runs {
        let count = u32::try_from(keys.len() - 1).expect("a container count");
        bytes.extend_from_slice(&(COOKIE_WITH_RUNS | (count << 16)).to_le_bytes());
        let mut flags = vec![0u8; keys.len().div_ceil(8)];
        for (index, kind) in kinds.iter().enumerate() {
            if *kind {
                flags[index / 8] |= 1 << (index % 8);
            }
        }
        bytes.extend_from_slice(&flags);
    } else {
        bytes.extend_from_slice(&COOKIE_NO_RUNS.to_le_bytes());
        bytes.extend_from_slice(
            &u32::try_from(keys.len())
                .expect("a container count")
                .to_le_bytes(),
        );
    }
    for (key, cardinality) in keys {
        bytes.extend_from_slice(&key.to_le_bytes());
        // Written one short, the way the format writes it.
        bytes.extend_from_slice(&(cardinality - 1).to_le_bytes());
    }
    // The offsets, which this reader skips, so what is in them only has to be the right length.
    if !runs || keys.len() >= NO_OFFSET_THRESHOLD {
        bytes.extend_from_slice(&vec![0u8; keys.len() * 4]);
    }
    bytes
}

/// The rows a set holds, which is easier to compare against than a vector of flags.
fn rows(set: &[bool]) -> Vec<u32> {
    set.iter()
        .enumerate()
        .filter(|(_, held)| **held)
        .map(|(row, _)| u32::try_from(row).expect("a row"))
        .collect()
}

#[test]
fn a_plain_list_of_values_is_read() {
    // The arm the library picks when the portable form would be the larger of the two.
    let mut bytes = vec![ARRAY];
    bytes.extend_from_slice(&3u32.to_le_bytes());
    for value in [2u32, 9, 40] {
        bytes.extend_from_slice(&value.to_le_bytes());
    }
    assert_eq!(rows(&read(&bytes, 64).expect("a bitmap")), vec![2, 9, 40]);
}

#[test]
fn an_array_container_is_read() {
    let mut bytes = header(&[(0, 2)], &[false]);
    for value in [7u16, 300] {
        bytes.extend_from_slice(&value.to_le_bytes());
    }
    assert_eq!(rows(&read(&bytes, 512).expect("a bitmap")), vec![7, 300]);
}

#[test]
fn a_run_container_is_read() {
    // Two runs, and the length is one less than the values in it, so this is 4, 5, 6 and 9.
    let mut bytes = header(&[(0, 4)], &[true]);
    bytes.extend_from_slice(&2u16.to_le_bytes());
    for (start, length) in [(4u16, 2u16), (9, 0)] {
        bytes.extend_from_slice(&start.to_le_bytes());
        bytes.extend_from_slice(&length.to_le_bytes());
    }
    assert_eq!(rows(&read(&bytes, 16).expect("a bitmap")), vec![4, 5, 6, 9]);
}

#[test]
fn a_bitset_container_is_read() {
    // Anything past four thousand and ninety six values is a bitset rather than a list, and the
    // cardinality in the header is what says so.
    let held: Vec<u32> = (0..5000).map(|value| value * 2).collect();
    let mut words = vec![0u64; BITSET_BYTES / 8];
    for value in &held {
        words[*value as usize / 64] |= 1 << (value % 64);
    }
    let mut bytes = header(&[(0, 5000)], &[false]);
    bytes.extend(words.iter().flat_map(|word| word.to_le_bytes()));
    assert_eq!(rows(&read(&bytes, 10_000).expect("a bitmap")), held);
}

#[test]
fn containers_are_read_in_order_and_their_keys_are_the_high_half() {
    // Three containers of different kinds in one bitmap, which is what checks that each one
    // reports the right length for the next to start after.
    let mut bytes = header(&[(0, 1), (1, 2), (5, 1)], &[false, true, false]);
    bytes.extend_from_slice(&3u16.to_le_bytes());
    bytes.extend_from_slice(&1u16.to_le_bytes());
    bytes.extend_from_slice(&8u16.to_le_bytes());
    bytes.extend_from_slice(&1u16.to_le_bytes());
    bytes.extend_from_slice(&2u16.to_le_bytes());
    assert_eq!(
        rows(&read(&bytes, 1 << 20).expect("a bitmap")),
        vec![3, (1 << 16) + 8, (1 << 16) + 9, (5 << 16) + 2]
    );
}

#[test]
fn a_bitmap_holding_a_row_the_chunk_does_not_have_is_refused() {
    let mut bytes = vec![ARRAY];
    bytes.extend_from_slice(&1u32.to_le_bytes());
    bytes.extend_from_slice(&99u32.to_le_bytes());
    assert!(matches!(
        read(&bytes, 8),
        Err(Error::Malformed {
            what: "a roaring bitmap",
            ..
        })
    ));
}

#[test]
fn a_bitmap_with_neither_cookie_is_refused() {
    let mut bytes = vec![CONTAINER];
    bytes.extend_from_slice(&1234u32.to_le_bytes());
    assert!(matches!(
        read(&bytes, 8),
        Err(Error::Malformed {
            what: "a roaring bitmap",
            ..
        })
    ));
}

#[test]
fn a_bitmap_with_a_tag_the_library_does_not_write_is_refused() {
    assert!(matches!(
        read(&[7], 8),
        Err(Error::Malformed {
            what: "a roaring bitmap",
            ..
        })
    ));
}

#[test]
fn a_value_list_longer_than_the_bytes_there_allocates_nothing() {
    // A count of four billion against nine bytes. Sizing anything from it would be the bug.
    let mut bytes = vec![ARRAY];
    bytes.extend_from_slice(&u32::MAX.to_le_bytes());
    bytes.extend_from_slice(&0u32.to_le_bytes());
    assert!(matches!(read(&bytes, 8), Err(Error::Truncated { .. })));
}

#[test]
fn a_container_the_bytes_run_out_before_is_refused() {
    let bytes = header(&[(0, 9)], &[false]);
    assert!(matches!(read(&bytes, 64), Err(Error::Truncated { .. })));
}
