//! The bit packing codecs, against streams packed here.
use iris::btr::fastpfor::{binary_packed, BLOCK, GROUP, LANES, MINI, PAGE, PATCHED};
use iris::btr::patched::{page, patched};
use iris::btr::Error;

/// How many miniblocks make up a block.
const MINIBLOCKS: usize = 4;

/// One more than the widest a value can be packed at.
const WIDTHS: usize = 33;

/// Packs `values` at `width` bits each, the way BtrBlocks' packer does.
fn pack_words(values: &[u32], width: usize) -> Vec<u32> {
    if width == 0 {
        return Vec::new();
    }
    let mut words = vec![0u32; (values.len() * width).div_ceil(32)];
    for (index, value) in values.iter().enumerate() {
        let start = index * width;
        words[start / 32] |= value << (start % 32);
        let taken = 32 - start % 32;
        if taken < width {
            words[start / 32 + 1] |= value >> taken;
        }
    }
    words
}

/// The same, as the bytes it would be written as.
fn pack(values: &[u32], width: usize) -> Vec<u8> {
    pack_words(values, width)
        .iter()
        .flat_map(|word| word.to_le_bytes())
        .collect()
}

/// Packs a group of a hundred and twenty eight values the way the vectorised packer does.
///
/// Four lanes, lane `j` taking every fourth value starting at `j`, packed the ordinary way, and
/// then the four lanes' words laid down one after another in turn.
fn pack_group(values: &[u32], width: usize) -> Vec<u32> {
    let mut words = vec![0u32; LANES * width];
    for lane in 0..LANES {
        let stream: Vec<u32> = (0..MINI)
            .map(|index| values[index * LANES + lane])
            .collect();
        for (index, word) in pack_words(&stream, width).into_iter().enumerate() {
            words[index * LANES + lane] = word;
        }
    }
    words
}

/// The number of values in a block, as the stream records it.
const PACKED: u32 = 128;

/// One block of a hundred and twenty eight values, all four miniblocks at the same width.
fn block(values: &[u32], width: usize) -> Vec<u8> {
    let mut bytes = Vec::new();
    bytes.extend_from_slice(&PACKED.to_le_bytes());
    let widths = [u8::try_from(width).expect("a width"); MINIBLOCKS];
    bytes.extend_from_slice(&u32::from_be_bytes(widths).to_le_bytes());
    for mini in values.chunks(MINI) {
        bytes.extend_from_slice(&pack(mini, width));
    }
    bytes
}

#[test]
fn a_block_round_trips_at_every_width() {
    // Every width the packer can choose, including the two that are special cased: zero, which
    // writes nothing, and thirty two, which writes the values untouched.
    for width in 0..=32usize {
        let values: Vec<u32> = (0..u32::try_from(BLOCK).expect("a block"))
            .map(|row| {
                if width == 0 {
                    0
                } else {
                    let mask = if width == 32 {
                        u32::MAX
                    } else {
                        (1u32 << width) - 1
                    };
                    row.wrapping_mul(2_654_435_761) & mask
                }
            })
            .collect();
        let bytes = block(&values, width);
        let words = bytes.len() / 4;
        assert_eq!(
            binary_packed(&bytes, words, BLOCK).expect("a block"),
            values,
            "width {width}"
        );
    }
}

#[test]
fn values_that_cross_a_word_boundary_come_back_whole() {
    // Width nine puts a value across a word boundary three times in every miniblock, which is
    // the case a reader that only looked at one word would get wrong.
    let values: Vec<u32> = (0..u32::try_from(BLOCK).expect("a block"))
        .map(|row| row % 512)
        .collect();
    let bytes = block(&values, 9);
    assert_eq!(
        binary_packed(&bytes, bytes.len() / 4, BLOCK).expect("a block"),
        values
    );
}

#[test]
fn a_tail_is_read_with_the_continuation_bit_the_reference_uses() {
    // No packed block at all, so this is the tail on its own: 1, 300, and 100000, each with the
    // high bit set on its last byte rather than on the bytes before it. Then a zero byte of
    // padding, which is never reached because three values were asked for.
    let mut bytes = 0u32.to_le_bytes().to_vec();
    bytes.extend_from_slice(&[0x81]);
    bytes.extend_from_slice(&[0x2c, 0x82]);
    bytes.extend_from_slice(&[0x20, 0x0d, 0x86]);
    bytes.extend_from_slice(&[0x00, 0x00]);
    assert_eq!(
        binary_packed(&bytes, bytes.len() / 4, 3).expect("a tail"),
        vec![1, 300, 100_000]
    );
}

#[test]
fn a_packed_count_that_is_not_a_whole_number_of_blocks_is_refused() {
    let bytes = 100u32.to_le_bytes();
    assert!(matches!(
        binary_packed(&bytes, 1, 128),
        Err(Error::Malformed {
            what: "a bit packed column",
            ..
        })
    ));
}

#[test]
fn a_packed_count_larger_than_the_chunk_allocates_nothing() {
    // The count is a whole number of blocks and enormous. Sizing the output from it would ask
    // for four gigabytes on a chunk of four bytes.
    let bytes = (u32::MAX - 127).to_le_bytes();
    assert!(matches!(
        binary_packed(&bytes, 1, 128),
        Err(Error::Malformed {
            what: "a bit packed column",
            ..
        })
    ));
}

#[test]
fn a_miniblock_wider_than_a_value_is_refused() {
    let mut bytes = PACKED.to_le_bytes().to_vec();
    bytes.extend_from_slice(&u32::from_be_bytes([33, 0, 0, 0]).to_le_bytes());
    assert!(matches!(
        binary_packed(&bytes, bytes.len() / 4, BLOCK),
        Err(Error::Malformed {
            what: "a bit packed block",
            ..
        })
    ));
}

#[test]
fn a_block_that_says_more_than_it_holds_stops() {
    // One block's worth of values claimed, sixteen bits wide, and none of the words there.
    let mut bytes = PACKED.to_le_bytes().to_vec();
    bytes.extend_from_slice(&u32::from_be_bytes([16; MINIBLOCKS]).to_le_bytes());
    assert!(matches!(
        binary_packed(&bytes, bytes.len() / 4, BLOCK),
        Err(Error::Truncated { .. })
    ));
}

/// The mask a block packed at `width` keeps.
fn mask(width: usize) -> u32 {
    if width == 32 {
        u32::MAX
    } else {
        (1u32 << width) - 1
    }
}

/// Builds one patched page out of `values`, packing block `n` at `widths[n]`.
///
/// Whatever does not fit at the width its block was given becomes an exception, which is how the
/// reference gets a page with exceptions in it too: it chooses the width that makes the page
/// smallest and takes the outliers that leaves. A test picks the width instead, so that it can
/// ask for a page with no exceptions at all, or one where every block has them.
fn page_of(values: &[u32], widths: &[usize]) -> Vec<u8> {
    let mut blocks = Vec::new();
    let mut packed = Vec::new();
    let mut arrays: [Vec<u32>; WIDTHS] = std::array::from_fn(|_| Vec::new());

    for (block, &width) in values.chunks(PATCHED).zip(widths) {
        let over: Vec<(usize, u32)> = block
            .iter()
            .enumerate()
            .filter(|(_, value)| **value & !mask(width) != 0)
            .map(|(position, value)| (position, value >> width))
            .collect();
        let top = over
            .iter()
            .map(|(_, high)| 32 - high.leading_zeros() as usize)
            .max()
            .unwrap_or_default()
            + width;

        for group in block.chunks(GROUP) {
            let low: Vec<u32> = group.iter().map(|value| value & mask(width)).collect();
            packed.extend(pack_group(&low, width));
        }

        blocks.push(u8::try_from(width).expect("a width"));
        blocks.push(u8::try_from(over.len()).expect("an exception count"));
        if !over.is_empty() {
            blocks.push(u8::try_from(top).expect("a width"));
            for (position, high) in over {
                blocks.push(u8::try_from(position).expect("a position"));
                if top - width > 1 {
                    arrays[top - width].push(high);
                }
            }
        }
    }

    // The page header says where the metadata starts, counted in words from the header itself,
    // so it is one for the header plus however many words the blocks came to.
    let mut page = Vec::new();
    page.extend_from_slice(
        &u32::try_from(1 + packed.len())
            .expect("a page")
            .to_le_bytes(),
    );
    page.extend(packed.iter().flat_map(|word| word.to_le_bytes()));

    page.extend_from_slice(&u32::try_from(blocks.len()).expect("a size").to_le_bytes());
    page.extend_from_slice(&blocks);
    page.resize(
        page.len() + (blocks.len().div_ceil(4) * 4 - blocks.len()),
        0,
    );

    let mut bitmap = 0u32;
    for (width, array) in arrays.iter().enumerate() {
        if !array.is_empty() {
            bitmap |= 1u32 << (width - 1);
        }
    }
    page.extend_from_slice(&bitmap.to_le_bytes());
    for (width, array) in arrays.iter().enumerate() {
        if array.is_empty() {
            continue;
        }
        page.extend_from_slice(&u32::try_from(array.len()).expect("a count").to_le_bytes());
        let mut done = 0;
        while done + GROUP <= array.len() {
            page.extend(
                pack_group(&array[done..done + GROUP], width)
                    .iter()
                    .flat_map(|word| word.to_le_bytes()),
            );
            done += GROUP;
        }
        while done < array.len() {
            let end = (done + MINI).min(array.len());
            page.extend(pack(&array[done..end], width));
            done = end;
        }
    }
    page
}

/// A whole patched column: the packed count, then the pages.
fn patched_column(values: &[u32], widths: &[usize]) -> Vec<u8> {
    let packed = values.len() / PATCHED * PATCHED;
    let mut bytes = u32::try_from(packed)
        .expect("a count")
        .to_le_bytes()
        .to_vec();
    for (page, widths) in values[..packed]
        .chunks(PAGE)
        .zip(widths.chunks(PAGE / PATCHED))
    {
        bytes.extend(page_of(page, widths));
    }
    bytes
}

#[test]
fn a_patched_block_round_trips_at_every_width() {
    // The vectorised layout is the thing under test here. A reader that took its words in order
    // rather than four lanes at a time would come back with every value in the wrong slot, and
    // at width thirty two it would come back with the right multiset in the wrong order, which
    // is why the values are all different from each other.
    for width in 0..=32usize {
        let values: Vec<u32> = (0..u32::try_from(PATCHED).expect("a block"))
            .map(|row| row.wrapping_mul(2_654_435_761) & mask(width))
            .collect();
        let bytes = patched_column(&values, &[width]);
        assert_eq!(
            patched(&bytes, bytes.len() / 4, PATCHED).expect("a block"),
            values,
            "width {width}"
        );
    }
}

#[test]
fn an_exception_a_single_bit_wider_is_put_back_without_being_stored() {
    // The one case BtrBlocks never writes an array for: the exceptions are one bit above the
    // width the block packed at, so putting them back is setting that bit and there is nothing
    // to store. A reader that looked for an array here would find whatever came next instead.
    let values: Vec<u32> = (0..u32::try_from(PATCHED).expect("a block"))
        .map(|row| {
            if row % 17 == 0 {
                16 + row % 16
            } else {
                row % 16
            }
        })
        .collect();
    let bytes = patched_column(&values, &[4]);
    assert_eq!(
        patched(&bytes, bytes.len() / 4, PATCHED).expect("a block"),
        values
    );
}

#[test]
fn exceptions_come_out_of_the_array_for_the_width_they_were_packed_at() {
    // Three blocks, all packed four bits wide. The first and third have exceptions seven bits
    // wide and the second has them six, so the page holds two arrays and the third block has to
    // carry on through the first array from where the first block left off rather than start it
    // again. Reading the arrays per block instead of per page is the mistake this catches.
    let mut values: Vec<u32> = (0..u32::try_from(PATCHED * 3).expect("three blocks"))
        .map(|row| row % 16)
        .collect();
    for (row, value) in [
        (5, 0x41),
        (200, 0x7e),
        (PATCHED + 3, 0x2c),
        (PATCHED * 2 + 9, 0x55),
    ] {
        values[row] = value;
    }
    let bytes = patched_column(&values, &[4, 4, 4]);
    assert_eq!(
        patched(&bytes, bytes.len() / 4, PATCHED * 3).expect("three blocks"),
        values
    );
}

#[test]
fn an_exception_array_is_read_past_its_last_whole_group() {
    // A hundred and thirty exceptions at one width, which is a vectorised group of a hundred and
    // twenty eight and then two values in a part word. BtrBlocks unpacks a whole group of
    // thirty two for those two and throws away the rest, reading words that are not there while
    // it does, so the length it comes out with is the thing worth checking against.
    let values: Vec<u32> = (0..u32::try_from(PATCHED).expect("a block"))
        .map(|row| if row < 130 { 0x300 + row } else { row % 8 })
        .collect();
    let bytes = patched_column(&values, &[3]);
    assert_eq!(
        patched(&bytes, bytes.len() / 4, PATCHED).expect("a block"),
        values
    );
}

#[test]
fn a_column_of_more_than_one_page_reads_every_page() {
    // A page holds sixty five thousand five hundred and thirty six values, so this is one full
    // page and one block. Nothing else here would notice a reader that decoded the first page
    // and stopped, or one that started the second page in the wrong place.
    let values: Vec<u32> = (0..u32::try_from(PAGE + PATCHED).expect("a column"))
        .map(|row| row % 3)
        .collect();
    let widths = vec![2; values.len() / PATCHED];
    let bytes = patched_column(&values, &widths);
    assert_eq!(
        patched(&bytes, bytes.len() / 4, values.len()).expect("two pages"),
        values
    );
}

#[test]
fn a_patched_column_reads_the_values_the_block_size_left_over() {
    // The tail is the same codec as it is for bit packing, but the block it is what is left over
    // from is twice as long, so a column of two hundred values is all tail here and would be one
    // packed block and seventy two values of tail there.
    let mut bytes = 0u32.to_le_bytes().to_vec();
    bytes.extend_from_slice(&[0x81, 0x2c, 0x82, 0x00]);
    assert_eq!(
        patched(&bytes, bytes.len() / 4, 2).expect("a tail"),
        vec![1, 300]
    );
}

#[test]
fn a_patched_count_that_is_not_a_whole_number_of_blocks_is_refused() {
    // A hundred and twenty eight is a whole number of blocks for bit packing and not for this.
    let bytes = 128u32.to_le_bytes();
    assert!(matches!(
        patched(&bytes, 1, 256),
        Err(Error::Malformed {
            what: "a patched column",
            ..
        })
    ));
}

#[test]
fn a_patched_count_larger_than_the_chunk_allocates_nothing() {
    let bytes = (u32::MAX - 255).to_le_bytes();
    assert!(matches!(
        patched(&bytes, 1, 256),
        Err(Error::Malformed {
            what: "a patched column",
            ..
        })
    ));
}

#[test]
fn blocks_that_do_not_end_where_the_metadata_starts_are_refused() {
    // The page header is the only thing saying where the blocks stop, and nothing about the
    // blocks themselves would disagree with it, so a page that pointed into the middle of them
    // would decode the metadata as values and answer rather than fail.
    let values: Vec<u32> = (0..u32::try_from(PATCHED).expect("a block")).collect();
    let mut bytes = patched_column(&values, &[9]);

    // A spare word slipped in between the blocks and the metadata, and a header saying to skip
    // over it. Everything still parses and every value still comes back, and the only thing that
    // is wrong is that the blocks stopped a word earlier than the page said they would.
    let header = u32::from_le_bytes(bytes[4..8].try_into().expect("a header"));
    let at = 4 + usize::try_from(header).expect("a header") * 4;
    bytes.splice(at..at, [0; 4]);
    bytes[4..8].copy_from_slice(&(header + 1).to_le_bytes());
    assert!(matches!(
        patched(&bytes, bytes.len() / 4, PATCHED),
        Err(Error::Malformed {
            what: "a patched page",
            ..
        })
    ));
}

#[test]
fn a_block_wider_than_a_value_is_refused() {
    // Two metadata bytes saying a width of thirty three and no exceptions, and a page header
    // pointing straight at them.
    let mut bytes = 256u32.to_le_bytes().to_vec();
    bytes.extend_from_slice(&1u32.to_le_bytes());
    bytes.extend_from_slice(&2u32.to_le_bytes());
    bytes.extend_from_slice(&[33, 0, 0, 0]);
    bytes.extend_from_slice(&0u32.to_le_bytes());
    assert!(matches!(
        patched(&bytes, bytes.len() / 4, PATCHED),
        Err(Error::Malformed {
            what: "a patched block",
            ..
        })
    ));
}

#[test]
fn exceptions_no_wider_than_the_block_they_are_in_are_refused() {
    // A block packed at nothing at all with one exception said to be no bits wide, which would
    // leave nothing to put back and would index the array a width below the narrowest there is.
    let mut bytes = 256u32.to_le_bytes().to_vec();
    bytes.extend_from_slice(&1u32.to_le_bytes());
    bytes.extend_from_slice(&3u32.to_le_bytes());
    bytes.extend_from_slice(&[0, 1, 0, 0]);
    bytes.extend_from_slice(&0u32.to_le_bytes());
    assert!(matches!(
        patched(&bytes, bytes.len() / 4, PATCHED),
        Err(Error::Malformed {
            what: "a patched block",
            ..
        })
    ));
}

#[test]
fn a_page_that_runs_out_of_block_metadata_is_refused() {
    // Two blocks to read and one block's worth of bytes to read them from. The bytes after the
    // container are the bitmap, and a reader that walked on into it would take that as a width.
    let mut bytes = 512u32.to_le_bytes().to_vec();
    bytes.extend_from_slice(&1u32.to_le_bytes());
    bytes.extend_from_slice(&2u32.to_le_bytes());
    bytes.extend_from_slice(&[0, 0, 0, 0]);
    bytes.extend_from_slice(&0u32.to_le_bytes());
    assert!(matches!(
        patched(&bytes, bytes.len() / 4, 512),
        Err(Error::Overrun {
            what: "a patched page's block metadata",
            ..
        })
    ));
}

#[test]
fn an_exception_array_longer_than_the_page_allocates_nothing() {
    // An array of four billion values at two bits each, which is a gigabyte of words asked for
    // by four bytes. Its length has to be worked out before a single value is read.
    let mut bytes = 0u32.to_le_bytes().to_vec();
    bytes.extend_from_slice(&1u32.to_le_bytes());
    bytes.extend_from_slice(&0u32.to_le_bytes());
    bytes.extend_from_slice(&2u32.to_le_bytes());
    bytes.extend_from_slice(&u32::MAX.to_le_bytes());
    assert!(matches!(
        page(&bytes, 4, 0),
        Err(Error::Overrun {
            what: "an exception array",
            ..
        })
    ));
}

#[test]
fn a_tail_that_never_ends_is_refused() {
    // Five continuation bytes with the high bit clear, which is more than thirty two bits of
    // payload and therefore not a value this can hold.
    let mut bytes = 0u32.to_le_bytes().to_vec();
    bytes.extend_from_slice(&[0x7f, 0x7f, 0x7f, 0x7f, 0x7f, 0x7f, 0x7f, 0x7f]);
    assert!(matches!(
        binary_packed(&bytes, bytes.len() / 4, 1),
        Err(Error::Malformed {
            what: "a variable byte value",
            ..
        })
    ));
}
