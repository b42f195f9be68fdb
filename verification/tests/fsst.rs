//! Symbol tables and the codes that use them.
use iris::btr::fsst::{decompress, read, VERSION};
use iris::btr::{Error, Result};

/// The longest a symbol can be.
const SYMBOL: usize = 8;

/// Serialises a symbol table the way the library's own writer does.
fn table(symbols: &[&[u8]]) -> Vec<u8> {
    // The writer emits the symbols in code order and the counts say what their lengths were, so
    // a table is only well formed if the symbols are already grouped by length in the order the
    // reader walks them. Sorting here is what makes a test able to write them any way round.
    let mut sorted: Vec<&[u8]> = symbols.to_vec();
    sorted.sort_by_key(|symbol| (symbol.len() + 6) % SYMBOL);

    let mut counts = [0u8; SYMBOL];
    for symbol in &sorted {
        counts[(symbol.len() - 1) % SYMBOL] += 1;
    }

    let mut bytes = 0u32.to_le_bytes().to_vec();
    bytes.extend_from_slice(&VERSION.to_le_bytes());
    bytes.push(0);
    bytes.extend_from_slice(&counts);
    for symbol in &sorted {
        bytes.extend_from_slice(symbol);
    }
    bytes
}

/// Decompresses `codes` against a table of `symbols`.
fn decode(symbols: &[&[u8]], codes: &[u8]) -> Result<Vec<u8>> {
    let mut out = Vec::new();
    decompress(&read(&table(symbols))?, codes, &mut out)?;
    Ok(out)
}

/// The same, for a case that is meant to work.
fn decoded(symbols: &[&[u8]], codes: &[u8]) -> Vec<u8> {
    decode(symbols, codes).expect("a run of codes")
}

#[test]
fn symbols_are_read_back_in_the_order_the_writer_emitted_them() {
    // The counts are walked as lengths two through eight and then one, so these five symbols are
    // stored in the order `bb`, `ccc`, `dddd`, `a`, `e` and get codes nought through four in
    // that order. A reader that walked the counts as one through eight would hand back the same
    // five symbols under different codes, and every code in a stream would name the wrong one.
    let symbols: [&[u8]; 5] = [b"a", b"bb", b"ccc", b"dddd", b"e"];
    assert_eq!(decoded(&symbols, &[0, 1, 2, 3, 4]), b"bbcccddddae".to_vec());
}

#[test]
fn a_run_of_codes_comes_out_as_the_symbols_run_together() {
    assert_eq!(
        decoded(&[b"the ", b"quick", b" "], &[0, 1, 2, 0, 1]),
        b"the quick the quick".to_vec()
    );
}

#[test]
fn the_escape_puts_the_byte_after_it_through_untouched() {
    // Including an escaped two hundred and fifty five, which is the byte that would otherwise be
    // read as another escape.
    assert_eq!(
        decoded(&[b"ab"], &[0, 255, b'z', 0, 255, 255]),
        vec![b'a', b'b', b'z', b'a', b'b', 255]
    );
}

#[test]
fn a_symbol_of_the_longest_length_is_read_whole() {
    assert_eq!(
        decoded(&[b"12345678", b"x"], &[0, 1, 0]),
        b"12345678x12345678".to_vec()
    );
}

#[test]
fn a_code_the_table_does_not_define_is_refused() {
    // BtrBlocks fills the unused codes with the word `corrupt` and decodes them, so a part
    // like this comes back with an answer there rather than an error.
    assert!(matches!(
        decode(&[b"ab", b"cd"], &[0, 7]),
        Err(Error::Malformed {
            what: "a run of FSST codes",
            ..
        })
    ));
}

#[test]
fn an_escape_with_nothing_after_it_is_refused() {
    assert!(matches!(
        decode(&[b"ab"], &[0, 255]),
        Err(Error::Truncated {
            what: "a run of FSST codes",
            ..
        })
    ));
}

#[test]
fn a_table_of_another_version_is_refused() {
    let mut bytes = table(&[b"ab"]);
    bytes[4..8].copy_from_slice(&(VERSION + 1).to_le_bytes());
    assert!(matches!(
        read(&bytes),
        Err(Error::Malformed {
            what: "a symbol table",
            ..
        })
    ));
}

#[test]
fn a_table_that_ends_in_the_middle_of_a_symbol_is_refused() {
    let mut bytes = table(&[b"abcdefgh"]);
    bytes.pop();
    assert!(matches!(
        read(&bytes),
        Err(Error::Truncated {
            what: "a symbol table",
            ..
        })
    ));
}

#[test]
fn a_table_claiming_more_symbols_than_there_are_codes_allocates_nothing() {
    // Two hundred and fifty five symbols of every length, which is more than eight times what a
    // code can name. BtrBlocks writes each of them into a fixed array as it goes.
    let mut bytes = 0u32.to_le_bytes().to_vec();
    bytes.extend_from_slice(&VERSION.to_le_bytes());
    bytes.push(0);
    bytes.extend_from_slice(&[255; SYMBOL]);
    bytes.resize(bytes.len() + 16_384, b'x');
    assert!(matches!(
        read(&bytes),
        Err(Error::Malformed {
            what: "a symbol table",
            ..
        })
    ));
}

#[test]
fn a_zero_terminated_table_holds_the_empty_symbol_as_code_zero() {
    // Nothing BtrBlocks writes here sets this flag, but the format has it, and a reader that
    // ignored it would take the first stored symbol as code zero and be one out from there on.
    // The count of one byte symbols covers the empty one, so setting the flag on a table of
    // `a` and `bb` leaves code zero as the empty string, code one as `bb`, and the byte that
    // held `a` unread. Without the flag those same bytes are code zero `bb` and code one `a`.
    let mut bytes = table(&[b"a", b"bb"]);
    bytes[8] = 1;
    let mut out = Vec::new();
    decompress(&read(&bytes).expect("a table"), &[0, 1], &mut out).expect("a run");
    assert_eq!(out, b"\0bb".to_vec());

    bytes[8] = 0;
    let mut out = Vec::new();
    decompress(&read(&bytes).expect("a table"), &[0, 1], &mut out).expect("a run");
    assert_eq!(out, b"bba".to_vec());
}

#[test]
fn a_zero_terminated_table_with_no_symbol_of_one_byte_is_refused() {
    let mut bytes = table(&[b"bb"]);
    bytes[8] = 1;
    assert!(matches!(
        read(&bytes),
        Err(Error::Malformed {
            what: "a symbol table",
            ..
        })
    ));
}
