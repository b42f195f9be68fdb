//! Digests, codes, and the sentences a container that cannot be read is refused with.
use iris::abi::{self, Tag};
use iris::format::builder::trailer;
use iris::format::directory::SECTION_RECORD;
use iris::format::tag;
use iris::format::{
    Builder, Container, DecoderLocation, Digest, Directory, Error, Placement, SchemaEncoding,
    Section, SectionKind, MAGIC,
};

#[test]
fn a_digest_is_blake3() {
    let empty = Digest::of(b"");
    assert_eq!(
        empty.text(),
        "af1349b9f5f9a1a6a0404dea36dcc9499bcb25c9adc112b7cc9a93cae41f3262"
    );
    assert_eq!(empty.short(), "af1349b9f5f9a1a6");
    assert_eq!(format!("{empty:?}"), "Digest(af1349b9f5f9a1a6)");
    assert_eq!(empty.as_bytes()[..2], [0xaf, 0x13]);
    assert_eq!(Digest::of(b"iris").0, *blake3::hash(b"iris").as_bytes());
    assert_ne!(Digest::of(b"iris"), Digest::of(b"irit"));
}

#[test]
fn the_root_covers_the_header_and_the_footer() {
    let bytes = Builder::new("readings", 1).build().unwrap();
    let container = Container::parse(&bytes).unwrap();
    let at = bytes.len() - 56;
    let footer = &bytes[16..at];
    let mut both = bytes[..16].to_vec();
    both.extend_from_slice(footer);
    assert_eq!(container.root_digest(), Digest::of(&both));
}

#[test]
fn codes_come_back() {
    assert_eq!(SchemaEncoding::ArrowIpc.code(), 1);
    assert_eq!(SchemaEncoding::from_code(1), SchemaEncoding::ArrowIpc);
    assert_eq!(SchemaEncoding::from_code(9), SchemaEncoding::Unknown(9));
    for kind in [SectionKind::Data, SectionKind::Decoder, SectionKind::Sidecar] {
        assert_eq!(SectionKind::from_code(kind.code()), kind);
    }
    assert_eq!(SectionKind::from_code(4), SectionKind::Unknown(4));
    assert_eq!(SectionKind::Unknown(77).code(), 77);
}

#[test]
fn every_error_has_a_sentence() {
    let text = |error: Error| error.text();
    assert_eq!(
        text(Error::NotAContainer { found: vec![0x50, 0x4b], expected: vec![0x49, 0x0d] }),
        "this is not an iris container: it starts with [50, 4b] and not [49, 0d]"
    );
    assert_eq!(
        text(Error::NotAContainer { found: vec![], expected: vec![1] }),
        "this is not an iris container: it starts with [] and not [01]"
    );
    assert_eq!(
        text(Error::Truncated { what: "the trailer", needed: 72, available: 9 }),
        "the container is truncated: the trailer needs 72 bytes and there are 9"
    );
    assert_eq!(
        text(Error::UnsupportedFormat { major: 3, minor: 1, supported_major: 0 }),
        "this container is format 3.1 and this build reads format 0.x"
    );
    assert_eq!(
        text(Error::Reserved { what: "header" }),
        "a reserved field in the header is not zero, so this container uses something this build does not know about"
    );
    assert_eq!(
        text(Error::SectionOutOfBounds { id: 2, offset: 5, end: 9, file_len: 80 }),
        "section 2 covers bytes 5..9 which is not inside the payload area of a 80 byte container"
    );
    assert_eq!(
        text(Error::DuplicateSection { id: 7 }),
        "section id 7 is used twice, so a reference to it is ambiguous"
    );
    assert_eq!(
        text(Error::MissingRecord(Tag(tag::DATASET))),
        "the footer has no unknown 0x0100 record"
    );
    assert_eq!(
        text(Error::RepeatedRecord(Tag(tag::SCHEMA))),
        "the footer has more than one unknown 0x0101 record"
    );
    assert_eq!(
        text(Error::UnsupportedRecord { tag: Tag(tag::SECTION), version: 2 }),
        "the footer has a unknown 0x0103 record at version 2, which this build does not read"
    );
    assert_eq!(
        text(Error::DigestMismatch {
            what: "root".to_owned(),
            expected: "aa".to_owned(),
            actual: "bb".to_owned(),
        }),
        "the root digest does not match: the footer says aa and the bytes hash to bb"
    );
    assert_eq!(
        text(Error::Footer(abi::Error::NotUtf8)),
        "the footer is malformed: a text field is not valid UTF-8"
    );
    assert_eq!(
        text(Error::TooLarge { what: "the footer", needed: 5 }),
        "the container declares 5 bytes for the footer, which does not fit in this build's address space"
    );
}

#[test]
fn a_builder_numbers_its_sections_from_zero() {
    let mut builder = Builder::new("n", 2);
    assert_eq!(builder.section(SectionKind::Data, vec![1]), 0);
    assert_eq!(builder.section(SectionKind::Unknown(40), vec![2; 9]), 1);
    let module = builder.embed_decoder(
        "d",
        (0, 1),
        iris::abi::CapabilitySet::new(),
        b"module".to_vec(),
    );
    assert_eq!(module, 2);
    builder.schema(SchemaEncoding::Unknown(6), vec![3, 3]);
    let bytes = builder.build().unwrap();

    let mut appended = vec![0xAA];
    assert_eq!(builder.build_into(&mut appended), Ok(bytes.len() as u64));
    assert_eq!(appended[0], 0xAA);
    assert_eq!(&appended[1..], bytes.as_slice());

    let container = Container::parse(&bytes).unwrap();
    assert!(container.verify().is_ok());
    assert_eq!(container.dataset().rows, 2);
    assert_eq!(container.dataset().name, "n");
    let schema = container.schema().unwrap();
    assert_eq!(schema.encoding, SchemaEncoding::Unknown(6));
    assert_eq!(schema.bytes, &[3, 3]);
    assert_eq!(container.sections().len(), 3);
    let second = container.section(1).unwrap();
    assert_eq!(second.kind, SectionKind::Unknown(40));
    assert_eq!(container.section_bytes(second), &[2; 9]);
    assert_eq!(second.end(), Some(second.offset + 9));
    assert_eq!(container.section(9), None);
    let decoder = container.decoder().unwrap();
    assert_eq!(decoder.location, DecoderLocation::Embedded { section: 2 });
    assert_eq!(decoder.digest, Digest::of(b"module"));
    assert_eq!(container.decoder_bytes(), Some(b"module".as_slice()));
}

#[test]
fn metadata_is_held_to_the_digest_in_the_trailer() {
    let bytes = Builder::new("readings", 1).build().unwrap();
    let at = bytes.len() - 56;
    let placement = Placement::read(&bytes[at..], bytes.len() as u64).unwrap();
    let parse = || Directory::parse_without_root_digest(&bytes[..16], &bytes[16..at], placement);
    assert!(parse().unwrap().sealed_with(placement.root_digest()).is_ok());
    let err = parse().unwrap().sealed_with(Digest([0; 32])).err().unwrap();
    assert_eq!(
        err,
        Error::DigestMismatch {
            what: "footer".to_owned(),
            expected: placement.root_digest().text(),
            actual: "0".repeat(64),
        }
    );
}

#[test]
fn a_section_is_held_to_the_digest_in_the_footer() {
    let section = Section {
        id: 12,
        kind: SectionKind::Data,
        offset: 16,
        len: 4,
        digest: Digest([0xAB; 32]),
    };
    assert!(section.hashed(Digest([0xAB; 32])).is_ok());
    assert_eq!(
        section.hashed(Digest([1; 32])).err(),
        Some(Error::DigestMismatch {
            what: "section 12".to_owned(),
            expected: "ab".repeat(32),
            actual: "01".repeat(32),
        })
    );
    let far = Section { offset: u64::MAX, ..section };
    assert_eq!(far.end(), None);
}

#[test]
fn a_trailer_says_where_the_footer_is() {
    let made = trailer(24, 100, &Digest([9; 32]));
    assert_eq!(made.len(), 56);
    let placement = Placement::read(&made, 24 + 100 + 56).unwrap();
    assert_eq!(placement.footer_at(), 24);
    assert_eq!(placement.footer_len(), 100);
    assert_eq!(placement.root_digest(), Digest([9; 32]));
    assert_eq!(placement.file_len(), 180);
}

#[test]
fn a_footer_holds_a_record_for_every_section() {
    for sections in [0usize, 1, 7] {
        let mut builder = Builder::new("", 0);
        for _ in 0..sections {
            builder.section(SectionKind::Data, Vec::new());
        }
        let bytes = builder.build().unwrap();
        let container = Container::parse(&bytes).unwrap();
        assert_eq!(container.sections().len(), sections);
        assert!(container.directory().placement().footer_len() >= SECTION_RECORD * sections);
    }
}

#[test]
fn a_file_that_starts_wrong_is_not_a_container_at_any_length() {
    for len in [1, 8, 71, 72, 300] {
        let found = vec![0u8; if len < 8 { len } else { 8 }];
        assert_eq!(
            Container::parse(&vec![0u8; len]).err(),
            Some(Error::NotAContainer { found, expected: MAGIC.to_vec() })
        );
    }
    // One that starts right and ends wrong was cut short.
    let mut cut = MAGIC.to_vec();
    cut.resize(300, 0);
    assert!(matches!(Container::parse(&cut), Err(Error::Truncated { .. })));
    assert!(matches!(Container::parse(&[]), Err(Error::Truncated { .. })));
}

#[test]
fn copies_say_the_same() {
    let mut builder = Builder::new("readings", 1);
    builder.section(SectionKind::Data, vec![1, 2, 3]);
    let bytes = builder.clone().build().unwrap();
    assert_eq!(bytes, builder.build().unwrap());
    let container = Container::parse(&bytes).unwrap();
    let again = container.clone();
    assert_eq!(again.root_digest(), container.root_digest());
    assert_eq!(again.directory().clone().sections(), container.sections());
    assert!(again.verify().is_ok());
}
