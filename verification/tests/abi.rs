//! The records a host and a decoder exchange, and what each of them prints as.
use iris::abi::message::{Batch, BufferRef, Buffers, Node, Nodes};
use iris::abi::wire::align_up;
use iris::abi::{
    negotiate, Capability, CapabilitySet, Error, Header, Hello, HelloAck, Message, Projection,
    RangeRequest, RangeStatus, Reader, Refusal, RefusalReason, ScanRequest, Tag, Writer, ABI_MAJOR,
    ABI_MINOR,
};
use iris::bytes::{append, copied, same, u16_bytes, u16_of, u32_bytes, u32_of, u64_bytes, u64_of};
use iris::text::{decimal, hex2, hex4, signed};

fn caps(bits: &[u16]) -> CapabilitySet {
    let mut set = CapabilitySet::new();
    for bit in bits {
        set = set.with(Capability(*bit));
    }
    set
}

fn hello() -> Hello {
    Hello {
        abi_major: ABI_MAJOR,
        abi_minor: ABI_MINOR,
        window_bytes: 4096,
        max_batch_rows: 100,
        offered: caps(&[0, 2]),
    }
}

fn ack() -> HelloAck<'static> {
    HelloAck {
        abi_major: ABI_MAJOR,
        abi_minor: ABI_MINOR,
        required: caps(&[2]),
        optional: caps(&[0, 4]),
        decoder_id: "d",
    }
}

#[test]
fn numbers_print_as_they_should() {
    assert_eq!(decimal(0), "0");
    assert_eq!(decimal(u64::MAX), "18446744073709551615");
    assert_eq!(signed(-1), "-1");
    assert_eq!(signed(i64::MIN), "-9223372036854775808");
    assert_eq!(signed(42), "42");
    assert_eq!(hex4(0x0AF), "00af");
    assert_eq!(hex4(u16::MAX), "ffff");
    assert_eq!(hex2(0x0A), "0a");
}

#[test]
fn numbers_are_little_endian_both_ways() {
    assert_eq!(u16_bytes(0x0201), [1, 2]);
    assert_eq!(u32_bytes(0x0403_0201), [1, 2, 3, 4]);
    assert_eq!(u64_bytes(0x0807_0605_0403_0201), [1, 2, 3, 4, 5, 6, 7, 8]);
    assert_eq!(u16_of(&[1, 2]), 0x0201);
    assert_eq!(u32_of(&[1, 2, 3, 4]), 0x0403_0201);
    assert_eq!(u64_of(&[1, 2, 3, 4, 5, 6, 7, 8]), 0x0807_0605_0403_0201);
    let mut out = vec![9];
    append(&mut out, &[8, 7]);
    assert_eq!(out, [9, 8, 7]);
    assert_eq!(copied(&out), out);
    assert!(same(&out, &[9, 8, 7]));
    assert!(!same(&out, &[9, 8]));
    assert!(!same(&out, &[9, 8, 6]));
}

#[test]
fn lengths_round_up_to_eight() {
    assert_eq!(align_up(0), 0);
    assert_eq!(align_up(1), 8);
    assert_eq!(align_up(8), 8);
    assert_eq!(align_up(9), 16);
}

#[test]
fn a_reader_gives_back_what_a_writer_put_down() {
    let mut buf = [0xFFu8; 64];
    let mut w = Writer::new(&mut buf);
    w.u8(1).unwrap();
    w.align().unwrap();
    w.u16(2).unwrap();
    w.u32(3).unwrap();
    w.u64(4).unwrap();
    w.var_bytes(b"five").unwrap();
    w.var_str("six").unwrap();
    w.raw(&[7, 7]).unwrap();
    assert_eq!(w.position(), 42);
    assert_eq!(w.remaining(), 22);
    w.patch_u32(10, 30).unwrap();
    let written = w.written().to_vec();

    let mut r = Reader::new(&written);
    assert_eq!(r.u8(), Ok(1));
    r.align().unwrap();
    assert_eq!(r.position(), 8);
    assert_eq!(r.u16(), Ok(2));
    assert_eq!(r.u32(), Ok(30));
    assert_eq!(r.u64(), Ok(4));
    assert_eq!(r.var_bytes(), Ok(b"five".as_slice()));
    assert_eq!(r.var_str(), Ok("six"));
    assert_eq!(r.remaining(), 2);
    assert!(!r.is_empty());
    let mut rest = r.sub(2).unwrap();
    assert_eq!(rest.bytes(2), Ok([7u8, 7].as_slice()));
    assert!(r.is_empty());
}

#[test]
fn a_reader_says_how_much_it_wanted() {
    let mut r = Reader::new(&[1, 2, 3]);
    assert_eq!(r.u32(), Err(Error::Truncated { needed: 4, available: 3 }));
    assert_eq!(r.skip(2), Ok(()));
    assert_eq!(r.bytes(2), Err(Error::Truncated { needed: 2, available: 1 }));
    assert_eq!(
        Error::Truncated { needed: 2, available: 1 }.text(),
        "record is truncated: wanted 2 bytes, 1 available"
    );
    // A field past the end of an older record is not there, and half a field is an error.
    assert_eq!(Reader::new(&[]).opt_u64(), Ok(None));
    assert_eq!(Reader::new(&[5, 0, 0, 0, 0, 0, 0, 0]).opt_u64(), Ok(Some(5)));
    assert_eq!(
        Reader::new(&[5]).opt_u64(),
        Err(Error::Truncated { needed: 8, available: 1 })
    );
}

#[test]
fn text_that_is_not_text_is_refused() {
    let bytes = [2, 0, 0, 0, 0xC3, 0x28, 0, 0];
    assert_eq!(Reader::new(&bytes).var_str(), Err(Error::NotUtf8));
    assert_eq!(Error::NotUtf8.text(), "a text field is not valid UTF-8");
    let bytes = [2, 0, 0, 0, 0xC3, 0xA9, 0, 0];
    assert_eq!(Reader::new(&bytes).var_str(), Ok("\u{e9}"));
    assert_eq!(
        Error::LengthOverflow.text(),
        "a length field does not fit in a pointer"
    );
}

#[test]
fn a_writer_does_not_grow_its_buffer() {
    let mut buf = [0u8; 3];
    let mut w = Writer::new(&mut buf);
    assert_eq!(w.u32(1), Err(Error::BufferFull { needed: 4, available: 3 }));
    assert_eq!(w.u16(1), Ok(()));
    assert_eq!(
        w.var_bytes(b"x"),
        Err(Error::BufferFull { needed: 4, available: 1 })
    );
    assert_eq!(
        w.patch_u32(0, 1),
        Err(Error::BufferFull { needed: 4, available: 2 })
    );
    assert_eq!(
        w.patch_u32(usize::MAX, 1),
        Err(Error::BufferFull { needed: usize::MAX, available: 2 })
    );
    assert_eq!(
        Error::BufferFull { needed: 4, available: 2 }.text(),
        "output buffer is full: wanted 4 bytes, 2 available"
    );
}

#[test]
fn a_record_carries_its_length_and_its_padding() {
    let mut buf = [0u8; 32];
    let mut w = Writer::new(&mut buf);
    w.record(Tag(0x0099), 7, |w| w.raw(&[1, 2, 3])).unwrap();
    let written = w.written().to_vec();
    assert_eq!(written, [0x99, 0, 7, 0, 3, 0, 0, 0, 1, 2, 3, 0, 0, 0, 0, 0]);

    let mut r = Reader::new(&written);
    let (header, mut payload) = r.record().unwrap();
    assert_eq!(header, Header { tag: Tag(0x0099), version: 7, len: 3 });
    assert_eq!(payload.bytes(3), Ok([1u8, 2, 3].as_slice()));
    assert!(payload.is_empty());
    assert!(r.is_empty());

    // The padding after the last record may be missing.
    let mut r = Reader::new(&written[..11]);
    assert!(r.record().is_ok());
    let mut r = Reader::new(&written[..10]);
    assert_eq!(r.record().err(), Some(Error::Truncated { needed: 3, available: 2 }));
}

#[test]
fn a_hello_carries_the_size_of_the_source_behind_its_fields() {
    let mut buf = [0u8; 128];
    let mut w = Writer::new(&mut buf);
    hello().encode_sized(77, &mut w).unwrap();
    let written = w.written().to_vec();

    // A side that does not know of the size reads the rest.
    let mut r = Reader::new(&written);
    assert_eq!(r.message(), Ok(Message::Hello(hello())));
    assert!(r.is_empty());

    let mut r = Reader::new(&written);
    let (header, mut payload) = r.record().unwrap();
    assert_eq!(
        Hello::decode_sized(header.version, &mut payload),
        Ok((hello(), 77))
    );

    // A side that did not send it sent zero.
    let mut buf = [0u8; 128];
    let mut w = Writer::new(&mut buf);
    hello().encode(&mut w).unwrap();
    let written = w.written().to_vec();
    let (header, mut payload) = Reader::new(&written).record().unwrap();
    assert_eq!(
        Hello::decode_sized(header.version, &mut payload),
        Ok((hello(), 0))
    );
}

#[test]
fn a_batch_record_reads_back() {
    let mut nodes = Vec::new();
    for n in [3u64, 1, 5, 0] {
        nodes.extend_from_slice(&n.to_le_bytes());
    }
    let mut buffers = Vec::new();
    for n in [0x1000u64, 24] {
        buffers.extend_from_slice(&n.to_le_bytes());
    }
    let batch = Batch {
        rows: 3,
        flags: 0,
        nodes: Nodes::from_bytes(&nodes).unwrap(),
        buffers: Buffers::from_bytes(&buffers).unwrap(),
    };
    let mut buf = [0u8; 128];
    let mut w = Writer::new(&mut buf);
    batch.encode(&mut w).unwrap();
    let written = w.written().to_vec();
    match Reader::new(&written).message() {
        Ok(Message::Batch(read)) => {
            assert_eq!(read, batch);
            assert_eq!(read.nodes.len(), 2);
            assert_eq!(
                read.nodes.iter(),
                vec![Node { length: 3, null_count: 1 }, Node { length: 5, null_count: 0 }]
            );
            assert_eq!(read.buffers.iter(), vec![BufferRef { offset: 0x1000, len: 24 }]);
            assert_eq!(read.buffers.as_bytes(), buffers.as_slice());
            assert!(!read.buffers.is_empty());
        }
        other => panic!("{other:?}"),
    }
    assert!(Nodes::empty().is_empty());
    assert!(Buffers::empty().is_empty());
}

#[test]
fn lists_that_are_not_whole_are_refused() {
    let err = Nodes::from_bytes(&[0; 17]).err().unwrap();
    assert_eq!(
        err.text(),
        "malformed record: a node list must be a whole number of sixteen byte nodes"
    );
    let err = Buffers::from_bytes(&[0; 15]).err().unwrap();
    assert_eq!(
        err.text(),
        "malformed record: a buffer list must be a whole number of sixteen byte references"
    );
    let err = Projection::from_bytes(&[0; 3]).err().unwrap();
    assert_eq!(
        err.text(),
        "malformed record: a projection must be a whole number of four byte column indices"
    );
    let all: Projection<'_> = Projection::all();
    assert!(all.is_empty());
    assert_eq!(all.len(), 0);
    assert_eq!(
        ScanRequest::everything(),
        ScanRequest {
            row_start: 0,
            row_count: u64::MAX,
            flags: 0,
            projection: all,
            filter: &[],
        }
    );
}

#[test]
fn a_known_record_at_another_version_says_which() {
    let mut buf = [0u8; 64];
    let mut w = Writer::new(&mut buf);
    w.record(Tag(Tag::RANGE_REQUEST), 2, |w| w.u64(1)).unwrap();
    let written = w.written().to_vec();
    let err = Reader::new(&written).message().err().unwrap();
    assert_eq!(
        err,
        Error::UnsupportedVersion { tag: Tag(Tag::RANGE_REQUEST), version: 2 }
    );
    assert_eq!(
        err.text(),
        "record RangeRequest (0x0020) is at version 2, which this build does not understand"
    );
    assert_eq!(
        RangeRequest::decode(2, &mut Reader::new(&[])).err(),
        Some(err)
    );
}

#[test]
fn tags_capabilities_reasons_and_statuses_print() {
    assert_eq!(Tag(Tag::HELLO).text(), "Hello (0x0001)");
    assert_eq!(Tag(0x0042).text(), "unknown 0x0042");
    assert_eq!(Tag(0xFF01).text(), "experimental 0xff01");
    assert!(Tag(Tag::EXPERIMENTAL_BASE).is_experimental());
    assert!(!Tag(0xFEFF).is_experimental());
    assert_eq!(Tag(Tag::BATCH).name(), Some("Batch"));

    assert_eq!(Capability(Capability::STATELESS).text(), "stateless");
    assert_eq!(Capability(99).text(), "capability bit 99");
    assert_eq!(Capability(99).name(), None);

    assert_eq!(RefusalReason(RefusalReason::POLICY).text(), "refused by policy");
    assert_eq!(RefusalReason(90).text(), "refusal reason 90");

    assert_eq!(RangeStatus(RangeStatus::NO_SOURCE).text(), "no source attached");
    assert_eq!(RangeStatus(9).name(), None);
}

#[test]
fn a_capability_set_is_a_set() {
    let a = caps(&[0, 3, 255]);
    let b = caps(&[3, 4]);
    assert_eq!(a.union(b), caps(&[0, 3, 4, 255]));
    assert_eq!(a.intersection(b), caps(&[3]));
    assert_eq!(a.difference(b), caps(&[0, 255]));
    assert!(a.contains(Capability(255)));
    assert!(!a.contains(Capability(256)));
    assert!(CapabilitySet::default().is_empty());
    assert!(!a.is_empty());
    let listed: Vec<u16> = a.iter().into_iter().map(|cap| cap.0).collect();
    assert_eq!(listed, [0, 3, 255]);
    // A bit that cannot be held is not held.
    assert!(CapabilitySet::new().with(Capability(256)).is_empty());
    // The wire form stops behind the last byte that says something.
    assert_eq!(caps(&[0, 9]).as_bytes(), &[1, 2]);
    assert!(CapabilitySet::new().as_bytes().is_empty());
    let long = [0u8; 33];
    assert!(!CapabilitySet::from_bytes(&long).has_bits_beyond_this_build());
    let mut long = [0u8; 33];
    long[32] = 1;
    assert!(CapabilitySet::from_bytes(&long).has_bits_beyond_this_build());
}

#[test]
fn an_agreement_covers_what_is_required_and_nothing_the_host_lacks() {
    let agreement = negotiate(&hello(), &ack()).unwrap();
    assert!(agreement.has(Capability(2)));
    assert!(agreement.has(Capability(0)));
    assert!(!agreement.has(Capability(4)));
    assert_eq!(agreement.window_bytes, 4096);
    assert_eq!(agreement.max_batch_rows, 100);
}

#[test]
fn a_refusal_names_the_lowest_capability_that_is_missing() {
    let ack = HelloAck { required: caps(&[2, 5, 4]), ..ack() };
    let refusal = negotiate(&hello(), &ack).err().unwrap();
    assert_eq!(
        refusal,
        Refusal {
            reason: RefusalReason(RefusalReason::MISSING_CAPABILITY),
            capability: Capability(4),
            detail: "the decoder requires a capability this host does not offer",
        }
    );
}
