//! What a guest decides before and after it calls the host, and what its errors say.
use iris::abi::{
    self, Capability, Message, Reader, Refusal, RefusalReason, RangeStatus,
};
use iris::decoder::guest::{length, packed, served, size, HostSink, HostSource};
use iris::decoder::{
    Batch, Collect, Decoder, Error, Request, Resident, Result, Session, Sink, Source,
};

#[test]
fn an_answer_packs_into_one_number() {
    assert_eq!(packed(7, &[]), 0);
    assert_eq!(packed(7, &[1, 2, 3]), (7 << 32) | 3);
    assert_eq!(packed(u32::MAX, &[1]), 0xFFFF_FFFF_0000_0001);
    assert_eq!(length(&[1, 2]), 2);
    assert_eq!(size(9), 9);
}

#[test]
fn a_range_is_served_from_what_the_host_sent() {
    let resident = [1u8, 2, 3, 4];
    let source = HostSource::new(&resident);
    assert_eq!(source.find(1, 2).unwrap(), Ok([2u8, 3].as_slice()));
    assert_eq!(source.find(4, 0).unwrap(), Ok([].as_slice()));
    assert_eq!(source.find(3, 2).unwrap(), Err(2));
    // An offset no pointer here could hold is a range to ask for.
    assert_eq!(source.find(u64::MAX, 8).unwrap(), Err(8));
}

#[test]
fn a_status_says_whether_the_bytes_arrived() {
    let reason = |status: u32| served(RangeStatus(status)).err().map(|e| e.reason().0);
    assert_eq!(reason(RangeStatus::SERVED), None);
    assert_eq!(reason(RangeStatus::OUT_OF_BOUNDS), Some(RefusalReason::MALFORMED));
    assert_eq!(reason(RangeStatus::TOO_LARGE), Some(RefusalReason::RESOURCE_LIMIT));
    assert_eq!(reason(RangeStatus::UNAVAILABLE), Some(RefusalReason::POLICY));
    assert_eq!(reason(77), Some(RefusalReason::POLICY));
    assert_eq!(
        served(RangeStatus(RangeStatus::TOO_LARGE)).err().unwrap().detail(),
        "the host cannot serve a range that long in one request"
    );
}

#[test]
fn a_host_that_declines_a_batch_ends_the_scan() {
    assert!(HostSink::taken(0).is_ok());
    let err = HostSink::taken(1).err().unwrap();
    assert_eq!(err.text(), "refused by policy: the host declined a batch");
}

#[test]
fn a_framed_batch_points_at_its_buffers() {
    let mut batch = Batch::new(2);
    batch.array(2, 0).buffer(&[]).buffer(&[1, 2]);
    let mut sink = HostSink::default();
    let record = sink.frame(&batch).unwrap().to_vec();
    match Reader::new(&record).message() {
        Ok(Message::Batch(read)) => {
            assert_eq!(read.rows, 2);
            let refs = read.buffers.iter();
            let buffers = batch.buffers();
            assert_eq!(refs.len(), 2);
            assert_eq!(refs[1].offset, buffers[1].as_ptr() as u64);
            assert_eq!(refs[1].len, 2);
        }
        other => panic!("{other:?}"),
    }
}

#[test]
fn a_batch_that_describes_too_much_is_refused() {
    let mut batch = Batch::new(1);
    for _ in 0..70_000 {
        batch.array(1, 0);
    }
    let mut sink = Collect::new();
    let err = sink.emit(&batch).err().unwrap();
    assert_eq!(err.reason(), RefusalReason(RefusalReason::RESOURCE_LIMIT));
    assert_eq!(
        err.detail(),
        "the decoder's answer is larger than a single record is allowed to be"
    );
    assert_eq!(sink.rows(), 0);
    assert!(sink.batches().is_empty());
    let mut host = HostSink::new();
    assert_eq!(host.frame(&batch).err(), Some(err));
}

#[test]
fn a_buffer_can_be_written_in_place() {
    let mut batch = Batch::default();
    assert!(batch.is_empty());
    batch.array(0, 0).buffer_with(|b| b.push(9));
    assert_eq!(batch.buffers(), vec![[9u8].as_slice()]);
    assert_eq!(batch.clone(), batch);
    assert_eq!(batch.nodes().len(), 1);
}

#[test]
fn a_resident_source_refuses_what_it_does_not_hold() {
    let mut source = Resident::new(&[1, 2, 3]);
    assert_eq!(source.len(), 3);
    assert!(!source.is_empty());
    assert_eq!(source.range(1, 2), Ok([2u8, 3].as_slice()));
    assert_eq!(
        source.range(2, 2).err().unwrap().detail(),
        "a range runs off the end of the source"
    );
    assert_eq!(
        source.range(u64::MAX, 1).err().unwrap().detail(),
        "a range's offset and length overflow"
    );
}

#[test]
fn an_error_says_what_the_wire_says() {
    let err = Error::missing(Capability(Capability::RANDOM_ACCESS), "no seeking");
    assert_eq!(err.capability(), Some(Capability(Capability::RANDOM_ACCESS)));
    assert_eq!(err.text(), "missing capability: no seeking (random-access)");
    assert_eq!(Error::from_refusal(err.as_refusal()), err);
    assert_eq!(
        err.as_refusal(),
        Refusal {
            reason: RefusalReason(RefusalReason::MISSING_CAPABILITY),
            capability: Capability(Capability::RANDOM_ACCESS),
            detail: "no seeking",
        }
    );
    assert_eq!(Error::malformed("x").capability(), None);
    // A capability that rides along with another reason is not what went wrong.
    let policy = Error::from_refusal(Refusal {
        reason: RefusalReason(RefusalReason::POLICY),
        capability: Capability(Capability::PROJECTION),
        detail: "not today",
    });
    assert_eq!(policy.capability(), None);
    assert_eq!(policy.as_refusal().capability, Capability(Capability::PROJECTION));
    assert_eq!(Error::malformed("x").text(), "malformed record: x");
    assert_eq!(
        Error::from_abi(abi::Error::NotUtf8).detail(),
        "the decoder could not read a record the host sent it"
    );
    assert_eq!(
        Error::from_abi(abi::Error::LengthOverflow).detail(),
        "the decoder ran out of room encoding its answer"
    );
    assert_eq!(Error::resource_limit("x").text(), "resource limit: x");
    assert_eq!(
        Error::new(RefusalReason(40), "x").text(),
        "refusal reason 40: x"
    );
}

/// A decoder that needs nothing.
struct Plain;

impl Decoder for Plain {
    fn name() -> &'static str {
        "plain"
    }

    fn open<S: Source>(_session: &Session, _source: &mut S) -> Result<Self> {
        Ok(Plain)
    }

    fn scan<S: Source, K: Sink>(
        &mut self,
        _request: &Request<'_>,
        _source: &mut S,
        _sink: &mut K,
    ) -> Result<()> {
        Ok(())
    }
}

#[test]
fn a_decoder_that_does_not_say_needs_nothing() {
    assert!(Plain::required().is_empty());
    assert!(Plain::optional().is_empty());
}
