//! What a host answers when it is asked for a range.
use iris::abi::RangeStatus;

#[test]
fn only_zero_means_the_bytes_are_there() {
    assert!(RangeStatus(RangeStatus::SERVED).is_served());
    for status in [
        RangeStatus(RangeStatus::OUT_OF_BOUNDS),
        RangeStatus(RangeStatus::TOO_LARGE),
        RangeStatus(RangeStatus::UNAVAILABLE),
        RangeStatus(RangeStatus::NO_SOURCE),
    ] {
        assert!(!status.is_served(), "{} is not the bytes arriving", status.text());
    }
}

#[test]
fn a_status_from_a_later_host_still_prints() {
    let future = RangeStatus(9001);
    assert_eq!(future.name(), None);
    assert_eq!(future.text(), "range status 9001");
}
