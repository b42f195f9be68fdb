//! Container metadata without the container.
use iris::format::layout::{HEADER_SIZE, MIN_SIZE, TRAILER_SIZE};
use iris::format::{Directory, Error, Placement, FORMAT_MAJOR, MAGIC};

#[test]
fn a_file_shorter_than_the_smallest_container_has_no_trailer_to_read() {
    assert!(matches!(
        Placement::trailer_at(MIN_SIZE as u64 - 1),
        Err(Error::Truncated { .. })
    ));
    assert_eq!(
        Placement::trailer_at(MIN_SIZE as u64).expect("the smallest container has a trailer"),
        (MIN_SIZE - TRAILER_SIZE) as u64
    );
}

fn trailer(footer_at: u64, footer_len: u32) -> [u8; TRAILER_SIZE] {
    let mut t = [0u8; TRAILER_SIZE];
    t[0..8].copy_from_slice(&footer_at.to_le_bytes());
    t[8..12].copy_from_slice(&footer_len.to_le_bytes());
    t[48..56].copy_from_slice(&MAGIC);
    t
}

#[test]
fn a_trailer_that_does_not_end_with_the_magic_is_not_a_container() {
    let mut t = trailer(HEADER_SIZE as u64, 8);
    t[55] = 0;
    assert!(matches!(
        Placement::read(&t, 1024),
        Err(Error::Truncated { .. })
    ));
}

#[test]
fn a_footer_that_overlaps_the_header_or_the_trailer_is_refused() {
    // Starting inside the header would let a writer describe the magic as records.
    assert!(matches!(
        Placement::read(&trailer(HEADER_SIZE as u64 - 1, 8), 1024),
        Err(Error::Truncated { .. })
    ));
    // Running into the trailer would let it describe its own digest.
    assert!(matches!(
        Placement::read(&trailer(1024 - TRAILER_SIZE as u64, 8), 1024),
        Err(Error::Truncated { .. })
    ));
    // An end that would wrap round saturates into the same refusal.
    assert!(matches!(
        Placement::read(&trailer(u64::MAX, 8), 1024),
        Err(Error::Truncated { .. })
    ));
}

#[test]
fn directory_a_reserved_field_that_is_not_zero_is_refused() {
    let mut t = trailer(HEADER_SIZE as u64, 8);
    t[12] = 1;
    assert!(matches!(
        Placement::read(&t, 1024),
        Err(Error::Reserved { what: "trailer" })
    ));
}

#[test]
fn a_footer_of_the_wrong_length_is_refused_rather_than_parsed() {
    let placement = Placement::read(&trailer(HEADER_SIZE as u64, 8), 1024)
        .expect("the placement is well formed");
    let mut header = [0u8; HEADER_SIZE];
    header[..MAGIC.len()].copy_from_slice(&MAGIC);
    header[8..10].copy_from_slice(&FORMAT_MAJOR.to_le_bytes());
    assert!(matches!(
        Directory::parse_without_root_digest(&header, &[0u8; 4], placement),
        Err(Error::Truncated {
            what: "the footer",
            ..
        })
    ));
}
