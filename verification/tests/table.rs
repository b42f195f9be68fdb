//! How a scan is split over partitions.
use iris::engine::table::{split, ROWS_PER_PARTITION};

#[test]
fn an_empty_table_is_one_empty_partition() {
    assert_eq!(split(0, 8), vec![(0, 0)]);
}

#[test]
fn a_small_table_is_read_by_one_worker() {
    assert_eq!(split(100, 8), vec![(0, 100)]);
    assert_eq!(split(ROWS_PER_PARTITION, 8), vec![(0, ROWS_PER_PARTITION)]);
}

#[test]
fn the_pieces_cover_the_rows_once_each() {
    for rows in [1, 7, ROWS_PER_PARTITION * 3, ROWS_PER_PARTITION * 7 + 1] {
        for wanted in 1..=9 {
            let parts = split(rows, wanted);
            assert!(!parts.is_empty(), "a plan needs at least one partition");

            let mut at = 0;
            for &(start, count) in &parts {
                assert_eq!(start, at, "the pieces are contiguous and in order");
                at += count;
            }
            assert_eq!(at, rows, "the pieces cover every row and no more");

            let widest = parts.iter().map(|&(_, count)| count).max().unwrap_or(0);
            let narrowest = parts.iter().map(|&(_, count)| count).min().unwrap_or(0);
            assert!(
                widest - narrowest <= 1,
                "the remainder is spread one row at a time"
            );
        }
    }
}
