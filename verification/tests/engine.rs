//! Plans, chunks and what a C caller is handed.
use iris::abi::{Capability, CapabilitySet};
use iris::engine::handles::{c_text, name_for_c, report, scan_allowed};
use iris::engine::table::ROWS_PER_PARTITION;
use iris::engine::{
    counts, split, wanted, Chunk, Chunks, Error, Filling, IrisExec, IrisTable, Pushdown, IRIS_ERROR,
    IRIS_INVALID, IRIS_OK,
};
use iris::format::Digest;

fn table(rows: u64, projects: bool) -> IrisTable {
    let agreed = if projects {
        CapabilitySet::new().with(Capability(Capability::PROJECTION))
    } else {
        CapabilitySet::new()
    };
    IrisTable::over(3, rows, "readings".to_owned(), Digest([7; 32]), agreed)
}

#[test]
fn a_table_says_what_a_planner_asks() {
    let t = table(9, true);
    assert_eq!(t.rows(), 9);
    assert_eq!(t.dataset_name(), "readings");
    assert_eq!(t.decoder_digest(), Digest([7; 32]));
    assert!(t.pushes_projection());
    assert!(!table(9, false).pushes_projection());
}

#[test]
fn a_projection_goes_to_a_decoder_that_takes_one() {
    let p = table(9, true).pushdown(Some(&vec![2, 0])).unwrap();
    assert_eq!(p, Pushdown::Decoder(vec![2, 0]));
    assert_eq!(p.told(), &[2, 0]);
    assert_eq!(p.taken(), None);
    assert_eq!(p.text(), "Decoder([2, 0])");

    let p = table(9, false).pushdown(Some(&vec![1])).unwrap();
    assert_eq!(p, Pushdown::Host(vec![1]));
    assert!(p.told().is_empty());
    assert_eq!(p.taken(), Some([1usize].as_slice()));
    assert_eq!(p.text(), "Host([1])");

    let p = table(9, true).pushdown(None).unwrap();
    assert_eq!(p, Pushdown::Everything);
    assert!(p.told().is_empty());
    assert_eq!(p.taken(), None);
    assert_eq!(p.text(), "Everything");
    assert_eq!(Pushdown::Host(Vec::new()).text(), "Host([])");
}

#[test]
fn the_first_column_that_is_not_there_is_named() {
    let err = table(9, true).pushdown(Some(&vec![0, 5, 9])).err().unwrap();
    assert_eq!(err, Error::Projection { column: 5, columns: 3 });
    assert_eq!(err.text(), "column 5 was asked for and this table has 3");
    assert_eq!(table(9, true).scan(Some(&vec![3]), None, 1).err().map(|e| e.text()),
        Some("column 3 was asked for and this table has 3".to_owned()));
}

#[test]
fn a_limit_is_a_prefix_of_the_table() {
    let t = table(100, true);
    assert_eq!(t.prefix(None), 100);
    assert_eq!(t.prefix(Some(10)), 10);
    assert_eq!(t.prefix(Some(1000)), 100);
    let scan = t.scan(None, Some(10), 4).unwrap();
    assert_eq!(scan.parts(), &[(0, 10)]);
}

#[test]
fn the_partitions_of_a_scan_read_every_row() {
    let rows = ROWS_PER_PARTITION * 3 + 1;
    let scan = table(rows, true).scan(Some(&vec![1]), None, 3).unwrap();
    assert_eq!(scan.parts().len(), 3);
    assert_eq!(scan.parts().iter().map(|p| p.1).sum::<u64>(), rows);
    assert_eq!(scan.partition(0), Ok((0, ROWS_PER_PARTITION + 1)));
    assert_eq!(
        scan.partition(3).err(),
        Some("partition 3 was asked for and this scan has 3".to_owned())
    );
    assert_eq!(scan.pushdown(), &Pushdown::Decoder(vec![1]));
    assert_eq!(
        scan.text(false),
        "IrisExec: rows=24577, partitions=3, projection=Decoder([1])"
    );
    assert_eq!(scan.text(true), "rows=24577");
}

#[test]
fn a_scan_of_no_partitions_wanted_still_has_one() {
    assert_eq!(split(5, 0), vec![(0, 5)]);
    let exec = IrisExec::new(Pushdown::Everything, vec![(0, 2), (2, 3)]);
    assert_eq!(
        format!("{exec:?}"),
        "IrisExec { parts: [(0, 2), (2, 3)], pushdown: Everything, .. }"
    );
    assert_eq!(exec.text(true), "rows=5");
}

#[test]
fn a_range_is_asked_for_again_from_where_the_last_answer_stopped() {
    let mut f = Filling::new(10);
    assert_eq!(f.next(), Some((0, 10)));
    f.answered(4);
    assert_eq!(f.next(), Some((4, 6)));
    f.answered(6);
    assert_eq!(f.next(), None);

    // An answer of no rows ends it.
    let mut f = Filling::new(10);
    f.answered(3);
    f.answered(0);
    assert_eq!(f.next(), None);
    assert_eq!(Filling::new(0).next(), None);

    // So does an answer of more rows than were asked for.
    let mut f = Filling::new(10);
    f.answered(12);
    assert_eq!(f.next(), None);
}

#[test]
fn batches_are_handed_over_a_chunk_at_a_time() {
    let mut c = Chunks::new(vec![5, 0, 3]);
    assert_eq!(c.next(2), Some(Chunk { batch: 0, offset: 0, rows: 2 }));
    assert_eq!(c.next(2), Some(Chunk { batch: 0, offset: 2, rows: 2 }));
    assert_eq!(c.next(2), Some(Chunk { batch: 0, offset: 4, rows: 1 }));
    assert_eq!(c.next(9), Some(Chunk { batch: 2, offset: 0, rows: 3 }));
    assert_eq!(c.next(9), None);
    assert_eq!(c.next(9), None);
    assert_eq!(Chunks::new(Vec::new()).next(4), None);
}

#[test]
fn a_query_that_wants_no_columns_reads_one_to_count_by() {
    assert_eq!(wanted(&[], 4), Ok(vec![0]));
    assert_eq!(wanted(&[], 0), Ok(Vec::new()));
    assert_eq!(wanted(&[3, 1], 4), Ok(vec![3, 1]));
    assert_eq!(
        wanted(&[1, 4, 9], 4),
        Err("this query asked for column 4 of a container that has 4 of them".to_owned())
    );
}

#[test]
fn text_for_a_c_caller_ends_in_a_nul() {
    assert_eq!(c_text("hi"), Some(b"hi\0".to_vec()));
    assert_eq!(c_text(""), Some(vec![0]));
    assert_eq!(c_text("h\0i"), None);
    assert_eq!(name_for_c("readings"), Ok(b"readings\0".to_vec()));
    assert_eq!(
        name_for_c("a\0b"),
        Err("the name in this container contains a nul byte")
    );
}

#[test]
fn a_caller_that_wants_no_message_still_gets_the_status() {
    assert_eq!(report(true, "no"), (IRIS_ERROR, Some(b"no\0".to_vec())));
    assert_eq!(report(false, "no"), (IRIS_ERROR, None));
    assert_eq!(report(true, "n\0o"), (IRIS_ERROR, None));
}

#[test]
fn a_scan_needs_a_dataset_and_somewhere_to_go() {
    assert_eq!(scan_allowed(true, true, false, 0), IRIS_OK);
    assert_eq!(scan_allowed(true, true, true, 2), IRIS_OK);
    assert_eq!(scan_allowed(true, true, false, 2), IRIS_INVALID);
    assert_eq!(scan_allowed(false, true, true, 2), IRIS_INVALID);
    assert_eq!(scan_allowed(true, false, true, 2), IRIS_INVALID);
}

#[test]
fn a_query_without_columns_only_counts() {
    assert!(counts(&[], 3));
    assert!(!counts(&[0], 3));
    // There is nothing to count with where there are no columns at all.
    assert!(!counts(&[], 0));
    assert_eq!(wanted(&[], 0), Ok(Vec::new()));
}
