use record_store::meta::{Meta, MetaError};

#[test]
fn meta_test_file_segment_from_plain_id() {
    assert_eq!(record_store::record::Record::get_file_segment(1), 0);
    assert_eq!(record_store::record::Record::get_file_segment(100), 0);
    assert_eq!(record_store::record::Record::get_file_segment(101), 1);
}

#[test]
fn test_adding_to_collection() {
    let mut meta = Meta::new();

    meta.add_to_collection(1, 10).expect("should add without issues");
    meta.add_to_collection(2, 15).expect("should add without issues");
    meta.add_to_collection(3, 20).expect("should add without issues");
    meta.add_to_collection(101, 10).expect("should add without issues");

    // id => 1
    assert_eq!(
        meta.jumps
            .get(0)
            .expect("page should exist")
            .get(0)
            .expect("should exist")
            .to_owned(),
        Some(0)
    );

    // id => 2
    assert_eq!(
        meta.jumps
            .get(0)
            .expect("page should exist")
            .get(1)
            .expect("should exist")
            .to_owned(),
        Some(10)
    );

    // id => 3
    assert_eq!(
        meta.jumps
            .get(0)
            .expect("page should exist")
            .get(2)
            .expect("should exist")
            .to_owned(),
        Some(25)
    );

    // id => 4 (doesn't exist yet?)
    assert_eq!(
        meta.jumps
            .get(0)
            .expect("page should exist")
            .get(3)
            .expect("should exist")
            .to_owned(),
        Some(45)
    );

    // id => 1 | page => 1
    assert_eq!(
        meta.jumps
            .get(1)
            .expect("page should exist")
            .get(1)
            .expect("should exist")
            .to_owned(),
        Some(10)
    );
}

#[test]
fn test_fetching_to_collection() {
    let mut meta = Meta::new();

    meta.add_to_collection(1, 10).expect("should add without issues");
    meta.add_to_collection(2, 15).expect("should add without issues");
    meta.add_to_collection(3, 20).expect("should add without issues");
    meta.add_to_collection(101, 10).expect("should add without issues");

    assert_eq!(meta.get_segment_offset(&1).expect("should exist"), 0);
    assert_eq!(meta.get_segment_offset(&2).expect("should exist"), 10);
    assert_eq!(meta.get_segment_offset(&3).expect("should exist"), 25);

    assert!(meta.get_segment_offset(&4).is_err());

    // id => 1 of the second page
    assert_eq!(meta.get_segment_offset(&101).expect("should get value"), 0);

    // id => 2 of the second page, value exist but isn't "set" yet
    assert!(meta.get_segment_offset(&102).is_err());
}

#[test]
fn out_of_order_append_fails_and_leaves_index_unchanged() {
    let mut meta = Meta::new();
    // The very first append must be record 1.
    assert_eq!(
        meta.add_to_collection(2, 10),
        Err(MetaError::SequenceInconsistent)
    );
    assert!(meta.jumps.is_empty());
    assert!(meta.sequence.is_empty());

    meta.add_to_collection(1, 10).expect("should add without issues");
    let jumps_before = meta.jumps.clone();
    let sequence_before = meta.sequence.clone();

    // Replaying an already-committed ID is out of order.
    assert_eq!(
        meta.add_to_collection(1, 10),
        Err(MetaError::SequenceInconsistent)
    );
    // Skipping ahead within the segment is out of order.
    assert_eq!(
        meta.add_to_collection(3, 10),
        Err(MetaError::SequenceInconsistent)
    );
    // Skipping a whole segment is out of order.
    assert_eq!(
        meta.add_to_collection(201, 10),
        Err(MetaError::SequenceInconsistent)
    );
    assert_eq!(meta.jumps, jumps_before);
    assert_eq!(meta.sequence, sequence_before);
}

#[test]
fn lookup_error_variants() {
    let mut meta = Meta::new();
    // No segment has received a record yet.
    assert_eq!(meta.get_segment_offset(&1), Err(MetaError::SegmentNotFound));

    meta.add_to_collection(1, 10).expect("should add without issues");
    // Segment 0 exists, but position 1 is not committed yet.
    assert_eq!(meta.get_segment_offset(&2), Err(MetaError::NotYetCommitted));
    // Segment 1 has never received a record.
    assert_eq!(
        meta.get_segment_offset(&101),
        Err(MetaError::SegmentNotFound)
    );
}

#[test]
fn replaying_the_same_appends_gives_identical_state() {
    let ops: Vec<(u64, u64)> = (1..=105u64).map(|id| (id, 3 + (id % 7))).collect();

    let mut first = Meta::new();
    for (id, size) in &ops {
        first
            .add_to_collection(*id, *size)
            .expect("should add without issues");
    }

    let mut second = Meta::new();
    for (id, size) in &ops {
        second
            .add_to_collection(*id, *size)
            .expect("should add without issues");
    }

    assert_eq!(first.jumps, second.jumps);
    assert_eq!(first.sequence, second.sequence);
}

#[test]
fn offsets_accumulate_across_a_full_segment() {
    let mut meta = Meta::new();
    for id in 1..=100u64 {
        meta.add_to_collection(id, 10).expect("should add without issues");
    }
    assert_eq!(meta.get_segment_offset(&1).expect("should exist"), 0);
    assert_eq!(meta.get_segment_offset(&100).expect("should exist"), 990);
    assert_eq!(meta.sequence[0], 100);

    // The 101st record opens segment 1 at offset zero.
    meta.add_to_collection(101, 25).expect("should add without issues");
    assert_eq!(meta.get_segment_offset(&101).expect("should exist"), 0);
    meta.add_to_collection(102, 5).expect("should add without issues");
    assert_eq!(meta.get_segment_offset(&102).expect("should exist"), 25);
}

#[test]
fn check_wf_accepts_built_and_rejects_corrupted_indexes() {
    let mut meta = Meta::new();
    assert!(meta.check_wf());
    meta.add_to_collection(1, 10).expect("should add without issues");
    meta.add_to_collection(2, 15).expect("should add without issues");
    assert!(meta.check_wf());

    // A row that does not start at offset zero is inconsistent.
    let corrupted = Meta {
        sequence: vec![1],
        jumps: vec![vec![Some(5), Some(15)]],
    };
    assert!(!corrupted.check_wf());

    // A count that does not match its row's length is inconsistent.
    let corrupted = Meta {
        sequence: vec![2],
        jumps: vec![vec![Some(0), Some(10)]],
    };
    assert!(!corrupted.check_wf());

    // An unpopulated cell is inconsistent.
    let corrupted = Meta {
        sequence: vec![1],
        jumps: vec![vec![Some(0), None]],
    };
    assert!(!corrupted.check_wf());

    // A segment count without its row is inconsistent.
    let corrupted = Meta {
        sequence: vec![1],
        jumps: vec![],
    };
    assert!(!corrupted.check_wf());
}

#[test]
fn accepts_mirrors_the_append_rules() {
    let mut meta = Meta::new();
    assert!(meta.accepts(1, 10));
    assert!(!meta.accepts(0, 10));
    assert!(!meta.accepts(2, 10));

    meta.add_to_collection(1, 10).expect("should add without issues");
    assert!(meta.accepts(2, 15));
    assert!(!meta.accepts(1, 10));
    assert!(!meta.accepts(3, 10));
    // Record 101 would open the next segment at position 0, which the
    // index accepts even while segment 0 is not full.
    assert!(meta.accepts(101, 10));
    assert!(!meta.accepts(201, 10));

    // The running offset must stay within u64.
    assert!(!meta.accepts(2, u64::MAX));
    assert!(meta.accepts(2, u64::MAX - 10));
}
