use seqkit_rs::extract::{extract, extract_region, lookup, read_region, RegionError};
use seqkit_rs::index::{fill_index_records, IndexRecord};
use seqkit_rs::region::{ExprRegion, NormalizedRegion};

fn two_record_index() -> (Vec<u8>, Vec<IndexRecord>) {
    let file = b">seqA\nACGTACGTAC\n>seqB\nGGGGG\n".to_vec();
    let mut offset: u64 = 0;
    let a = fill_index_records(b"seqA", 10, b"ACGTACGTAC", &mut offset);
    let b = fill_index_records(b"seqB", 5, b"GGGGG", &mut offset);
    (file, vec![a, b])
}

#[test]
fn end_to_end_two_records() {
    let (file, recs) = two_record_index();
    // The two offsets differ by exactly len(">seqA\n") + 10 + 1.
    assert_eq!(recs[1].byte_offset - recs[0].byte_offset, 6 + 10 + 1);
    assert_eq!(recs[0].byte_offset, 6);
    assert_eq!(recs[1].byte_offset, 23);

    let all = extract_region(&recs, &file, b"seqA:1-10").unwrap();
    assert_eq!(all, b"ACGTACGTAC".to_vec());

    let err = extract_region(&recs, &file, b"seqA:11-12").unwrap_err();
    assert_eq!(err, RegionError::OutOfRange);
}

#[test]
fn extraction_length_matches_region() {
    let (file, recs) = two_record_index();
    let sub = extract_region(&recs, &file, b"seqA:2-5").unwrap();
    assert_eq!(sub.len(), 4);
    assert_eq!(sub, b"CGTA".to_vec());
}

#[test]
fn extraction_of_wrapped_sequence() {
    let file = b">w\nACGT\nACGT\nAC\n".to_vec();
    let mut offset: u64 = 0;
    let rec = fill_index_records(b"w", 10, b"ACGT\nACGT\nAC", &mut offset);
    let recs = vec![rec];
    assert_eq!(extract_region(&recs, &file, b"w:1-10").unwrap(), b"ACGTACGTAC".to_vec());
    // A region spanning a line boundary skips the terminator.
    assert_eq!(extract_region(&recs, &file, b"w:4-6").unwrap(), b"TAC".to_vec());
}

#[test]
fn whole_sequence_by_bare_name() {
    let (file, recs) = two_record_index();
    assert_eq!(extract_region(&recs, &file, b"seqB").unwrap(), b"GGGGG".to_vec());
}

#[test]
fn negative_coordinates_count_from_end() {
    let (file, recs) = two_record_index();
    // -3--1 is the last three bases.
    assert_eq!(extract_region(&recs, &file, b"seqA:-3--1").unwrap(), b"TAC".to_vec());
}

#[test]
fn unknown_sequence_is_reported() {
    let (file, recs) = two_record_index();
    let err = extract_region(&recs, &file, b"nope:1-2").unwrap_err();
    assert_eq!(err, RegionError::UnknownSequence);
}

#[test]
fn inverted_region_is_rejected_not_reordered() {
    let (file, recs) = two_record_index();
    let err = extract_region(&recs, &file, b"seqA:6-3").unwrap_err();
    assert_eq!(err, RegionError::InvalidRegion);
}

#[test]
fn oversized_numeral_is_reported() {
    let (file, recs) = two_record_index();
    let err = extract_region(&recs, &file, b"seqA:99999999999999999999-5").unwrap_err();
    assert_eq!(err, RegionError::BadNumeral);
}

#[test]
fn resolved_start_below_one_is_out_of_range() {
    let (file, recs) = two_record_index();
    // start -20 on a length-10 sequence resolves to -9.
    let err = extract_region(&recs, &file, b"seqA:-20--15").unwrap_err();
    assert_eq!(err, RegionError::OutOfRange);
}

#[test]
fn stale_index_is_reported() {
    let recs = vec![IndexRecord {
        name: b"x".to_vec(),
        seq_len: 10,
        byte_offset: 100,
        line_bases: 10,
        line_bytes: 11,
    }];
    let err = extract_region(&recs, b"tiny", b"x:1-2").unwrap_err();
    assert_eq!(err, RegionError::StaleIndex);
}

#[test]
fn degenerate_geometry_is_stale() {
    let recs = vec![IndexRecord {
        name: b"x".to_vec(),
        seq_len: 10,
        byte_offset: 0,
        line_bases: 0,
        line_bytes: 1,
    }];
    let err = extract_region(&recs, b"0123456789", b"x:1-2").unwrap_err();
    assert_eq!(err, RegionError::StaleIndex);
}

#[test]
fn oversized_record_length_is_reported() {
    let recs = vec![IndexRecord {
        name: b"x".to_vec(),
        seq_len: u64::MAX,
        byte_offset: 0,
        line_bases: 1,
        line_bytes: 2,
    }];
    let err = extract_region(&recs, b"AAAA", b"x:1-2").unwrap_err();
    assert_eq!(err, RegionError::LengthOverflow);
}

#[test]
fn duplicate_names_last_record_wins() {
    let file = b">x\nAAAA\n>x\nCCCC\n".to_vec();
    let mut offset: u64 = 0;
    let first = fill_index_records(b"x", 4, b"AAAA", &mut offset);
    let second = fill_index_records(b"x", 4, b"CCCC", &mut offset);
    let recs = vec![first, second];
    assert_eq!(lookup(&recs, b"x"), Some(1));
    assert_eq!(extract_region(&recs, &file, b"x:1-4").unwrap(), b"CCCC".to_vec());
}

#[test]
fn batch_keeps_order_and_isolates_failures() {
    let (file, recs) = two_record_index();
    let regions = vec![
        b"seqA:1-4".to_vec(),
        b"nope:1-2".to_vec(),
        b"seqB:1-2".to_vec(),
    ];
    let out = extract(&recs, &file, &regions);
    assert_eq!(out.len(), 3);
    assert_eq!(out[0].as_ref().unwrap(), &b"ACGT".to_vec());
    assert_eq!(out[1].as_ref().unwrap_err(), &RegionError::UnknownSequence);
    assert_eq!(out[2].as_ref().unwrap(), &b"GG".to_vec());
}

#[test]
fn read_region_returns_exact_count() {
    let (file, recs) = two_record_index();
    let norm = NormalizedRegion {
        name: b"seqA".to_vec(),
        start: 3,
        end: 7,
    };
    let sub = read_region(&file, &recs[0], &norm).unwrap();
    assert_eq!(sub.len(), 5);
    assert_eq!(sub, b"GTACG".to_vec());
}

#[test]
fn normalized_region_checked_enforces_bounds() {
    let ok = NormalizedRegion::checked(
        ExprRegion { name: b"x".to_vec(), start: 1, end: 10 },
        10,
    )
    .unwrap();
    assert_eq!(ok.start, 1);
    assert_eq!(ok.end, 10);
    assert_eq!(ok.zero_based(), (0, 10));

    assert!(NormalizedRegion::checked(
        ExprRegion { name: b"x".to_vec(), start: 1, end: 11 },
        10,
    )
    .is_none());
    assert!(NormalizedRegion::checked(
        ExprRegion { name: b"x".to_vec(), start: 0, end: 5 },
        10,
    )
    .is_none());
}

#[test]
fn persisted_index_round_trips_through_file() {
    // Build, persist, reload, extract: the whole pipeline on bytes.
    let (file, recs) = two_record_index();
    let mut fai: Vec<u8> = Vec::new();
    for rec in &recs {
        fai.extend_from_slice(&seqkit_rs::index::render_index_line(rec));
    }
    let reloaded = seqkit_rs::index::parse_fai(&fai).unwrap();
    assert_eq!(reloaded.len(), 2);
    assert_eq!(
        extract_region(&reloaded, &file, b"seqB:2-4").unwrap(),
        b"GGG".to_vec()
    );
}

#[test]
fn single_base_regions() {
    let (file, recs) = two_record_index();
    assert_eq!(extract_region(&recs, &file, b"seqA:1").unwrap(), b"A".to_vec());
    assert_eq!(extract_region(&recs, &file, b"seqA:10").unwrap(), b"C".to_vec());
}
