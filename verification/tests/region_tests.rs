use seqkit_rs::region::ExprRegion;

#[test]
fn parse_full_range() {
    let r = ExprRegion::parse(b"chr1:2-8").unwrap();
    assert_eq!(r.name, b"chr1".to_vec());
    assert_eq!(r.start, 2);
    assert_eq!(r.end, 8);
}

#[test]
fn parse_full_range_negative_bounds() {
    let r = ExprRegion::parse(b"chr1:-5-8").unwrap();
    assert_eq!(r.name, b"chr1".to_vec());
    assert_eq!(r.start, -5);
    assert_eq!(r.end, 8);

    let r = ExprRegion::parse(b"chr1:3--5").unwrap();
    assert_eq!(r.start, 3);
    assert_eq!(r.end, -5);
}

#[test]
fn parse_single_position() {
    let r = ExprRegion::parse(b"chr1:5").unwrap();
    assert_eq!(r.name, b"chr1".to_vec());
    assert_eq!(r.start, 5);
    assert_eq!(r.end, 5);
}

#[test]
fn parse_open_end() {
    let r = ExprRegion::parse(b"chr1:3-").unwrap();
    assert_eq!(r.start, 3);
    assert_eq!(r.end, -1);
}

#[test]
fn parse_open_start_consumes_dash() {
    // The leading '-' is a grammar token, not a sign: start is 1 and the
    // captured numeral is the end.
    let r = ExprRegion::parse(b"chr1:-5").unwrap();
    assert_eq!(r.name, b"chr1".to_vec());
    assert_eq!(r.start, 1);
    assert_eq!(r.end, 5);
}

#[test]
fn parse_double_negative() {
    let r = ExprRegion::parse(b"chr1:--5").unwrap();
    assert_eq!(r.start, 1);
    assert_eq!(r.end, -5);
}

#[test]
fn parse_bare_name_falls_back() {
    let r = ExprRegion::parse(b"chr1").unwrap();
    assert_eq!(r.name, b"chr1".to_vec());
    assert_eq!(r.start, 1);
    assert_eq!(r.end, -1);
}

#[test]
fn parse_unmatched_tail_falls_back() {
    // "1-2-3" after the colon matches no coordinate rule, so the whole
    // string is taken as a name.
    let r = ExprRegion::parse(b"a:1-2-3").unwrap();
    assert_eq!(r.name, b"a:1-2-3".to_vec());
    assert_eq!(r.start, 1);
    assert_eq!(r.end, -1);
}

#[test]
fn parse_name_may_contain_colon() {
    let r = ExprRegion::parse(b"a:b:3-4").unwrap();
    assert_eq!(r.name, b"a:b".to_vec());
    assert_eq!(r.start, 3);
    assert_eq!(r.end, 4);
}

#[test]
fn parse_empty_name_falls_back() {
    let r = ExprRegion::parse(b":3-4").unwrap();
    assert_eq!(r.name, b":3-4".to_vec());
    assert_eq!(r.start, 1);
    assert_eq!(r.end, -1);
}

#[test]
fn parse_minus_one_is_open_start_not_position() {
    // `name:-1` is not a single-position form: the '-' is consumed by the
    // open-start rule, so this selects [1, 1], never the last base.
    let r = ExprRegion::parse(b"name:-1").unwrap();
    assert_eq!(r.name, b"name".to_vec());
    assert_eq!(r.start, 1);
    assert_eq!(r.end, 1);
}

#[test]
fn parse_numeral_overflow_is_refused() {
    assert!(ExprRegion::parse(b"chr1:99999999999999999999-5").is_none());
}

#[test]
fn positive_region_keeps_positive_bounds() {
    let r = ExprRegion::positive_region(b"x".to_vec(), 2, 6, 8).unwrap();
    assert_eq!(r.start, 2);
    assert_eq!(r.end, 6);
}

#[test]
fn positive_region_resolves_negatives_from_end() {
    // -1 is the last base.
    let r = ExprRegion::positive_region(b"x".to_vec(), -8, -1, 8).unwrap();
    assert_eq!(r.start, 1);
    assert_eq!(r.end, 8);
}

#[test]
fn positive_region_zero_means_natural_boundary() {
    let r = ExprRegion::positive_region(b"x".to_vec(), 0, 0, 8).unwrap();
    assert_eq!(r.start, 1);
    assert_eq!(r.end, 8);
}

#[test]
fn positive_region_rejects_inverted() {
    // 6-3 is refused, not reordered.
    assert!(ExprRegion::positive_region(b"x".to_vec(), 6, 3, 10).is_none());
}

#[test]
fn open_start_on_length_ten() {
    // `name:-5` on a length-10 sequence: start 1, end 5.
    let r = ExprRegion::parse(b"name:-5").unwrap();
    let p = ExprRegion::positive_region(r.name, r.start, r.end, 10).unwrap();
    assert_eq!(p.start, 1);
    assert_eq!(p.end, 5);
}

#[test]
fn double_negative_on_length_ten() {
    // `name:--5` parses to end -5, which resolves to 10 - 5 + 1 = 6.
    let r = ExprRegion::parse(b"name:--5").unwrap();
    let p = ExprRegion::positive_region(r.name, r.start, r.end, 10).unwrap();
    assert_eq!(p.start, 1);
    assert_eq!(p.end, 6);
}

#[test]
fn open_end_on_length_ten() {
    // `name:3-` on a length-10 sequence yields [3, 10].
    let r = ExprRegion::parse(b"name:3-").unwrap();
    let p = ExprRegion::positive_region(r.name, r.start, r.end, 10).unwrap();
    assert_eq!(p.start, 3);
    assert_eq!(p.end, 10);
}
