use seqkit_rs::index::{
    check_suffix, fill_index_records, get_first_line_pos, parse_fai, parse_index_line,
    render_index_line, IndexRecord,
};

#[test]
fn first_line_pos_finds_terminator() {
    assert_eq!(get_first_line_pos(b"ACG\nT"), 3);
    assert_eq!(get_first_line_pos(b"\nACGT"), 0);
}

#[test]
fn first_line_pos_without_terminator_is_length() {
    assert_eq!(get_first_line_pos(b"ACGT"), 4);
    assert_eq!(get_first_line_pos(b""), 0);
}

#[test]
fn fill_single_line_record() {
    let mut offset: u64 = 0;
    let rec = fill_index_records(b"seqA", 10, b"ACGTACGTAC", &mut offset);
    assert_eq!(rec.name, b"seqA".to_vec());
    assert_eq!(rec.seq_len, 10);
    // ">seqA\n" is 6 bytes, so the first base sits at 6.
    assert_eq!(rec.byte_offset, 6);
    assert_eq!(rec.line_bases, 10);
    assert_eq!(rec.line_bytes, 11);
    // 6 header bytes + 10 body bytes + the terminating newline.
    assert_eq!(offset, 17);
}

#[test]
fn fill_wrapped_record_reads_first_line() {
    let mut offset: u64 = 0;
    let rec = fill_index_records(b"s", 10, b"ACGT\nACGT\nAC", &mut offset);
    assert_eq!(rec.line_bases, 4);
    assert_eq!(rec.line_bytes, 5);
    // ">s\n" is 3 bytes.
    assert_eq!(rec.byte_offset, 3);
    assert_eq!(offset, 3 + 12 + 1);
}

#[test]
fn suffix_check_rejects_compressed_names() {
    assert!(!check_suffix(b"genome.fa.gz"));
    assert!(!check_suffix(b"genome.xz"));
    assert!(!check_suffix(b"genome.bz2"));
}

#[test]
fn suffix_check_accepts_plain_names() {
    assert!(check_suffix(b"genome.fa"));
    assert!(check_suffix(b"gz"));
    assert!(check_suffix(b""));
    assert!(check_suffix(b"archive.gz.fa"));
}

#[test]
fn decimal_spelling_is_exact() {
    assert_eq!(seqkit_rs::digits::u64_to_dec(0), b"0".to_vec());
    assert_eq!(seqkit_rs::digits::u64_to_dec(907), b"907".to_vec());
    assert_eq!(
        seqkit_rs::digits::u64_to_dec(u64::MAX),
        b"18446744073709551615".to_vec()
    );
}

#[test]
fn render_line_is_tab_separated() {
    let rec = IndexRecord {
        name: b"seqA".to_vec(),
        seq_len: 10,
        byte_offset: 6,
        line_bases: 10,
        line_bytes: 11,
    };
    let line = render_index_line(&rec);
    assert_eq!(line, b"seqA\t10\t6\t10\t11\n".to_vec());
}

#[test]
fn parse_line_round_trips_render() {
    let rec = IndexRecord {
        name: b"chr10".to_vec(),
        seq_len: 4294967295,
        byte_offset: 12345678901,
        line_bases: 60,
        line_bytes: 61,
    };
    let mut line = render_index_line(&rec);
    assert_eq!(line.pop(), Some(b'\n'));
    let back = parse_index_line(&line).unwrap();
    assert_eq!(back.name, rec.name);
    assert_eq!(back.seq_len, rec.seq_len);
    assert_eq!(back.byte_offset, rec.byte_offset);
    assert_eq!(back.line_bases, rec.line_bases);
    assert_eq!(back.line_bytes, rec.line_bytes);
}

#[test]
fn parse_line_rejects_missing_fields() {
    assert!(parse_index_line(b"name\t10\t6\t10").is_none());
    assert!(parse_index_line(b"name").is_none());
    assert!(parse_index_line(b"").is_none());
}

#[test]
fn parse_line_rejects_extra_fields() {
    assert!(parse_index_line(b"name\t10\t6\t10\t11\t12").is_none());
}

#[test]
fn parse_line_rejects_bad_numerals() {
    assert!(parse_index_line(b"name\t1a\t6\t10\t11").is_none());
    assert!(parse_index_line(b"name\t\t6\t10\t11").is_none());
    assert!(parse_index_line(b"name\t-1\t6\t10\t11").is_none());
    // 2^64 does not fit a u64.
    assert!(parse_index_line(b"name\t18446744073709551616\t6\t10\t11").is_none());
}

#[test]
fn parse_line_keeps_u64_max() {
    let rec = parse_index_line(b"n\t18446744073709551615\t0\t1\t2").unwrap();
    assert_eq!(rec.seq_len, u64::MAX);
}

#[test]
fn parse_fai_reads_whole_file() {
    let content = b"seqA\t10\t6\t10\t11\nseqB\t5\t23\t5\t6\n";
    let recs = parse_fai(content).unwrap();
    assert_eq!(recs.len(), 2);
    assert_eq!(recs[0].name, b"seqA".to_vec());
    assert_eq!(recs[0].byte_offset, 6);
    assert_eq!(recs[1].name, b"seqB".to_vec());
    assert_eq!(recs[1].byte_offset, 23);
}

#[test]
fn parse_fai_tolerates_missing_final_newline() {
    let recs = parse_fai(b"seqA\t10\t6\t10\t11").unwrap();
    assert_eq!(recs.len(), 1);
    assert_eq!(recs[0].seq_len, 10);
}

#[test]
fn parse_fai_of_empty_file_is_empty() {
    assert_eq!(parse_fai(b"").unwrap().len(), 0);
}

#[test]
fn parse_fai_rejects_corrupt_line() {
    assert!(parse_fai(b"seqA\t10\t6\t10\t11\njunk\n").is_none());
    assert!(parse_fai(b"\nseqA\t10\t6\t10\t11\n").is_none());
}
