use seqkit_rs::fasta_out::{format_fasta_output, PrintFormat};

#[test]
fn wrapped_output_terminates_every_line() {
    let seq = b"ACGTACGTAC".to_vec();
    let out = format_fasta_output(b">s", &seq, Some(4));
    assert_eq!(out, b">s\nACGT\nACGT\nAC\n".to_vec());
}

#[test]
fn exact_multiple_of_width_has_no_empty_line() {
    let seq = b"ACGTACGT".to_vec();
    let out = format_fasta_output(b">s", &seq, Some(4));
    assert_eq!(out, b">s\nACGT\nACGT\n".to_vec());
}

#[test]
fn width_zero_writes_one_line() {
    let seq = b"ACGTACGTAC".to_vec();
    let out = format_fasta_output(b">s", &seq, Some(0));
    assert_eq!(out, b">s\nACGTACGTAC\n".to_vec());
}

#[test]
fn no_width_writes_one_line() {
    let seq = b"ACGT".to_vec();
    let out = format_fasta_output(b">s", &seq, None);
    assert_eq!(out, b">s\nACGT\n".to_vec());
}

#[test]
fn empty_sequence_with_width_writes_no_body_line() {
    let out = format_fasta_output(b">s", &Vec::new(), Some(4));
    assert_eq!(out, b">s\n".to_vec());
}

#[test]
fn empty_sequence_without_width_writes_empty_line() {
    let out = format_fasta_output(b">s", &Vec::new(), None);
    assert_eq!(out, b">s\n\n".to_vec());
}

#[test]
fn print_format_variants_are_distinct() {
    assert_ne!(PrintFormat::Tabular, PrintFormat::Markdown);
    assert_eq!(PrintFormat::Markdown, PrintFormat::Markdown);
}
