//! Rendering sequences back into FASTA text: a header line, then the
//! bases wrapped at a chosen width, each line newline-terminated.

use vstd::prelude::*;

verus! {

/// How tabular reports around the library are styled.
#[derive(Debug, Clone, Copy, PartialEq, Eq, Structural)]
pub enum PrintFormat {
    Tabular,
    Markdown,
}

/// `seq_bytes` cut into lines of `w` bases, every line (the last
/// included) followed by a newline; an empty sequence yields no line at
/// all.
pub open spec fn lines_term(seq_bytes: Seq<u8>, w: int) -> Seq<u8>
    recommends
        w >= 1,
    decreases seq_bytes.len(),
{
    if seq_bytes.len() == 0 {
        Seq::<u8>::empty()
    } else if w < 1 || seq_bytes.len() <= w {
        seq_bytes + seq![10u8]
    } else {
        seq_bytes.take(w) + seq![10u8] + lines_term(seq_bytes.skip(w), w)
    }
}

/// The raw on-disk body of a sequence wrapped at width `w`: the same
/// lines, but with no terminator after the last one — the newline that
/// closes a sequence block belongs to the record, not to its body.
pub open spec fn body_of(seq_bytes: Seq<u8>, w: int) -> Seq<u8>
    recommends
        w >= 1,
    decreases seq_bytes.len(),
{
    if w < 1 || seq_bytes.len() <= w {
        seq_bytes
    } else {
        seq_bytes.take(w) + seq![10u8] + body_of(seq_bytes.skip(w), w)
    }
}

/// For a non-empty sequence, the rendered lines are the on-disk body plus
/// the final terminator.
pub proof fn lemma_lines_term_body(seq_bytes: Seq<u8>, w: int)
    requires
        w >= 1,
        seq_bytes.len() >= 1,
    ensures
        lines_term(seq_bytes, w) == body_of(seq_bytes, w) + seq![10u8],
    decreases seq_bytes.len(),
{
    if seq_bytes.len() <= w {
    } else {
        lemma_lines_term_body(seq_bytes.skip(w), w);
        assert(lines_term(seq_bytes, w) =~= body_of(seq_bytes, w) + seq![10u8]);
    }
}

/// One rendered FASTA record: the header on its own line, then the bases.
/// Width `None` or `Some(0)` puts the whole sequence on a single line.
pub open spec fn fasta_block(header: Seq<u8>, seq_bytes: Seq<u8>, width: Option<u8>) -> Seq<u8> {
    let body = match width {
        Option::None => seq_bytes + seq![10u8],
        Option::Some(w) => if w == 0 {
            seq_bytes + seq![10u8]
        } else {
            lines_term(seq_bytes, w as int)
        },
    };
    header + seq![10u8] + body
}

/// Renders one record as FASTA text.
pub fn format_fasta_output(header: &[u8], seq: &Vec<u8>, width: Option<u8>) -> (out: Vec<u8>)
    ensures
        out@ == fasta_block(header@, seq@, width),
{
    let mut out: Vec<u8> = Vec::new();
    let mut h: usize = 0;
    while h < header.len()
        invariant
            0 <= h <= header@.len(),
            out@ == header@.take(h as int),
        decreases header@.len() - h,
    {
        out.push(header[h]);
        proof {
            assert(out@ =~= header@.take(h + 1));
        }
        h = h + 1;
    }
    proof {
        assert(out@ =~= header@);
    }
    out.push(10);
    let w_eff: u8 = match width {
        Some(w) => w,
        None => 0,
    };
    if w_eff == 0 {
        let mut j: usize = 0;
        while j < seq.len()
            invariant
                0 <= j <= seq@.len(),
                out@ == header@ + seq![10u8] + seq@.take(j as int),
            decreases seq@.len() - j,
        {
            out.push(seq[j]);
            proof {
                assert(out@ =~= header@ + seq![10u8] + seq@.take(j + 1));
            }
            j = j + 1;
        }
        out.push(10);
        proof {
            assert(seq@.take(seq@.len() as int) =~= seq@);
            assert(out@ =~= fasta_block(header@, seq@, width));
        }
        out
    } else {
        proof {
            assert((header@ + seq![10u8]) + lines_term(seq@, w_eff as int) =~= fasta_block(
                header@,
                seq@,
                width,
            ));
            assert(seq@.skip(0) =~= seq@);
        }
        let mut i: usize = 0;
        while i < seq.len()
            invariant
                0 <= i <= seq@.len(),
                1 <= w_eff,
                out@ + lines_term(seq@.skip(i as int), w_eff as int) == fasta_block(
                    header@,
                    seq@,
                    width,
                ),
            decreases seq@.len() - i,
        {
            let ghost out_line_start = out@;
            let ghost rest = seq@.skip(i as int);
            let rem: usize = seq.len() - i;
            let end: usize = if rem > w_eff as usize {
                i + w_eff as usize
            } else {
                seq.len()
            };
            let mut j: usize = i;
            while j < end
                invariant
                    i <= j <= end <= seq@.len(),
                    out@ == out_line_start + seq@.subrange(i as int, j as int),
                decreases end - j,
            {
                out.push(seq[j]);
                proof {
                    assert(out@ =~= out_line_start + seq@.subrange(i as int, j + 1));
                }
                j = j + 1;
            }
            out.push(10);
            proof {
                assert(rest.take(end - i) =~= seq@.subrange(i as int, end as int));
                if rem > w_eff as usize {
                    assert(rest.skip(w_eff as int) =~= seq@.skip(end as int));
                    assert(lines_term(rest, w_eff as int) == rest.take(w_eff as int) + seq![10u8]
                        + lines_term(seq@.skip(end as int), w_eff as int));
                } else {
                    assert(rest.take(end - i) =~= rest);
                    assert(seq@.skip(end as int) =~= Seq::<u8>::empty());
                    assert(lines_term(seq@.skip(end as int), w_eff as int) =~= Seq::<u8>::empty());
                }
                assert(out@ + lines_term(seq@.skip(end as int), w_eff as int) =~= out_line_start
                    + lines_term(rest, w_eff as int));
            }
            i = end;
        }
        proof {
            assert(seq@.skip(seq@.len() as int) =~= Seq::<u8>::empty());
            assert(lines_term(seq@.skip(seq@.len() as int), w_eff as int) =~= Seq::<u8>::empty());
            assert(out@ + Seq::<u8>::empty() =~= out@);
        }
        out
    }
}

} // verus!
