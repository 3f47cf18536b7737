//! The index: one record of byte geometry per sequence, built in a single
//! forward pass and persisted as tab-separated lines
//! `name\tseq_len\tbyte_offset\tline_bases\tline_bytes\n`.

use vstd::prelude::*;

use crate::bytes::{find_byte, first_pos, lemma_first_pos_unique, lemma_split_at_len,
    lemma_split_at_prepend, lemma_split_at_whole, split_at, take_piece};
use crate::digits::{dec_rep, digits_val, is_unsigned_exec, is_unsigned_numeral,
    lemma_dec_rep_digits, lemma_dec_rep_val, parse_u64_digits, push_dec};

verus! {

/// Byte geometry of one sequence in a FASTA file.
///
/// `byte_offset` is the absolute position of the first base; `line_bases`
/// is the number of bases on a wrapped line, inferred from the first line
/// of the body; `line_bytes` adds the line terminator.
#[derive(Debug)]
pub struct IndexRecord {
    pub name: Vec<u8>,
    pub seq_len: u64,
    pub byte_offset: u64,
    pub line_bases: u64,
    pub line_bytes: u64,
}

/// Position of the first line terminator in a raw sequence body, or the
/// body's length when the whole body is one line.
pub fn get_first_line_pos(raw_seq: &[u8]) -> (r: usize)
    ensures
        r == first_pos(raw_seq@, 10),
{
    let r = match find_byte(10, raw_seq) {
        Some(pos) => pos,
        None => raw_seq.len(),
    };
    proof {
        lemma_first_pos_unique(raw_seq@, 10, r as int);
    }
    r
}

/// One step of the single-pass builder.
///
/// On entry `offset` is the byte position of the record's `>` marker; the
/// header takes the name plus two bytes (the marker and its newline), so
/// the first base sits at `offset + name.len() + 2`, which the record
/// stores. On exit `offset` has advanced past the raw body and the newline
/// that terminates the sequence block.
pub fn fill_index_records(name: &[u8], num_bases: u64, raw_seq: &[u8], offset: &mut u64) -> (rec:
    IndexRecord)
    requires
        *old(offset) + name@.len() + 2 + raw_seq@.len() + 1 <= u64::MAX,
    ensures
        rec.name@ == name@,
        rec.seq_len == num_bases,
        rec.byte_offset == *old(offset) + name@.len() + 2,
        rec.line_bases == first_pos(raw_seq@, 10),
        rec.line_bytes == rec.line_bases + 1,
        *final(offset) == rec.byte_offset + raw_seq@.len() + 1,
{
    let name_vec = crate::bytes::copy_range(name, 0, name.len());
    proof {
        assert(name_vec@ =~= name@);
        crate::bytes::lemma_first_pos_bounds(raw_seq@, 10);
    }
    *offset = *offset + (name.len() as u64) + 2;
    let first_next_line = get_first_line_pos(raw_seq);
    let rec = IndexRecord {
        name: name_vec,
        seq_len: num_bases,
        byte_offset: *offset,
        line_bases: first_next_line as u64,
        line_bytes: (first_next_line as u64) + 1,
    };
    *offset = *offset + (raw_seq.len() as u64) + 1;
    rec
}

pub open spec fn has_gz_suffix(s: Seq<u8>) -> bool {
    s.len() >= 3 && s[s.len() - 3] == 46 && s[s.len() - 2] == 103 && s[s.len() - 1] == 122
}

pub open spec fn has_xz_suffix(s: Seq<u8>) -> bool {
    s.len() >= 3 && s[s.len() - 3] == 46 && s[s.len() - 2] == 120 && s[s.len() - 1] == 122
}

pub open spec fn has_bz2_suffix(s: Seq<u8>) -> bool {
    s.len() >= 4 && s[s.len() - 4] == 46 && s[s.len() - 3] == 98 && s[s.len() - 2] == 122 && s[
        s.len() - 1] == 50
}

/// A file name whose suffix indicates compression: byte offsets into such
/// a file are not stable, so the index refuses it.
pub open spec fn compressed_name(s: Seq<u8>) -> bool {
    has_gz_suffix(s) || has_xz_suffix(s) || has_bz2_suffix(s)
}

/// Accepts a file name exactly when it does not end in `.gz`, `.xz` or
/// `.bz2`.
pub fn check_suffix(input: &[u8]) -> (ok: bool)
    ensures
        ok <==> !compressed_name(input@),
{
    let n = input.len();
    if n >= 3 && input[n - 3] == 46 && input[n - 2] == 103 && input[n - 1] == 122 {
        return false;
    }
    if n >= 3 && input[n - 3] == 46 && input[n - 2] == 120 && input[n - 1] == 122 {
        return false;
    }
    if n >= 4 && input[n - 4] == 46 && input[n - 3] == 98 && input[n - 2] == 122 && input[n - 1]
        == 50 {
        return false;
    }
    true
}

/// The persisted form of a record: five tab-separated fields and a
/// newline.
pub open spec fn index_line(rec: IndexRecord) -> Seq<u8> {
    rec.name@ + seq![9u8] + dec_rep(rec.seq_len as nat) + seq![9u8] + dec_rep(
        rec.byte_offset as nat,
    ) + seq![9u8] + dec_rep(rec.line_bases as nat) + seq![9u8] + dec_rep(rec.line_bytes as nat)
        + seq![10u8]
}

/// Renders one record as the line the index file stores.
pub fn render_index_line(rec: &IndexRecord) -> (r: Vec<u8>)
    ensures
        r@ == index_line(*rec),
{
    let mut out: Vec<u8> = Vec::new();
    let mut i: usize = 0;
    while i < rec.name.len()
        invariant
            0 <= i <= rec.name@.len(),
            out@ == rec.name@.take(i as int),
        decreases rec.name@.len() - i,
    {
        out.push(rec.name[i]);
        proof {
            assert(out@ =~= rec.name@.take(i + 1));
        }
        i = i + 1;
    }
    proof {
        assert(out@ =~= rec.name@);
    }
    out.push(9);
    push_dec(rec.seq_len, &mut out);
    out.push(9);
    push_dec(rec.byte_offset, &mut out);
    out.push(9);
    push_dec(rec.line_bases, &mut out);
    out.push(9);
    push_dec(rec.line_bytes, &mut out);
    out.push(10);
    proof {
        assert(out@ =~= index_line(*rec));
    }
    out
}

/// A numeric field of an index line: a run of digits whose value fits a
/// `u64`.
pub open spec fn count_field_ok(f: Seq<u8>) -> bool {
    is_unsigned_numeral(f) && digits_val(f) <= u64::MAX
}

/// A well-formed index line (without its newline): a name and four counts,
/// tab-separated.
pub open spec fn line_ok(l: Seq<u8>) -> bool {
    let f = split_at(l, 9);
    &&& f.len() == 5
    &&& count_field_ok(f[1])
    &&& count_field_ok(f[2])
    &&& count_field_ok(f[3])
    &&& count_field_ok(f[4])
}

/// The record a well-formed line denotes.
pub open spec fn rec_matches_line(rec: IndexRecord, l: Seq<u8>) -> bool {
    let f = split_at(l, 9);
    &&& rec.name@ == f[0]
    &&& rec.seq_len == digits_val(f[1])
    &&& rec.byte_offset == digits_val(f[2])
    &&& rec.line_bases == digits_val(f[3])
    &&& rec.line_bytes == digits_val(f[4])
}

/// Reads one line of an index file back into a record. `None` reports a
/// corrupt line.
#[verifier::rlimit(60)]
pub fn parse_index_line(line: &[u8]) -> (r: Option<IndexRecord>)
    ensures
        r is Some <==> line_ok(line@),
        r matches Some(rec) ==> rec_matches_line(rec, line@),
{
    let ghost l = line@;
    let n = line.len();
    let (f0, p0) = take_piece(line, 0, 9);
    proof {
        assert(l.skip(0) =~= l);
        assert(f0@ =~= l.take(p0 as int));
    }
    if p0 == n {
        proof {
            assert(split_at(l, 9) =~= seq![l]);
        }
        return None;
    }
    let (f1, p1) = take_piece(line, p0 + 1, 9);
    let ghost s1 = l.skip(p0 + 1);
    proof {
        assert(f1@ =~= s1.take(p1 - p0 - 1)) by {
            assert(f1@ =~= l.subrange(p0 + 1, p1 as int));
        }
        assert(split_at(l, 9) =~= seq![f0@].add(split_at(s1, 9)));
    }
    if p1 == n {
        proof {
            assert(split_at(s1, 9) =~= seq![s1]);
            assert(split_at(l, 9).len() == 2);
        }
        return None;
    }
    let (f2, p2) = take_piece(line, p1 + 1, 9);
    let ghost s2 = l.skip(p1 + 1);
    proof {
        assert(s2 =~= s1.skip(p1 - p0));
        assert(first_pos(s2, 9) == p2 - p1 - 1) by {
            assert(l.skip(p1 + 1) =~= s2);
        }
        assert(f2@ =~= s2.take(p2 - p1 - 1)) by {
            assert(f2@ =~= l.subrange(p1 + 1, p2 as int));
        }
        assert(split_at(s1, 9) =~= seq![f1@].add(split_at(s2, 9)));
    }
    if p2 == n {
        proof {
            assert(split_at(s2, 9) =~= seq![s2]);
            assert(split_at(l, 9).len() == 3);
        }
        return None;
    }
    let (f3, p3) = take_piece(line, p2 + 1, 9);
    let ghost s3 = l.skip(p2 + 1);
    proof {
        assert(s3 =~= s2.skip(p2 - p1));
        assert(first_pos(s3, 9) == p3 - p2 - 1) by {
            assert(l.skip(p2 + 1) =~= s3);
        }
        assert(f3@ =~= s3.take(p3 - p2 - 1)) by {
            assert(f3@ =~= l.subrange(p2 + 1, p3 as int));
        }
        assert(split_at(s2, 9) =~= seq![f2@].add(split_at(s3, 9)));
    }
    if p3 == n {
        proof {
            assert(split_at(s3, 9) =~= seq![s3]);
            assert(split_at(l, 9).len() == 4);
        }
        return None;
    }
    let (f4, p4) = take_piece(line, p3 + 1, 9);
    let ghost s4 = l.skip(p3 + 1);
    proof {
        assert(s4 =~= s3.skip(p3 - p2));
        assert(first_pos(s4, 9) == p4 - p3 - 1) by {
            assert(l.skip(p3 + 1) =~= s4);
        }
        assert(f4@ =~= s4.take(p4 - p3 - 1)) by {
            assert(f4@ =~= l.subrange(p3 + 1, p4 as int));
        }
        assert(split_at(s3, 9) =~= seq![f3@].add(split_at(s4, 9)));
    }
    if p4 != n {
        proof {
            let s5 = l.skip(p4 + 1);
            assert(s5 =~= s4.skip(p4 - p3));
            assert(split_at(s4, 9) =~= seq![f4@].add(split_at(s5, 9)));
            lemma_split_at_len(s5, 9);
            assert(split_at(l, 9).len() >= 6);
        }
        return None;
    }
    proof {
        assert(split_at(s4, 9) =~= seq![s4]);
        assert(f4@ =~= s4);
        assert(split_at(l, 9) =~= seq![f0@, f1@, f2@, f3@, f4@]);
    }
    if !is_unsigned_exec(f1.as_slice()) {
        return None;
    }
    if !is_unsigned_exec(f2.as_slice()) {
        return None;
    }
    if !is_unsigned_exec(f3.as_slice()) {
        return None;
    }
    if !is_unsigned_exec(f4.as_slice()) {
        return None;
    }
    let v1 = match parse_u64_digits(f1.as_slice()) {
        Some(v) => v,
        None => {
            return None;
        },
    };
    let v2 = match parse_u64_digits(f2.as_slice()) {
        Some(v) => v,
        None => {
            return None;
        },
    };
    let v3 = match parse_u64_digits(f3.as_slice()) {
        Some(v) => v,
        None => {
            return None;
        },
    };
    let v4 = match parse_u64_digits(f4.as_slice()) {
        Some(v) => v,
        None => {
            return None;
        },
    };
    Some(
        IndexRecord {
            name: f0,
            seq_len: v1,
            byte_offset: v2,
            line_bases: v3,
            line_bytes: v4,
        },
    )
}

/// A name the index file can carry verbatim: free of the two separators
/// of the format.
pub open spec fn clean_name(name: Seq<u8>) -> bool {
    forall|i: int| 0 <= i < name.len() ==> name[i] != 9 && name[i] != 10
}

/// Persistence round trip: the line rendered for a record whose name is
/// free of tabs and newlines parses back to that very record.
pub proof fn lemma_index_line_round_trip(rec: IndexRecord)
    requires
        clean_name(rec.name@),
    ensures
        line_ok(index_line(rec).drop_last()),
        rec_matches_line(rec, index_line(rec).drop_last()),
{
    let d1 = dec_rep(rec.seq_len as nat);
    let d2 = dec_rep(rec.byte_offset as nat);
    let d3 = dec_rep(rec.line_bases as nat);
    let d4 = dec_rep(rec.line_bytes as nat);
    lemma_dec_rep_digits(rec.seq_len as nat);
    lemma_dec_rep_digits(rec.byte_offset as nat);
    lemma_dec_rep_digits(rec.line_bases as nat);
    lemma_dec_rep_digits(rec.line_bytes as nat);
    lemma_dec_rep_val(rec.seq_len as nat);
    lemma_dec_rep_val(rec.byte_offset as nat);
    lemma_dec_rep_val(rec.line_bases as nat);
    lemma_dec_rep_val(rec.line_bytes as nat);
    let l = index_line(rec).drop_last();
    let rest1 = d1 + seq![9u8] + d2 + seq![9u8] + d3 + seq![9u8] + d4;
    let rest2 = d2 + seq![9u8] + d3 + seq![9u8] + d4;
    let rest3 = d3 + seq![9u8] + d4;
    assert(l =~= rec.name@ + seq![9u8] + rest1);
    assert(rest1 =~= d1 + seq![9u8] + rest2);
    assert(rest2 =~= d2 + seq![9u8] + rest3);
    assert(rest3 =~= d3 + seq![9u8] + d4);
    lemma_split_at_prepend(rec.name@, rest1, 9);
    lemma_split_at_prepend(d1, rest2, 9);
    lemma_split_at_prepend(d2, rest3, 9);
    lemma_split_at_prepend(d3, d4, 9);
    lemma_split_at_whole(d4, 9);
    assert(split_at(l, 9) =~= seq![rec.name@, d1, d2, d3, d4]);
}

/// A well-formed index file: every newline-separated line parses, except
/// that a trailing newline leaves a final empty piece.
pub open spec fn fai_ok(s: Seq<u8>) -> bool {
    let ps = split_at(s, 10);
    forall|q: int|
        0 <= q < ps.len() ==> (line_ok(#[trigger] ps[q]) || (q == ps.len() - 1 && ps[q].len()
            == 0))
}

/// How many records a well-formed index file holds.
pub open spec fn fai_rec_count(s: Seq<u8>) -> int {
    let ps = split_at(s, 10);
    if ps.last().len() == 0 {
        ps.len() - 1
    } else {
        ps.len() as int
    }
}

/// Reads a whole index file back. `None` reports a corrupt file; a
/// partial result is never returned.
pub fn parse_fai(content: &[u8]) -> (r: Option<Vec<IndexRecord>>)
    ensures
        r is Some <==> fai_ok(content@),
        r matches Some(v) ==> v@.len() == fai_rec_count(content@) && forall|q: int|
            0 <= q < v@.len() ==> rec_matches_line(#[trigger] v@[q], split_at(content@, 10)[q]),
{
    let ghost ps = split_at(content@, 10);
    let mut recs: Vec<IndexRecord> = Vec::new();
    let mut from: usize = 0;
    proof {
        assert(content@.skip(0) =~= content@);
        assert(ps.skip(0) =~= ps);
    }
    while from < content.len()
        invariant
            0 <= from <= content@.len(),
            ps == split_at(content@, 10),
            recs@.len() <= ps.len(),
            split_at(content@.skip(from as int), 10) =~= ps.skip(recs@.len() as int),
            forall|q: int| 0 <= q < recs@.len() ==> line_ok(#[trigger] ps[q]),
            forall|q: int|
                0 <= q < recs@.len() ==> rec_matches_line(#[trigger] recs@[q], ps[q]),
        decreases content@.len() - from,
    {
        let ghost qi = recs@.len() as int;
        let ghost sq = content@.skip(from as int);
        let (line, nl) = take_piece(content, from, 10);
        proof {
            assert(line@ =~= sq.take(nl - from)) by {
                assert(line@ =~= content@.subrange(from as int, nl as int));
            }
        }
        let rec_opt = parse_index_line(line.as_slice());
        if nl == content.len() {
            proof {
                assert(first_pos(sq, 10) == sq.len());
                assert(split_at(sq, 10) =~= seq![sq]);
                assert(ps.skip(qi) =~= seq![sq]);
                assert(qi == ps.len() - 1);
                assert(ps.skip(qi)[0] == ps[qi]);
                assert(ps[qi] == sq);
                assert(line@ =~= sq);
                assert(sq.len() > 0);
            }
            match rec_opt {
                Some(rec) => {
                    recs.push(rec);
                    proof {
                        assert(fai_ok(content@));
                        assert(fai_rec_count(content@) == ps.len());
                    }
                    return Some(recs);
                },
                None => {
                    proof {
                        assert(!line_ok(ps[qi]));
                        assert(!fai_ok(content@));
                    }
                    return None;
                },
            }
        } else {
            let ghost snext = content@.skip(nl + 1);
            proof {
                assert(first_pos(sq, 10) == nl - from);
                assert(snext =~= sq.skip(nl + 1 - from));
                assert(split_at(sq, 10) =~= seq![line@].add(split_at(snext, 10)));
                assert(ps.skip(qi) =~= seq![line@].add(split_at(snext, 10)));
                lemma_split_at_len(snext, 10);
                assert(ps.skip(qi).len() == ps.len() - qi);
                assert(ps.skip(qi).len() >= 2);
                assert(qi + 2 <= ps.len());
                assert(ps.skip(qi)[0] == ps[qi]);
                assert(ps[qi] == line@);
                assert forall|m: int| 0 <= m < ps.len() - qi - 1 implies ps.skip(qi + 1)[m]
                    == split_at(snext, 10)[m] by {
                    assert(ps.skip(qi + 1)[m] == ps[qi + 1 + m]);
                    assert(ps.skip(qi)[m + 1] == ps[qi + 1 + m]);
                }
                assert(split_at(snext, 10) =~= ps.skip(qi + 1));
            }
            match rec_opt {
                Some(rec) => {
                    recs.push(rec);
                    from = nl + 1;
                },
                None => {
                    proof {
                        assert(!line_ok(ps[qi]));
                        assert(!fai_ok(content@));
                    }
                    return None;
                },
            }
        }
    }
    proof {
        let sq = content@.skip(from as int);
        assert(sq =~= Seq::<u8>::empty());
        assert(first_pos(sq, 10) == 0 == sq.len());
        assert(split_at(sq, 10) =~= seq![sq]);
        assert(ps.skip(recs@.len() as int) =~= seq![sq]);
        assert(recs@.len() == ps.len() - 1);
        assert(ps.skip(recs@.len() as int)[0] == ps[recs@.len() as int]);
        assert(ps.last().len() == 0);
        assert(fai_ok(content@));
        assert(fai_rec_count(content@) == ps.len() - 1);
    }
    Some(recs)
}

} // verus!
