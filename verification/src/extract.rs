//! Extraction: an index record plus a normalized region select the bytes
//! of a subsequence, each region independently of the others.

use vstd::prelude::*;

use crate::bytes::{bytes_eq, first_pos, lemma_first_pos_unique};
use crate::fasta_out::body_of;
use crate::index::IndexRecord;
use crate::region::{
    positive_bound, region_end, region_fits, region_name, region_start, ExprRegion,
    NormalizedRegion,
};
use vstd::arithmetic::div_mod::lemma_fundamental_div_mod_converse;

verus! {

/// Why one region of a batch was skipped.
#[derive(Debug, Clone, Copy, PartialEq, Eq, Structural)]
pub enum RegionError {
    /// A coordinate in the expression does not fit the signed machine
    /// word.
    BadNumeral,
    /// The index has no record under the requested name.
    UnknownSequence,
    /// The record's base count does not fit the signed machine word, so
    /// coordinates cannot be resolved against it.
    LengthOverflow,
    /// The resolved start exceeds the resolved end: an inverted range is
    /// refused, not reordered.
    InvalidRegion,
    /// The resolved range leaves `[1, seq_len]`.
    OutOfRange,
    /// The index disagrees with the file: a record's geometry is
    /// degenerate, or a base position computed from it lies past the end
    /// of the file.
    StaleIndex,
}

/// Index of the last record named `name`, or `-1`: when a name appears
/// twice, the later record wins.
pub open spec fn last_match(records: Seq<IndexRecord>, name: Seq<u8>) -> int
    decreases records.len(),
{
    if records.len() == 0 {
        -1
    } else if records.last().name@ == name {
        records.len() - 1
    } else {
        last_match(records.drop_last(), name)
    }
}

/// What the last match is: the record it points at carries the name, and
/// no later record does — duplicate names resolve to the last write.
pub proof fn lemma_last_match(records: Seq<IndexRecord>, name: Seq<u8>)
    ensures
        -1 <= last_match(records, name) < records.len(),
        last_match(records, name) >= 0 ==> records[last_match(records, name)].name@ == name,
        forall|j: int|
            last_match(records, name) < j < records.len() ==> records[j].name@ != name,
    decreases records.len(),
{
    if records.len() > 0 && records.last().name@ != name {
        lemma_last_match(records.drop_last(), name);
        let i = last_match(records, name);
        assert forall|j: int| i < j < records.len() implies records[j].name@ != name by {
            if j < records.len() - 1 {
                assert(records.drop_last()[j] == records[j]);
            }
        }
        if i >= 0 {
            assert(records.drop_last()[i] == records[i]);
        }
    }
}

/// Scans the index for `name`; the last record under that name wins.
pub fn lookup(records: &Vec<IndexRecord>, name: &[u8]) -> (r: Option<usize>)
    ensures
        r matches Some(i) ==> 0 <= i < records@.len() && last_match(records@, name@) == i,
        r is None ==> last_match(records@, name@) == -1,
{
    let mut i = records.len();
    proof {
        assert(records@.take(records@.len() as int) =~= records@);
    }
    while i > 0
        invariant
            0 <= i <= records@.len(),
            last_match(records@, name@) == last_match(records@.take(i as int), name@),
        decreases i,
    {
        i = i - 1;
        proof {
            assert(records@.take(i + 1).drop_last() =~= records@.take(i as int));
            assert(records@.take(i + 1).last() == records@[i as int]);
        }
        if bytes_eq(records[i].name.as_slice(), name) {
            return Some(i);
        }
    }
    None
}

/// The byte position of base `i` (0-based) of a record: whole lines of
/// `line_bytes` bytes, then the remainder within the line.
pub open spec fn rec_base_pos(rec: IndexRecord, i: int) -> int
    recommends
        rec.line_bases >= 1,
{
    rec.byte_offset + (i / (rec.line_bases as int)) * (rec.line_bytes as int) + (i % (
    rec.line_bases as int))
}

/// All base positions of `[start, end]` (1-based, inclusive) fall inside
/// the file.
pub open spec fn positions_ok(file: Seq<u8>, rec: IndexRecord, start: int, end: int) -> bool {
    forall|i: int| start - 1 <= i < end ==> rec_base_pos(rec, i) < file.len()
}

/// The bytes of the region `[start, end]` (1-based, inclusive), read at
/// the positions the record's geometry assigns.
pub open spec fn region_bytes(file: Seq<u8>, rec: IndexRecord, start: int, end: int) -> Seq<u8> {
    Seq::new((end + 1 - start) as nat, |k: int| file[rec_base_pos(rec, start - 1 + k)])
}

/// Reads the bases of a normalized region out of the indexed file's
/// bytes.
///
/// Returns exactly `end - start + 1` bytes; `None` reports a record that
/// does not fit the file (a stale or corrupt index) or a range past the
/// record's base count.
pub fn read_region(file: &[u8], rec: &IndexRecord, region: &NormalizedRegion) -> (r: Option<
    Vec<u8>,
>)
    requires
        region.wf(),
    ensures
        r is Some <==> rec.line_bases >= 1 && region.end <= rec.seq_len && positions_ok(
            file@,
            *rec,
            region.start as int,
            region.end as int,
        ),
        r matches Some(v) ==> v@ == region_bytes(
            file@,
            *rec,
            region.start as int,
            region.end as int,
        ) && v@.len() == region.end - region.start + 1,
{
    if rec.line_bases == 0 {
        return None;
    }
    if region.end > rec.seq_len {
        return None;
    }
    let count: u64 = region.end - region.start + 1;
    let mut out: Vec<u8> = Vec::new();
    let mut k: u64 = 0;
    while k < count
        invariant
            region.wf(),
            rec.line_bases >= 1,
            count == region.end - region.start + 1,
            0 <= k <= count,
            out@.len() == k,
            forall|i: int|
                region.start - 1 <= i < region.start - 1 + k ==> #[trigger] rec_base_pos(
                    *rec,
                    i,
                ) < file@.len(),
            forall|m: int|
                0 <= m < k ==> #[trigger] out@[m] == file@[rec_base_pos(
                    *rec,
                    region.start - 1 + m,
                )],
        decreases count - k,
    {
        let i: u64 = region.start - 1 + k;
        let q: u64 = i / rec.line_bases;
        let rem: u64 = i % rec.line_bases;
        proof {
            assert((q as u128) * (rec.line_bytes as u128) <= (u64::MAX as u128) * (
            u64::MAX as u128)) by (nonlinear_arith)
                requires
                    q <= u64::MAX,
                    rec.line_bytes <= u64::MAX,
            {}
        }
        let pos: u128 = (rec.byte_offset as u128) + (q as u128) * (rec.line_bytes as u128) + (
        rem as u128);
        if pos >= file.len() as u128 {
            proof {
                assert(rec_base_pos(*rec, i as int) >= file@.len());
            }
            return None;
        }
        out.push(file[pos as usize]);
        k = k + 1;
    }
    proof {
        assert(out@ =~= region_bytes(file@, *rec, region.start as int, region.end as int));
    }
    Some(out)
}

/// What extracting one region expression against an index and a file
/// yields: the selected bytes, or the reason the region is skipped.
pub open spec fn extract_region_spec(
    records: Seq<IndexRecord>,
    file: Seq<u8>,
    expr: Seq<u8>,
) -> Result<Seq<u8>, RegionError> {
    if !region_fits(expr) {
        Result::Err(RegionError::BadNumeral)
    } else {
        let li = last_match(records, region_name(expr));
        if li < 0 {
            Result::Err(RegionError::UnknownSequence)
        } else {
            let rec = records[li];
            if rec.seq_len > isize::MAX {
                Result::Err(RegionError::LengthOverflow)
            } else {
                let ps = positive_bound(region_start(expr), 1, rec.seq_len as int);
                let pe = positive_bound(region_end(expr), rec.seq_len as int, rec.seq_len as int);
                if ps > pe {
                    Result::Err(RegionError::InvalidRegion)
                } else if ps < 1 || pe > rec.seq_len {
                    Result::Err(RegionError::OutOfRange)
                } else if rec.line_bases < 1 || !positions_ok(file, rec, ps, pe) {
                    Result::Err(RegionError::StaleIndex)
                } else {
                    Result::Ok(region_bytes(file, rec, ps, pe))
                }
            }
        }
    }
}

/// The executable result agrees with the specified one.
pub open spec fn res_matches(
    r: Result<Vec<u8>, RegionError>,
    s: Result<Seq<u8>, RegionError>,
) -> bool {
    match (r, s) {
        (Result::Ok(v), Result::Ok(sv)) => v@ == sv,
        (Result::Err(e), Result::Err(se)) => e == se,
        _ => false,
    }
}

/// Resolves one region expression against the index and extracts its
/// bytes from the file.
pub fn extract_region(records: &Vec<IndexRecord>, file: &[u8], expr: &[u8]) -> (r: Result<
    Vec<u8>,
    RegionError,
>)
    ensures
        res_matches(r, extract_region_spec(records@, file@, expr@)),
{
    let reg = match ExprRegion::parse(expr) {
        Some(g) => g,
        None => {
            return Result::Err(RegionError::BadNumeral);
        },
    };
    let li = match lookup(records, reg.name.as_slice()) {
        Some(i) => i,
        None => {
            return Result::Err(RegionError::UnknownSequence);
        },
    };
    let seq_len = records[li].seq_len;
    if seq_len > isize::MAX as u64 {
        return Result::Err(RegionError::LengthOverflow);
    }
    let pos = match ExprRegion::positive_region(reg.name, reg.start, reg.end, seq_len) {
        Some(p) => p,
        None => {
            return Result::Err(RegionError::InvalidRegion);
        },
    };
    let norm = match NormalizedRegion::checked(pos, seq_len) {
        Some(nr) => nr,
        None => {
            return Result::Err(RegionError::OutOfRange);
        },
    };
    match read_region(file, &records[li], &norm) {
        Some(v) => Result::Ok(v),
        None => Result::Err(RegionError::StaleIndex),
    }
}

/// Extracts a batch of regions, each independently: one failed region
/// does not disturb the others.
pub fn extract(records: &Vec<IndexRecord>, file: &[u8], regions: &Vec<Vec<u8>>) -> (out: Vec<
    Result<Vec<u8>, RegionError>,
>)
    ensures
        out@.len() == regions@.len(),
        forall|i: int|
            0 <= i < regions@.len() ==> res_matches(
                #[trigger] out@[i],
                extract_region_spec(records@, file@, regions@[i]@),
            ),
{
    let mut out: Vec<Result<Vec<u8>, RegionError>> = Vec::new();
    let mut j: usize = 0;
    while j < regions.len()
        invariant
            0 <= j <= regions@.len(),
            out@.len() == j,
            forall|i: int|
                0 <= i < j ==> res_matches(
                    #[trigger] out@[i],
                    extract_region_spec(records@, file@, regions@[i]@),
                ),
        decreases regions@.len() - j,
    {
        let r = extract_region(records, file, regions[j].as_slice());
        out.push(r);
        j = j + 1;
    }
    out
}

/// Sequence data holds no line terminator of its own.
pub open spec fn no_newline(s: Seq<u8>) -> bool {
    forall|i: int| 0 <= i < s.len() ==> s[i] != 10
}

/// The first line terminator of a wrapped body sits right after the
/// first line: at `w` when the sequence wraps, else at its end.
pub proof fn lemma_body_first_pos(seq_bytes: Seq<u8>, w: int)
    requires
        w >= 1,
        no_newline(seq_bytes),
    ensures
        first_pos(body_of(seq_bytes, w), 10) == if seq_bytes.len() <= w {
            seq_bytes.len() as int
        } else {
            w
        },
{
    let body = body_of(seq_bytes, w);
    if seq_bytes.len() <= w {
        lemma_first_pos_unique(body, 10, seq_bytes.len() as int);
    } else {
        assert(body[w] == 10);
        assert(forall|j: int| 0 <= j < w ==> body[j] == seq_bytes[j]);
        lemma_first_pos_unique(body, 10, w);
    }
}

/// Base `i` of the sequence sits at position `(i / lb) * (lb + 1) + i % lb`
/// of the wrapped body, where `lb` is the width of the body's first line.
pub proof fn lemma_body_index(seq_bytes: Seq<u8>, w: int, i: int)
    requires
        w >= 1,
        0 <= i < seq_bytes.len(),
    ensures
        ({
            let lb = if seq_bytes.len() <= w {
                seq_bytes.len() as int
            } else {
                w
            };
            let p = (i / lb) * (lb + 1) + (i % lb);
            p < body_of(seq_bytes, w).len() && body_of(seq_bytes, w)[p] == seq_bytes[i]
        }),
    decreases seq_bytes.len(),
{
    let lb = if seq_bytes.len() <= w {
        seq_bytes.len() as int
    } else {
        w
    };
    let body = body_of(seq_bytes, w);
    if seq_bytes.len() <= w {
        lemma_fundamental_div_mod_converse(i, lb, 0, i);
    } else {
        if i < w {
            lemma_fundamental_div_mod_converse(i, w, 0, i);
        } else {
            let rest = seq_bytes.skip(w);
            let i2 = i - w;
            let lb2 = if rest.len() <= w {
                rest.len() as int
            } else {
                w
            };
            lemma_body_index(rest, w, i2);
            let p2 = (i2 / lb2) * (lb2 + 1) + (i2 % lb2);
            if rest.len() <= w {
                lemma_fundamental_div_mod_converse(i2, lb2, 0, i2);
                assert(p2 == i2);
                lemma_fundamental_div_mod_converse(i, w, 1, i2);
                assert((i / w) * (w + 1) + (i % w) == (w + 1) + p2) by (nonlinear_arith)
                    requires
                        i / w == 1,
                        i % w == i2,
                        p2 == i2,
                {}
            } else {
                vstd::arithmetic::div_mod::lemma_fundamental_div_mod(i2, w);
                assert(0 <= i2 % w < w);
                assert(i == (i2 / w + 1) * w + i2 % w) by (nonlinear_arith)
                    requires
                        i2 == w * (i2 / w) + (i2 % w),
                        i == i2 + w,
                {}
                lemma_fundamental_div_mod_converse(i, w, i2 / w + 1, i2 % w);
                assert((i / w) * (w + 1) + (i % w) == (w + 1) + p2) by (nonlinear_arith)
                    requires
                        i / w == i2 / w + 1,
                        i % w == i2 % w,
                        p2 == (i2 / w) * (w + 1) + (i2 % w),
                {}
            }
            let p = (i / w) * (w + 1) + (i % w);
            assert(p == (w + 1) + p2);
            assert(body[p] == body_of(rest, w)[p2]);
        }
    }
}

/// The byte offset of a record is the file position of its first base:
/// reading `seq_len` bases from `byte_offset`, skipping one terminator
/// after every `line_bases` bases, reproduces the sequence exactly.
///
/// `rec` is what the builder emits for a sequence whose on-disk body,
/// wrapped at width `w`, the file holds at `byte_offset`.
pub proof fn lemma_byte_offset_round_trip(
    file: Seq<u8>,
    seq_bytes: Seq<u8>,
    w: int,
    rec: IndexRecord,
)
    requires
        w >= 1,
        1 <= seq_bytes.len(),
        no_newline(seq_bytes),
        rec.seq_len == seq_bytes.len(),
        rec.line_bases == first_pos(body_of(seq_bytes, w), 10),
        rec.line_bytes == rec.line_bases + 1,
        rec.byte_offset + body_of(seq_bytes, w).len() <= file.len(),
        file.subrange(
            rec.byte_offset as int,
            rec.byte_offset + body_of(seq_bytes, w).len(),
        ) == body_of(seq_bytes, w),
    ensures
        rec.line_bases >= 1,
        positions_ok(file, rec, 1, rec.seq_len as int),
        region_bytes(file, rec, 1, rec.seq_len as int) == seq_bytes,
{
    lemma_body_first_pos(seq_bytes, w);
    let lb = if seq_bytes.len() <= w {
        seq_bytes.len() as int
    } else {
        w
    };
    assert(rec.line_bases == lb);
    let body = body_of(seq_bytes, w);
    let off = rec.byte_offset as int;
    assert forall|i: int| 0 <= i < seq_bytes.len() implies #[trigger] rec_base_pos(rec, i)
        < file.len() && file[rec_base_pos(rec, i)] == seq_bytes[i] by {
        lemma_body_index(seq_bytes, w, i);
        let p = (i / lb) * (lb + 1) + (i % lb);
        assert(rec_base_pos(rec, i) == off + p);
        assert(file.subrange(off, off + body.len())[p] == file[off + p]);
    }
    assert(region_bytes(file, rec, 1, rec.seq_len as int) =~= seq_bytes);
}

} // verus!
