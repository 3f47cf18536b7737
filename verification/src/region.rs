//! Region expressions.
//!
//! A region selects a named sequence and an optional sub-range, written in
//! author coordinates: positive positions are 1-based from the start of the
//! sequence, negative positions are 1-based from its end (`-1` is the last
//! base), and `0` stands for the natural boundary. The expression grammar,
//! tried in this order against the text after the last `:` of the string,
//! is
//!
//! ```text
//! coord := signed '-' signed      (explicit range)
//!        | unsigned               (single position)
//!        | signed '-'             (open end)
//!        | '-' signed             (open start: the '-' is a literal token,
//!                                  so `x:-5` means start 1, end 5, and
//!                                  `x:--5` means start 1, end -5)
//! signed := '-'? digit+
//! ```
//!
//! and a string whose tail matches no rule (or that has no `:` preceded by
//! at least one character) names a whole sequence: start 1, end -1.

use vstd::prelude::*;

use crate::bytes::copy_range;
use crate::digits::{
    digit_run_end, digit_run_end_exec, digits_val, is_digit, is_signed_exec, is_signed_numeral,
    is_unsigned_exec, is_unsigned_numeral, numeral_val, parse_u64_digits,
};

verus! {

/// Index of the last `:` in `s`, or `-1` when there is none.
pub open spec fn last_colon(s: Seq<u8>) -> int
    decreases s.len(),
{
    if s.len() == 0 {
        -1
    } else if s.last() == 58u8 {
        s.len() - 1
    } else {
        last_colon(s.drop_last())
    }
}

/// 1 when the coordinate text starts with a sign, else 0.
pub open spec fn sign_ofs(c: Seq<u8>) -> int {
    if c.len() > 0 && c[0] == 45u8 {
        1int
    } else {
        0int
    }
}

/// Where the first numeral of an explicit range ends: the first numeral is
/// the maximal digit run after the optional sign.
pub open spec fn full_split(c: Seq<u8>) -> int {
    digit_run_end(c, sign_ofs(c))
}

/// `signed '-' signed`.
pub open spec fn full_range_match(c: Seq<u8>) -> bool {
    let j = full_split(c);
    sign_ofs(c) < j && j < c.len() && c[j] == 45u8 && is_signed_numeral(c.skip(j + 1))
}

/// `signed '-'`.
pub open spec fn open_end_match(c: Seq<u8>) -> bool {
    c.len() > 0 && c.last() == 45u8 && is_signed_numeral(c.drop_last())
}

/// `'-' signed`.
pub open spec fn open_start_match(c: Seq<u8>) -> bool {
    c.len() > 0 && c[0] == 45u8 && is_signed_numeral(c.skip(1))
}

pub open spec fn coord_matches(c: Seq<u8>) -> bool {
    ||| full_range_match(c)
    ||| is_unsigned_numeral(c)
    ||| open_end_match(c)
    ||| open_start_match(c)
}

/// The author start coordinate the coordinate text denotes, by the first
/// grammar rule that matches.
pub open spec fn coord_start(c: Seq<u8>) -> int {
    if full_range_match(c) {
        numeral_val(c.take(full_split(c)))
    } else if is_unsigned_numeral(c) {
        digits_val(c)
    } else if open_end_match(c) {
        numeral_val(c.drop_last())
    } else {
        1
    }
}

/// The author end coordinate the coordinate text denotes.
pub open spec fn coord_end(c: Seq<u8>) -> int {
    if full_range_match(c) {
        numeral_val(c.skip(full_split(c) + 1))
    } else if is_unsigned_numeral(c) {
        digits_val(c)
    } else if open_end_match(c) {
        -1
    } else if open_start_match(c) {
        numeral_val(c.skip(1))
    } else {
        -1
    }
}

/// Whether the expression splits into a name and a matching coordinate
/// text. The name may itself contain `:`; a coordinate never does, so only
/// the last `:` can separate the two, and the name must not be empty.
pub open spec fn region_splits(s: Seq<u8>) -> bool {
    last_colon(s) >= 1 && coord_matches(s.skip(last_colon(s) + 1))
}

pub open spec fn region_name(s: Seq<u8>) -> Seq<u8> {
    if region_splits(s) {
        s.take(last_colon(s))
    } else {
        s
    }
}

pub open spec fn region_start(s: Seq<u8>) -> int {
    if region_splits(s) {
        coord_start(s.skip(last_colon(s) + 1))
    } else {
        1
    }
}

pub open spec fn region_end(s: Seq<u8>) -> int {
    if region_splits(s) {
        coord_end(s.skip(last_colon(s) + 1))
    } else {
        -1
    }
}

/// Both denoted coordinates fit the machine's signed word.
pub open spec fn region_fits(s: Seq<u8>) -> bool {
    &&& isize::MIN <= region_start(s) <= isize::MAX
    &&& isize::MIN <= region_end(s) <= isize::MAX
}

/// A coordinate after normalization: `v` itself when positive, the given
/// default when 0, and `length + v + 1` when negative.
pub open spec fn positive_bound(v: int, zero_case: int, length: int) -> int {
    if v > 0 {
        v
    } else if v == 0 {
        zero_case
    } else {
        length + v + 1
    }
}

/// Normalization is idempotent: a coordinate already resolved to a
/// positive position resolves to itself.
pub proof fn lemma_normalization_idempotent(v: int, zero_case: int, length: int)
    requires
        positive_bound(v, zero_case, length) >= 1,
    ensures
        positive_bound(positive_bound(v, zero_case, length), zero_case, length) == positive_bound(
            v,
            zero_case,
            length,
        ),
{
}

/// A region in author coordinates.
#[derive(Debug)]
pub struct ExprRegion {
    pub name: Vec<u8>,
    pub start: isize,
    pub end: isize,
}

/// A region with both bounds resolved to positive 1-based inclusive
/// positions, checked against a concrete sequence length.
#[derive(Debug)]
pub struct NormalizedRegion {
    pub name: Vec<u8>,
    pub start: u64,
    pub end: u64,
}

impl NormalizedRegion {
    pub open spec fn wf(&self) -> bool {
        1 <= self.start <= self.end
    }

    pub open spec fn valid_for(&self, seq_len: u64) -> bool {
        self.wf() && self.end <= seq_len
    }

    /// Accepts a positive region exactly when it lies within a sequence of
    /// `seq_len` bases: `1 <= start <= end <= seq_len`.
    pub fn checked(region: ExprRegion, seq_len: u64) -> (r: Option<NormalizedRegion>)
        ensures
            r is Some <==> 1 <= region.start <= region.end && region.end <= seq_len,
            r matches Some(g) ==> g.name@ == region.name@ && g.start == region.start && g.end
                == region.end && g.valid_for(seq_len),
    {
        if region.start >= 1 && region.end >= region.start && region.end as u64 <= seq_len {
            Some(
                NormalizedRegion {
                    name: region.name,
                    start: region.start as u64,
                    end: region.end as u64,
                },
            )
        } else {
            None
        }
    }

    /// The 0-based half-open byte/base range `[start - 1, end)` that the
    /// 1-based inclusive region stands for.
    pub fn zero_based(&self) -> (r: (u64, u64))
        requires
            self.wf(),
        ensures
            r.0 == self.start - 1,
            r.1 == self.end,
    {
        (self.start - 1, self.end)
    }
}

/// Reads a signed numeral as an `isize`.
///
/// `None` reports that the denoted value does not fit, the one way a
/// grammatically valid expression can be refused.
fn parse_isize(c: &[u8]) -> (r: Option<isize>)
    requires
        is_signed_numeral(c@),
    ensures
        r is Some <==> isize::MIN <= numeral_val(c@) <= isize::MAX,
        r matches Some(v) ==> v == numeral_val(c@),
{
    let neg = c[0] == 45;
    let mag = if neg {
        copy_range(c, 1, c.len())
    } else {
        copy_range(c, 0, c.len())
    };
    proof {
        if neg {
            assert(mag@ =~= c@.skip(1));
        } else {
            assert(mag@ =~= c@);
        }
    }
    match parse_u64_digits(mag.as_slice()) {
        None => {
            proof {
                assert(isize::MAX as u64 <= u64::MAX);
            }
            None
        },
        Some(m) => {
            if !neg {
                if m <= isize::MAX as u64 {
                    Some(m as isize)
                } else {
                    None
                }
            } else {
                if m <= isize::MAX as u64 {
                    Some(-(m as isize))
                } else if m == (isize::MAX as u64) + 1 {
                    proof {
                        assert(isize::MIN == -(isize::MAX as int) - 1);
                    }
                    Some(isize::MIN)
                } else {
                    None
                }
            }
        },
    }
}

/// Scans `s` for its last `:`.
fn find_last_colon(s: &[u8]) -> (r: Option<usize>)
    ensures
        r matches Some(i) ==> i < s@.len() && last_colon(s@) == i,
        r is None ==> last_colon(s@) == -1,
{
    let mut best: Option<usize> = None;
    let mut i: usize = 0;
    while i < s.len()
        invariant
            0 <= i <= s@.len(),
            match best {
                Some(b) => b < i && last_colon(s@.take(i as int)) == b,
                None => last_colon(s@.take(i as int)) == -1,
            },
        decreases s@.len() - i,
    {
        proof {
            assert(s@.take(i + 1).drop_last() =~= s@.take(i as int));
            assert(s@.take(i + 1).last() == s@[i as int]);
        }
        if s[i] == 58 {
            best = Some(i);
        }
        i = i + 1;
    }
    proof {
        assert(s@.take(s@.len() as int) =~= s@);
    }
    best
}

impl ExprRegion {
    /// Reads a region expression.
    ///
    /// The result carries the name and the author coordinates that the
    /// grammar above assigns to `expr`; a string that matches no rule names
    /// a whole sequence. `None` reports a coordinate too large for the
    /// machine word.
    pub fn parse(expr: &[u8]) -> (r: Option<ExprRegion>)
        ensures
            r is Some <==> region_fits(expr@),
            r matches Some(g) ==> g.name@ == region_name(expr@) && g.start == region_start(expr@)
                && g.end == region_end(expr@),
    {
        let ghost s = expr@;
        let n = expr.len();
        let colon = find_last_colon(expr);
        if let Some(i) = colon {
            if i >= 1 {
                let c = copy_range(expr, i + 1, n);
                proof {
                    assert(c@ =~= s.skip(i + 1));
                }
                if c.len() > 0 {
                    // Explicit range: signed '-' signed.
                    let k: usize = if c[0] == 45 {
                        1
                    } else {
                        0
                    };
                    let j = digit_run_end_exec(c.as_slice(), k);
                    if k < j && j < c.len() && c[j] == 45 {
                        let tail = copy_range(c.as_slice(), j + 1, c.len());
                        proof {
                            assert(tail@ =~= c@.skip(j + 1));
                        }
                        if is_signed_exec(tail.as_slice()) {
                            assert(full_range_match(c@));
                            let head = copy_range(c.as_slice(), 0, j);
                            proof {
                                assert(head@ =~= c@.take(j as int));
                                if k == 1 {
                                    assert(head@.skip(1) =~= c@.subrange(1, j as int));
                                    assert(is_unsigned_numeral(head@.skip(1)));
                                }
                                assert(is_signed_numeral(head@));
                            }
                            let name = copy_range(expr, 0, i);
                            proof {
                                assert(name@ =~= s.take(i as int));
                            }
                            return match (
                                parse_isize(head.as_slice()),
                                parse_isize(tail.as_slice()),
                            ) {
                                (Some(a), Some(b)) => Some(ExprRegion { name, start: a, end: b }),
                                _ => None,
                            };
                        }
                    }
                    // Single position: unsigned.
                    if is_unsigned_exec(c.as_slice()) {
                        let name = copy_range(expr, 0, i);
                        proof {
                            assert(name@ =~= s.take(i as int));
                        }
                        return match parse_isize(c.as_slice()) {
                            Some(a) => Some(ExprRegion { name, start: a, end: a }),
                            None => None,
                        };
                    }
                    // Open end: signed '-'.
                    if c[c.len() - 1] == 45 {
                        let head = copy_range(c.as_slice(), 0, c.len() - 1);
                        proof {
                            assert(head@ =~= c@.drop_last());
                        }
                        if is_signed_exec(head.as_slice()) {
                            let name = copy_range(expr, 0, i);
                            proof {
                                assert(name@ =~= s.take(i as int));
                            }
                            return match parse_isize(head.as_slice()) {
                                Some(a) => Some(ExprRegion { name, start: a, end: -1 }),
                                None => None,
                            };
                        }
                    }
                    // Open start: '-' signed.
                    if c[0] == 45 {
                        let tail = copy_range(c.as_slice(), 1, c.len());
                        proof {
                            assert(tail@ =~= c@.skip(1));
                        }
                        if is_signed_exec(tail.as_slice()) {
                            let name = copy_range(expr, 0, i);
                            proof {
                                assert(name@ =~= s.take(i as int));
                            }
                            return match parse_isize(tail.as_slice()) {
                                Some(b) => Some(ExprRegion { name, start: 1, end: b }),
                                None => None,
                            };
                        }
                    }
                }
            }
        }
        // Fallback: the whole string is a sequence name.
        let name = copy_range(expr, 0, n);
        proof {
            assert(name@ =~= s);
            assert(isize::MIN <= 1 <= isize::MAX);
            assert(isize::MIN <= -1 <= isize::MAX);
        }
        Some(ExprRegion { name, start: 1, end: -1 })
    }

    /// Resolves author coordinates against a concrete length: positive
    /// values stay, `0` becomes the natural boundary (1 for the start, the
    /// length for the end), and a negative value `v` becomes
    /// `length + v + 1`. A range whose resolved start exceeds its resolved
    /// end is refused, not reordered.
    pub fn positive_region(name: Vec<u8>, start: isize, end: isize, length: u64) -> (r: Option<
        ExprRegion,
    >)
        requires
            length <= isize::MAX as u64,
        ensures
            r is Some <==> positive_bound(start as int, 1, length as int) <= positive_bound(
                end as int,
                length as int,
                length as int,
            ),
            r matches Some(g) ==> ({
                &&& g.name@ == name@
                &&& g.start == positive_bound(start as int, 1, length as int)
                &&& g.end == positive_bound(end as int, length as int, length as int)
            }),
    {
        let len_i = length as isize;
        let positive_start = if start > 0 {
            start
        } else if start == 0 {
            1
        } else {
            len_i + start + 1
        };
        let positive_end = if end > 0 {
            end
        } else if end == 0 {
            len_i
        } else {
            len_i + end + 1
        };
        if positive_start <= positive_end {
            Some(ExprRegion { name, start: positive_start, end: positive_end })
        } else {
            None
        }
    }
}

} // verus!
