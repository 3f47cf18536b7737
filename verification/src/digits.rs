//! Decimal numerals over bytes: what a run of ASCII digits denotes, and
//! executable conversions between integers and their decimal spellings.

use vstd::prelude::*;

verus! {

/// ASCII digit.
pub open spec fn is_digit(b: u8) -> bool {
    48 <= b <= 57
}

pub open spec fn all_digits(s: Seq<u8>) -> bool {
    forall|i: int| 0 <= i < s.len() ==> is_digit(s[i])
}

/// A non-empty run of digits: `digit+` in the region grammar.
pub open spec fn is_unsigned_numeral(s: Seq<u8>) -> bool {
    s.len() > 0 && all_digits(s)
}

/// `'-'? digit+` in the region grammar.
pub open spec fn is_signed_numeral(s: Seq<u8>) -> bool {
    if s.len() > 0 && s[0] == 45u8 {
        is_unsigned_numeral(s.skip(1))
    } else {
        is_unsigned_numeral(s)
    }
}

/// Index of the first non-digit at or after `k`, or `s.len()`.
pub open spec fn digit_run_end(s: Seq<u8>, k: int) -> int
    recommends
        0 <= k <= s.len(),
    decreases s.len() - k,
{
    if k < s.len() && is_digit(s[k]) {
        digit_run_end(s, k + 1)
    } else {
        k
    }
}

/// The value a run of digits denotes, most significant first.
pub open spec fn digits_val(s: Seq<u8>) -> int
    decreases s.len(),
{
    if s.len() == 0 {
        0
    } else {
        digits_val(s.drop_last()) * 10 + (s.last() - 48)
    }
}

/// The value a signed numeral denotes.
pub open spec fn numeral_val(s: Seq<u8>) -> int {
    if s.len() > 0 && s[0] == 45u8 {
        -digits_val(s.skip(1))
    } else {
        digits_val(s)
    }
}

/// The decimal spelling of `n`, without sign or leading zeros.
pub open spec fn dec_rep(n: nat) -> Seq<u8>
    decreases n,
{
    if n < 10 {
        seq![(48 + n) as u8]
    } else {
        dec_rep(n / 10).push((48 + n % 10) as u8)
    }
}

pub proof fn lemma_digits_val_nonneg(s: Seq<u8>)
    requires
        all_digits(s),
    ensures
        digits_val(s) >= 0,
    decreases s.len(),
{
    if s.len() > 0 {
        assert(all_digits(s.drop_last()));
        lemma_digits_val_nonneg(s.drop_last());
    }
}

/// Appending digits never shrinks the value: the value of a prefix bounds
/// the value of the whole run from below.
pub proof fn lemma_digits_val_prefix_le(s: Seq<u8>, i: int, j: int)
    requires
        all_digits(s),
        0 <= i <= j <= s.len(),
    ensures
        digits_val(s.take(i)) <= digits_val(s.take(j)),
    decreases j - i,
{
    if i < j {
        lemma_digits_val_prefix_le(s, i, j - 1);
        let p = s.take(j);
        assert(p.drop_last() =~= s.take(j - 1));
        assert(all_digits(s.take(j - 1)));
        lemma_digits_val_nonneg(s.take(j - 1));
        assert(digits_val(s.take(j - 1)) * 10 >= digits_val(s.take(j - 1))) by {
            lemma_digits_val_nonneg(s.take(j - 1));
        }
    }
}

/// Scans a digit run: returns the index of the first non-digit at or after
/// `k`.
pub fn digit_run_end_exec(s: &[u8], k: usize) -> (j: usize)
    requires
        k <= s@.len(),
    ensures
        j == digit_run_end(s@, k as int),
        k <= j <= s@.len(),
        forall|m: int| k <= m < j ==> is_digit(s@[m]),
        j < s@.len() ==> !is_digit(s@[j as int]),
{
    let mut j = k;
    while j < s.len() && 48 <= s[j] && s[j] <= 57
        invariant
            k <= j <= s@.len(),
            digit_run_end(s@, k as int) == digit_run_end(s@, j as int),
            forall|m: int| k <= m < j ==> is_digit(s@[m]),
        decreases s@.len() - j,
    {
        j = j + 1;
    }
    j
}

pub fn is_unsigned_exec(c: &[u8]) -> (r: bool)
    ensures
        r == is_unsigned_numeral(c@),
{
    if c.len() == 0 {
        return false;
    }
    let j = digit_run_end_exec(c, 0);
    j == c.len()
}

pub fn is_signed_exec(c: &[u8]) -> (r: bool)
    ensures
        r == is_signed_numeral(c@),
{
    if c.len() == 0 {
        return false;
    }
    if c[0] == 45 {
        let rest = crate::bytes::copy_range(c, 1, c.len());
        let r = is_unsigned_exec(rest.as_slice());
        proof {
            assert(rest@ =~= c@.skip(1));
        }
        r
    } else {
        is_unsigned_exec(c)
    }
}

/// Reads a run of digits as a `u64`.
///
/// Returns the denoted value exactly when it fits; `None` reports that the
/// numeral denotes a value above `u64::MAX`.
pub fn parse_u64_digits(s: &[u8]) -> (r: Option<u64>)
    requires
        is_unsigned_numeral(s@),
    ensures
        r is Some <==> digits_val(s@) <= u64::MAX,
        r matches Some(v) ==> v == digits_val(s@),
{
    let mut acc: u64 = 0;
    let mut i: usize = 0;
    proof {
        assert(s@.take(0int) =~= Seq::<u8>::empty());
    }
    while i < s.len()
        invariant
            is_unsigned_numeral(s@),
            0 <= i <= s@.len(),
            acc == digits_val(s@.take(i as int)),
        decreases s@.len() - i,
    {
        let b = s[i];
        assert(is_digit(b));
        let d = b - 48;
        proof {
            assert(s@.take(i + 1).drop_last() =~= s@.take(i as int));
            assert(s@.take(i + 1).last() == s@[i as int]);
        }
        if acc > (u64::MAX - (d as u64)) / 10 {
            proof {
                assert(digits_val(s@.take(i + 1)) == acc * 10 + d);
                assert(acc * 10 + d > u64::MAX) by (nonlinear_arith)
                    requires
                        acc > (u64::MAX - (d as u64)) / 10,
                        0 <= d <= 9,
                {}
                lemma_digits_val_prefix_le(s@, i + 1, s@.len() as int);
                assert(s@.take(s@.len() as int) =~= s@);
            }
            return None;
        }
        proof {
            assert(acc * 10 + d <= u64::MAX) by (nonlinear_arith)
                requires
                    acc <= (u64::MAX - (d as u64)) / 10,
                    0 <= d <= 9,
            {}
        }
        acc = acc * 10 + (d as u64);
        i = i + 1;
    }
    proof {
        assert(s@.take(s@.len() as int) =~= s@);
    }
    Some(acc)
}

/// Appends the decimal spelling of `n` to `out`.
pub fn push_dec(n: u64, out: &mut Vec<u8>)
    ensures
        final(out)@ == old(out)@ + dec_rep(n as nat),
    decreases n,
{
    if n < 10 {
        out.push(48 + n as u8);
        proof {
            assert(out@ =~= old(out)@ + dec_rep(n as nat));
        }
    } else {
        proof {
            assert(n / 10 < n) by (nonlinear_arith)
                requires
                    n >= 10,
            {}
        }
        push_dec(n / 10, out);
        out.push(48 + (n % 10) as u8);
        proof {
            assert(out@ =~= old(out)@ + dec_rep(n as nat));
        }
    }
}

/// The decimal spelling of `n` as bytes.
pub fn u64_to_dec(n: u64) -> (r: Vec<u8>)
    ensures
        r@ == dec_rep(n as nat),
{
    let mut out: Vec<u8> = Vec::new();
    push_dec(n, &mut out);
    proof {
        assert(out@ =~= dec_rep(n as nat));
    }
    out
}

/// Every byte of a decimal spelling is a digit, so spellings embed into the
/// numerals the parser accepts.
pub proof fn lemma_dec_rep_digits(n: nat)
    ensures
        is_unsigned_numeral(dec_rep(n)),
    decreases n,
{
    if n >= 10 {
        lemma_dec_rep_digits(n / 10);
    }
}

/// Parsing undoes spelling: the decimal spelling of `n` denotes `n`.
pub proof fn lemma_dec_rep_val(n: nat)
    ensures
        digits_val(dec_rep(n)) == n,
    decreases n,
{
    if n < 10 {
        assert(dec_rep(n).drop_last() =~= Seq::<u8>::empty());
        assert(digits_val(Seq::<u8>::empty()) == 0);
        assert((48 + n) as u8 == 48 + n);
    } else {
        lemma_dec_rep_val(n / 10);
        assert(dec_rep(n).drop_last() =~= dec_rep(n / 10));
        assert(dec_rep(n).last() == (48 + n % 10) as u8);
        assert(0 <= n % 10 < 10) by (nonlinear_arith);
        assert((48 + n % 10) as u8 == 48 + n % 10);
        assert(digits_val(dec_rep(n)) == (n / 10) * 10 + n % 10);
        vstd::arithmetic::div_mod::lemma_fundamental_div_mod(n as int, 10);
    }
}

} // verus!
