//! Byte-sequence helpers shared by the index and the region code: first
//! occurrence of a byte, splitting on a separator, copying and comparing.

use vstd::prelude::*;

verus! {

/// Index of the first occurrence of `b` in `s`, or `s.len()` when absent.
pub open spec fn first_pos(s: Seq<u8>, b: u8) -> int
    decreases s.len(),
{
    if s.len() == 0 {
        0
    } else if s[0] == b {
        0
    } else {
        1 + first_pos(s.skip(1), b)
    }
}

pub proof fn lemma_first_pos_bounds(s: Seq<u8>, b: u8)
    ensures
        0 <= first_pos(s, b) <= s.len(),
        first_pos(s, b) < s.len() ==> s[first_pos(s, b)] == b,
        forall|j: int| 0 <= j < first_pos(s, b) ==> s[j] != b,
    decreases s.len(),
{
    if s.len() > 0 && s[0] != b {
        lemma_first_pos_bounds(s.skip(1), b);
        assert forall|j: int| 0 <= j < first_pos(s, b) implies s[j] != b by {
            if j > 0 {
                assert(s.skip(1)[j - 1] == s[j]);
            }
        }
    }
}

/// The properties of `lemma_first_pos_bounds` pin the position down: any
/// index that satisfies them is the first occurrence.
pub proof fn lemma_first_pos_unique(s: Seq<u8>, b: u8, p: int)
    requires
        0 <= p <= s.len(),
        p < s.len() ==> s[p] == b,
        forall|j: int| 0 <= j < p ==> s[j] != b,
    ensures
        p == first_pos(s, b),
{
    lemma_first_pos_bounds(s, b);
    let q = first_pos(s, b);
    if p < q {
        assert(s[p] != b);
    } else if q < p {
        assert(s[q] != b);
    }
}

/// `s` split on every occurrence of `sep`; a trailing separator yields a
/// final empty piece.
pub open spec fn split_at(s: Seq<u8>, sep: u8) -> Seq<Seq<u8>>
    decreases s.len(),
{
    let p = first_pos(s, sep);
    if 0 <= p < s.len() {
        seq![s.take(p)].add(split_at(s.skip(p + 1), sep))
    } else {
        seq![s]
    }
}

pub proof fn lemma_split_at_len(s: Seq<u8>, sep: u8)
    ensures
        split_at(s, sep).len() >= 1,
    decreases s.len(),
{
    lemma_first_pos_bounds(s, sep);
    let p = first_pos(s, sep);
    if p != s.len() {
        lemma_split_at_len(s.skip(p + 1), sep);
    }
}

/// A piece free of the separator, followed by the separator, splits off
/// whole.
pub proof fn lemma_split_at_prepend(piece: Seq<u8>, rest: Seq<u8>, sep: u8)
    requires
        forall|i: int| 0 <= i < piece.len() ==> piece[i] != sep,
    ensures
        split_at(piece + seq![sep] + rest, sep) == seq![piece].add(split_at(rest, sep)),
{
    let s = piece + seq![sep] + rest;
    assert(s[piece.len() as int] == sep);
    assert(forall|j: int| 0 <= j < piece.len() ==> s[j] == piece[j]);
    lemma_first_pos_unique(s, sep, piece.len() as int);
    assert(s.take(piece.len() as int) =~= piece);
    assert(s.skip(piece.len() as int + 1) =~= rest);
    assert(split_at(s, sep) =~= seq![piece].add(split_at(rest, sep)));
}

/// A piece free of the separator is one whole piece.
pub proof fn lemma_split_at_whole(piece: Seq<u8>, sep: u8)
    requires
        forall|i: int| 0 <= i < piece.len() ==> piece[i] != sep,
    ensures
        split_at(piece, sep) == seq![piece],
{
    lemma_first_pos_unique(piece, sep, piece.len() as int);
}

/// Relies on `memchr::memchr`: the index of the first occurrence of
/// `needle` in `haystack`, or `None` when it does not occur.
#[verifier::external_body]
pub(crate) fn find_byte(needle: u8, haystack: &[u8]) -> (r: Option<usize>)
    ensures
        match r {
            Some(i) => 0 <= i < haystack@.len() && haystack@[i as int] == needle && forall|j: int|
                0 <= j < i ==> haystack@[j] != needle,
            None => forall|j: int| 0 <= j < haystack@.len() ==> haystack@[j] != needle,
        },
{
    memchr::memchr(needle, haystack)
}

/// The first occurrence of `b` in `s`, or `s.len()` when absent.
pub fn find_first(s: &[u8], b: u8) -> (r: usize)
    ensures
        r == first_pos(s@, b),
{
    let r = match find_byte(b, s) {
        Some(i) => i,
        None => s.len(),
    };
    proof {
        lemma_first_pos_unique(s@, b, r as int);
    }
    r
}

/// Copies `s[from..to]` into a fresh vector.
pub fn copy_range(s: &[u8], from: usize, to: usize) -> (r: Vec<u8>)
    requires
        from <= to <= s@.len(),
    ensures
        r@ == s@.subrange(from as int, to as int),
{
    let mut out: Vec<u8> = Vec::new();
    let mut i: usize = from;
    while i < to
        invariant
            from <= i <= to <= s@.len(),
            out@ == s@.subrange(from as int, i as int),
        decreases to - i,
    {
        out.push(s[i]);
        proof {
            assert(out@ =~= s@.subrange(from as int, i + 1));
        }
        i = i + 1;
    }
    out
}

/// Copies the piece of `s` that runs from `from` to the next `sep` (or to
/// the end), and returns it with the index just past it: the position of
/// the separator, or `s.len()`.
pub fn take_piece(s: &[u8], from: usize, sep: u8) -> (r: (Vec<u8>, usize))
    requires
        from <= s@.len(),
    ensures
        from <= r.1 <= s@.len(),
        r.1 - from == first_pos(s@.skip(from as int), sep),
        r.0@ == s@.subrange(from as int, r.1 as int),
        r.1 < s@.len() ==> s@[r.1 as int] == sep,
        forall|m: int| from <= m < r.1 ==> s@[m] != sep,
{
    let mut out: Vec<u8> = Vec::new();
    let mut i: usize = from;
    while i < s.len() && s[i] != sep
        invariant
            from <= i <= s@.len(),
            out@ == s@.subrange(from as int, i as int),
            forall|m: int| from <= m < i ==> s@[m] != sep,
        decreases s@.len() - i,
    {
        out.push(s[i]);
        proof {
            assert(out@ =~= s@.subrange(from as int, i + 1));
        }
        i = i + 1;
    }
    proof {
        let tail = s@.skip(from as int);
        assert forall|j: int| 0 <= j < i - from implies tail[j] != sep by {
            assert(tail[j] == s@[from + j]);
        }
        if i < s@.len() {
            assert(tail[i - from] == s@[i as int]);
        }
        lemma_first_pos_unique(tail, sep, i - from);
    }
    (out, i)
}

/// Byte-for-byte equality of two slices.
pub fn bytes_eq(a: &[u8], b: &[u8]) -> (r: bool)
    ensures
        r <==> a@ == b@,
{
    if a.len() != b.len() {
        proof {
            assert(a@ != b@);
        }
        return false;
    }
    let mut i: usize = 0;
    while i < a.len()
        invariant
            a@.len() == b@.len(),
            0 <= i <= a@.len(),
            forall|j: int| 0 <= j < i ==> a@[j] == b@[j],
        decreases a@.len() - i,
    {
        if a[i] != b[i] {
            proof {
                assert(a@ != b@);
            }
            return false;
        }
        i = i + 1;
    }
    proof {
        assert(a@ =~= b@);
    }
    true
}

} // verus!
