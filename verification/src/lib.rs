//! A library for random access into flat-text FASTA files.
//!
//! One pass over a file yields an index of byte geometry per sequence
//! (`index`); a user-supplied coordinate expression is parsed and normalized
//! against that index (`region`); the pair of an index record and a
//! normalized region selects the bytes of a subsequence (`extract`); and
//! `fasta_out` renders sequences back into line-wrapped FASTA text.

pub mod digits;

pub mod bytes;

pub mod region;

pub mod index;

pub mod extract;

pub mod fasta_out;
