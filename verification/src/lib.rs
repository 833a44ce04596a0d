//! Exhaustive, deterministic enumeration of all ordered tuples of a given
//! length over a finite alphabet, with a convenience layer for the four
//! nucleotide symbols used to enumerate k-mers and codons.

pub mod tuples;
