//! Suffix-array construction for DNA sequence data.
//!
//! Given a corpus over the four-letter alphabet `A`, `C`, `G`, `T`
//! (case-insensitive) with a trailing context pad, the library builds a
//! permutation of the valid suffix start positions ordered by a
//! bounded-length lexicographic comparison: a fixed number of comparison
//! windows, with equal windows resolved by ascending start position in the
//! packed path. The primary construction radix-partitions the positions by
//! their leading k-mer and sorts each bucket independently; its contract
//! pins the result down to the unique sorted permutation, so the output is
//! independent of the radix width and of the chunk partition.

#![verifier::loop_isolation(false)]

pub mod buckets;
pub mod cmp;
pub mod codes;
pub mod compact_vec;
pub mod kmer;
pub mod order;
pub mod rev_packed;
pub mod sorts;
pub mod suffix_array;
