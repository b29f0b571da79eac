//! Verified core of a paired-read quality filter.
//!
//! The library evaluates mate pairs from a name-sorted alignment stream and
//! decides, per pair, whether both mates meet a k-mer complexity cutoff and,
//! optionally, a minimum contiguous mapped-run length. It holds the three
//! algorithmic pieces: the complexity estimator, the mapped-run scanner, and
//! the pair-wise streaming filter with its counters. Reading and writing the
//! alignment files themselves is left to the surrounding program.

pub mod complexity;
pub mod contiguity;
pub mod engine;
