//! Approximate seeding of nucleotide patterns in reference sequences.
//!
//! A pattern is summarised by a fingerprint table: for each of the sixteen
//! dinucleotide codes, the set of pattern positions that carry it. Scanning a
//! reference then counts, for every reference offset, how many of those
//! pattern positions agree with the reference on the same diagonal, and keeps
//! the offsets whose count reaches a threshold. A word-parallel Hamming
//! comparison re-scores candidates exactly.
pub mod encode;
pub mod fallback;
pub mod seed;
pub mod simdna;
pub mod utils;

pub use utils::hamming;
