//! Wildcard-masked byte pattern search over in-memory regions.
//!
//! A [`pattern::Pattern`] is a byte sequence paired with a mask; a
//! [`scanner::Scanner`] locates the offsets where a haystack matches it.
//! Every scanner returns exactly the leftmost match (or all matches in
//! ascending order); the anchor bytes they filter on only change how fast
//! the answer is found.

pub mod frequencies;
pub mod multi_needle_simd;
pub mod needles;
pub mod pattern;
pub mod scan;
pub mod scanner;
pub mod simd_scanner;
