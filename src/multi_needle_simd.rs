//! The multi-anchor scanner.
use crate::frequencies::DEFAULT_FREQUENCIES;
use crate::needles::{find_needles, literal_values};
use crate::pattern::Pattern;
use crate::scan::{collect_all, scan_from};
use crate::scanner::{ScanError, Scanner};
use crate::simd_scanner::lanes_of;
use vstd::prelude::*;

verus! {

/// Scanner that filters candidate offsets, `L` at a time, on `N` literal bytes
/// of distinct values at once, and verifies each survivor against the whole pattern.
/// It refuses a pattern whose literal positions hold fewer than `N` distinct values.
pub struct MultiNeedleSimd<const L: usize, const N: usize> {
    pub frequencies: [u8; 256],
}

impl<const L: usize, const N: usize> MultiNeedleSimd<L, N> {
    /// A scanner ranking bytes by the built-in table.
    pub fn new() -> (r: Self)
        ensures
            r.frequencies == DEFAULT_FREQUENCIES,
    {
        Self::with_frequencies(DEFAULT_FREQUENCIES)
    }

    /// A scanner ranking bytes by `frequencies`: lower is rarer.
    pub fn with_frequencies(frequencies: [u8; 256]) -> (r: Self)
        ensures
            r.frequencies == frequencies,
    {
        MultiNeedleSimd { frequencies }
    }
}

impl<const L: usize, const N: usize> Default for MultiNeedleSimd<L, N> {
    fn default() -> (r: Self)
        ensures
            r.frequencies == DEFAULT_FREQUENCIES,
    {
        Self::new()
    }
}

impl<const L: usize, const N: usize> Scanner for MultiNeedleSimd<L, N> {
    /// The pattern must hold at least `N` distinct literal byte values.
    open spec fn supports(&self, bytes: Seq<u8>, mask: Seq<u8>) -> bool {
        literal_values(bytes, mask).len() >= N
    }

    fn find_one<P: Pattern>(&self, haystack: &[u8], pat: &P) -> (r: Result<Option<usize>, ScanError>) {
        self.find_next(haystack, pat, 0)
    }

    fn find_next<P: Pattern>(&self, haystack: &[u8], pat: &P, start: usize) -> (r: Result<Option<usize>, ScanError>) {
        match find_needles(pat, &self.frequencies, N) {
            Some(needles) => Ok(scan_from(haystack, pat, needles.as_slice(), lanes_of(L), start)),
            None => Err(ScanError::UnsupportedPattern),
        }
    }

    fn find_all<P: Pattern>(&self, haystack: &[u8], pat: &P) -> (r: Result<Vec<usize>, ScanError>) {
        match find_needles(pat, &self.frequencies, N) {
            Some(needles) => Ok(collect_all(haystack, pat, needles.as_slice(), lanes_of(L))),
            None => Err(ScanError::UnsupportedPattern),
        }
    }
}

} // verus!
