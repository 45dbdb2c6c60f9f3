use crate::pattern::{window_matches, Pattern};
use vstd::prelude::*;

verus! {

/// The pattern (pre-masked `bytes`, `mask`) matches `haystack` at offset `o`.
pub open spec fn is_match_at(haystack: Seq<u8>, bytes: Seq<u8>, mask: Seq<u8>, o: int) -> bool {
    &&& 0 <= o
    &&& o + bytes.len() <= haystack.len()
    &&& window_matches(bytes, mask, haystack.subrange(o, o + bytes.len()))
}

/// `r` is the leftmost match at or after `start`, or `None` when there is none.
pub open spec fn is_first_match_from(
    haystack: Seq<u8>,
    bytes: Seq<u8>,
    mask: Seq<u8>,
    start: int,
    r: Option<usize>,
) -> bool {
    match r {
        Some(o) => {
            &&& start <= o
            &&& is_match_at(haystack, bytes, mask, o as int)
            &&& forall|p: int| start <= p < o ==> !#[trigger] is_match_at(haystack, bytes, mask, p)
        },
        None => forall|p: int| start <= p ==> !#[trigger] is_match_at(haystack, bytes, mask, p),
    }
}

/// `r` is the leftmost match in the whole haystack, or `None` when there is none.
pub open spec fn is_first_match(haystack: Seq<u8>, bytes: Seq<u8>, mask: Seq<u8>, r: Option<usize>) -> bool {
    is_first_match_from(haystack, bytes, mask, 0, r)
}

/// `s` lists every match offset, each once, in strictly ascending order.
pub open spec fn lists_all_matches(haystack: Seq<u8>, bytes: Seq<u8>, mask: Seq<u8>, s: Seq<usize>) -> bool {
    &&& forall|i: int, j: int| 0 <= i < j < s.len() ==> s[i] < s[j]
    &&& forall|i: int| 0 <= i < s.len() ==> is_match_at(haystack, bytes, mask, #[trigger] s[i] as int)
    &&& forall|p: int| #[trigger] is_match_at(haystack, bytes, mask, p) ==> s.contains(p as usize)
}

/// The leftmost match is unique: any two scanners that both accept a pattern
/// (their `find_one` returns `Ok`) return the same offset, or both return no match.
pub proof fn lemma_scanners_agree(
    haystack: Seq<u8>,
    bytes: Seq<u8>,
    mask: Seq<u8>,
    r1: Option<usize>,
    r2: Option<usize>,
)
    requires
        is_first_match(haystack, bytes, mask, r1),
        is_first_match(haystack, bytes, mask, r2),
    ensures
        r1 == r2,
{
    match (r1, r2) {
        (Some(a), Some(b)) => {
            assert(!(a < b) || !is_match_at(haystack, bytes, mask, a as int));
            assert(!(b < a) || !is_match_at(haystack, bytes, mask, b as int));
        },
        (Some(a), None) => {
            assert(!is_match_at(haystack, bytes, mask, a as int));
        },
        (None, Some(b)) => {
            assert(!is_match_at(haystack, bytes, mask, b as int));
        },
        (None, None) => {},
    }
}

/// Why a scan could not run.
#[derive(Clone, Copy, Debug, PartialEq, Eq)]
pub enum ScanError {
    /// The pattern's literal positions hold fewer distinct byte values than the
    /// scanner filters on (for a single anchor: the pattern has no literal byte).
    UnsupportedPattern,
}

/// A search algorithm over a haystack for a pattern.
///
/// A scanner either refuses a pattern it cannot filter on, for every haystack,
/// or returns exactly the matches.
pub trait Scanner {
    /// Whether the scanner can search for the pattern (pre-masked `bytes`, `mask`).
    spec fn supports(&self, bytes: Seq<u8>, mask: Seq<u8>) -> bool;

    /// The leftmost offset at which `pat` matches `haystack`.
    fn find_one<P: Pattern>(&self, haystack: &[u8], pat: &P) -> (r: Result<Option<usize>, ScanError>)
        requires
            pat.well_formed(),
        ensures
            r is Err <==> !self.supports(pat.spec_bytes(), pat.spec_mask()),
            r matches Ok(o) ==> is_first_match(haystack@, pat.spec_bytes(), pat.spec_mask(), o),
    ;

    /// The leftmost offset not below `start` at which `pat` matches `haystack`.
    fn find_next<P: Pattern>(&self, haystack: &[u8], pat: &P, start: usize) -> (r: Result<Option<usize>, ScanError>)
        requires
            pat.well_formed(),
        ensures
            r is Err <==> !self.supports(pat.spec_bytes(), pat.spec_mask()),
            r matches Ok(o) ==> is_first_match_from(
                haystack@,
                pat.spec_bytes(),
                pat.spec_mask(),
                start as int,
                o,
            ),
    ;

    /// Every offset at which `pat` matches `haystack`, overlapping ones included, ascending.
    fn find_all<P: Pattern>(&self, haystack: &[u8], pat: &P) -> (r: Result<Vec<usize>, ScanError>)
        requires
            pat.well_formed(),
        ensures
            r is Err <==> !self.supports(pat.spec_bytes(), pat.spec_mask()),
            r matches Ok(v) ==> lists_all_matches(haystack@, pat.spec_bytes(), pat.spec_mask(), v@),
    ;
}

} // verus!
