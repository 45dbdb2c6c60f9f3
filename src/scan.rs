//! The chunked filter-then-verify search shared by the scanners.
use crate::pattern::{is_literal, Pattern};
use crate::scanner::{is_first_match_from, is_match_at, lists_all_matches};
use vstd::prelude::*;

verus! {

/// A literal byte of a pattern chosen as a filter anchor: its position in the
/// pattern and its value.
#[derive(Clone, Copy, Debug, PartialEq, Eq)]
pub struct Needle {
    pub index: usize,
    pub value: u8,
}

/// `n` names a literal position of the pattern and the byte found there.
pub open spec fn needle_valid(bytes: Seq<u8>, mask: Seq<u8>, n: Needle) -> bool {
    &&& n.index < bytes.len()
    &&& is_literal(mask, n.index as int)
    &&& bytes[n.index as int] == n.value
}

/// Every needle of `s` is valid for the pattern.
pub open spec fn needles_valid(bytes: Seq<u8>, mask: Seq<u8>, s: Seq<Needle>) -> bool {
    forall|k: int| 0 <= k < s.len() ==> needle_valid(bytes, mask, #[trigger] s[k])
}

/// Every needle of `s` finds its byte when the pattern is laid at offset `o`.
pub open spec fn needles_present(haystack: Seq<u8>, s: Seq<Needle>, o: int) -> bool {
    forall|k: int| 0 <= k < s.len() ==> haystack[o + (#[trigger] s[k]).index] == s[k].value
}

/// A match lays each literal byte of the pattern exactly over its value.
pub proof fn lemma_match_has_needle(
    haystack: Seq<u8>,
    bytes: Seq<u8>,
    mask: Seq<u8>,
    o: int,
    n: Needle,
)
    requires
        is_match_at(haystack, bytes, mask, o),
        needle_valid(bytes, mask, n),
    ensures
        haystack[o + n.index] == n.value,
{
    let i = n.index as int;
    let w = haystack.subrange(o, o + bytes.len());
    assert(w[i] & mask[i] == bytes[i]);
    assert(w[i] == haystack[o + i]);
    let x = w[i];
    assert(x & 0xffu8 == x) by (bit_vector);
}

/// The lane filter of one chunk: lane `j` is set iff offset `base + j` lies
/// at or below `last` and every needle finds its byte at that offset.
pub fn chunk_hits(haystack: &[u8], needles: &[Needle], base: usize, lanes: usize, last: usize) -> (r: Vec<bool>)
    requires
        forall|k: int|
            0 <= k < needles@.len() ==> #[trigger] needles@[k].index + last < haystack@.len(),
    ensures
        r@.len() == lanes,
        forall|j: int|
            0 <= j < lanes ==> #[trigger] r@[j] == (base + j <= last && needles_present(
                haystack@,
                needles@,
                base + j,
            )),
{
    let mut r: Vec<bool> = Vec::with_capacity(lanes);
    let mut j: usize = 0;
    while j < lanes
        invariant
            j <= lanes,
            r@.len() == j,
            forall|k: int|
                0 <= k < needles@.len() ==> #[trigger] needles@[k].index + last < haystack@.len(),
            forall|q: int|
                0 <= q < j ==> #[trigger] r@[q] == (base + q <= last && needles_present(
                    haystack@,
                    needles@,
                    base + q,
                )),
        decreases lanes - j,
    {
        let mut hit = base <= last && j <= last - base;
        if hit {
            let hlen = haystack.len();
            let o = base + j;
            let mut k: usize = 0;
            while k < needles.len()
                invariant
                    o <= last,
                    o == base + j,
                    hlen == haystack@.len(),
                    k <= needles@.len(),
                    forall|q: int|
                        0 <= q < needles@.len() ==> #[trigger] needles@[q].index + last
                            < haystack@.len(),
                    hit == forall|q: int|
                        0 <= q < k ==> haystack@[o + (#[trigger] needles@[q]).index]
                            == needles@[q].value,
                decreases needles@.len() - k,
            {
                let n = needles[k];
                assert(needles@[k as int].index + last < haystack@.len());
                if haystack[o + n.index] != n.value {
                    hit = false;
                }
                k += 1;
            }
        }
        r.push(hit);
        j += 1;
    }
    r
}

/// The leftmost match at or after `start`, found by filtering chunks of
/// `lanes` candidate offsets on `needles` and verifying each survivor in full.
pub fn scan_from<P: Pattern>(haystack: &[u8], pat: &P, needles: &[Needle], lanes: usize, start: usize) -> (r: Option<usize>)
    requires
        pat.well_formed(),
        needles_valid(pat.spec_bytes(), pat.spec_mask(), needles@),
        lanes > 0,
    ensures
        is_first_match_from(haystack@, pat.spec_bytes(), pat.spec_mask(), start as int, r),
{
    let ghost bytes = pat.spec_bytes();
    let ghost mask = pat.spec_mask();
    let len = pat.len();
    if len > haystack.len() {
        return None;
    }
    let last = haystack.len() - len;
    if start > last {
        return None;
    }
    assert forall|k: int| 0 <= k < needles@.len() implies #[trigger] needles@[k].index + last
        < haystack@.len() by {
        assert(needle_valid(bytes, mask, needles@[k]));
    }
    let mut base = start;
    loop
        invariant
            pat.well_formed(),
            needles_valid(bytes, mask, needles@),
            forall|k: int|
                0 <= k < needles@.len() ==> #[trigger] needles@[k].index + last < haystack@.len(),
            bytes == pat.spec_bytes(),
            mask == pat.spec_mask(),
            lanes > 0,
            len == bytes.len(),
            last == haystack@.len() - len,
            start <= base <= last,
            forall|p: int| start <= p < base ==> !#[trigger] is_match_at(haystack@, bytes, mask, p),
        decreases last - base,
    {
        let hits = chunk_hits(haystack, needles, base, lanes, last);
        let mut j: usize = 0;
        while j < lanes
            invariant
                pat.well_formed(),
                needles_valid(bytes, mask, needles@),
                bytes == pat.spec_bytes(),
                mask == pat.spec_mask(),
                len == bytes.len(),
                last == haystack@.len() - len,
                start <= base <= last,
                j <= lanes,
                hits@.len() == lanes,
                forall|q: int|
                    0 <= q < lanes ==> #[trigger] hits@[q] == (base + q <= last && needles_present(
                        haystack@,
                        needles@,
                        base + q,
                    )),
                forall|p: int|
                    start <= p < base + j ==> !#[trigger] is_match_at(haystack@, bytes, mask, p),
            decreases lanes - j,
        {
            if hits[j] {
                if pat.matches_at(haystack, base + j) {
                    return Some(base + j);
                }
            } else {
                proof {
                    let o = base + j;
                    if is_match_at(haystack@, bytes, mask, o) {
                        assert forall|k: int| 0 <= k < needles@.len() implies haystack@[o
                            + (#[trigger] needles@[k]).index] == needles@[k].value by {
                            lemma_match_has_needle(haystack@, bytes, mask, o, needles@[k]);
                        }
                    }
                }
            }
            j += 1;
        }
        if last - base < lanes {
            return None;
        }
        base = base + lanes;
    }
}

/// Every match offset of `pat` in `haystack`, ascending, gathered by resuming
/// the filtered scan just past each match it reports.
pub fn collect_all<P: Pattern>(haystack: &[u8], pat: &P, needles: &[Needle], lanes: usize) -> (r: Vec<usize>)
    requires
        pat.well_formed(),
        needles_valid(pat.spec_bytes(), pat.spec_mask(), needles@),
        lanes > 0,
    ensures
        lists_all_matches(haystack@, pat.spec_bytes(), pat.spec_mask(), r@),
{
    let ghost bytes = pat.spec_bytes();
    let ghost mask = pat.spec_mask();
    let mut r: Vec<usize> = Vec::new();
    let mut start: usize = 0;
    loop
        invariant
            pat.well_formed(),
            bytes == pat.spec_bytes(),
            mask == pat.spec_mask(),
            needles_valid(bytes, mask, needles@),
            lanes > 0,
            start <= haystack@.len() + 1,
            forall|i: int, j: int| 0 <= i < j < r@.len() ==> r@[i] < r@[j],
            forall|i: int|
                0 <= i < r@.len() ==> is_match_at(haystack@, bytes, mask, #[trigger] r@[i] as int)
                    && r@[i] < start,
            forall|p: int|
                0 <= p < start && #[trigger] is_match_at(haystack@, bytes, mask, p) ==> r@.contains(
                    p as usize,
                ),
        decreases haystack@.len() + 1 - start,
    {
        match scan_from(haystack, pat, needles, lanes, start) {
            None => {
                return r;
            },
            Some(o) => {
                let ghost prev = r@;
                r.push(o);
                proof {
                    assert(r@[r@.len() - 1] == o);
                    assert(r@ == prev.push(o));
                    assert forall|p: int|
                        0 <= p <= o && #[trigger] is_match_at(haystack@, bytes, mask, p) implies r@.contains(
                        p as usize,
                    ) by {
                        if p < start {
                            assert(prev.contains(p as usize));
                            let k = choose|k: int| 0 <= k < prev.len() && prev[k] == p as usize;
                            assert(r@[k] == p as usize);
                        } else {
                            assert(p == o);
                        }
                    }
                }
                if o == usize::MAX {
                    assert(haystack@.len() == haystack.len());
                    return r;
                }
                start = o + 1;
            },
        }
    }
}

} // verus!
