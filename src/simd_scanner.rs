//! Block-stored patterns and the single-anchor scanner.
use crate::frequencies::DEFAULT_FREQUENCIES;
use crate::pattern::{apply_mask, is_literal, lemma_masked_idempotent, masked, window_matches, Pattern};
use crate::needles::anchor_needles;
use crate::scan::{collect_all, scan_from};
use crate::scanner::{ScanError, Scanner};
use vstd::prelude::*;

verus! {

/// The byte a vector lane reads at `pos + i`: the haystack's byte, or zero past its end.
pub open spec fn lane_byte(haystack: Seq<u8>, pos: int, i: int) -> u8 {
    if pos + i < haystack.len() {
        haystack[pos + i]
    } else {
        0
    }
}

/// `src` followed by zeros up to length `total`.
fn pad_bytes(src: &[u8], total: usize) -> (r: Vec<u8>)
    requires
        src@.len() <= total,
    ensures
        r@.len() == total,
        forall|i: int| 0 <= i < src@.len() ==> r@[i] == src@[i],
        forall|i: int| src@.len() <= i < total ==> r@[i] == 0,
{
    let mut r: Vec<u8> = Vec::with_capacity(total);
    let mut i: usize = 0;
    while i < total
        invariant
            src@.len() <= total,
            i <= total,
            r@.len() == i,
            forall|k: int| 0 <= k < i && k < src@.len() ==> r@[k] == src@[k],
            forall|k: int| src@.len() <= k < i ==> r@[k] == 0,
        decreases total - i,
    {
        if i < src.len() {
            r.push(src[i]);
        } else {
            r.push(0);
        }
        i += 1;
    }
    r
}

/// Compares lanes `from..to` of one block: each lane's byte, masked, against the stored byte.
fn lanes_match(haystack: &[u8], pos: usize, bytes: &Vec<u8>, mask: &Vec<u8>, from: usize, to: usize) -> (r: bool)
    requires
        from <= to <= bytes@.len(),
        bytes@.len() == mask@.len(),
        pos <= haystack@.len(),
    ensures
        r == forall|i: int|
            from <= i < to ==> #[trigger] (lane_byte(haystack@, pos as int, i) & mask@[i])
                == bytes@[i],
{
    let mut i = from;
    while i < to
        invariant
            from <= i <= to <= bytes@.len(),
            bytes@.len() == mask@.len(),
            pos <= haystack@.len(),
            forall|k: int|
                from <= k < i ==> #[trigger] (lane_byte(haystack@, pos as int, k) & mask@[k])
                    == bytes@[k],
        decreases to - i,
    {
        let w: u8 = if i < haystack.len() - pos {
            haystack[pos + i]
        } else {
            0
        };
        assert(w == lane_byte(haystack@, pos as int, i as int));
        if w & mask[i] != bytes[i] {
            return false;
        }
        i += 1;
    }
    true
}

/// Lanes past the pattern hold a zero mask and a zero byte, so they match any byte;
/// lanes within it read the window itself.
proof fn lemma_padded_lanes(haystack: Seq<u8>, pos: int, bytes: Seq<u8>, mask: Seq<u8>, len: int)
    requires
        0 <= pos,
        0 <= len <= bytes.len(),
        bytes.len() == mask.len(),
        pos + len <= haystack.len(),
        forall|i: int| len <= i < bytes.len() ==> bytes[i] == 0 && mask[i] == 0,
    ensures
        (forall|i: int|
            0 <= i < bytes.len() ==> #[trigger] (lane_byte(haystack, pos, i) & mask[i]) == bytes[i])
            == window_matches(
            bytes.subrange(0, len),
            mask.subrange(0, len),
            haystack.subrange(pos, pos + len),
        ),
{
    let w = haystack.subrange(pos, pos + len);
    let b = bytes.subrange(0, len);
    let m = mask.subrange(0, len);
    if forall|i: int|
        0 <= i < bytes.len() ==> #[trigger] (lane_byte(haystack, pos, i) & mask[i]) == bytes[i] {
        assert forall|i: int| 0 <= i < b.len() implies #[trigger] (w[i] & m[i]) == b[i] by {
            assert(lane_byte(haystack, pos, i) & mask[i] == bytes[i]);
        }
    }
    if window_matches(b, m, w) {
        assert forall|i: int| 0 <= i < bytes.len() implies #[trigger] (lane_byte(haystack, pos, i)
            & mask[i]) == bytes[i] by {
            if i < len {
                assert(w[i] & m[i] == b[i]);
            } else {
                let x = lane_byte(haystack, pos, i);
                assert(x & 0u8 == 0u8) by (bit_vector);
            }
        }
    }
}

/// Zero padding keeps the stored bytes pre-masked.
proof fn lemma_padding_masked(pre: Seq<u8>, mask: Seq<u8>, len: int)
    requires
        pre.len() == mask.len(),
        0 <= len <= pre.len(),
        masked(pre.subrange(0, len), mask.subrange(0, len)) == pre.subrange(0, len),
        forall|i: int| len <= i < pre.len() ==> pre[i] == 0 && mask[i] == 0,
    ensures
        masked(pre, mask) == pre,
{
    assert forall|i: int| 0 <= i < pre.len() implies #[trigger] masked(pre, mask)[i] == pre[i] by {
        if i < len {
            assert(masked(pre.subrange(0, len), mask.subrange(0, len))[i] == pre[i]);
        } else {
            let z: u8 = 0;
            assert(z & z == z) by (bit_vector);
        }
    }
    assert(masked(pre, mask) =~= pre);
}

/// A pattern of any length, stored in blocks of `N` bytes (one byte when `N` is zero):
/// the last block is padded with zero bytes under a zero mask, and matching
/// compares one block at a time.
pub struct SimdPattern<const N: usize> {
    bytes: Vec<u8>,
    mask: Vec<u8>,
    len: usize,
}

impl<const N: usize> Pattern for SimdPattern<N> {
    closed spec fn spec_bytes(&self) -> Seq<u8> {
        self.bytes@.subrange(0, self.len as int)
    }

    closed spec fn spec_mask(&self) -> Seq<u8> {
        self.mask@.subrange(0, self.len as int)
    }

    closed spec fn well_formed(&self) -> bool {
        &&& self.len <= self.bytes@.len()
        &&& self.bytes@.len() == self.mask@.len()
        &&& forall|i: int| self.len <= i < self.bytes@.len() ==> self.bytes@[i] == 0 && self.mask@[i] == 0
        &&& masked(self.bytes@, self.mask@) == self.bytes@
    }

    open spec fn fits(len: nat) -> bool {
        true
    }

    proof fn lemma_shape(&self) {
        let (b, m) = (self.spec_bytes(), self.spec_mask());
        assert forall|i: int| 0 <= i < b.len() implies #[trigger] masked(b, m)[i] == b[i] by {
            assert(masked(self.bytes@, self.mask@)[i] == self.bytes@[i]);
        }
        assert(masked(b, m) =~= b);
    }

    fn from_bytes_and_mask(bytes: &[u8], mask: &[u8]) -> (r: Option<Self>) {
        if bytes.len() != mask.len() {
            return None;
        }
        let len = bytes.len();
        let width = lanes_of(N);
        let rem = len % width;
        // the last block is filled up to a whole block wherever the length leaves room
        let total = if rem == 0 || len > usize::MAX - width {
            len
        } else {
            len + (width - rem)
        };
        let pre = apply_mask(bytes, mask);
        let pbytes = pad_bytes(pre.as_slice(), total);
        let pmask = pad_bytes(mask, total);
        proof {
            lemma_masked_idempotent(bytes@, mask@);
            assert(pbytes@.subrange(0, len as int) =~= pre@);
            assert(pmask@.subrange(0, len as int) =~= mask@);
            lemma_padding_masked(pbytes@, pmask@, len as int);
        }
        Some(SimdPattern { bytes: pbytes, mask: pmask, len })
    }

    fn bytes(&self) -> (r: &[u8]) {
        vstd::slice::slice_subrange(self.bytes.as_slice(), 0, self.len)
    }

    fn mask(&self) -> (r: &[u8]) {
        vstd::slice::slice_subrange(self.mask.as_slice(), 0, self.len)
    }

    fn len(&self) -> (r: usize) {
        self.len
    }

    fn matches_at(&self, haystack: &[u8], pos: usize) -> (r: bool) {
        let total = self.bytes.len();
        let width = lanes_of(N);
        let mut base: usize = 0;
        while base < total
            invariant
                self.well_formed(),
                total == self.bytes@.len(),
                pos + self.len <= haystack@.len(),
                width > 0,
                base <= total,
                forall|i: int|
                    0 <= i < base ==> #[trigger] (lane_byte(haystack@, pos as int, i)
                        & self.mask@[i]) == self.bytes@[i],
            decreases total - base,
        {
            let end = if total - base < width {
                total
            } else {
                base + width
            };
            if !lanes_match(haystack, pos, &self.bytes, &self.mask, base, end) {
                proof {
                    lemma_padded_lanes(haystack@, pos as int, self.bytes@, self.mask@, self.len as int);
                }
                return false;
            }
            base = end;
        }
        proof {
            lemma_padded_lanes(haystack@, pos as int, self.bytes@, self.mask@, self.len as int);
        }
        true
    }
}

/// A pattern of at most `N` bytes held in a single block of `N` lanes, compared in one pass.
pub struct SmallSimdPattern<const N: usize> {
    bytes: Vec<u8>,
    mask: Vec<u8>,
    len: usize,
}

impl<const N: usize> Pattern for SmallSimdPattern<N> {
    closed spec fn spec_bytes(&self) -> Seq<u8> {
        self.bytes@.subrange(0, self.len as int)
    }

    closed spec fn spec_mask(&self) -> Seq<u8> {
        self.mask@.subrange(0, self.len as int)
    }

    closed spec fn well_formed(&self) -> bool {
        &&& self.len <= N
        &&& self.bytes@.len() == N
        &&& self.mask@.len() == N
        &&& forall|i: int| self.len <= i < N ==> self.bytes@[i] == 0 && self.mask@[i] == 0
        &&& masked(self.bytes@, self.mask@) == self.bytes@
    }

    open spec fn fits(len: nat) -> bool {
        len <= N
    }

    proof fn lemma_shape(&self) {
        let (b, m) = (self.spec_bytes(), self.spec_mask());
        assert forall|i: int| 0 <= i < b.len() implies #[trigger] masked(b, m)[i] == b[i] by {
            assert(masked(self.bytes@, self.mask@)[i] == self.bytes@[i]);
        }
        assert(masked(b, m) =~= b);
    }

    fn from_bytes_and_mask(bytes: &[u8], mask: &[u8]) -> (r: Option<Self>) {
        if bytes.len() != mask.len() || bytes.len() > N {
            return None;
        }
        let len = bytes.len();
        let pre = apply_mask(bytes, mask);
        let pbytes = pad_bytes(pre.as_slice(), N);
        let pmask = pad_bytes(mask, N);
        proof {
            lemma_masked_idempotent(bytes@, mask@);
            assert(pbytes@.subrange(0, len as int) =~= pre@);
            assert(pmask@.subrange(0, len as int) =~= mask@);
            lemma_padding_masked(pbytes@, pmask@, len as int);
        }
        Some(SmallSimdPattern { bytes: pbytes, mask: pmask, len })
    }

    fn bytes(&self) -> (r: &[u8]) {
        vstd::slice::slice_subrange(self.bytes.as_slice(), 0, self.len)
    }

    fn mask(&self) -> (r: &[u8]) {
        vstd::slice::slice_subrange(self.mask.as_slice(), 0, self.len)
    }

    fn len(&self) -> (r: usize) {
        self.len
    }

    fn matches_at(&self, haystack: &[u8], pos: usize) -> (r: bool) {
        let r = lanes_match(haystack, pos, &self.bytes, &self.mask, 0, N);
        proof {
            lemma_padded_lanes(haystack@, pos as int, self.bytes@, self.mask@, self.len as int);
        }
        r
    }
}

/// Scanner that filters candidate offsets, `N` at a time, on the pattern's
/// rarest literal byte and verifies each survivor against the whole pattern.
/// It refuses a pattern without a literal byte.
pub struct SimdScanner<const N: usize> {
    pub frequencies: [u8; 256],
}

impl<const N: usize> SimdScanner<N> {
    /// A scanner ranking bytes by the built-in table.
    pub fn new() -> (r: Self)
        ensures
            r.frequencies == DEFAULT_FREQUENCIES,
    {
        Self::with_frequencies(DEFAULT_FREQUENCIES)
    }

    /// A scanner ranking bytes by `frequencies`: lower is rarer.
    pub fn with_frequencies(frequencies: [u8; 256]) -> (r: Self)
        ensures
            r.frequencies == frequencies,
    {
        SimdScanner { frequencies }
    }
}

impl<const N: usize> Default for SimdScanner<N> {
    fn default() -> (r: Self)
        ensures
            r.frequencies == DEFAULT_FREQUENCIES,
    {
        Self::new()
    }
}

/// The number of lanes a chunk holds: the vector width, and at least one.
pub open spec fn lane_count(n: usize) -> usize {
    if n == 0 {
        1
    } else {
        n
    }
}

pub fn lanes_of(n: usize) -> (r: usize)
    ensures
        r == lane_count(n),
        r > 0,
{
    if n == 0 {
        1
    } else {
        n
    }
}

impl<const N: usize> Scanner for SimdScanner<N> {
    /// The pattern must hold a literal position to anchor on.
    open spec fn supports(&self, bytes: Seq<u8>, mask: Seq<u8>) -> bool {
        exists|i: int| 0 <= i < bytes.len() && is_literal(mask, i)
    }

    fn find_one<P: Pattern>(&self, haystack: &[u8], pat: &P) -> (r: Result<Option<usize>, ScanError>) {
        self.find_next(haystack, pat, 0)
    }

    fn find_next<P: Pattern>(&self, haystack: &[u8], pat: &P, start: usize) -> (r: Result<Option<usize>, ScanError>) {
        let needles = anchor_needles(pat, &self.frequencies);
        if needles.len() == 0 {
            return Err(ScanError::UnsupportedPattern);
        }
        Ok(scan_from(haystack, pat, needles.as_slice(), lanes_of(N), start))
    }

    fn find_all<P: Pattern>(&self, haystack: &[u8], pat: &P) -> (r: Result<Vec<usize>, ScanError>) {
        let needles = anchor_needles(pat, &self.frequencies);
        if needles.len() == 0 {
            return Err(ScanError::UnsupportedPattern);
        }
        Ok(collect_all(haystack, pat, needles.as_slice(), lanes_of(N)))
    }
}

} // verus!
