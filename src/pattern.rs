use vstd::prelude::*;

verus! {

/// Whether position `i` of `mask` is a literal: the byte there must match exactly.
pub open spec fn is_literal(mask: Seq<u8>, i: int) -> bool {
    mask[i] == 0xff
}

/// The raw bytes combined with the mask, position by position.
pub open spec fn masked(bytes: Seq<u8>, mask: Seq<u8>) -> Seq<u8> {
    Seq::new(bytes.len(), |i: int| bytes[i] & mask[i])
}

/// `window` matches the pre-masked `bytes` under `mask` on every position of the pattern.
pub open spec fn window_matches(bytes: Seq<u8>, mask: Seq<u8>, window: Seq<u8>) -> bool {
    forall|i: int| 0 <= i < bytes.len() ==> #[trigger] (window[i] & mask[i]) == bytes[i]
}

/// A wildcard-masked byte sequence.
///
/// Its model is a pair of equally long sequences: the bytes, already combined
/// with the mask, and the mask itself.
pub trait Pattern: Sized {
    /// The pattern's bytes, pre-combined with its mask.
    spec fn spec_bytes(&self) -> Seq<u8>;

    /// The pattern's mask.
    spec fn spec_mask(&self) -> Seq<u8>;

    /// The representation invariant of the storage variant.
    spec fn well_formed(&self) -> bool;

    /// Whether this storage variant can hold a pattern of length `len`.
    spec fn fits(len: nat) -> bool;

    proof fn lemma_shape(&self)
        requires
            self.well_formed(),
        ensures
            self.spec_mask().len() == self.spec_bytes().len(),
            masked(self.spec_bytes(), self.spec_mask()) == self.spec_bytes(),
    ;

    /// Builds a pattern; fails on a length mismatch or a length the variant cannot hold.
    fn from_bytes_and_mask(bytes: &[u8], mask: &[u8]) -> (r: Option<Self>)
        ensures
            r is Some <==> bytes@.len() == mask@.len() && Self::fits(bytes@.len()),
            r matches Some(p) ==> p.well_formed() && p.spec_mask() == mask@ && p.spec_bytes()
                == masked(bytes@, mask@),
    ;

    fn bytes(&self) -> (r: &[u8])
        requires
            self.well_formed(),
        ensures
            r@ == self.spec_bytes(),
    ;

    fn mask(&self) -> (r: &[u8])
        requires
            self.well_formed(),
        ensures
            r@ == self.spec_mask(),
    ;

    fn len(&self) -> (r: usize)
        requires
            self.well_formed(),
        ensures
            r == self.spec_bytes().len(),
    ;

    /// Whether the pattern matches `haystack` at offset `pos`.
    fn matches_at(&self, haystack: &[u8], pos: usize) -> (r: bool)
        requires
            self.well_formed(),
            pos + self.spec_bytes().len() <= haystack@.len(),
        ensures
            r == window_matches(
                self.spec_bytes(),
                self.spec_mask(),
                haystack@.subrange(pos as int, pos + self.spec_bytes().len()),
            ),
    ;

    /// A pattern in which every byte is a literal.
    fn from_bytes(bytes: &[u8]) -> (r: Option<Self>)
        ensures
            r is Some <==> Self::fits(bytes@.len()),
            r matches Some(p) ==> p.well_formed() && p.spec_mask() == Seq::new(
                bytes@.len(),
                |i: int| 0xffu8,
            ) && p.spec_bytes() == masked(bytes@, p.spec_mask()),
    {
        let mask: Vec<u8> = vec![0xffu8; bytes.len()];
        let r = Self::from_bytes_and_mask(bytes, mask.as_slice());
        assert(mask@ =~= Seq::new(bytes@.len(), |i: int| 0xffu8));
        r
    }
}

/// The pattern `pat` held in the storage variant `P`.
pub fn from_pattern<P: Pattern, Q: Pattern>(pat: &Q) -> (r: P)
    requires
        pat.well_formed(),
        P::fits(pat.spec_bytes().len()),
    ensures
        r.well_formed(),
        r.spec_bytes() == pat.spec_bytes(),
        r.spec_mask() == pat.spec_mask(),
{
    proof {
        pat.lemma_shape();
    }
    P::from_bytes_and_mask(pat.bytes(), pat.mask()).unwrap()
}

/// Combines `bytes` with `mask`, position by position.
pub fn apply_mask(bytes: &[u8], mask: &[u8]) -> (r: Vec<u8>)
    requires
        bytes@.len() == mask@.len(),
    ensures
        r@ == masked(bytes@, mask@),
{
    let mut r: Vec<u8> = Vec::with_capacity(bytes.len());
    let mut i: usize = 0;
    while i < bytes.len()
        invariant
            i <= bytes@.len(),
            bytes@.len() == mask@.len(),
            r@ =~= masked(bytes@, mask@).subrange(0, i as int),
        decreases bytes@.len() - i,
    {
        r.push(bytes[i] & mask[i]);
        i += 1;
    }
    r
}

/// An owned copy of `s`.
pub fn copy_bytes(s: &[u8]) -> (r: Vec<u8>)
    ensures
        r@ == s@,
{
    let mut r: Vec<u8> = Vec::with_capacity(s.len());
    let mut i: usize = 0;
    while i < s.len()
        invariant
            i <= s@.len(),
            r@ =~= s@.subrange(0, i as int),
        decreases s@.len() - i,
    {
        r.push(s[i]);
        i += 1;
    }
    r
}

/// Masking twice is masking once.
pub proof fn lemma_masked_idempotent(bytes: Seq<u8>, mask: Seq<u8>)
    requires
        bytes.len() == mask.len(),
    ensures
        masked(masked(bytes, mask), mask) == masked(bytes, mask),
{
    assert forall|i: int| 0 <= i < bytes.len() implies #[trigger] (masked(bytes, mask)[i] & mask[i])
        == masked(bytes, mask)[i] by {
        let (b, m) = (bytes[i], mask[i]);
        assert((b & m) & m == b & m) by (bit_vector);
    }
    assert(masked(masked(bytes, mask), mask) =~= masked(bytes, mask));
}

/// Matching a window against a pattern built from raw bytes and a mask of full
/// and empty bytes is the same as comparing every literal position with the raw
/// byte and skipping every wildcard.
pub proof fn lemma_masked_equivalence(raw: Seq<u8>, mask: Seq<u8>, window: Seq<u8>)
    requires
        raw.len() == mask.len(),
        window.len() == raw.len(),
        forall|i: int| 0 <= i < mask.len() ==> #[trigger] mask[i] == 0 || mask[i] == 0xff,
    ensures
        window_matches(masked(raw, mask), mask, window) <==> forall|i: int|
            0 <= i < raw.len() ==> #[trigger] mask[i] == 0 || window[i] == raw[i],
{
    let b = masked(raw, mask);
    assert forall|i: int| 0 <= i < raw.len() implies ((window[i] & mask[i]) == b[i]) == (mask[i] == 0
        || window[i] == raw[i]) by {
        let (w, m, r) = (window[i], mask[i], raw[i]);
        assert(m == 0 ==> (w & m) == (r & m)) by (bit_vector);
        assert(m == 0xff ==> ((w & m) == (r & m)) == (w == r)) by (bit_vector);
    }
    if window_matches(b, mask, window) {
        assert forall|i: int| 0 <= i < raw.len() implies #[trigger] mask[i] == 0 || window[i] == raw[i] by {
            assert((window[i] & mask[i]) == b[i]);
        }
    }
}

/// A pattern stored as two plain byte vectors of the pattern's length.
pub struct BasicPattern {
    bytes: Vec<u8>,
    mask: Vec<u8>,
}

impl Pattern for BasicPattern {
    closed spec fn spec_bytes(&self) -> Seq<u8> {
        self.bytes@
    }

    closed spec fn spec_mask(&self) -> Seq<u8> {
        self.mask@
    }

    closed spec fn well_formed(&self) -> bool {
        &&& self.bytes@.len() == self.mask@.len()
        &&& masked(self.bytes@, self.mask@) == self.bytes@
    }

    open spec fn fits(len: nat) -> bool {
        true
    }

    proof fn lemma_shape(&self) {
    }

    fn from_bytes_and_mask(bytes: &[u8], mask: &[u8]) -> (r: Option<Self>) {
        if bytes.len() != mask.len() {
            return None;
        }
        let pre = apply_mask(bytes, mask);
        proof {
            lemma_masked_idempotent(bytes@, mask@);
        }
        Some(BasicPattern { bytes: pre, mask: copy_bytes(mask) })
    }

    fn bytes(&self) -> (r: &[u8]) {
        self.bytes.as_slice()
    }

    fn mask(&self) -> (r: &[u8]) {
        self.mask.as_slice()
    }

    fn len(&self) -> (r: usize) {
        self.bytes.len()
    }

    fn matches_at(&self, haystack: &[u8], pos: usize) -> (r: bool) {
        let n = self.bytes.len();
        let mut i: usize = 0;
        while i < n
            invariant
                self.well_formed(),
                n == self.bytes@.len(),
                pos + n <= haystack@.len(),
                i <= n,
                forall|k: int|
                    0 <= k < i ==> #[trigger] (haystack@[pos + k] & self.mask@[k]) == self.bytes@[k],
            decreases n - i,
        {
            if haystack[pos + i] & self.mask[i] != self.bytes[i] {
                assert(haystack@.subrange(pos as int, pos + n)[i as int] == haystack@[pos + i]);
                return false;
            }
            i += 1;
        }
        assert forall|k: int| 0 <= k < n implies #[trigger] (haystack@.subrange(
            pos as int,
            pos + n,
        )[k] & self.mask@[k]) == self.bytes@[k] by {
            assert(haystack@.subrange(pos as int, pos + n)[k] == haystack@[pos + k]);
        }
        true
    }
}

} // verus!
