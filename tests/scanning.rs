use pattern_scan::frequencies::DEFAULT_FREQUENCIES;
use pattern_scan::multi_needle_simd::MultiNeedleSimd;
use pattern_scan::needles::{find_needles, select_anchor};
use pattern_scan::pattern::{from_pattern, BasicPattern, Pattern};
use pattern_scan::scanner::{ScanError, Scanner};
use pattern_scan::simd_scanner::{SimdPattern, SimdScanner, SmallSimdPattern};

fn basic(bytes: &[u8], mask: &[u8]) -> BasicPattern {
    BasicPattern::from_bytes_and_mask(bytes, mask).unwrap()
}

fn distinct_literals<P: Pattern>(pat: &P) -> usize {
    let mut seen: Vec<u8> = Vec::new();
    for i in 0..pat.len() {
        if pat.mask()[i] == 0xff && !seen.contains(&pat.bytes()[i]) {
            seen.push(pat.bytes()[i]);
        }
    }
    seen.len()
}

fn multi_expected(pat_literals: usize, k: usize, expected: Option<usize>) -> Result<Option<usize>, ScanError> {
    if pat_literals < k {
        Err(ScanError::UnsupportedPattern)
    } else {
        Ok(expected)
    }
}

/// Every scanner gives `expected`, except that a scanner refuses a pattern with
/// fewer distinct literal bytes than it anchors on.
fn check_find_one<P: Pattern>(hay: &[u8], pat: &P, expected: Option<usize>) {
    let d = distinct_literals(pat);
    assert_eq!(SimdScanner::<4>::new().find_one(hay, pat), multi_expected(d, 1, expected));
    assert_eq!(SimdScanner::<32>::new().find_one(hay, pat), multi_expected(d, 1, expected));
    assert_eq!(SimdScanner::<1>::new().find_one(hay, pat), multi_expected(d, 1, expected));
    assert_eq!(MultiNeedleSimd::<4, 2>::new().find_one(hay, pat), multi_expected(d, 2, expected));
    assert_eq!(MultiNeedleSimd::<32, 1>::new().find_one(hay, pat), multi_expected(d, 1, expected));
    assert_eq!(MultiNeedleSimd::<16, 3>::new().find_one(hay, pat), multi_expected(d, 3, expected));
}

#[test]
fn wildcard_skips_byte() {
    let hay = [0x00, 0x01, 0x02, 0x41, 0x00, 0x42, 0x03];
    let pat = basic(&[0x41, 0x00, 0x42], &[0xff, 0x00, 0xff]);
    check_find_one(&hay, &pat, Some(3));
    let small = SmallSimdPattern::<32>::from_bytes_and_mask(&[0x41, 0x00, 0x42], &[0xff, 0x00, 0xff]).unwrap();
    check_find_one(&hay, &small, Some(3));
    let blocks = SimdPattern::<2>::from_bytes_and_mask(&[0x41, 0x00, 0x42], &[0xff, 0x00, 0xff]).unwrap();
    check_find_one(&hay, &blocks, Some(3));
}

#[test]
fn no_match_reported() {
    let hay = [0xAA, 0xAA, 0xAA, 0xAA];
    let pat = basic(&[0xBB], &[0xff]);
    check_find_one(&hay, &pat, None);
}

#[test]
fn find_all_lists_every_match() {
    let hay = [0x10, 0x20, 0x30, 0x10, 0x20, 0x30];
    let pat = basic(&[0x10, 0x20], &[0xff, 0xff]);
    assert_eq!(SimdScanner::<4>::new().find_all(&hay, &pat), Ok(vec![0, 3]));
    assert_eq!(SimdScanner::<32>::new().find_all(&hay, &pat), Ok(vec![0, 3]));
    assert_eq!(MultiNeedleSimd::<4, 2>::new().find_all(&hay, &pat), Ok(vec![0, 3]));
}

#[test]
fn find_all_keeps_overlapping_matches() {
    let hay = [0x61, 0x61, 0x61, 0x61];
    let pat = basic(&[0x61, 0x61], &[0xff, 0xff]);
    assert_eq!(SimdScanner::<2>::new().find_all(&hay, &pat), Ok(vec![0, 1, 2]));
    assert_eq!(MultiNeedleSimd::<2, 1>::new().find_all(&hay, &pat), Ok(vec![0, 1, 2]));
}

#[test]
fn find_next_resumes_after_a_match() {
    let hay = [0x10, 0x20, 0x30, 0x10, 0x20, 0x30];
    let pat = basic(&[0x10, 0x20], &[0xff, 0xff]);
    let s = SimdScanner::<4>::new();
    assert_eq!(s.find_next(&hay, &pat, 1), Ok(Some(3)));
    assert_eq!(s.find_next(&hay, &pat, 4), Ok(None));
    assert_eq!(s.find_next(&hay, &pat, 100), Ok(None));
}

#[test]
fn multi_anchor_unsupported_with_one_literal() {
    let hay = [0x00, 0x41, 0x00, 0x00];
    let pat = basic(&[0x41, 0x00, 0x00], &[0xff, 0x00, 0x00]);
    let s = MultiNeedleSimd::<4, 2>::new();
    assert_eq!(s.find_one(&hay, &pat), Err(ScanError::UnsupportedPattern));
    assert_eq!(s.find_all(&hay, &pat), Err(ScanError::UnsupportedPattern));
    assert_eq!(s.find_next(&hay, &pat, 1), Err(ScanError::UnsupportedPattern));
    // a single anchor suffices for the same pattern
    assert_eq!(MultiNeedleSimd::<4, 1>::new().find_one(&hay, &pat), Ok(Some(1)));
    assert_eq!(SimdScanner::<4>::new().find_one(&hay, &pat), Ok(Some(1)));
}

#[test]
fn multi_anchor_unsupported_with_repeated_literal() {
    let pat = basic(&[0x41, 0x41, 0x41], &[0xff, 0xff, 0xff]);
    let s = MultiNeedleSimd::<4, 2>::new();
    assert_eq!(s.find_one(&[0x41, 0x41, 0x41], &pat), Err(ScanError::UnsupportedPattern));
    assert_eq!(SimdScanner::<4>::new().find_one(&[0x41, 0x41, 0x41], &pat), Ok(Some(0)));
}

#[test]
fn construction_rejects_length_mismatch() {
    let bytes = [1, 2, 3, 4, 5];
    let mask = [0xff, 0xff, 0xff, 0xff];
    assert!(BasicPattern::from_bytes_and_mask(&bytes, &mask).is_none());
    assert!(SimdPattern::<4>::from_bytes_and_mask(&bytes, &mask).is_none());
    assert!(SmallSimdPattern::<32>::from_bytes_and_mask(&bytes, &mask).is_none());
}

#[test]
fn small_pattern_capacity_enforced() {
    let bytes = [7u8; 5];
    let mask = [0xffu8; 5];
    assert!(SmallSimdPattern::<4>::from_bytes_and_mask(&bytes, &mask).is_none());
    assert!(SmallSimdPattern::<8>::from_bytes_and_mask(&bytes, &mask).is_some());
    assert!(SmallSimdPattern::<5>::from_bytes_and_mask(&bytes, &mask).is_some());
    assert!(SimdPattern::<4>::from_bytes_and_mask(&bytes, &mask).is_some());
    let zero_width = SimdPattern::<0>::from_bytes_and_mask(&bytes, &mask).unwrap();
    assert_eq!(zero_width.len(), 5);
    assert!(zero_width.matches_at(&[0, 7, 7, 7, 7, 7], 1));
    assert!(!zero_width.matches_at(&[0, 7, 7, 7, 7, 6], 1));
}

#[test]
fn construction_premasks_bytes() {
    let pat = basic(&[0xAB, 0xCD, 0xEF], &[0xff, 0x00, 0x0f]);
    assert_eq!(pat.bytes(), &[0xAB, 0x00, 0x0F]);
    assert_eq!(pat.mask(), &[0xff, 0x00, 0x0f]);
    assert_eq!(pat.len(), 3);
    let blocks = SimdPattern::<2>::from_bytes_and_mask(&[0xAB, 0xCD, 0xEF], &[0xff, 0x00, 0x0f]).unwrap();
    assert_eq!(blocks.bytes(), &[0xAB, 0x00, 0x0F]);
    assert_eq!(blocks.mask(), &[0xff, 0x00, 0x0f]);
    assert_eq!(blocks.len(), 3);
    let small = SmallSimdPattern::<8>::from_bytes_and_mask(&[0xAB, 0xCD, 0xEF], &[0xff, 0x00, 0x0f]).unwrap();
    assert_eq!(small.bytes(), &[0xAB, 0x00, 0x0F]);
    assert_eq!(small.len(), 3);
}

#[test]
fn from_bytes_makes_every_byte_literal() {
    let pat = BasicPattern::from_bytes(&[1, 2, 3]).unwrap();
    assert_eq!(pat.mask(), &[0xff, 0xff, 0xff]);
    assert!(pat.matches_at(&[9, 1, 2, 3], 1));
    assert!(!pat.matches_at(&[9, 1, 2, 4], 1));
    assert!(SmallSimdPattern::<2>::from_bytes(&[1, 2, 3]).is_none());
}

#[test]
fn from_pattern_converts_storage() {
    let pat = basic(&[0x41, 0x00, 0x42], &[0xff, 0x00, 0xff]);
    let small: SmallSimdPattern<16> = from_pattern(&pat);
    assert_eq!(small.bytes(), pat.bytes());
    assert_eq!(small.mask(), pat.mask());
    let blocks: SimdPattern<2> = from_pattern(&small);
    assert_eq!(blocks.bytes(), pat.bytes());
}

#[test]
fn matches_at_masked_equivalence() {
    let raw = [0x12, 0x34, 0x56];
    let mask = [0xff, 0x00, 0xff];
    let window_ok = [0x12, 0x99, 0x56];
    let window_bad = [0x12, 0x34, 0x57];
    let b = basic(&raw, &mask);
    let s = SmallSimdPattern::<4>::from_bytes_and_mask(&raw, &mask).unwrap();
    let c = SimdPattern::<2>::from_bytes_and_mask(&raw, &mask).unwrap();
    for w in [window_ok, window_bad] {
        let expected = (0..3).all(|i| mask[i] == 0 || w[i] == raw[i]);
        assert_eq!(b.matches_at(&w, 0), expected);
        assert_eq!(s.matches_at(&w, 0), expected);
        assert_eq!(c.matches_at(&w, 0), expected);
    }
}

#[test]
fn partial_mask_compares_masked_bits() {
    let pat = basic(&[0xA5], &[0xf0]);
    assert!(pat.matches_at(&[0xAF], 0));
    assert!(!pat.matches_at(&[0xB5], 0));
}

#[test]
fn match_in_unaligned_tail_is_found() {
    let mut hay = vec![0u8; 37];
    hay[35] = 0x7E;
    hay[36] = 0x7F;
    let pat = basic(&[0x7E, 0x7F], &[0xff, 0xff]);
    check_find_one(&hay, &pat, Some(35));
}

#[test]
fn match_at_offset_zero_is_found() {
    let hay = [0x7E, 0x7F, 0, 0, 0, 0, 0, 0, 0, 0];
    let pat = basic(&[0x7E, 0x7F], &[0xff, 0xff]);
    check_find_one(&hay, &pat, Some(0));
}

#[test]
fn pattern_longer_than_haystack() {
    let pat = basic(&[1, 2, 3, 4], &[0xff; 4]);
    check_find_one(&[1, 2, 3], &pat, None);
    assert_eq!(SimdScanner::<4>::new().find_all(&[1, 2, 3], &pat), Ok(vec![]));
}

#[test]
fn empty_haystack() {
    let pat = basic(&[1], &[0xff]);
    check_find_one(&[], &pat, None);
}

#[test]
fn pattern_without_literal_is_refused() {
    let pat = basic(&[], &[]);
    assert_eq!(SimdScanner::<4>::new().find_one(&[5, 6], &pat), Err(ScanError::UnsupportedPattern));
    assert_eq!(SimdScanner::<4>::new().find_all(&[5, 6], &pat), Err(ScanError::UnsupportedPattern));
    assert_eq!(MultiNeedleSimd::<4, 1>::new().find_one(&[5, 6], &pat), Err(ScanError::UnsupportedPattern));
    let wild = basic(&[0x11], &[0x00]);
    assert_eq!(SimdScanner::<32>::new().find_one(&[0x11], &wild), Err(ScanError::UnsupportedPattern));
    assert_eq!(SimdScanner::<32>::new().find_next(&[0x11], &wild, 0), Err(ScanError::UnsupportedPattern));
}

#[test]
fn all_wildcard_pattern_is_refused() {
    let pat = basic(&[0, 0], &[0, 0]);
    check_find_one(&[9, 8, 7], &pat, Some(0));
    assert_eq!(SimdScanner::<4>::new().find_one(&[9, 8, 7], &pat), Err(ScanError::UnsupportedPattern));
}

#[test]
fn leftmost_of_several_matches() {
    let hay = [0, 0x41, 0x42, 0, 0x41, 0x42, 0x41, 0x42];
    let pat = basic(&[0x41, 0x42], &[0xff, 0xff]);
    check_find_one(&hay, &pat, Some(1));
}

#[test]
fn scanners_agree_on_long_haystack() {
    let mut hay: Vec<u8> = (0..4096u32).map(|i| (i.wrapping_mul(2654435761) >> 13) as u8).collect();
    let sig = [0x48, 0x89, 0x5c, 0x24, 0x00, 0x48, 0x89, 0x74];
    let mask = [0xff, 0xff, 0xff, 0xff, 0x00, 0xff, 0xff, 0xff];
    hay[3001..3009].copy_from_slice(&sig);
    hay[3005] = 0x33;
    let pat = basic(&sig, &mask);
    let naive = (0..=hay.len() - sig.len())
        .find(|&o| (0..sig.len()).all(|i| mask[i] == 0 || hay[o + i] == sig[i]));
    check_find_one(&hay, &pat, naive);
    assert!(naive.is_some());
    assert!(naive.unwrap() <= 3001);
}

#[test]
fn anchor_is_rarest_literal() {
    let mut freqs = [100u8; 256];
    freqs[0x10] = 5;
    freqs[0x20] = 1;
    freqs[0x30] = 1;
    let n = select_anchor(&[0x10, 0x20, 0x30, 0x40], &[0xff, 0xff, 0xff, 0xff], &freqs).unwrap();
    assert_eq!((n.index, n.value), (1, 0x20));
    // the wildcard byte is never an anchor
    let n = select_anchor(&[0x10, 0x20, 0x30], &[0xff, 0x00, 0x00], &freqs).unwrap();
    assert_eq!((n.index, n.value), (0, 0x10));
    assert!(select_anchor(&[0x10], &[0x00], &freqs).is_none());
}

#[test]
fn needles_are_distinct_literals_by_position() {
    let mut freqs = [50u8; 256];
    freqs[0xCC] = 1;
    freqs[0xAA] = 2;
    freqs[0xBB] = 3;
    let pat = basic(&[0xBB, 0xCC, 0x00, 0xAA, 0xCC], &[0xff, 0xff, 0x00, 0xff, 0xff]);
    let ns = find_needles(&pat, &freqs, 2).unwrap();
    let got: Vec<(usize, u8)> = ns.iter().map(|n| (n.index, n.value)).collect();
    assert_eq!(got, vec![(1, 0xCC), (3, 0xAA)]);
    let ns = find_needles(&pat, &freqs, 3).unwrap();
    let got: Vec<(usize, u8)> = ns.iter().map(|n| (n.index, n.value)).collect();
    assert_eq!(got, vec![(0, 0xBB), (1, 0xCC), (3, 0xAA)]);
    assert!(find_needles(&pat, &freqs, 4).is_none());
    assert_eq!(find_needles(&pat, &freqs, 0).unwrap().len(), 0);
}

#[test]
fn needles_skip_repeated_values() {
    let freqs = [7u8; 256];
    let pat = basic(&[0xAA, 0xAA, 0xBB], &[0xff, 0xff, 0xff]);
    let ns = find_needles(&pat, &freqs, 2).unwrap();
    let got: Vec<(usize, u8)> = ns.iter().map(|n| (n.index, n.value)).collect();
    assert_eq!(got, vec![(0, 0xAA), (2, 0xBB)]);
}

#[test]
fn needles_ties_keep_first_seen() {
    let freqs = [7u8; 256];
    let pat = basic(&[0x01, 0x02, 0x03], &[0xff, 0xff, 0xff]);
    let ns = find_needles(&pat, &freqs, 2).unwrap();
    let got: Vec<(usize, u8)> = ns.iter().map(|n| (n.index, n.value)).collect();
    assert_eq!(got, vec![(0, 0x01), (1, 0x02)]);
}

#[test]
fn frequency_tables() {
    assert_eq!(SimdScanner::<32>::new().frequencies, DEFAULT_FREQUENCIES);
    assert_eq!(SimdScanner::<32>::default().frequencies, DEFAULT_FREQUENCIES);
    assert_eq!(MultiNeedleSimd::<32, 2>::new().frequencies, DEFAULT_FREQUENCIES);
    assert_eq!(MultiNeedleSimd::<32, 2>::default().frequencies, DEFAULT_FREQUENCIES);
    let t = [3u8; 256];
    assert_eq!(SimdScanner::<32>::with_frequencies(t).frequencies, t);
    assert_eq!(MultiNeedleSimd::<32, 2>::with_frequencies(t).frequencies, t);
    assert_eq!(DEFAULT_FREQUENCIES[0], 0xFF);
    assert_eq!(DEFAULT_FREQUENCIES[255], 0xFD);
}

#[test]
fn custom_frequencies_do_not_change_results() {
    let hay = [0x00, 0x01, 0x02, 0x41, 0x00, 0x42, 0x03];
    let pat = basic(&[0x41, 0x00, 0x42], &[0xff, 0x00, 0xff]);
    let mut t = [9u8; 256];
    t[0x42] = 0;
    assert_eq!(SimdScanner::<2>::with_frequencies(t).find_one(&hay, &pat), Ok(Some(3)));
    assert_eq!(MultiNeedleSimd::<2, 2>::with_frequencies(t).find_one(&hay, &pat), Ok(Some(3)));
}

#[test]
fn multi_anchor_refuses_instead_of_matching() {
    let hay = [0x41, 0x00, 0x41, 0x00];
    let pat = basic(&[0x41, 0x00], &[0xff, 0x00]);
    assert_eq!(MultiNeedleSimd::<32, 2>::new().find_one(&hay, &pat), Err(ScanError::UnsupportedPattern));
    assert_eq!(SimdScanner::<32>::new().find_one(&hay, &pat), Ok(Some(0)));
    assert_eq!(SimdScanner::<32>::new().find_all(&hay, &pat), Ok(vec![0, 2]));
}
