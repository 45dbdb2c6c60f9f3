//! Choosing the literal bytes of a pattern that the scanners filter on.
use crate::pattern::{is_literal, Pattern};
use crate::scan::{needle_valid, needles_valid, Needle};
use itertools::Itertools;
use vstd::prelude::*;

verus! {

/// The rarity rank of byte `b` under `freqs`.
pub open spec fn rank(freqs: [u8; 256], b: u8) -> u8 {
    freqs@[b as int]
}

/// The single anchor: the literal position whose byte is rarest, the earliest
/// one among equally rare bytes; `None` when the pattern has no literal position.
pub fn select_anchor(bytes: &[u8], mask: &[u8], freqs: &[u8; 256]) -> (r: Option<Needle>)
    requires
        bytes@.len() == mask@.len(),
    ensures
        r is None <==> forall|i: int| 0 <= i < bytes@.len() ==> !is_literal(mask@, i),
        r matches Some(n) ==> {
            &&& needle_valid(bytes@, mask@, n)
            &&& forall|i: int|
                0 <= i < bytes@.len() && is_literal(mask@, i) ==> rank(*freqs, n.value) <= rank(
                    *freqs,
                    #[trigger] bytes@[i],
                )
            &&& forall|i: int|
                0 <= i < n.index && is_literal(mask@, i) ==> rank(*freqs, n.value) < rank(
                    *freqs,
                    #[trigger] bytes@[i],
                )
        },
{
    let mut best: Option<Needle> = None;
    let mut i: usize = 0;
    while i < bytes.len()
        invariant
            bytes@.len() == mask@.len(),
            i <= bytes@.len(),
            best is None <==> forall|k: int| 0 <= k < i ==> !is_literal(mask@, k),
            best matches Some(n) ==> {
                &&& n.index < i
                &&& needle_valid(bytes@, mask@, n)
                &&& forall|k: int|
                    0 <= k < i && is_literal(mask@, k) ==> rank(*freqs, n.value) <= rank(
                        *freqs,
                        #[trigger] bytes@[k],
                    )
                &&& forall|k: int|
                    0 <= k < n.index && is_literal(mask@, k) ==> rank(*freqs, n.value) < rank(
                        *freqs,
                        #[trigger] bytes@[k],
                    )
            },
        decreases bytes@.len() - i,
    {
        if mask[i] == 0xff {
            let b = bytes[i];
            match best {
                None => {
                    best = Some(Needle { index: i, value: b });
                },
                Some(n) => {
                    if freqs[b as usize] < freqs[n.value as usize] {
                        best = Some(Needle { index: i, value: b });
                    }
                },
            }
        }
        proof {
            if let Some(n) = best {
                assert(is_literal(mask@, n.index as int));
            }
        }
        i += 1;
    }
    best
}

/// The single-anchor filter of a pattern: its rarest literal byte, or no needle
/// at all when it has no literal position.
pub fn anchor_needles<P: Pattern>(pat: &P, freqs: &[u8; 256]) -> (r: Vec<Needle>)
    requires
        pat.well_formed(),
    ensures
        needles_valid(pat.spec_bytes(), pat.spec_mask(), r@),
        r@.len() <= 1,
        r@.len() == 0 <==> forall|i: int|
            0 <= i < pat.spec_bytes().len() ==> !is_literal(pat.spec_mask(), i),
        r@.len() == 1 ==> {
            &&& forall|i: int|
                0 <= i < pat.spec_bytes().len() && is_literal(pat.spec_mask(), i) ==> rank(
                    *freqs,
                    r@[0].value,
                ) <= rank(*freqs, #[trigger] pat.spec_bytes()[i])
            &&& forall|i: int|
                0 <= i < r@[0].index && is_literal(pat.spec_mask(), i) ==> rank(*freqs, r@[0].value)
                    < rank(*freqs, #[trigger] pat.spec_bytes()[i])
        },
{
    proof {
        pat.lemma_shape();
    }
    match select_anchor(pat.bytes(), pat.mask(), freqs) {
        Some(n) => {
            let needles: Vec<Needle> = vec![n];
            assert(needles@[0] == n);
            needles
        },
        None => Vec::new(),
    }
}

/// The byte values of a needle sequence, in order.
pub open spec fn values_of(s: Seq<Needle>) -> Seq<u8> {
    s.map_values(|n: Needle| n.value)
}

/// No two needles of `s` share a byte value.
pub open spec fn values_distinct(s: Seq<Needle>) -> bool {
    forall|a: int, b: int| 0 <= a < b < s.len() ==> (#[trigger] s[a]).value != (#[trigger] s[b]).value
}

/// The needles of `s` stand at strictly ascending pattern positions.
pub open spec fn by_position(s: Seq<Needle>) -> bool {
    forall|a: int, b: int| 0 <= a < b < s.len() ==> (#[trigger] s[a]).index < (#[trigger] s[b]).index
}

/// `x` is rarer than `y`, or as rare and earlier in the pattern.
pub open spec fn ranks_before(freqs: [u8; 256], x: Needle, y: Needle) -> bool {
    rank(freqs, x.value) < rank(freqs, y.value) || (rank(freqs, x.value) == rank(freqs, y.value)
        && x.index < y.index)
}

/// The needles of `s` are ordered from rarest to most common, equally rare ones
/// by position.
pub open spec fn by_rank(freqs: [u8; 256], s: Seq<Needle>) -> bool {
    forall|a: int, b: int| 0 <= a < b < s.len() ==> ranks_before(freqs, #[trigger] s[a], #[trigger] s[b])
}

/// Each needle of `s` stands at the first literal position holding its value.
pub open spec fn first_seen(bytes: Seq<u8>, mask: Seq<u8>, s: Seq<Needle>) -> bool {
    forall|k: int, j: int|
        0 <= k < s.len() && 0 <= j < (#[trigger] s[k]).index && is_literal(mask, j) ==> #[trigger] bytes[j]
            != s[k].value
}

/// `count` literal positions of the pattern hold pairwise distinct byte values.
pub open spec fn can_choose(bytes: Seq<u8>, mask: Seq<u8>, count: nat) -> bool {
    exists|s: Seq<Needle>|
        s.len() == count && needles_valid(bytes, mask, s) && #[trigger] values_distinct(s)
}

/// The distinct byte values found at literal positions of the pattern.
pub open spec fn literal_values(bytes: Seq<u8>, mask: Seq<u8>) -> Set<u8> {
    Set::new(|v: u8| exists|i: int| 0 <= i < bytes.len() && is_literal(mask, i) && bytes[i] == v)
}

/// The literal values of a pattern are finitely many, as the pattern is.
pub proof fn lemma_literal_values_finite(bytes: Seq<u8>, mask: Seq<u8>)
    ensures
        literal_values(bytes, mask).finite(),
        literal_values(bytes, mask).len() <= bytes.len(),
{
    assert(literal_values(bytes, mask).subset_of(bytes.to_set())) by {
        assert forall|v: u8| literal_values(bytes, mask).contains(v) implies bytes.to_set().contains(v) by {
            let i = choose|i: int| 0 <= i < bytes.len() && is_literal(mask, i) && bytes[i] == v;
            assert(bytes.contains(v)) by {
                assert(bytes[i] == v);
            }
        }
    }
    vstd::seq_lib::seq_to_set_is_finite(bytes);
    bytes.lemma_cardinality_of_set();
    vstd::set_lib::lemma_len_subset(literal_values(bytes, mask), bytes.to_set());
}

/// Needles of pairwise distinct values are at most as many as the literal values.
proof fn lemma_distinct_needles_bound(bytes: Seq<u8>, mask: Seq<u8>, s: Seq<Needle>)
    requires
        needles_valid(bytes, mask, s),
        values_distinct(s),
    ensures
        s.len() <= literal_values(bytes, mask).len(),
{
    let vs = values_of(s);
    let lit = literal_values(bytes, mask);
    assert(vs.no_duplicates()) by {
        assert forall|a: int, b: int| 0 <= a < vs.len() && 0 <= b < vs.len() && a != b implies vs[a] != vs[b] by {
            if a < b {
                assert(s[a].value != s[b].value);
            } else {
                assert(s[b].value != s[a].value);
            }
        }
    }
    vs.unique_seq_to_set();
    assert(vs.to_set().subset_of(lit)) by {
        assert forall|v: u8| vs.to_set().contains(v) implies lit.contains(v) by {
            let k = choose|k: int| 0 <= k < vs.len() && vs[k] == v;
            assert(needle_valid(bytes, mask, s[k]));
            assert(bytes[s[k].index as int] == v);
        }
    }
    lemma_literal_values_finite(bytes, mask);
    vstd::set_lib::lemma_len_subset(vs.to_set(), lit);
}

/// Needles of pairwise distinct values that cover every literal value are
/// exactly as many as the literal values.
proof fn lemma_covering_needles_count(bytes: Seq<u8>, mask: Seq<u8>, s: Seq<Needle>)
    requires
        needles_valid(bytes, mask, s),
        values_distinct(s),
        forall|i: int|
            0 <= i < bytes.len() && is_literal(mask, i) ==> values_of(s).contains(#[trigger] bytes[i]),
    ensures
        literal_values(bytes, mask).len() == s.len(),
{
    let vs = values_of(s);
    let lit = literal_values(bytes, mask);
    assert(vs.no_duplicates()) by {
        assert forall|a: int, b: int| 0 <= a < vs.len() && 0 <= b < vs.len() && a != b implies vs[a] != vs[b] by {
            if a < b {
                assert(s[a].value != s[b].value);
            } else {
                assert(s[b].value != s[a].value);
            }
        }
    }
    vs.unique_seq_to_set();
    assert(vs.to_set() =~= lit) by {
        assert forall|v: u8| vs.to_set().contains(v) implies lit.contains(v) by {
            let k = choose|k: int| 0 <= k < vs.len() && vs[k] == v;
            assert(needle_valid(bytes, mask, s[k]));
            assert(bytes[s[k].index as int] == v);
        }
        assert forall|v: u8| lit.contains(v) implies vs.to_set().contains(v) by {
            let i = choose|i: int| 0 <= i < bytes.len() && is_literal(mask, i) && bytes[i] == v;
            assert(vs.contains(bytes[i]));
        }
    }
}

/// Every literal byte of the pattern that `s` leaves out is at least as common
/// as each byte that `s` holds, and a chosen byte exactly as common stands earlier.
pub open spec fn rarest_chosen(bytes: Seq<u8>, mask: Seq<u8>, freqs: [u8; 256], s: Seq<Needle>) -> bool {
    forall|i: int|
        0 <= i < bytes.len() && is_literal(mask, i) && !values_of(s).contains(#[trigger] bytes[i])
            ==> forall|k: int| 0 <= k < s.len() ==> left_out_after(freqs, #[trigger] s[k], bytes[i], i)
}

/// The chosen needle `c` beats the byte `v` left out at position `i`.
pub open spec fn left_out_after(freqs: [u8; 256], c: Needle, v: u8, i: int) -> bool {
    rank(freqs, c.value) < rank(freqs, v) || (rank(freqs, c.value) == rank(freqs, v) && c.index < i)
}

/// Relies on itertools::Itertools::contains: true iff some item of the iterator equals the query.
#[verifier::external_body]
fn holds_value(cands: &Vec<Needle>, b: u8) -> (r: bool)
    ensures
        r == values_of(cands@).contains(b),
{
    Itertools::contains(&mut cands.iter().map(|c| c.value), &b)
}

proof fn lemma_values_index(s: Seq<Needle>, k: int)
    requires
        0 <= k < s.len(),
    ensures
        values_of(s).contains(s[k].value),
{
    assert(values_of(s)[k] == s[k].value);
}

proof fn lemma_values_witness(s: Seq<Needle>, v: u8) -> (k: int)
    requires
        values_of(s).contains(v),
    ensures
        0 <= k < s.len(),
        s[k].value == v,
{
    let k = choose|k: int| 0 <= k < values_of(s).len() && values_of(s)[k] == v;
    k
}

/// `cands` with `n` placed before the first needle strictly more common than it.
/// Returns the place.
fn insert_by_rank(cands: &mut Vec<Needle>, n: Needle, freqs: &[u8; 256]) -> (p: usize)
    requires
        by_rank(*freqs, old(cands)@),
        forall|k: int| 0 <= k < old(cands)@.len() ==> (#[trigger] old(cands)@[k]).index < n.index,
    ensures
        p <= old(cands)@.len(),
        final(cands)@ == old(cands)@.insert(p as int, n),
        by_rank(*freqs, final(cands)@),
{
    let mut p: usize = 0;
    while p < cands.len() && freqs[cands[p].value as usize] <= freqs[n.value as usize]
        invariant
            p <= cands@.len(),
            forall|k: int| 0 <= k < cands@.len() ==> (#[trigger] cands@[k]).index < n.index,
            forall|k: int| 0 <= k < p ==> rank(*freqs, (#[trigger] cands@[k]).value) <= rank(*freqs, n.value),
        decreases cands@.len() - p,
    {
        p += 1;
    }
    let ghost before = cands@;
    cands.insert(p, n);
    proof {
        before.insert_ensures(p as int, n);
        assert forall|a: int, b: int| 0 <= a < b < cands@.len() implies ranks_before(
            *freqs,
            #[trigger] cands@[a],
            #[trigger] cands@[b],
        ) by {
            if b < p {
            } else if b == p {
                assert(before[a].index < n.index);
            } else if a < p {
                assert(cands@[b] == before[b - 1]);
                assert(rank(*freqs, before[p as int].value) > rank(*freqs, n.value));
                assert(ranks_before(*freqs, before[p as int], before[b - 1]) || p == b - 1);
            } else if a == p {
                assert(cands@[b] == before[b - 1]);
                assert(ranks_before(*freqs, before[p as int], before[b - 1]) || p == b - 1);
            } else {
                assert(cands@[a] == before[a - 1]);
                assert(cands@[b] == before[b - 1]);
            }
        }
    }
    p
}

/// The needle of `cands` standing at pattern position `idx`, if any.
fn needle_at(cands: &Vec<Needle>, idx: usize) -> (r: Option<Needle>)
    ensures
        r matches Some(n) ==> cands@.contains(n) && n.index == idx,
        r is None ==> forall|k: int| 0 <= k < cands@.len() ==> (#[trigger] cands@[k]).index != idx,
{
    let mut k: usize = 0;
    while k < cands.len()
        invariant
            k <= cands@.len(),
            forall|q: int| 0 <= q < k ==> (#[trigger] cands@[q]).index != idx,
        decreases cands@.len() - k,
    {
        if cands[k].index == idx {
            assert(cands@[k as int] == cands[k as int]);
            return Some(cands[k]);
        }
        k += 1;
    }
    None
}

proof fn lemma_insert_values(s: Seq<Needle>, p: int, n: Needle, v: u8)
    requires
        0 <= p <= s.len(),
    ensures
        values_of(s.insert(p, n)).contains(v) <==> (values_of(s).contains(v) || v == n.value),
{
    s.insert_ensures(p, n);
    let t = s.insert(p, n);
    if values_of(t).contains(v) {
        let k = lemma_values_witness(t, v);
        if k < p {
            lemma_values_index(s, k);
        } else if k > p {
            lemma_values_index(s, k - 1);
        }
    }
    if values_of(s).contains(v) {
        let k = lemma_values_witness(s, v);
        if k < p {
            lemma_values_index(t, k);
        } else {
            lemma_values_index(t, k + 1);
        }
    }
    if v == n.value {
        lemma_values_index(t, p);
    }
}

proof fn lemma_drop_last_values(s: Seq<Needle>, v: u8)
    requires
        s.len() > 0,
    ensures
        values_of(s.drop_last()).contains(v) ==> values_of(s).contains(v),
        values_of(s).contains(v) && v != s.last().value ==> values_of(s.drop_last()).contains(v),
{
    let t = s.drop_last();
    if values_of(t).contains(v) {
        let k = lemma_values_witness(t, v);
        lemma_values_index(s, k);
    }
    if values_of(s).contains(v) && v != s.last().value {
        let k = lemma_values_witness(s, v);
        lemma_values_index(t, k);
    }
}

/// Adding a needle whose value is new keeps the values distinct and the needles valid.
proof fn lemma_insert_keeps(bytes: Seq<u8>, mask: Seq<u8>, s: Seq<Needle>, p: int, n: Needle)
    requires
        0 <= p <= s.len(),
        needles_valid(bytes, mask, s),
        needle_valid(bytes, mask, n),
        values_distinct(s),
        !values_of(s).contains(n.value),
    ensures
        needles_valid(bytes, mask, s.insert(p, n)),
        values_distinct(s.insert(p, n)),
{
    s.insert_ensures(p, n);
    let t = s.insert(p, n);
    assert forall|k: int| 0 <= k < t.len() implies needle_valid(bytes, mask, #[trigger] t[k]) by {
        if k > p {
            assert(t[k] == s[k - 1]);
        }
    }
    assert forall|a: int, b: int| 0 <= a < b < t.len() implies (#[trigger] t[a]).value != (
    #[trigger] t[b]).value by {
        if a == p {
            lemma_values_index(s, b - 1);
        } else if b == p {
            lemma_values_index(s, a);
        } else {
            let a2 = if a < p { a } else { a - 1 };
            let b2 = if b < p { b } else { b - 1 };
            assert(t[a] == s[a2] && t[b] == s[b2]);
        }
    }
}

/// The selection pass: walks the literal positions left to right and keeps, ordered
/// from rarest, at most `count` needles of distinct values; a new value enters when
/// there is room or when it is strictly rarer than the most common one kept, which it evicts.
fn rank_candidates(bytes: &[u8], mask: &[u8], freqs: &[u8; 256], count: usize) -> (r: Vec<Needle>)
    requires
        bytes@.len() == mask@.len(),
    ensures
        r@.len() <= count,
        needles_valid(bytes@, mask@, r@),
        values_distinct(r@),
        by_rank(*freqs, r@),
        first_seen(bytes@, mask@, r@),
        r@.len() < count ==> forall|i: int|
            0 <= i < bytes@.len() && is_literal(mask@, i) ==> values_of(r@).contains(#[trigger] bytes@[i]),
        rarest_chosen(bytes@, mask@, *freqs, r@),
{
    let mut cands: Vec<Needle> = Vec::new();
    let mut i: usize = 0;
    while i < bytes.len()
        invariant
            bytes@.len() == mask@.len(),
            i <= bytes@.len(),
            cands@.len() <= count,
            needles_valid(bytes@, mask@, cands@),
            forall|k: int| 0 <= k < cands@.len() ==> (#[trigger] cands@[k]).index < i,
            values_distinct(cands@),
            by_rank(*freqs, cands@),
            first_seen(bytes@, mask@, cands@),
            cands@.len() < count ==> forall|j: int|
                0 <= j < i && is_literal(mask@, j) ==> values_of(cands@).contains(#[trigger] bytes@[j]),
            forall|j: int|
                0 <= j < i && is_literal(mask@, j) && !values_of(cands@).contains(#[trigger] bytes@[j])
                    ==> forall|k: int| 0 <= k < cands@.len() ==> left_out_after(*freqs, #[trigger] cands@[k], bytes@[j], j),
        decreases bytes@.len() - i,
    {
        let ghost prev = cands@;
        if mask[i] == 0xff {
            let b = bytes[i];
            let n = Needle { index: i, value: b };
            if !holds_value(&cands, b) {
                if cands.len() < count {
                    let p = insert_by_rank(&mut cands, n, freqs);
                    proof {
                        prev.insert_ensures(p as int, n);
                        lemma_insert_keeps(bytes@, mask@, prev, p as int, n);
                        assert forall|j: int| 0 <= j <= i && is_literal(mask@, j) implies values_of(cands@).contains(#[trigger] bytes@[j]) by {
                            lemma_insert_values(prev, p as int, n, bytes@[j]);
                        }
                        assert forall|k: int, j: int|
                            0 <= k < cands@.len() && 0 <= j < (#[trigger] cands@[k]).index && is_literal(mask@, j)
                            implies #[trigger] bytes@[j] != cands@[k].value by {
                            if k == p {
                                assert(values_of(prev).contains(bytes@[j]));
                            } else {
                                let k2 = if k < p { k } else { k - 1 };
                                assert(cands@[k] == prev[k2]);
                            }
                        }
                        assert forall|k: int| 0 <= k < cands@.len() implies (#[trigger] cands@[k]).index < i + 1 by {
                            if k != p {
                                let k2 = if k < p { k } else { k - 1 };
                                assert(cands@[k] == prev[k2]);
                            }
                        }
                    }
                } else if count > 0 && freqs[b as usize] < freqs[cands[cands.len() - 1].value as usize] {
                    let ghost w = prev.last();
                    cands.pop();
                    let ghost kept = cands@;
                    assert(kept == prev.drop_last());
                    proof {
                        assert forall|k: int| 0 <= k < kept.len() implies needle_valid(bytes@, mask@, #[trigger] kept[k]) by {
                            assert(kept[k] == prev[k]);
                        }
                        assert forall|a: int, c: int| 0 <= a < c < kept.len() implies (#[trigger] kept[a]).value != (#[trigger] kept[c]).value by {
                            assert(kept[a] == prev[a] && kept[c] == prev[c]);
                        }
                        assert forall|a: int, c: int| 0 <= a < c < kept.len() implies ranks_before(*freqs, #[trigger] kept[a], #[trigger] kept[c]) by {
                            assert(kept[a] == prev[a] && kept[c] == prev[c]);
                        }
                        assert forall|k: int| 0 <= k < kept.len() implies (#[trigger] kept[k]).index < n.index by {
                            assert(kept[k] == prev[k]);
                        }
                        lemma_drop_last_values(prev, b);
                    }
                    let p = insert_by_rank(&mut cands, n, freqs);
                    proof {
                        lemma_insert_keeps(bytes@, mask@, kept, p as int, n);
                        kept.insert_ensures(p as int, n);
                        assert(rank(*freqs, b) < rank(*freqs, w.value));
                        assert forall|k: int| 0 <= k < cands@.len() && k != p implies #[trigger] cands@[k] == prev[if k < p { k } else { k - 1 }] by {
                        }
                        assert forall|k: int| 0 <= k < cands@.len() implies (#[trigger] cands@[k]).index < i + 1 by {
                            if k != p {
                                assert(cands@[k] == prev[if k < p { k } else { k - 1 }]);
                            }
                        }
                        assert forall|k: int, j: int|
                            0 <= k < cands@.len() && 0 <= j < (#[trigger] cands@[k]).index && is_literal(mask@, j)
                            implies #[trigger] bytes@[j] != cands@[k].value by {
                            if k == p {
                                if bytes@[j] == b {
                                    assert(!values_of(prev).contains(b));
                                    assert(left_out_after(*freqs, prev[prev.len() - 1], bytes@[j], j));
                                }
                            } else {
                                assert(cands@[k] == prev[if k < p { k } else { k - 1 }]);
                            }
                        }
                        assert forall|j: int|
                            0 <= j <= i && is_literal(mask@, j) && !values_of(cands@).contains(#[trigger] bytes@[j])
                            implies forall|k: int| 0 <= k < cands@.len() ==> left_out_after(*freqs, #[trigger] cands@[k], bytes@[j], j) by {
                            let v = bytes@[j];
                            lemma_insert_values(kept, p as int, n, v);
                            lemma_drop_last_values(prev, v);
                            assert forall|k: int| 0 <= k < cands@.len() implies left_out_after(*freqs, #[trigger] cands@[k], v, j) by {
                                if v != w.value {
                                    assert(!values_of(prev).contains(v));
                                    assert(left_out_after(*freqs, w, v, j));
                                    if k != p {
                                        let k2 = if k < p { k } else { k - 1 };
                                        assert(cands@[k] == prev[k2]);
                                        assert(left_out_after(*freqs, prev[k2], v, j));
                                    }
                                } else {
                                    // the evicted value: every kept needle ranks before it
                                    if k != p {
                                        let k2 = if k < p { k } else { k - 1 };
                                        assert(cands@[k] == prev[k2]);
                                        assert(ranks_before(*freqs, prev[k2], w));
                                        assert(w.index <= j);
                                    }
                                }
                            }
                        }
                    }
                } else {
                    proof {
                        if count > 0 {
                            assert forall|k: int| 0 <= k < cands@.len() implies left_out_after(*freqs, #[trigger] cands@[k], b, i as int) by {
                                if k < cands@.len() - 1 {
                                    assert(ranks_before(*freqs, cands@[k], cands@[cands@.len() - 1]));
                                }
                            }
                        }
                    }
                }
            }
        }
        i += 1;
    }
    cands
}

/// The needles of `cands`, listed by ascending pattern position.
fn order_by_position(cands: &Vec<Needle>, len: usize) -> (r: Vec<Needle>)
    requires
        forall|k: int| 0 <= k < cands@.len() ==> (#[trigger] cands@[k]).index < len,
        forall|a: int, b: int|
            0 <= a < b < cands@.len() ==> (#[trigger] cands@[a]).index != (#[trigger] cands@[b]).index,
    ensures
        by_position(r@),
        forall|q: int| 0 <= q < r@.len() ==> cands@.contains(#[trigger] r@[q]),
        forall|k: int| 0 <= k < cands@.len() ==> r@.contains(#[trigger] cands@[k]),
{
    let mut out: Vec<Needle> = Vec::new();
    let mut idx: usize = 0;
    while idx < len
        invariant
            idx <= len,
            forall|k: int| 0 <= k < cands@.len() ==> (#[trigger] cands@[k]).index < len,
            forall|a: int, b: int|
                0 <= a < b < cands@.len() ==> (#[trigger] cands@[a]).index != (#[trigger] cands@[b]).index,
            by_position(out@),
            forall|q: int| 0 <= q < out@.len() ==> cands@.contains(#[trigger] out@[q]) && out@[q].index < idx,
            forall|k: int| 0 <= k < cands@.len() && (#[trigger] cands@[k]).index < idx ==> out@.contains(cands@[k]),
        decreases len - idx,
    {
        let ghost prev = out@;
        match needle_at(cands, idx) {
            Some(n) => {
                out.push(n);
                proof {
                    assert(out@ == prev.push(n));
                    assert forall|k: int| 0 <= k < cands@.len() && (#[trigger] cands@[k]).index < idx + 1 implies out@.contains(cands@[k]) by {
                        if cands@[k].index < idx {
                            let q = choose|q: int| 0 <= q < prev.len() && prev[q] == cands@[k];
                            assert(out@[q] == cands@[k]);
                        } else {
                            let k2 = choose|k2: int| 0 <= k2 < cands@.len() && cands@[k2] == n;
                            if k2 < k {
                                assert(cands@[k2].index != cands@[k].index);
                            } else if k < k2 {
                                assert(cands@[k].index != cands@[k2].index);
                            }
                            assert(out@[prev.len() as int] == n);
                        }
                    }
                }
            },
            None => {},
        }
        idx += 1;
    }
    out
}

/// Two sequences of distinct items with the same members have the same length.
proof fn lemma_same_members_same_len(s: Seq<Needle>, t: Seq<Needle>)
    requires
        s.no_duplicates(),
        t.no_duplicates(),
        forall|q: int| 0 <= q < s.len() ==> t.contains(#[trigger] s[q]),
        forall|k: int| 0 <= k < t.len() ==> s.contains(#[trigger] t[k]),
    ensures
        s.len() == t.len(),
{
    s.unique_seq_to_set();
    t.unique_seq_to_set();
    assert(s.to_set() =~= t.to_set()) by {
        assert forall|x: Needle| s.to_set().contains(x) implies t.to_set().contains(x) by {
            let q = choose|q: int| 0 <= q < s.len() && s[q] == x;
        }
        assert forall|x: Needle| t.to_set().contains(x) implies s.to_set().contains(x) by {
            let k = choose|k: int| 0 <= k < t.len() && t[k] == x;
        }
    }
}

/// No choice of `count` distinct literal values exists when fewer needles than
/// that already cover every literal value.
proof fn lemma_too_few_values(bytes: Seq<u8>, mask: Seq<u8>, cands: Seq<Needle>, count: nat)
    requires
        cands.len() < count,
        forall|i: int|
            0 <= i < bytes.len() && is_literal(mask, i) ==> values_of(cands).contains(#[trigger] bytes[i]),
    ensures
        !can_choose(bytes, mask, count),
{
    if can_choose(bytes, mask, count) {
        let s = choose|s: Seq<Needle>|
            s.len() == count && needles_valid(bytes, mask, s) && #[trigger] values_distinct(s);
        let vs = values_of(s);
        let vc = values_of(cands);
        assert(vs.no_duplicates()) by {
            assert forall|a: int, b: int| 0 <= a < vs.len() && 0 <= b < vs.len() && a != b implies vs[a] != vs[b] by {
                if a < b {
                    assert(s[a].value != s[b].value);
                } else {
                    assert(s[b].value != s[a].value);
                }
            }
        }
        vs.unique_seq_to_set();
        vc.lemma_cardinality_of_set();
        assert(vs.to_set().subset_of(vc.to_set())) by {
            assert forall|v: u8| vs.to_set().contains(v) implies vc.to_set().contains(v) by {
                let k = choose|k: int| 0 <= k < vs.len() && vs[k] == v;
                assert(needle_valid(bytes, mask, s[k]));
            }
        }
        vstd::seq_lib::seq_to_set_is_finite(vc);
        vstd::set_lib::lemma_len_subset(vs.to_set(), vc.to_set());
    }
}

/// Chooses `count` filter needles for a pattern.
///
/// `None` exactly when the pattern's literal positions hold fewer than `count`
/// distinct byte values. Otherwise the needles hold pairwise distinct values, each
/// at the first literal position holding it, listed by ascending position; they are
/// the `count` rarest literal values, equally rare ones taken in pattern order.
pub fn find_needles<P: Pattern>(pat: &P, freqs: &[u8; 256], count: usize) -> (r: Option<Vec<Needle>>)
    requires
        pat.well_formed(),
    ensures
        r is None <==> !can_choose(pat.spec_bytes(), pat.spec_mask(), count as nat),
        r matches Some(s) ==> {
            &&& s@.len() == count
            &&& needles_valid(pat.spec_bytes(), pat.spec_mask(), s@)
            &&& values_distinct(s@)
            &&& by_position(s@)
            &&& first_seen(pat.spec_bytes(), pat.spec_mask(), s@)
            &&& rarest_chosen(pat.spec_bytes(), pat.spec_mask(), *freqs, s@)
        },
        r is None <==> literal_values(pat.spec_bytes(), pat.spec_mask()).len() < count,
{
    proof {
        pat.lemma_shape();
    }
    let bytes = pat.bytes();
    let mask = pat.mask();
    let cands = rank_candidates(bytes, mask, freqs, count);
    if cands.len() < count {
        proof {
            lemma_too_few_values(bytes@, mask@, cands@, count as nat);
            lemma_covering_needles_count(bytes@, mask@, cands@);
        }
        return None;
    }
    proof {
        assert forall|a: int, b: int| 0 <= a < b < cands@.len() implies (#[trigger] cands@[a]).index
            != (#[trigger] cands@[b]).index by {
            assert(needle_valid(bytes@, mask@, cands@[a]));
            assert(needle_valid(bytes@, mask@, cands@[b]));
        }
    }
    let out = order_by_position(&cands, bytes.len());
    proof {
        let (c, o) = (cands@, out@);
        assert(c.no_duplicates()) by {
            assert forall|a: int, b: int| 0 <= a < c.len() && 0 <= b < c.len() && a != b implies c[a] != c[b] by {
                if a < b {
                    assert(c[a].value != c[b].value);
                } else {
                    assert(c[b].value != c[a].value);
                }
            }
        }
        assert(o.no_duplicates()) by {
            assert forall|a: int, b: int| 0 <= a < o.len() && 0 <= b < o.len() && a != b implies o[a] != o[b] by {
                if a < b {
                    assert(o[a].index < o[b].index);
                } else {
                    assert(o[b].index < o[a].index);
                }
            }
        }
        lemma_same_members_same_len(c, o);
        assert forall|q: int| 0 <= q < o.len() implies needle_valid(bytes@, mask@, #[trigger] o[q]) by {
            let k = choose|k: int| 0 <= k < c.len() && c[k] == o[q];
        }
        assert forall|a: int, b: int| 0 <= a < b < o.len() implies (#[trigger] o[a]).value != (#[trigger] o[b]).value by {
            let ka = choose|k: int| 0 <= k < c.len() && c[k] == o[a];
            let kb = choose|k: int| 0 <= k < c.len() && c[k] == o[b];
            if ka < kb {
                assert(c[ka].value != c[kb].value);
            } else if kb < ka {
                assert(c[kb].value != c[ka].value);
            }
        }
        assert forall|v: u8| values_of(o).contains(v) <==> values_of(c).contains(v) by {
            if values_of(o).contains(v) {
                let q = lemma_values_witness(o, v);
                let k = choose|k: int| 0 <= k < c.len() && c[k] == o[q];
                lemma_values_index(c, k);
            }
            if values_of(c).contains(v) {
                let k = lemma_values_witness(c, v);
                let q = choose|q: int| 0 <= q < o.len() && o[q] == c[k];
                lemma_values_index(o, q);
            }
        }
        assert forall|i: int|
            0 <= i < bytes@.len() && is_literal(mask@, i) && !values_of(o).contains(#[trigger] bytes@[i])
            implies forall|q: int| 0 <= q < o.len() ==> left_out_after(*freqs, #[trigger] o[q], bytes@[i], i) by {
            assert forall|q: int| 0 <= q < o.len() implies left_out_after(*freqs, #[trigger] o[q], bytes@[i], i) by {
                let k = choose|k: int| 0 <= k < c.len() && c[k] == o[q];
            }
        }
        assert forall|q: int, j: int|
            0 <= q < o.len() && 0 <= j < (#[trigger] o[q]).index && is_literal(mask@, j)
            implies #[trigger] bytes@[j] != o[q].value by {
            let k = choose|k: int| 0 <= k < c.len() && c[k] == o[q];
            assert(0 <= j < c[k].index);
        }
        assert(values_distinct(o));
        assert(can_choose(bytes@, mask@, count as nat));
        lemma_distinct_needles_bound(bytes@, mask@, o);
    }
    Some(out)
}

} // verus!
