//! Tanimoto similarity of packed fingerprints, and the exhaustive scan of a
//! document against a query.

use vstd::prelude::*;
use vstd::arithmetic::power2::{pow2, lemma_pow2_unfold, lemma2_to64};
use vstd::hash_map::StringHashMap;
use crate::types::{Similarity, Cutoff, DbError, meets, cutoff_ge};
use crate::fingerprint::{FingerprintDocument, openbabel_fingerprint, get_fingerprint_for_smiles, lemma_length_invariant};

verus! {

/// Number of set bits of a word.
pub open spec fn popcount(x: u32) -> nat
    decreases x,
{
    if x == 0 {
        0
    } else {
        (x % 2) as nat + popcount(x / 2)
    }
}

/// Set bits of the intersection over the first `n` words of `a` and `b`.
pub open spec fn common_bits(a: Seq<u32>, b: Seq<u32>, n: int) -> nat
    decreases n,
{
    if n <= 0 {
        0
    } else {
        common_bits(a, b, n - 1) + popcount(a[n - 1] & b[n - 1])
    }
}

/// Set bits of the union over the first `n` words of `a` and `b`.
pub open spec fn union_bits(a: Seq<u32>, b: Seq<u32>, n: int) -> nat
    decreases n,
{
    if n <= 0 {
        0
    } else {
        union_bits(a, b, n - 1) + popcount(a[n - 1] | b[n - 1])
    }
}

/// The bit count of `n` words fits in a `u64`.
pub open spec fn width_fits(n: int) -> bool {
    n * 32 <= u64::MAX
}

/// Set bits of the intersection of two equally long fingerprints.
pub open spec fn common_count(a: Seq<u32>, b: Seq<u32>) -> nat {
    common_bits(a, b, a.len() as int)
}

/// Set bits of the union of two equally long fingerprints.
pub open spec fn union_count(a: Seq<u32>, b: Seq<u32>) -> nat {
    union_bits(a, b, a.len() as int)
}

/// The Tanimoto score of two equally long fingerprints, as the machine holds
/// it; `lemma_bits_bound` shows that both counts fit where `width_fits`
/// holds, so that the fields equal `common_count` and `union_count`.
pub open spec fn tanimoto(a: Seq<u32>, b: Seq<u32>) -> Similarity {
    Similarity { common: common_count(a, b) as u64, total: union_count(a, b) as u64 }
}

/// Some word of `a` has a bit set.
pub open spec fn has_set_bit(a: Seq<u32>) -> bool {
    exists|i: int| 0 <= i < a.len() && a[i] != 0
}

proof fn lemma_popcount_bound(x: u32, k: nat)
    requires
        x < pow2(k),
    ensures
        popcount(x) <= k,
    decreases k,
{
    if x != 0 {
        if k == 0 {
            lemma2_to64();
        } else {
            lemma_pow2_unfold(k);
            assert(pow2(k) == 2 * pow2((k - 1) as nat));
            lemma_popcount_bound(x / 2, (k - 1) as nat);
        }
    }
}

proof fn lemma_popcount_word(x: u32)
    ensures
        popcount(x) <= 32,
{
    lemma2_to64();
    lemma_popcount_bound(x, 32);
}

proof fn lemma_popcount_pos(x: u32)
    requires
        x != 0,
    ensures
        popcount(x) > 0,
    decreases x,
{
    if x % 2 == 0 {
        lemma_popcount_pos(x / 2);
    }
}

proof fn lemma_and_le_or(a: u32, b: u32)
    ensures
        popcount(a & b) <= popcount(a | b),
    decreases a | b,
{
    if a & b != 0 {
        assert((a & b) != 0 ==> (a | b) != 0) by (bit_vector);
        assert((a & b) / 2 == (a / 2) & (b / 2)) by (bit_vector);
        assert((a | b) / 2 == (a / 2) | (b / 2)) by (bit_vector);
        assert((a & b) % 2 <= (a | b) % 2) by (bit_vector);
        assert((a | b) != 0 ==> (a | b) / 2 < (a | b)) by (bit_vector);
        lemma_and_le_or(a / 2, b / 2);
    }
}

/// Over the first `n` words the intersection never has more set bits than
/// the union, and the union at most 32 per word.
pub proof fn lemma_bits_bound(a: Seq<u32>, b: Seq<u32>, n: int)
    requires
        0 <= n <= a.len(),
        n <= b.len(),
    ensures
        common_bits(a, b, n) <= union_bits(a, b, n),
        union_bits(a, b, n) <= 32 * n,
    decreases n,
{
    if n > 0 {
        lemma_bits_bound(a, b, n - 1);
        lemma_and_le_or(a[n - 1], b[n - 1]);
        lemma_popcount_word(a[n - 1] | b[n - 1]);
    }
}

proof fn lemma_bits_swap(a: Seq<u32>, b: Seq<u32>, n: int)
    requires
        0 <= n <= a.len(),
        n <= b.len(),
    ensures
        common_bits(a, b, n) == common_bits(b, a, n),
        union_bits(a, b, n) == union_bits(b, a, n),
    decreases n,
{
    if n > 0 {
        lemma_bits_swap(a, b, n - 1);
        let (x, y) = (a[n - 1], b[n - 1]);
        assert(x & y == y & x) by (bit_vector);
        assert(x | y == y | x) by (bit_vector);
    }
}

proof fn lemma_bits_self(a: Seq<u32>, n: int)
    requires
        0 <= n <= a.len(),
    ensures
        common_bits(a, a, n) == union_bits(a, a, n),
        union_bits(a, a, n) > 0 <==> exists|i: int| 0 <= i < n && a[i] != 0,
    decreases n,
{
    if n > 0 {
        lemma_bits_self(a, n - 1);
        let x = a[n - 1];
        assert(x & x == x) by (bit_vector);
        assert(x | x == x) by (bit_vector);
        if x != 0 {
            lemma_popcount_pos(x);
        }
        if union_bits(a, a, n) > 0 && union_bits(a, a, n - 1) == 0 {
            assert(a[n - 1] != 0);
        }
        if exists|i: int| 0 <= i < n && a[i] != 0 {
            let i = choose|i: int| 0 <= i < n && a[i] != 0;
            if i < n - 1 {
                assert(union_bits(a, a, n - 1) > 0);
            }
        }
    }
}

/// The score of `a` against `b` equals the score of `b` against `a`.
pub proof fn lemma_tanimoto_symmetric(a: Seq<u32>, b: Seq<u32>)
    requires
        a.len() == b.len(),
    ensures
        common_count(a, b) == common_count(b, a),
        union_count(a, b) == union_count(b, a),
        tanimoto(a, b) == tanimoto(b, a),
{
    lemma_bits_swap(a, b, a.len() as int);
}

/// A fingerprint scores one against itself (intersection equals a non-empty
/// union) when some bit is set, and zero (empty union) when none is.
pub proof fn lemma_tanimoto_self(a: Seq<u32>)
    ensures
        common_count(a, a) == union_count(a, a),
        union_count(a, a) > 0 <==> has_set_bit(a),
        tanimoto(a, a).common == tanimoto(a, a).total,
        width_fits(a.len() as int) ==> (tanimoto(a, a).total > 0 <==> has_set_bit(a)),
{
    lemma_bits_self(a, a.len() as int);
    lemma_bits_bound(a, a, a.len() as int);
}

/// Every score lies between zero and one: the intersection never exceeds
/// the union.
pub proof fn lemma_tanimoto_range(a: Seq<u32>, b: Seq<u32>)
    requires
        a.len() == b.len(),
    ensures
        0 <= common_count(a, b) <= union_count(a, b),
        width_fits(a.len() as int) ==> tanimoto(a, b).common <= tanimoto(a, b).total,
        meets(tanimoto(a, b), Cutoff { num: 0, den: 1 }),
{
    lemma_bits_bound(a, b, a.len() as int);
}

/// Number of set bits of `x`.
fn popcount_word(x: u32) -> (r: u32)
    ensures
        r == popcount(x),
{
    let mut y: u32 = x;
    let mut c: u32 = 0;
    proof {
        lemma_popcount_word(x);
    }
    while y != 0
        invariant
            c + popcount(y) == popcount(x),
            popcount(x) <= 32,
        decreases y,
    {
        assert(y & 1 == y % 2) by (bit_vector);
        assert(y >> 1 == y / 2) by (bit_vector);
        c = c + (y & 1);
        y = y >> 1;
    }
    c
}

/// Tanimoto coefficient of two fingerprints of the same width, held as the
/// popcounts of their intersection and union.
pub fn similarity_tanimoto(fpd_1: &[u32], fpd_2: &[u32]) -> (r: Similarity)
    requires
        fpd_1@.len() == fpd_2@.len(),
        width_fits(fpd_1@.len() as int),
    ensures
        r == tanimoto(fpd_1@, fpd_2@),
        r.common == common_count(fpd_1@, fpd_2@),
        r.total == union_count(fpd_1@, fpd_2@),
        r.common <= r.total,
{
    let mut andbits: u64 = 0;
    let mut orbits: u64 = 0;
    let n = fpd_1.len();
    let mut i: usize = 0;
    while i < n
        invariant
            n == fpd_1@.len(),
            fpd_1@.len() == fpd_2@.len(),
            width_fits(n as int),
            0 <= i <= n,
            andbits == common_bits(fpd_1@, fpd_2@, i as int),
            orbits == union_bits(fpd_1@, fpd_2@, i as int),
        decreases n - i,
    {
        proof {
            lemma_bits_bound(fpd_1@, fpd_2@, i as int + 1);
        }
        let andfp: u32 = fpd_1[i] & fpd_2[i];
        let orfp: u32 = fpd_1[i] | fpd_2[i];
        andbits = andbits + popcount_word(andfp) as u64;
        orbits = orbits + popcount_word(orfp) as u64;
        i = i + 1;
    }
    proof {
        lemma_bits_bound(fpd_1@, fpd_2@, n as int);
    }
    Similarity { common: andbits, total: orbits }
}

/// Scores by identifier; a key that is absent scored below the cutoff.
pub type ResultSimilarity = StringHashMap<Similarity>;

/// The rows among the first `n` of `doc` whose score against `q` meets
/// `c`, in row order, with their scores.
pub open spec fn scan(q: Seq<u32>, doc: &FingerprintDocument, c: Cutoff, n: int) -> Seq<(Seq<char>, Similarity)>
    decreases n,
{
    if n <= 0 {
        Seq::empty()
    } else {
        let prev = scan(q, doc, c, n - 1);
        let s = tanimoto(q, doc.spec_data(n - 1));
        if meets(s, c) {
            prev.push((doc.spec_id(n - 1), s))
        } else {
            prev
        }
    }
}

/// The result of scanning the whole document.
pub open spec fn query_spec(q: Seq<u32>, doc: &FingerprintDocument, c: Cutoff) -> Seq<(Seq<char>, Similarity)> {
    scan(q, doc, c, doc.spec_len() as int)
}

pub open spec fn pairs_view(v: Seq<(String, Similarity)>) -> Seq<(Seq<char>, Similarity)> {
    v.map_values(|p: (String, Similarity)| (p.0@, p.1))
}

/// The pairs of `s` as a map; a later pair overwrites an earlier one with
/// the same identifier.
pub open spec fn to_map(s: Seq<(Seq<char>, Similarity)>) -> Map<Seq<char>, Similarity>
    decreases s.len(),
{
    if s.len() == 0 {
        Map::empty()
    } else {
        to_map(s.drop_last()).insert(s.last().0, s.last().1)
    }
}

/// Scores every row of the document against `fpd_query` and keeps, in row
/// order, the identifiers whose score is at least the cutoff.
pub fn query_similarity(fpd_query: &Vec<u32>, fp_doc: &FingerprintDocument, cut_off: &Cutoff) -> (r: Result<
    Vec<(String, Similarity)>,
    DbError,
>)
    requires
        fp_doc.wf(),
        cut_off.wf(),
    ensures
        fpd_query@.len() != fp_doc.span() ==> r == Err::<Vec<(String, Similarity)>, DbError>(
            DbError::WidthMismatch,
        ),
        fpd_query@.len() == fp_doc.span() ==> (r matches Ok(v) && pairs_view(v@) == query_spec(
            fpd_query@,
            fp_doc,
            *cut_off,
        )),
{
    proof {
        lemma_length_invariant(fp_doc);
    }
    let span = fpd_query.len();
    let n = fp_doc.len();
    if span != fp_doc.nints() {
        return Err(DbError::WidthMismatch);
    }
    let mut out: Vec<(String, Similarity)> = Vec::new();
    let mut idx: usize = 0;
    while idx < n
        invariant
            fp_doc.wf(),
            cut_off.wf(),
            n == fp_doc.spec_len(),
            span == fp_doc.span(),
            span == fpd_query@.len(),
            width_fits(span as int),
            0 <= idx <= n,
            pairs_view(out@) == scan(fpd_query@, fp_doc, *cut_off, idx as int),
        decreases n - idx,
    {
        proof {
            lemma_length_invariant(fp_doc);
        }
        let row = match fp_doc.get_data(idx) {
            Ok(row) => row,
            Err(e) => return Err(e),
        };
        let s = similarity_tanimoto(fpd_query.as_slice(), row);
        if s.is_at_least(cut_off) {
            let id = match fp_doc.get_id(idx) {
                Ok(id) => id.clone(),
                Err(e) => return Err(e),
            };
            out.push((id, s));
            proof {
                assert(pairs_view(out@) =~= scan(fpd_query@, fp_doc, *cut_off, idx as int + 1));
            }
        }
        idx = idx + 1;
    }
    Ok(out)
}

/// Gathers scored identifiers into a map, a later identifier overwriting an
/// earlier equal one.
pub fn collect_results(pairs: &Vec<(String, Similarity)>) -> (r: ResultSimilarity)
    ensures
        r@ == to_map(pairs_view(pairs@)),
{
    let mut m = ResultSimilarity::new();
    let n = pairs.len();
    let mut i: usize = 0;
    while i < n
        invariant
            n == pairs@.len(),
            0 <= i <= n,
            m@ == to_map(pairs_view(pairs@.subrange(0, i as int))),
        decreases n - i,
    {
        let key = pairs[i].0.clone();
        m.insert(key, pairs[i].1);
        proof {
            let next = pairs_view(pairs@.subrange(0, i as int + 1));
            assert(next.drop_last() =~= pairs_view(pairs@.subrange(0, i as int)));
        }
        i = i + 1;
    }
    proof {
        assert(pairs@.subrange(0, n as int) =~= pairs@);
    }
    m
}

/// Generates the query fingerprint with the document's own kind and scans
/// the document with it.
pub fn query_similarity_for_smiles(smiles: &String, fp_doc: &FingerprintDocument, cut_off: &Cutoff) -> (r: Result<
    ResultSimilarity,
    DbError,
>)
    requires
        fp_doc.wf(),
        cut_off.wf(),
    ensures
        match openbabel_fingerprint(fp_doc.spec_kind(), smiles@) {
            None => r matches Err(DbError::Generation),
            Some(q) => if q.len() == fp_doc.span() {
                r matches Ok(m) && m@ == to_map(query_spec(q, fp_doc, *cut_off))
            } else {
                r matches Err(DbError::WidthMismatch)
            },
        },
{
    let fpd_query = match get_fingerprint_for_smiles(fp_doc, smiles) {
        Ok(v) => v,
        Err(e) => return Err(e),
    };
    match query_similarity(&fpd_query, fp_doc, cut_off) {
        Ok(pairs) => Ok(collect_results(&pairs)),
        Err(e) => Err(e),
    }
}

proof fn lemma_meets_weaker(s: Similarity, c1: Cutoff, c2: Cutoff)
    requires
        c1.wf(),
        c2.wf(),
        cutoff_ge(c2, c1),
        meets(s, c2),
    ensures
        meets(s, c1),
{
    let (a, t) = (s.common as int, s.total as int);
    let (n1, d1, n2, d2) = (c1.num as int, c1.den as int, c2.num as int, c2.den as int);
    if s.total == 0 {
        assert(n1 * d2 <= 0) by (nonlinear_arith)
            requires
                n2 == 0,
                n2 * d1 >= n1 * d2,
        ;
        assert(n1 == 0) by (nonlinear_arith)
            requires
                n1 * d2 <= 0,
                d2 > 0,
                n1 >= 0,
        ;
    } else {
        assert(a * d1 >= n1 * t) by (nonlinear_arith)
            requires
                a * d2 >= n2 * t,
                n2 * d1 >= n1 * d2,
                d1 > 0,
                d2 > 0,
                t > 0,
                a >= 0,
                n1 >= 0,
                n2 >= 0,
        ;
    }
}

proof fn lemma_scan_subset(q: Seq<u32>, doc: &FingerprintDocument, c1: Cutoff, c2: Cutoff, n: int)
    requires
        c1.wf(),
        c2.wf(),
        cutoff_ge(c2, c1),
    ensures
        forall|p: (Seq<char>, Similarity)| #[trigger] scan(q, doc, c2, n).contains(p) ==> scan(q, doc, c1, n).contains(p),
    decreases n,
{
    if n > 0 {
        lemma_scan_subset(q, doc, c1, c2, n - 1);
        let s = tanimoto(q, doc.spec_data(n - 1));
        if meets(s, c2) {
            lemma_meets_weaker(s, c1, c2);
        }
        let (p1, p2) = (scan(q, doc, c1, n - 1), scan(q, doc, c2, n - 1));
        assert forall|p: (Seq<char>, Similarity)| #[trigger] scan(q, doc, c2, n).contains(p) implies scan(q, doc, c1, n).contains(p) by {
            if meets(s, c2) {
                let i = choose|i: int| 0 <= i < scan(q, doc, c2, n).len() && scan(q, doc, c2, n)[i] == p;
                if i < p2.len() {
                    assert(p2[i] == p);
                    assert(p2.contains(p));
                    let j = choose|j: int| 0 <= j < p1.len() && p1[j] == p;
                    assert(scan(q, doc, c1, n)[j] == p);
                } else {
                    assert(scan(q, doc, c1, n)[p1.len() as int] == p);
                }
            } else {
                assert(p2.contains(p));
                let j = choose|j: int| 0 <= j < p1.len() && p1[j] == p;
                if meets(s, c1) {
                    assert(scan(q, doc, c1, n)[j] == p);
                }
            }
        }
    }
}

proof fn lemma_to_map_dom(s: Seq<(Seq<char>, Similarity)>)
    ensures
        forall|k: Seq<char>| #[trigger] to_map(s).contains_key(k) <==> exists|i: int| 0 <= i < s.len() && s[i].0 == k,
    decreases s.len(),
{
    if s.len() > 0 {
        let init = s.drop_last();
        lemma_to_map_dom(init);
        assert(to_map(s) == to_map(init).insert(s.last().0, s.last().1));
        assert forall|k: Seq<char>| #[trigger] to_map(s).contains_key(k) <==> exists|i: int| 0 <= i < s.len() && s[i].0 == k by {
            if to_map(s).contains_key(k) && k != s.last().0 {
                assert(to_map(init).contains_key(k));
                let i = choose|i: int| 0 <= i < init.len() && init[i].0 == k;
                assert(s[i].0 == k);
            }
            if exists|i: int| 0 <= i < s.len() && s[i].0 == k {
                let i = choose|i: int| 0 <= i < s.len() && s[i].0 == k;
                if i < init.len() {
                    assert(init[i].0 == k);
                    assert(to_map(init).contains_key(k));
                } else {
                    assert(s.last().0 == k);
                }
            }
        }
    }
}

/// Raising the cutoff only removes results: every scored identifier kept at
/// cutoff `c2` is kept, with the same score, at any lower cutoff `c1`, and
/// so the identifiers of the result map at `c2` are among those at `c1`.
pub proof fn lemma_cutoff_monotonic(q: Seq<u32>, doc: &FingerprintDocument, c1: Cutoff, c2: Cutoff)
    requires
        c1.wf(),
        c2.wf(),
        cutoff_ge(c2, c1),
    ensures
        forall|p: (Seq<char>, Similarity)| #[trigger] query_spec(q, doc, c2).contains(p) ==> query_spec(q, doc, c1).contains(p),
        to_map(query_spec(q, doc, c2)).dom().subset_of(to_map(query_spec(q, doc, c1)).dom()),
{
    let n = doc.spec_len() as int;
    lemma_scan_subset(q, doc, c1, c2, n);
    let (r1, r2) = (query_spec(q, doc, c1), query_spec(q, doc, c2));
    lemma_to_map_dom(r1);
    lemma_to_map_dom(r2);
    assert forall|k: Seq<char>| to_map(r2).dom().contains(k) implies to_map(r1).dom().contains(k) by {
        assert(to_map(r2).contains_key(k));
        let i = choose|i: int| 0 <= i < r2.len() && r2[i].0 == k;
        assert(r2.contains(r2[i]));
        let j = choose|j: int| 0 <= j < r1.len() && r1[j] == r2[i];
        assert(r1[j].0 == k);
        assert(to_map(r1).contains_key(k));
    }
}

} // verus!
