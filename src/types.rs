use vstd::prelude::*;

verus! {

/// Where the structures of a fingerprint document are read from.
#[derive(Debug, Clone, Copy, PartialEq, Eq, Structural)]
pub enum Source {
    Chembl,
    Zinc,
}

/// The fingerprinting algorithm of a document.
#[derive(Debug, Clone, Copy, PartialEq, Eq, Structural)]
pub enum FingerprintKind {
    OpenBabelECFP0,
    OpenBabelECFP2,
    OpenBabelECFP4,
    OpenBabelECFP6,
    OpenBabelECFP8,
    OpenBabelECFP10,
}

/// A Tanimoto score held exactly: the popcount of the intersection and
/// the popcount of the union of two fingerprints. Its value is
/// `common / total`, and zero where `total` is zero.
#[derive(Debug, Clone, Copy, PartialEq, Eq, Structural)]
pub struct Similarity {
    pub common: u64,
    pub total: u64,
}

/// An inclusive lower bound on a score, as the fraction `num / den`.
#[derive(Debug, Clone, Copy, PartialEq, Eq, Structural)]
pub struct Cutoff {
    pub num: u64,
    pub den: u64,
}

impl Cutoff {
    pub open spec fn wf(self) -> bool {
        self.den > 0
    }
}

/// Whether score `s` is at least `c`: `common / total >= num / den`,
/// with a score of zero where the union is empty.
pub open spec fn meets(s: Similarity, c: Cutoff) -> bool {
    if s.total == 0 {
        c.num == 0
    } else {
        s.common as int * c.den as int >= c.num as int * s.total as int
    }
}

/// Whether cutoff `a` is at least cutoff `b` as fractions.
pub open spec fn cutoff_ge(a: Cutoff, b: Cutoff) -> bool {
    a.num as int * b.den as int >= b.num as int * a.den as int
}

impl Similarity {
    /// Compares the score with a cutoff without leaving integer arithmetic.
    pub fn is_at_least(&self, cut_off: &Cutoff) -> (r: bool)
        requires
            cut_off.wf(),
        ensures
            r == meets(*self, *cut_off),
    {
        if self.total == 0 {
            cut_off.num == 0
        } else {
            let a: u128 = self.common as u128;
            let b: u128 = cut_off.den as u128;
            let c: u128 = cut_off.num as u128;
            let d: u128 = self.total as u128;
            proof {
                lemma_product_fits(a as int, b as int);
                lemma_product_fits(c as int, d as int);
            }
            let lhs: u128 = a * b;
            let rhs: u128 = c * d;
            lhs >= rhs
        }
    }
}

proof fn lemma_product_fits(a: int, b: int)
    requires
        0 <= a <= u64::MAX,
        0 <= b <= u64::MAX,
    ensures
        0 <= a * b <= u128::MAX,
{
    assert(a * b <= u64::MAX as int * u64::MAX as int) by (nonlinear_arith)
        requires
            0 <= a <= u64::MAX,
            0 <= b <= u64::MAX,
    ;
    assert(0 <= a * b) by (nonlinear_arith)
        requires
            0 <= a,
            0 <= b,
    ;
}

/// What can go wrong while building or querying fingerprint documents.
#[derive(Debug, Clone, Copy, PartialEq, Eq, Structural)]
pub enum DbError {
    /// A bit width that is not a positive multiple of the word size.
    Configuration,
    /// A source kind that is recognised but has no loader.
    UnsupportedSource,
    /// A structure that the generator could not turn into a fingerprint of the document's width.
    Generation,
    /// Parallel inputs of different lengths.
    LengthMismatch,
    /// A row index past the last entry.
    IndexOutOfRange,
    /// A query fingerprint whose width differs from the document's.
    WidthMismatch,
}

} // verus!
