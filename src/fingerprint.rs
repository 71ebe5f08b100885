//! Fingerprint kinds, generation through Open Babel, and the packed
//! fingerprint document.

use vstd::prelude::*;
use vstd::slice::slice_subrange;
use openbabel::fingerprint::Kind as ObKind;
use vstd::hash_map::StringHashMap;
use std::sync::Arc;
use crate::types::{FingerprintKind, DbError, Source};
use crate::config::{Config, FingerprintDocumentConfig};

verus! {

/// Bits held by one packed word.
pub const WORD_BITS: u32 = 32;

/// A fingerprinting algorithm together with its bit width.
#[derive(Debug, Clone, Copy, PartialEq, Eq, Structural)]
pub struct Kind {
    pub family: FingerprintKind,
    pub nbits: u32,
}

/// Widths from this one up are out of range for the generator, which reads
/// the width as a signed 32-bit integer.
pub const MAX_NBITS: u32 = 0x8000_0000;

/// A width that packs into whole words and that the generator takes as given.
pub open spec fn valid_nbits(nbits: u32) -> bool {
    0 < nbits < MAX_NBITS && nbits % 32 == 0
}

impl Kind {
    /// Words per fingerprint.
    pub open spec fn span(self) -> nat {
        (self.nbits / 32) as nat
    }
}

pub open spec fn family_name(f: FingerprintKind) -> Seq<char> {
    match f {
        FingerprintKind::OpenBabelECFP0 => "ECFP0"@,
        FingerprintKind::OpenBabelECFP2 => "ECFP2"@,
        FingerprintKind::OpenBabelECFP4 => "ECFP4"@,
        FingerprintKind::OpenBabelECFP6 => "ECFP6"@,
        FingerprintKind::OpenBabelECFP8 => "ECFP8"@,
        FingerprintKind::OpenBabelECFP10 => "ECFP10"@,
    }
}

pub open spec fn digit_text(d: nat) -> Seq<char> {
    if d == 0 {
        "0"@
    } else if d == 1 {
        "1"@
    } else if d == 2 {
        "2"@
    } else if d == 3 {
        "3"@
    } else if d == 4 {
        "4"@
    } else if d == 5 {
        "5"@
    } else if d == 6 {
        "6"@
    } else if d == 7 {
        "7"@
    } else if d == 8 {
        "8"@
    } else {
        "9"@
    }
}

/// Decimal digits of `n`, without leading zeros.
pub open spec fn decimal(n: nat) -> Seq<char>
    decreases n,
{
    if n < 10 {
        digit_text(n)
    } else {
        decimal(n / 10) + digit_text(n % 10)
    }
}

/// The human-readable name of a kind, such as `OpenBabel ECFP4 with 2048 bits`.
pub open spec fn kind_text(k: Kind) -> Seq<char> {
    "OpenBabel "@ + family_name(k.family) + " with "@ + decimal(k.nbits as nat) + " bits"@
}

fn digit_str(d: u64) -> (r: &'static str)
    requires
        d < 10,
    ensures
        r@ == digit_text(d as nat),
{
    if d == 0 {
        "0"
    } else if d == 1 {
        "1"
    } else if d == 2 {
        "2"
    } else if d == 3 {
        "3"
    } else if d == 4 {
        "4"
    } else if d == 5 {
        "5"
    } else if d == 6 {
        "6"
    } else if d == 7 {
        "7"
    } else if d == 8 {
        "8"
    } else {
        "9"
    }
}

/// Writes `n` in decimal.
pub fn decimal_string(n: u64) -> (r: String)
    ensures
        r@ == decimal(n as nat),
    decreases n,
{
    if n < 10 {
        String::from_str(digit_str(n))
    } else {
        let mut s = decimal_string(n / 10);
        s.append(digit_str(n % 10));
        s
    }
}

fn family_str(f: FingerprintKind) -> (r: &'static str)
    ensures
        r@ == family_name(f),
{
    match f {
        FingerprintKind::OpenBabelECFP0 => "ECFP0",
        FingerprintKind::OpenBabelECFP2 => "ECFP2",
        FingerprintKind::OpenBabelECFP4 => "ECFP4",
        FingerprintKind::OpenBabelECFP6 => "ECFP6",
        FingerprintKind::OpenBabelECFP8 => "ECFP8",
        FingerprintKind::OpenBabelECFP10 => "ECFP10",
    }
}

impl Kind {
    pub fn as_string(&self) -> (r: String)
        ensures
            r@ == kind_text(*self),
    {
        let mut s = String::from_str("OpenBabel ");
        s.append(family_str(self.family));
        s.append(" with ");
        let digits = decimal_string(self.nbits as u64);
        s.append(digits.as_str());
        s.append(" bits");
        s
    }
}

/// Pairs an algorithm with a bit width; a width that does not pack into whole
/// words, or that reaches `MAX_NBITS`, is a configuration error.
pub fn convert_kind(fpk: &FingerprintKind, nbits: u32) -> (r: Result<Kind, DbError>)
    ensures
        valid_nbits(nbits) ==> r == Ok::<Kind, DbError>(Kind { family: *fpk, nbits }),
        !valid_nbits(nbits) ==> r == Err::<Kind, DbError>(DbError::Configuration),
{
    if nbits > 0 && nbits < MAX_NBITS && nbits % WORD_BITS == 0 {
        Ok(Kind { family: *fpk, nbits })
    } else {
        Err(DbError::Configuration)
    }
}

/// What Open Babel generates for a structure under a kind: `None` where the
/// structure does not parse.
pub uninterp spec fn openbabel_fingerprint(kind: Kind, smiles: Seq<char>) -> Option<Seq<u32>>;

/// Relies on openbabel's `Molecule::new_from_smiles` (a null molecule where the
/// text does not parse, reported by `is_valid`) and
/// `FingerprintGenerator::get_fingerprint`, whose words depend on the
/// algorithm, the width and the structure alone. The molecule is only the
/// handle passed from the one call to the other, so the pair stands as one
/// item. For a width that is a positive multiple of 32 below 2^31 the ECFP
/// generator sizes its result to `nbits / 32` words; other widths make it
/// write out of bounds, so they are refused here.
#[verifier::external_body]
fn generate(kind: &Kind, smiles: &str) -> (r: Option<Vec<u32>>)
    requires
        valid_nbits(kind.nbits),
    ensures
        r matches Some(v) ==> openbabel_fingerprint(*kind, smiles@) == Some(v@),
        r matches Some(v) ==> v@.len() == kind.span(),
        r is None ==> openbabel_fingerprint(*kind, smiles@) is None,
{
    let nbits = kind.nbits;
    let ob_kind = match kind.family {
        FingerprintKind::OpenBabelECFP0 => ObKind::ECFP0 { nbits },
        FingerprintKind::OpenBabelECFP2 => ObKind::ECFP2 { nbits },
        FingerprintKind::OpenBabelECFP4 => ObKind::ECFP4 { nbits },
        FingerprintKind::OpenBabelECFP6 => ObKind::ECFP6 { nbits },
        FingerprintKind::OpenBabelECFP8 => ObKind::ECFP8 { nbits },
        FingerprintKind::OpenBabelECFP10 => ObKind::ECFP10 { nbits },
    };
    let mol = openbabel::molecule::Molecule::new_from_smiles(smiles);
    if !mol.is_valid() {
        return None;
    }
    Some(openbabel::fingerprint::FingerprintGenerator::new(ob_kind).get_fingerprint(&mol))
}

/// Identifier and fingerprint rows of one kind, packed row-major into one
/// word buffer: row `i` occupies words `[i * span, (i + 1) * span)`.
#[derive(Debug)]
pub struct FingerprintDocument {
    kind: Kind,
    ids: Vec<String>,
    data: Vec<u32>,
    nints: usize,
}

/// `fps` all have `span` words.
pub open spec fn all_width(fps: Seq<Vec<u32>>, span: nat) -> bool {
    forall|i: int| 0 <= i < fps.len() ==> (#[trigger] fps[i])@.len() == span
}

/// The first `n` of `fps` all have `span` words.
pub open spec fn width_ok_upto(fps: Seq<Vec<u32>>, span: nat, n: int) -> bool {
    forall|i: int| 0 <= i < n ==> (#[trigger] fps[i])@.len() == span
}

/// Open Babel generates a fingerprint of the kind's width for every structure.
pub open spec fn generates_all(kind: Kind, smiles: Seq<String>) -> bool {
    forall|i: int| 0 <= i < smiles.len() ==> #[trigger] generates_row(kind, smiles[i]@)
}

/// Open Babel generates a fingerprint of the kind's width for `smiles`.
pub open spec fn generates_row(kind: Kind, smiles: Seq<char>) -> bool {
    openbabel_fingerprint(kind, smiles) matches Some(v) && v.len() == kind.span()
}

/// `fps` laid end to end.
pub open spec fn flatten(fps: Seq<Vec<u32>>) -> Seq<u32>
    decreases fps.len(),
{
    if fps.len() == 0 {
        Seq::empty()
    } else {
        flatten(fps.drop_last()) + fps.last()@
    }
}

impl FingerprintDocument {
    /// The layout invariant.
    pub closed spec fn wf(&self) -> bool {
        &&& valid_nbits(self.kind.nbits)
        &&& self.nints == self.kind.span()
        &&& self.ids@.len() * self.nints == self.data@.len()
    }

    pub closed spec fn spec_kind(&self) -> Kind {
        self.kind
    }

    /// Words per row.
    pub closed spec fn span(&self) -> nat {
        self.nints as nat
    }

    /// Number of rows.
    pub closed spec fn spec_len(&self) -> nat {
        self.ids@.len()
    }

    /// Total number of stored words.
    pub closed spec fn word_count(&self) -> nat {
        self.data@.len()
    }

    /// Identifier of row `i`.
    pub closed spec fn spec_id(&self, i: int) -> Seq<char> {
        self.ids@[i]@
    }

    /// Fingerprint of row `i`.
    pub closed spec fn spec_data(&self, i: int) -> Seq<u32> {
        self.data@.subrange(i * self.nints, i * self.nints + self.nints)
    }

    /// Whether this document holds exactly the rows `fps`, named by `ids`, of kind `kind`.
    pub open spec fn holds(&self, kind: Kind, fps: Seq<Vec<u32>>, ids: Seq<String>) -> bool {
        &&& self.wf()
        &&& self.spec_kind() == kind
        &&& self.spec_len() == ids.len()
        &&& self.spec_len() == fps.len()
        &&& forall|i: int| 0 <= i < ids.len() ==> #[trigger] self.spec_id(i) == ids[i]@
        &&& forall|i: int| 0 <= i < fps.len() ==> #[trigger] self.spec_data(i) == fps[i]@
    }

    /// Generates one fingerprint per structure and packs them, each named by
    /// the identifier at the same position.
    pub fn new_from_smiles_vec(
        fpk: &FingerprintKind,
        nbits: u32,
        smiles_vec: &Vec<String>,
        ids_input: &Vec<String>,
    ) -> (r: Result<Self, DbError>)
        ensures
            !valid_nbits(nbits) ==> r == Err::<Self, DbError>(DbError::Configuration),
            valid_nbits(nbits) && smiles_vec@.len() != ids_input@.len() ==> r == Err::<Self, DbError>(
                DbError::LengthMismatch,
            ),
            valid_nbits(nbits) && smiles_vec@.len() == ids_input@.len() ==> {
                let kind = Kind { family: *fpk, nbits };
                &&& generates_all(kind, smiles_vec@) ==> (r matches Ok(doc) && doc.built_from(kind, smiles_vec@, ids_input@))
                &&& !generates_all(kind, smiles_vec@) ==> r matches Err(DbError::Generation)
            },
    {
        let kind = match convert_kind(fpk, nbits) {
            Ok(k) => k,
            Err(e) => return Err(e),
        };
        if smiles_vec.len() != ids_input.len() {
            return Err(DbError::LengthMismatch);
        }
        let mut fps: Vec<Vec<u32>> = Vec::new();
        let n = smiles_vec.len();
        let mut i: usize = 0;
        while i < n
            invariant
                n == smiles_vec@.len(),
                n == ids_input@.len(),
                valid_nbits(nbits),
                kind == (Kind { family: *fpk, nbits }),
                0 <= i <= n,
                fps@.len() == i,
                forall|j: int| 0 <= j < i ==> openbabel_fingerprint(kind, smiles_vec@[j]@) == Some(
                    (#[trigger] fps@[j])@,
                ),
            decreases n - i,
        {
            match generate(&kind, smiles_vec[i].as_str()) {
                Some(fp) => fps.push(fp),
                None => {
                    proof {
                        assert(!generates_row(kind, smiles_vec@[i as int]@));
                    }
                    return Err(DbError::Generation);
                },
            }
            i = i + 1;
        }
        let r = FingerprintDocument::new_from_fingerprints(fpk, nbits, &fps, ids_input);
        proof {
            if all_width(fps@, kind.span()) {
                assert forall|j: int| 0 <= j < n implies #[trigger] generates_row(kind, smiles_vec@[j]@) by {
                    assert(fps@[j]@.len() == kind.span());
                }
            } else {
                let j = choose|j: int| 0 <= j < fps@.len() && !((#[trigger] fps@[j])@.len() == kind.span());
                assert(!generates_row(kind, smiles_vec@[j]@));
            }
        }
        r
    }

    /// Whether this document holds, in order, what Open Babel generates for
    /// `smiles` under `kind`, named by `ids`.
    pub open spec fn built_from(&self, kind: Kind, smiles: Seq<String>, ids: Seq<String>) -> bool {
        &&& self.wf()
        &&& self.spec_kind() == kind
        &&& self.spec_len() == ids.len()
        &&& self.spec_len() == smiles.len()
        &&& forall|i: int| 0 <= i < ids.len() ==> #[trigger] self.spec_id(i) == ids[i]@
        &&& forall|i: int|
            0 <= i < smiles.len() ==> openbabel_fingerprint(kind, smiles[i]@) == Some(
                #[trigger] self.spec_data(i),
            )
    }

    /// The diagnostic summary: row count and kind, separated by two tabs.
    pub open spec fn desc_text(&self) -> Seq<char> {
        decimal(self.spec_len()) + "\t\t"@ + kind_text(self.spec_kind())
    }

    pub fn desc(&self) -> (r: String)
        ensures
            r@ == self.desc_text(),
    {
        let mut s = decimal_string(self.ids.len() as u64);
        s.append("\t\t");
        let k = self.kind.as_string();
        s.append(k.as_str());
        s
    }

    pub fn len(&self) -> (r: usize)
        ensures
            r == self.spec_len(),
    {
        self.ids.len()
    }

    /// Words per row.
    pub fn nints(&self) -> (r: usize)
        ensures
            r == self.span(),
    {
        self.nints
    }

    /// Total number of stored words.
    pub fn total_words(&self) -> (r: usize)
        ensures
            r == self.word_count(),
    {
        self.data.len()
    }

    pub fn kind(&self) -> (r: Kind)
        ensures
            r == self.spec_kind(),
    {
        self.kind
    }

    /// Fingerprint of row `idx`.
    pub fn get_data(&self, idx: usize) -> (r: Result<&[u32], DbError>)
        requires
            self.wf(),
        ensures
            idx < self.spec_len() ==> (r matches Ok(s) && s@ == self.spec_data(idx as int)),
            idx >= self.spec_len() ==> r matches Err(DbError::IndexOutOfRange),
    {
        if idx >= self.ids.len() {
            return Err(DbError::IndexOutOfRange);
        }
        let total = self.data.len();
        proof {
            lemma_row_in_bounds(idx as int, self.ids@.len() as int, self.nints as int);
        }
        let start = idx * self.nints;
        Ok(slice_subrange(self.data.as_slice(), start, start + self.nints))
    }

    /// Identifier of row `idx`.
    pub fn get_id(&self, idx: usize) -> (r: Result<&String, DbError>)
        ensures
            idx < self.spec_len() ==> (r matches Ok(s) && s@ == self.spec_id(idx as int)),
            idx >= self.spec_len() ==> r matches Err(DbError::IndexOutOfRange),
    {
        if idx >= self.ids.len() {
            return Err(DbError::IndexOutOfRange);
        }
        Ok(&self.ids[idx])
    }

    /// Packs fingerprints that were already generated, each named by the
    /// identifier at the same position.
    pub fn new_from_fingerprints(
        fpk: &FingerprintKind,
        nbits: u32,
        fps: &Vec<Vec<u32>>,
        ids_input: &Vec<String>,
    ) -> (r: Result<Self, DbError>)
        ensures
            !valid_nbits(nbits) ==> r == Err::<Self, DbError>(DbError::Configuration),
            valid_nbits(nbits) && fps@.len() != ids_input@.len() ==> r == Err::<Self, DbError>(
                DbError::LengthMismatch,
            ),
            valid_nbits(nbits) && fps@.len() == ids_input@.len() ==> {
                let kind = Kind { family: *fpk, nbits };
                &&& all_width(fps@, kind.span()) ==> (r matches Ok(doc) && doc.holds(kind, fps@, ids_input@))
                &&& !all_width(fps@, kind.span()) ==> r matches Err(DbError::Generation)
            },
    {
        let kind = match convert_kind(fpk, nbits) {
            Ok(k) => k,
            Err(e) => return Err(e),
        };
        if fps.len() != ids_input.len() {
            return Err(DbError::LengthMismatch);
        }
        let nints = (nbits / WORD_BITS) as usize;
        let mut data: Vec<u32> = Vec::new();
        let mut ids: Vec<String> = Vec::new();
        let n = fps.len();
        let mut i: usize = 0;
        while i < n
            invariant
                n == fps@.len(),
                n == ids_input@.len(),
                0 <= i <= n,
                valid_nbits(nbits),
                kind == (Kind { family: *fpk, nbits }),
                nints == kind.span(),
                width_ok_upto(fps@, nints as nat, i as int),
                ids@.len() == i,
                data@ == flatten(fps@.subrange(0, i as int)),
                forall|j: int| 0 <= j < i ==> #[trigger] ids@[j]@ == ids_input@[j]@,
            decreases n - i,
        {
            let row = &fps[i];
            if row.len() != nints {
                proof {
                    assert(!all_width(fps@, kind.span()));
                }
                return Err(DbError::Generation);
            }
            proof {
                assert(fps@.subrange(0, i as int + 1).drop_last() == fps@.subrange(0, i as int));
                lemma_flatten_len(fps@.subrange(0, i as int), nints as nat);
            }
            let mut k: usize = 0;
            let ghost before = data@;
            while k < nints
                invariant
                    0 <= k <= nints,
                    nints == row@.len(),
                    data@ == before + row@.subrange(0, k as int),
                decreases nints - k,
            {
                data.push(row[k]);
                proof {
                    assert(row@.subrange(0, k as int + 1) == row@.subrange(0, k as int).push(row@[k as int]));
                }
                k = k + 1;
            }
            proof {
                assert(row@.subrange(0, nints as int) == row@);
            }
            ids.push(ids_input[i].clone());
            i = i + 1;
        }
        proof {
            assert(fps@.subrange(0, n as int) == fps@);
            lemma_flatten_len(fps@, nints as nat);
            assert forall|j: int| 0 <= j < n implies data@.subrange(j * nints, j * nints + nints) == fps@[j]@ by {
                lemma_flatten_row(fps@, nints as nat, j);
            }
        }
        let doc = FingerprintDocument { kind, ids, data, nints };
        assert(doc.holds(kind, fps@, ids_input@));
        Ok(doc)
    }
}

/// Generates the fingerprint of `smiles` under the document's kind.
pub fn get_fingerprint_for_smiles(fp_doc: &FingerprintDocument, smiles: &String) -> (r: Result<Vec<u32>, DbError>)
    requires
        fp_doc.wf(),
    ensures
        openbabel_fingerprint(fp_doc.spec_kind(), smiles@) matches Some(v) ==> (r matches Ok(w) && w@ == v),
        r matches Ok(w) ==> w@.len() == fp_doc.span(),
        openbabel_fingerprint(fp_doc.spec_kind(), smiles@) is None ==> r == Err::<Vec<u32>, DbError>(DbError::Generation),
{
    proof {
        lemma_length_invariant(fp_doc);
    }
    match generate(&fp_doc.kind(), smiles.as_str()) {
        Some(v) => Ok(v),
        None => Err(DbError::Generation),
    }
}

/// Every row of a well-formed document takes `span` words, and the rows
/// together take the whole word buffer.
pub proof fn lemma_length_invariant(doc: &FingerprintDocument)
    requires
        doc.wf(),
    ensures
        doc.spec_len() * doc.span() == doc.word_count(),
        doc.span() == doc.spec_kind().span(),
        valid_nbits(doc.spec_kind().nbits),
        forall|i: int| 0 <= i < doc.spec_len() ==> (#[trigger] doc.spec_data(i)).len() == doc.span(),
{
    assert forall|i: int| 0 <= i < doc.spec_len() implies (#[trigger] doc.spec_data(i)).len() == doc.span() by {
        lemma_row_in_bounds(i, doc.spec_len() as int, doc.span() as int);
        assert(0 <= i * doc.span()) by (nonlinear_arith)
            requires
                0 <= i,
        ;
    }
}

/// A document built from structures and identifiers gives back, at every
/// row, the identifier given at that position and a fingerprint of the
/// kind's width.
pub proof fn lemma_storage_round_trip(doc: &FingerprintDocument, kind: Kind, smiles: Seq<String>, ids: Seq<String>)
    requires
        doc.built_from(kind, smiles, ids),
    ensures
        doc.spec_len() == ids.len(),
        forall|i: int| 0 <= i < ids.len() ==> #[trigger] doc.spec_id(i) == ids[i]@,
        forall|i: int| 0 <= i < ids.len() ==> (#[trigger] doc.spec_data(i)).len() == kind.span(),
{
    lemma_length_invariant(doc);
}

/// The same for a document packed from fingerprints that were given.
pub proof fn lemma_packed_round_trip(doc: &FingerprintDocument, kind: Kind, fps: Seq<Vec<u32>>, ids: Seq<String>)
    requires
        doc.holds(kind, fps, ids),
    ensures
        doc.spec_len() == ids.len(),
        forall|i: int| 0 <= i < ids.len() ==> #[trigger] doc.spec_id(i) == ids[i]@,
        forall|i: int| 0 <= i < ids.len() ==> (#[trigger] doc.spec_data(i)).len() == kind.span(),
{
    lemma_length_invariant(doc);
}

/// Structures and their identifiers, in the order a source yields them.
#[derive(Debug)]
pub struct Corpus {
    pub smiles: Vec<String>,
    pub ids: Vec<String>,
}

/// Why building a document of `fpk` and `nbits` from `smiles` and `ids`
/// fails, if it does.
pub open spec fn build_error(fpk: FingerprintKind, nbits: u32, smiles: Seq<String>, ids: Seq<String>) -> Option<DbError> {
    if !valid_nbits(nbits) {
        Some(DbError::Configuration)
    } else if smiles.len() != ids.len() {
        Some(DbError::LengthMismatch)
    } else if !generates_all(Kind { family: fpk, nbits }, smiles) {
        Some(DbError::Generation)
    } else {
        None
    }
}

/// Why building the document of `spec` from `corpus` fails, if it does.
pub open spec fn spec_error(spec: FingerprintDocumentConfig, corpus: Corpus) -> Option<DbError> {
    build_error(spec.kind, spec.nbits, corpus.smiles@, corpus.ids@)
}

/// Some specification names a source that has no loader.
pub open spec fn has_unsupported(specs: Seq<FingerprintDocumentConfig>) -> bool {
    exists|j: int| 0 <= j < specs.len() && (#[trigger] specs[j]).source == Source::Zinc
}

/// No specification later than `j` and before `n` has the name of `j`.
pub open spec fn last_named(specs: Seq<FingerprintDocumentConfig>, j: int, n: int) -> bool {
    forall|k: int| j < k < n ==> (#[trigger] specs[k]).name@ != specs[j].name@
}

/// Named documents, shared read-only, listed in the order their names were
/// first installed.
pub struct FingerprintDB {
    docs: StringHashMap<Arc<FingerprintDocument>>,
    names: Vec<String>,
}

impl View for FingerprintDB {
    type V = Map<Seq<char>, FingerprintDocument>;

    closed spec fn view(&self) -> Self::V {
        self.docs@.map_values(|d: Arc<FingerprintDocument>| *d)
    }
}

impl FingerprintDB {
    /// Names in listing order.
    pub closed spec fn spec_names(&self) -> Seq<Seq<char>> {
        self.names@.map_values(|s: String| s@)
    }

    pub closed spec fn wf(&self) -> bool {
        &&& forall|k: Seq<char>| #[trigger] self.docs@.contains_key(k) ==> self.docs@[k].wf()
        &&& self.docs@.dom() == self.spec_names().to_set()
        &&& self.spec_names().no_duplicates()
    }

    /// An empty registry.
    pub fn new() -> (r: Self)
        ensures
            r.wf(),
            r@ == Map::<Seq<char>, FingerprintDocument>::empty(),
            r.spec_names() == Seq::<Seq<char>>::empty(),
    {
        let r = FingerprintDB { docs: StringHashMap::new(), names: Vec::new() };
        proof {
            assert(r.spec_names() =~= Seq::<Seq<char>>::empty());
            assert(r.docs@.dom() =~= r.spec_names().to_set());
            assert(r@ =~= Map::<Seq<char>, FingerprintDocument>::empty());
        }
        r
    }

    /// Installs `doc` under `name`, replacing a document of that name.
    pub fn insert(&mut self, name: String, doc: FingerprintDocument)
        requires
            old(self).wf(),
            doc.wf(),
        ensures
            final(self).wf(),
            final(self)@ == old(self)@.insert(name@, doc),
            old(self)@.contains_key(name@) ==> final(self).spec_names() == old(self).spec_names(),
            !old(self)@.contains_key(name@) ==> final(self).spec_names() == old(self).spec_names().push(name@),
    {
        let present = self.docs.contains_key(name.as_str());
        if !present {
            let n2 = name.clone();
            self.names.push(n2);
            proof {
                assert(self.spec_names() =~= old(self).spec_names().push(name@));
                assert(!old(self).spec_names().contains(name@));
            }
        }
        self.docs.insert(name, Arc::new(doc));
        proof {
            assert forall|k: Seq<char>| self.docs@.dom().contains(k) <==> self.spec_names().to_set().contains(k) by {
                if k == name@ {
                    if present {
                        assert(old(self).spec_names().to_set().contains(k));
                    } else {
                        assert(self.spec_names()[self.spec_names().len() - 1] == k);
                    }
                } else if self.spec_names().contains(k) {
                    let i = choose|i: int| 0 <= i < self.spec_names().len() && self.spec_names()[i] == k;
                    assert(old(self).spec_names()[i] == k);
                    assert(old(self).spec_names().to_set().contains(k));
                } else if old(self).spec_names().contains(k) {
                    let i = choose|i: int| 0 <= i < old(self).spec_names().len() && old(self).spec_names()[i] == k;
                    assert(self.spec_names()[i] == k);
                }
            }
            assert(self.docs@.dom() =~= self.spec_names().to_set());
            assert(self@ =~= old(self)@.insert(name@, doc));
        }
    }

    /// The document installed under `name`.
    pub fn get(&self, name: &str) -> (r: Option<&Arc<FingerprintDocument>>)
        requires
            self.wf(),
        ensures
            !self@.contains_key(name@) ==> r is None,
            self@.contains_key(name@) ==> (r matches Some(d) && **d == self@[name@] && self@[name@].wf()),
    {
        self.docs.get(name)
    }

    /// Installed names in listing order.
    pub fn names(&self) -> (r: &Vec<String>)
        ensures
            r@.map_values(|s: String| s@) == self.spec_names(),
    {
        &self.names
    }

    /// Every listed name has a document, and every document a listed name.
    pub proof fn lemma_names(&self)
        requires
            self.wf(),
        ensures
            forall|i: int| 0 <= i < self.spec_names().len() ==> self@.contains_key(#[trigger] self.spec_names()[i]),
            forall|k: Seq<char>| #[trigger] self@.contains_key(k) ==> self.spec_names().contains(k) && self@[k].wf(),
    {
        assert forall|i: int| 0 <= i < self.spec_names().len() implies self@.contains_key(#[trigger] self.spec_names()[i]) by {
            assert(self.spec_names().to_set().contains(self.spec_names()[i]));
        }
    }
}

/// Builds every document that `conf` lists, each from the corpus at the same
/// position, and installs it under its name; a later document replaces an
/// earlier one of the same name. A source without a loader anywhere in the
/// list fails the load before anything is built; otherwise the first
/// specification that cannot be built stops the load with its error.
pub fn load_fingerprint_db(conf: &Config, corpora: &Vec<Corpus>) -> (r: Result<FingerprintDB, DbError>)
    ensures
        has_unsupported(conf.specs()) ==> r == Err::<FingerprintDB, DbError>(DbError::UnsupportedSource),
        !has_unsupported(conf.specs()) && conf.specs().len() != corpora@.len() ==> r == Err::<FingerprintDB, DbError>(
            DbError::LengthMismatch,
        ),
        !has_unsupported(conf.specs()) && conf.specs().len() == corpora@.len() ==> {
            &&& forall|i: int|
                0 <= i < corpora@.len() && #[trigger] spec_error(conf.specs()[i], corpora@[i]) is Some
                    && (forall|j: int| 0 <= j < i ==> spec_error(conf.specs()[j], corpora@[j]) is None)
                    ==> r == Err::<FingerprintDB, DbError>(spec_error(conf.specs()[i], corpora@[i])->0)
            &&& (forall|i: int| 0 <= i < corpora@.len() ==> #[trigger] spec_error(conf.specs()[i], corpora@[i]) is None)
                ==> (r matches Ok(db) && loaded(db, conf.specs(), corpora@))
        },
{
    let empty: Vec<FingerprintDocumentConfig> = Vec::new();
    let specs = match &conf.fp_doc {
        Some(v) => v,
        None => &empty,
    };
    let mut k: usize = 0;
    while k < specs.len()
        invariant
            specs@ == conf.specs(),
            0 <= k <= specs@.len(),
            forall|j: int| 0 <= j < k ==> (#[trigger] specs@[j]).source == Source::Chembl,
        decreases specs@.len() - k,
    {
        match specs[k].source {
            Source::Chembl => {},
            Source::Zinc => return Err(DbError::UnsupportedSource),
        }
        k = k + 1;
    }
    if specs.len() != corpora.len() {
        return Err(DbError::LengthMismatch);
    }
    let mut db = FingerprintDB::new();
    let n = specs.len();
    let mut i: usize = 0;
    while i < n
        invariant
            specs@ == conf.specs(),
            n == specs@.len(),
            n == corpora@.len(),
            !has_unsupported(specs@),
            0 <= i <= n,
            db.wf(),
            forall|j: int| 0 <= j < i ==> #[trigger] spec_error(specs@[j], corpora@[j]) is None,
            loaded_upto(db, specs@, corpora@, i as int),
        decreases n - i,
    {
        let spec = &specs[i];
        let corpus = &corpora[i];
        let doc = match FingerprintDocument::new_from_smiles_vec(&spec.kind, spec.nbits, &corpus.smiles, &corpus.ids) {
            Ok(d) => d,
            Err(e) => return Err(e),
        };
        let ghost old_db = db;
        let ghost d = doc;
        let ghost kind = Kind { family: specs@[i as int].kind, nbits: specs@[i as int].nbits };
        assert(d.built_from(kind, corpora@[i as int].smiles@, corpora@[i as int].ids@));
        db.insert(spec.name.clone(), doc);
        assert(db@[specs@[i as int].name@] == d);
        proof {
            assert forall|j: int| 0 <= j < i + 1 && last_named(specs@, j, i + 1) implies
                #[trigger] db@.contains_key(specs@[j].name@)
                && db@[specs@[j].name@].built_from(Kind { family: specs@[j].kind, nbits: specs@[j].nbits }, corpora@[j].smiles@, corpora@[j].ids@) by {
                if j < i {
                    assert(specs@[i as int].name@ != specs@[j].name@);
                    assert(last_named(specs@, j, i as int));
                    assert(old_db@.contains_key(specs@[j].name@));
                    assert(db@[specs@[j].name@] == old_db@[specs@[j].name@]);
                } else {
                    assert(j == i);
                }
            }
            assert forall|k: Seq<char>| #[trigger] db@.contains_key(k) implies exists|j: int| 0 <= j < i + 1 && specs@[j].name@ == k by {
                if k != specs@[i as int].name@ {
                    assert(old_db@.contains_key(k));
                }
            }
        }
        i = i + 1;
    }
    Ok(db)
}

/// `db` holds, under each name, the document built from the last
/// specification among the first `n` with that name, and no other names.
pub open spec fn loaded_upto(db: FingerprintDB, specs: Seq<FingerprintDocumentConfig>, corpora: Seq<Corpus>, n: int) -> bool {
    &&& forall|j: int|
        0 <= j < n && last_named(specs, j, n) ==> #[trigger] db@.contains_key(specs[j].name@)
            && db@[specs[j].name@].built_from(Kind { family: specs[j].kind, nbits: specs[j].nbits }, corpora[j].smiles@, corpora[j].ids@)
    &&& forall|k: Seq<char>| #[trigger] db@.contains_key(k) ==> exists|j: int| 0 <= j < n && specs[j].name@ == k
}

/// `db` is what loading all of `specs` from `corpora` installs.
pub open spec fn loaded(db: FingerprintDB, specs: Seq<FingerprintDocumentConfig>, corpora: Seq<Corpus>) -> bool {
    db.wf() && loaded_upto(db, specs, corpora, specs.len() as int)
}

proof fn lemma_row_in_bounds(idx: int, len: int, span: int)
    requires
        0 <= idx < len,
        0 <= span,
    ensures
        idx * span + span <= len * span,
{
    assert(idx * span + span <= len * span) by (nonlinear_arith)
        requires
            0 <= idx < len,
            0 <= span,
    ;
}

proof fn lemma_flatten_len(fps: Seq<Vec<u32>>, span: nat)
    requires
        all_width(fps, span),
    ensures
        flatten(fps).len() == fps.len() * span,
    decreases fps.len(),
{
    if fps.len() > 0 {
        assert(all_width(fps.drop_last(), span));
        lemma_flatten_len(fps.drop_last(), span);
        assert(fps.len() * span == (fps.len() - 1) * span + span) by (nonlinear_arith);
    }
}

proof fn lemma_flatten_row(fps: Seq<Vec<u32>>, span: nat, j: int)
    requires
        all_width(fps, span),
        0 <= j < fps.len(),
    ensures
        flatten(fps).subrange(j * span, j * span + span) == fps[j]@,
    decreases fps.len(),
{
    let init = fps.drop_last();
    assert(all_width(init, span));
    lemma_flatten_len(init, span);
    if j == fps.len() - 1 {
        assert(flatten(fps) == flatten(init) + fps.last()@);
        assert(flatten(fps).subrange(j * span, j * span + span) =~= fps[j]@);
    } else {
        lemma_flatten_row(init, span, j);
        assert(j * span + span <= init.len() * span) by (nonlinear_arith)
            requires
                j < init.len(),
        ;
        assert(flatten(fps).subrange(j * span, j * span + span) =~= flatten(init).subrange(j * span, j * span + span));
    }
}

} // verus!
