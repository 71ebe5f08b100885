//! An in-memory store of packed molecular fingerprints, queried by Tanimoto
//! similarity with an inclusive cutoff.

use vstd::prelude::*;

pub mod types;
pub mod config;
pub mod similarity;
pub mod fingerprint;

use crate::config::Config;
use std::sync::Arc;
use crate::fingerprint::{Corpus, FingerprintDB, FingerprintDocument, load_fingerprint_db, loaded, spec_error, has_unsupported, openbabel_fingerprint};
use crate::similarity::{ResultSimilarity, query_spec, to_map};
use crate::types::{Cutoff, DbError};

verus! {

/// The loaded documents, by name.
pub struct ChiralDB {
    fp_docs: FingerprintDB,
}

/// The registry listing: a header, a rule, and one line per document in
/// listing order with its name and summary.
pub open spec fn listing(db: FingerprintDB, n: int) -> Seq<char>
    decreases n,
{
    if n <= 0 {
        "Doc\t\tEntries\t\tFP Type\n=================================================="@
    } else {
        let name = db.spec_names()[n - 1];
        listing(db, n - 1) + "\n"@ + name + "\t\t"@ + db@[name].desc_text()
    }
}

impl ChiralDB {
    pub closed spec fn registry(&self) -> FingerprintDB {
        self.fp_docs
    }

    pub closed spec fn wf(&self) -> bool {
        self.fp_docs.wf()
    }

    /// Loads every document that `conf` lists, each from the corpus at the
    /// same position.
    pub fn new(conf: &Config, corpora: &Vec<Corpus>) -> (r: Result<Self, DbError>)
        ensures
            has_unsupported(conf.specs()) ==> r matches Err(DbError::UnsupportedSource),
            !has_unsupported(conf.specs()) && conf.specs().len() != corpora@.len() ==> r matches Err(
                DbError::LengthMismatch,
            ),
            !has_unsupported(conf.specs()) && conf.specs().len() == corpora@.len() ==> {
                &&& forall|i: int|
                    0 <= i < corpora@.len() && #[trigger] spec_error(conf.specs()[i], corpora@[i]) is Some
                        && (forall|j: int| 0 <= j < i ==> spec_error(conf.specs()[j], corpora@[j]) is None)
                        ==> (r matches Err(e) && e == spec_error(conf.specs()[i], corpora@[i])->0)
                &&& (forall|i: int| 0 <= i < corpora@.len() ==> #[trigger] spec_error(conf.specs()[i], corpora@[i]) is None)
                    ==> (r matches Ok(db) && db.wf() && loaded(db.registry(), conf.specs(), corpora@))
            },
    {
        match load_fingerprint_db(conf, corpora) {
            Ok(fp_docs) => Ok(ChiralDB { fp_docs }),
            Err(e) => Err(e),
        }
    }

    fn desc_fingerprint_db(&self) -> (r: String)
        requires
            self.wf(),
        ensures
            r@ == listing(self.registry(), self.registry().spec_names().len() as int),
    {
        let mut s = String::from_str("Doc\t\tEntries\t\tFP Type\n==================================================");
        let names = self.fp_docs.names();
        let n = names.len();
        proof {
            self.fp_docs.lemma_names();
        }
        let mut i: usize = 0;
        while i < n
            invariant
                self.wf(),
                n == self.registry().spec_names().len(),
                names@.map_values(|s: String| s@) == self.registry().spec_names(),
                0 <= i <= n,
                s@ == listing(self.registry(), i as int),
                forall|k: int| 0 <= k < n ==> self.registry()@.contains_key(#[trigger] self.registry().spec_names()[k]),
            decreases n - i,
        {
            let name = &names[i];
            assert(name@ == self.registry().spec_names()[i as int]);
            match self.fp_docs.get(name.as_str()) {
                Some(doc) => {
                    s.append("\n");
                    s.append(name.as_str());
                    s.append("\t\t");
                    let d = doc.desc();
                    s.append(d.as_str());
                },
                None => {},
            }
            i = i + 1;
        }
        s
    }

    /// The registry listing.
    pub fn desc(&self) -> (r: String)
        requires
            self.wf(),
        ensures
            r@ == listing(self.registry(), self.registry().spec_names().len() as int),
    {
        self.desc_fingerprint_db()
    }

    /// The document installed under `doc_name`.
    pub fn get_document(&self, doc_name: &str) -> (r: Option<&Arc<FingerprintDocument>>)
        requires
            self.wf(),
        ensures
            !self.registry()@.contains_key(doc_name@) ==> r is None,
            self.registry()@.contains_key(doc_name@) ==> (r matches Some(d) && **d == self.registry()@[doc_name@]
                && d.wf()),
    {
        self.fp_docs.get(doc_name)
    }

    /// Scores `smiles` against the document named `doc_name`; an unknown
    /// name gives an empty result.
    pub fn query_similarity_for_smiles(&self, doc_name: &String, smiles: &String, cut_off: &Cutoff) -> (r: Result<
        ResultSimilarity,
        DbError,
    >)
        requires
            self.wf(),
            cut_off.wf(),
        ensures
            !self.registry()@.contains_key(doc_name@) ==> (r matches Ok(m) && m@ == Map::<Seq<char>, crate::types::Similarity>::empty()),
            self.registry()@.contains_key(doc_name@) ==> {
                let doc = self.registry()@[doc_name@];
                match openbabel_fingerprint(doc.spec_kind(), smiles@) {
                    None => r matches Err(DbError::Generation),
                    Some(q) => if q.len() == doc.span() {
                        r matches Ok(m) && m@ == to_map(query_spec(q, &doc, *cut_off))
                    } else {
                        r matches Err(DbError::WidthMismatch)
                    },
                }
            },
    {
        match self.fp_docs.get(doc_name.as_str()) {
            Some(doc) => similarity::query_similarity_for_smiles(smiles, doc, cut_off),
            None => Ok(ResultSimilarity::new()),
        }
    }
}

} // verus!
