//! The declarative list of fingerprint documents to load.

use vstd::prelude::*;
use crate::types::{FingerprintKind, Source};

verus! {

/// The documents that a database is loaded with, in order.
#[derive(Debug)]
pub struct Config {
    pub fp_doc: Option<Vec<FingerprintDocumentConfig>>,
}

/// One named fingerprint document: its algorithm and width, and where its
/// structures come from.
#[derive(Debug)]
pub struct FingerprintDocumentConfig {
    pub name: String,
    pub kind: FingerprintKind,
    pub nbits: u32,
    pub filepath: String,
    pub source: Source,
}

impl Config {
    /// The document specifications, none where the list is absent.
    pub open spec fn specs(self) -> Seq<FingerprintDocumentConfig> {
        match self.fp_doc {
            Some(v) => v@,
            None => Seq::empty(),
        }
    }
}

} // verus!
