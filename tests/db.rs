use chiral_db::config::{Config, FingerprintDocumentConfig};
use chiral_db::fingerprint::{load_fingerprint_db, Corpus};
use chiral_db::types::{Cutoff, DbError, FingerprintKind, Source};
use chiral_db::ChiralDB;

fn spec(name: &str, nbits: u32, source: Source) -> FingerprintDocumentConfig {
    FingerprintDocumentConfig {
        name: String::from(name),
        kind: FingerprintKind::OpenBabelECFP4,
        nbits,
        filepath: String::from("./unused.txt"),
        source,
    }
}

fn corpus(pairs: &[(&str, &str)]) -> Corpus {
    Corpus {
        smiles: pairs.iter().map(|p| String::from(p.0)).collect(),
        ids: pairs.iter().map(|p| String::from(p.1)).collect(),
    }
}

fn empty_corpus() -> Corpus {
    Corpus { smiles: vec![], ids: vec![] }
}

#[test]
fn unknown_document_gives_empty_result() {
    let db = ChiralDB::new(&Config { fp_doc: None }, &vec![]).unwrap();
    let r = db.query_similarity_for_smiles(&String::from("nope"), &String::from("CCO"), &Cutoff { num: 0, den: 1 });
    assert_eq!(r.unwrap().len(), 0);
}

#[test]
fn unsupported_source_fails_loading() {
    let conf = Config { fp_doc: Some(vec![spec("ZINC15", 1024, Source::Zinc)]) };
    assert_eq!(ChiralDB::new(&conf, &vec![empty_corpus()]).err(), Some(DbError::UnsupportedSource));
}

#[test]
fn first_failing_specification_decides_the_error() {
    let conf = Config {
        fp_doc: Some(vec![spec("bad", 100, Source::Chembl), spec("worse", 64, Source::Chembl)]),
    };
    let r = load_fingerprint_db(&conf, &vec![empty_corpus(), corpus(&[("CCO", "a"), ("CCN", "b")])]);
    assert_eq!(r.err(), Some(DbError::Configuration));
    let conf = Config { fp_doc: Some(vec![spec("a", 1024, Source::Chembl)]) };
    assert_eq!(load_fingerprint_db(&conf, &vec![]).err(), Some(DbError::LengthMismatch));
}

#[test]
fn unsupported_source_anywhere_fails_first() {
    let conf = Config {
        fp_doc: Some(vec![spec("bad", 100, Source::Chembl), spec("ZINC15", 1024, Source::Zinc)]),
    };
    let r = load_fingerprint_db(&conf, &vec![empty_corpus(), empty_corpus()]);
    assert_eq!(r.err(), Some(DbError::UnsupportedSource));
    assert_eq!(load_fingerprint_db(&conf, &vec![]).err(), Some(DbError::UnsupportedSource));
}

#[test]
fn registry_listing_and_named_query() {
    let conf = Config {
        fp_doc: Some(vec![spec("small", 1024, Source::Chembl), spec("other", 2048, Source::Chembl)]),
    };
    let corpora = vec![
        corpus(&[("CCO", "ethanol"), ("c1ccccc1", "benzene")]),
        corpus(&[("CCN", "ethylamine")]),
    ];
    let db = ChiralDB::new(&conf, &corpora).unwrap();
    let expected = format!(
        "Doc\t\tEntries\t\tFP Type\n{}\nsmall\t\t2\t\tOpenBabel ECFP4 with 1024 bits\nother\t\t1\t\tOpenBabel ECFP4 with 2048 bits",
        "=".repeat(50)
    );
    assert_eq!(db.desc(), expected);
    let m = db
        .query_similarity_for_smiles(&String::from("small"), &String::from("c1ccccc1"), &Cutoff { num: 1, den: 1 })
        .unwrap();
    assert_eq!(m.len(), 1);
    assert!(m.contains_key("benzene"));
}

#[test]
fn later_specification_replaces_earlier_one() {
    let conf = Config {
        fp_doc: Some(vec![spec("same", 1024, Source::Chembl), spec("same", 2048, Source::Chembl)]),
    };
    let corpora = vec![corpus(&[("CCO", "ethanol")]), corpus(&[("CCN", "ethylamine"), ("CCC", "propane")])];
    let db = load_fingerprint_db(&conf, &corpora).unwrap();
    assert_eq!(db.names().len(), 1);
    let doc = db.get("same").unwrap();
    assert_eq!(doc.len(), 2);
    assert_eq!(doc.nints(), 64);
}

#[test]
fn unparsable_structure_fails_generation() {
    let conf = Config { fp_doc: Some(vec![spec("x", 1024, Source::Chembl)]) };
    let corpora = vec![corpus(&[("C1CC(((", "broken")])];
    assert_eq!(ChiralDB::new(&conf, &corpora).err(), Some(DbError::Generation));
}
