use chiral_db::fingerprint::FingerprintDocument;
use chiral_db::similarity::{collect_results, query_similarity, query_similarity_for_smiles, similarity_tanimoto};
use chiral_db::types::{Cutoff, DbError, FingerprintKind, Similarity};

fn score(s: Similarity) -> f32 {
    if s.total > 0 {
        s.common as f32 / s.total as f32
    } else {
        0.0
    }
}

fn doc_x1_x2() -> FingerprintDocument {
    let fps: Vec<Vec<u32>> = vec![vec![0b1100], vec![0b1010]];
    let ids = vec![String::from("x1"), String::from("x2")];
    FingerprintDocument::new_from_fingerprints(&FingerprintKind::OpenBabelECFP4, 32, &fps, &ids).unwrap()
}

#[test]
fn test_tanimoto() {
    let fpk = FingerprintKind::OpenBabelECFP4;
    let nbits: u32 = 4096;
    let smiles_1 = String::from("c1ccccc1");
    let smiles_2 = String::from("O=C(C)Oc1ccccc1C(=O)O");
    let smiles_vec = vec![smiles_1.clone(), smiles_2.clone()];
    let ids: Vec<String> = smiles_vec.iter().map(|smiles| smiles.clone()).collect();
    let fp_doc = FingerprintDocument::new_from_smiles_vec(&fpk, nbits, &smiles_vec, &ids).unwrap();
    let s = similarity_tanimoto(fp_doc.get_data(0).unwrap(), fp_doc.get_data(1).unwrap());
    assert!((score(s) - 0.0666) < 1e4);
}

#[test]
fn tanimoto_exact_counts() {
    let s = similarity_tanimoto(&[0b1100], &[0b1010]);
    assert_eq!(s, Similarity { common: 1, total: 3 });
    let s = similarity_tanimoto(&[0xFFFF_FFFF, 0b1], &[0xFFFF_0000, 0b11]);
    assert_eq!(s, Similarity { common: 17, total: 34 });
}

#[test]
fn tanimoto_is_symmetric() {
    let a = [0xDEAD_BEEF, 0x1234_5678, 0];
    let b = [0x0F0F_0F0F, 0xFFFF_0000, 9];
    assert_eq!(similarity_tanimoto(&a, &b), similarity_tanimoto(&b, &a));
}

#[test]
fn tanimoto_self_and_zero() {
    let a = [0, 0b1011, 0x8000_0000];
    let s = similarity_tanimoto(&a, &a);
    assert_eq!(s, Similarity { common: 4, total: 4 });
    assert_eq!(score(s), 1.0);
    let z = [0u32, 0, 0];
    let s = similarity_tanimoto(&z, &z);
    assert_eq!(s, Similarity { common: 0, total: 0 });
    assert_eq!(score(s), 0.0);
    let e: [u32; 0] = [];
    assert_eq!(similarity_tanimoto(&e, &e), Similarity { common: 0, total: 0 });
}

#[test]
fn tanimoto_in_range() {
    let a = [0xAAAA_AAAA, 0x5555_5555];
    let b = [0xFFFF_FFFF, 0];
    let s = similarity_tanimoto(&a, &b);
    assert_eq!(s, Similarity { common: 16, total: 48 });
    assert!(0.0 <= score(s) && score(s) <= 1.0);
}

#[test]
fn cutoff_comparison() {
    let third = Similarity { common: 1, total: 3 };
    assert!(third.is_at_least(&Cutoff { num: 1, den: 3 }));
    assert!(third.is_at_least(&Cutoff { num: 1, den: 5 }));
    assert!(!third.is_at_least(&Cutoff { num: 34, den: 100 }));
    let empty = Similarity { common: 0, total: 0 };
    assert!(empty.is_at_least(&Cutoff { num: 0, den: 1 }));
    assert!(!empty.is_at_least(&Cutoff { num: 1, den: 1_000_000 }));
    let big = Similarity { common: u64::MAX, total: u64::MAX };
    assert!(big.is_at_least(&Cutoff { num: u64::MAX, den: u64::MAX }));
}

#[test]
fn query_exact_match_only() {
    let doc = doc_x1_x2();
    let r = query_similarity(&vec![0b1100], &doc, &Cutoff { num: 1, den: 1 }).unwrap();
    assert_eq!(r, vec![(String::from("x1"), Similarity { common: 2, total: 2 })]);
    let m = collect_results(&r);
    assert_eq!(m.len(), 1);
    assert_eq!(score(*m.get("x1").unwrap()), 1.0);
}

#[test]
fn query_low_cutoff_keeps_both() {
    let doc = doc_x1_x2();
    let r = query_similarity(&vec![0b1100], &doc, &Cutoff { num: 1, den: 5 }).unwrap();
    assert_eq!(
        r,
        vec![
            (String::from("x1"), Similarity { common: 2, total: 2 }),
            (String::from("x2"), Similarity { common: 1, total: 3 }),
        ]
    );
    let m = collect_results(&r);
    assert_eq!(m.len(), 2);
    assert_eq!(score(*m.get("x1").unwrap()), 1.0);
    assert!((score(*m.get("x2").unwrap()) - 0.333_333).abs() < 1e-5);
}

#[test]
fn query_cutoff_zero_keeps_everything() {
    let fps: Vec<Vec<u32>> = vec![vec![0b1], vec![0], vec![0b10]];
    let ids = vec![String::from("a"), String::from("b"), String::from("c")];
    let doc = FingerprintDocument::new_from_fingerprints(&FingerprintKind::OpenBabelECFP0, 32, &fps, &ids).unwrap();
    let r = query_similarity(&vec![0], &doc, &Cutoff { num: 0, den: 1 }).unwrap();
    assert_eq!(r.len(), 3);
    let r = query_similarity(&vec![0b1], &doc, &Cutoff { num: 1, den: 100 }).unwrap();
    assert_eq!(r, vec![(String::from("a"), Similarity { common: 1, total: 1 })]);
}

#[test]
fn raising_cutoff_shrinks_results() {
    let doc = doc_x1_x2();
    let q = vec![0b1110];
    let low = query_similarity(&q, &doc, &Cutoff { num: 1, den: 10 }).unwrap();
    let high = query_similarity(&q, &doc, &Cutoff { num: 2, den: 3 }).unwrap();
    assert_eq!(low.len(), 2);
    assert_eq!(high.len(), 2);
    let higher = query_similarity(&q, &doc, &Cutoff { num: 7, den: 10 }).unwrap();
    assert!(higher.is_empty());
    for p in &high {
        assert!(low.contains(p));
    }
}

#[test]
fn later_duplicate_overwrites_in_map() {
    let pairs = vec![
        (String::from("a"), Similarity { common: 1, total: 2 }),
        (String::from("a"), Similarity { common: 1, total: 4 }),
    ];
    let m = collect_results(&pairs);
    assert_eq!(m.len(), 1);
    assert_eq!(*m.get("a").unwrap(), Similarity { common: 1, total: 4 });
}

#[test]
fn query_width_mismatch() {
    let doc = doc_x1_x2();
    let r = query_similarity(&vec![1, 2], &doc, &Cutoff { num: 0, den: 1 });
    assert_eq!(r, Err(DbError::WidthMismatch));
}

#[test]
fn query_by_structure_finds_itself() {
    let smiles = vec![String::from("CCO"), String::from("c1ccccc1")];
    let ids = vec![String::from("ethanol"), String::from("benzene")];
    let doc = FingerprintDocument::new_from_smiles_vec(&FingerprintKind::OpenBabelECFP4, 2048, &smiles, &ids).unwrap();
    let m = query_similarity_for_smiles(&String::from("c1ccccc1"), &doc, &Cutoff { num: 1, den: 1 }).unwrap();
    assert_eq!(m.len(), 1);
    assert!(m.contains_key("benzene"));
}

#[test]
fn query_fingerprint_has_document_width() {
    let smiles = vec![String::from("CCO")];
    let ids = vec![String::from("ethanol")];
    let doc = FingerprintDocument::new_from_smiles_vec(&FingerprintKind::OpenBabelECFP2, 512, &smiles, &ids).unwrap();
    let q = chiral_db::fingerprint::get_fingerprint_for_smiles(&doc, &String::from("CCCCCCN")).unwrap();
    assert_eq!(q.len(), 16);
    assert!(q.iter().any(|w| *w != 0));
    let r = query_similarity(&q, &doc, &Cutoff { num: 0, den: 1 }).unwrap();
    assert_eq!(r.len(), 1);
}
