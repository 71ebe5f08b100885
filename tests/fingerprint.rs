use chiral_db::fingerprint::{convert_kind, decimal_string, FingerprintDocument, Kind};
use chiral_db::types::{DbError, FingerprintKind};

fn two_rows() -> FingerprintDocument {
    let fps: Vec<Vec<u32>> = vec![vec![0b1100, 7], vec![0b1010, 0]];
    let ids: Vec<String> = vec![String::from("x1"), String::from("x2")];
    FingerprintDocument::new_from_fingerprints(&FingerprintKind::OpenBabelECFP2, 64, &fps, &ids).unwrap()
}

#[test]
fn test_kind() {
    let kind = Kind { family: FingerprintKind::OpenBabelECFP4, nbits: 2048 };
    assert_eq!(kind.as_string(), "OpenBabel ECFP4 with 2048 bits");
}

#[test]
fn test_new_from_smiles_vec() {
    let fpk = FingerprintKind::OpenBabelECFP4;
    let nbits: u32 = 2048;
    let smiles_1 = String::from("c1ccccc1");
    let smiles_2 = String::from("CCCCCCN");
    let smiles_vec = vec![smiles_1.clone(), smiles_2.clone()];
    let ids: Vec<String> = smiles_vec.iter().map(|smiles| smiles.clone()).collect();
    let fp_doc = FingerprintDocument::new_from_smiles_vec(&fpk, nbits, &smiles_vec, &ids).unwrap();
    assert_eq!(smiles_vec[0].to_string(), *fp_doc.get_id(0).unwrap());
    assert_eq!(smiles_vec[1].to_string(), *fp_doc.get_id(1).unwrap());
    assert_eq!(fp_doc.total_words(), fp_doc.nints() * 2);
}

#[test]
fn kind_text_for_every_family() {
    let cases = [
        (FingerprintKind::OpenBabelECFP0, 32, "OpenBabel ECFP0 with 32 bits"),
        (FingerprintKind::OpenBabelECFP2, 1024, "OpenBabel ECFP2 with 1024 bits"),
        (FingerprintKind::OpenBabelECFP6, 4096, "OpenBabel ECFP6 with 4096 bits"),
        (FingerprintKind::OpenBabelECFP8, 96, "OpenBabel ECFP8 with 96 bits"),
        (FingerprintKind::OpenBabelECFP10, 4294967264, "OpenBabel ECFP10 with 4294967264 bits"),
    ];
    for (family, nbits, text) in cases {
        assert_eq!(Kind { family, nbits }.as_string(), text);
    }
}

#[test]
fn decimal_digits() {
    assert_eq!(decimal_string(0), "0");
    assert_eq!(decimal_string(9), "9");
    assert_eq!(decimal_string(10), "10");
    assert_eq!(decimal_string(1234567890), "1234567890");
    assert_eq!(decimal_string(u64::MAX), "18446744073709551615");
}

#[test]
fn convert_kind_checks_width() {
    assert_eq!(
        convert_kind(&FingerprintKind::OpenBabelECFP4, 2048),
        Ok(Kind { family: FingerprintKind::OpenBabelECFP4, nbits: 2048 })
    );
    assert_eq!(convert_kind(&FingerprintKind::OpenBabelECFP4, 0), Err(DbError::Configuration));
    assert_eq!(convert_kind(&FingerprintKind::OpenBabelECFP4, 33), Err(DbError::Configuration));
    assert_eq!(convert_kind(&FingerprintKind::OpenBabelECFP4, 2147483648), Err(DbError::Configuration));
    assert_eq!(convert_kind(&FingerprintKind::OpenBabelECFP4, 4294967264), Err(DbError::Configuration));
    assert_eq!(
        convert_kind(&FingerprintKind::OpenBabelECFP0, 2147483616),
        Ok(Kind { family: FingerprintKind::OpenBabelECFP0, nbits: 2147483616 })
    );
}

#[test]
fn packed_rows_round_trip() {
    let doc = two_rows();
    assert_eq!(doc.len(), 2);
    assert_eq!(doc.nints(), 2);
    assert_eq!(doc.total_words(), 4);
    assert_eq!(doc.get_data(0).unwrap(), &[0b1100, 7]);
    assert_eq!(doc.get_data(1).unwrap(), &[0b1010, 0]);
    assert_eq!(doc.get_id(0).unwrap(), "x1");
    assert_eq!(doc.get_id(1).unwrap(), "x2");
    assert_eq!(doc.desc(), "2\t\tOpenBabel ECFP2 with 64 bits");
}

#[test]
fn row_index_out_of_range() {
    let doc = two_rows();
    assert_eq!(doc.get_data(2), Err(DbError::IndexOutOfRange));
    assert_eq!(doc.get_id(5), Err(DbError::IndexOutOfRange));
}

#[test]
fn duplicate_ids_are_kept() {
    let fps: Vec<Vec<u32>> = vec![vec![1], vec![2]];
    let ids = vec![String::from("a"), String::from("a")];
    let doc = FingerprintDocument::new_from_fingerprints(&FingerprintKind::OpenBabelECFP0, 32, &fps, &ids).unwrap();
    assert_eq!(doc.len(), 2);
    assert_eq!(doc.get_data(1).unwrap(), &[2]);
}

#[test]
fn empty_document() {
    let fps: Vec<Vec<u32>> = vec![];
    let ids: Vec<String> = vec![];
    let doc = FingerprintDocument::new_from_fingerprints(&FingerprintKind::OpenBabelECFP0, 128, &fps, &ids).unwrap();
    assert_eq!(doc.len(), 0);
    assert_eq!(doc.total_words(), 0);
    assert_eq!(doc.desc(), "0\t\tOpenBabel ECFP0 with 128 bits");
}

#[test]
fn construction_errors() {
    let fps: Vec<Vec<u32>> = vec![vec![1]];
    let one = vec![String::from("a")];
    let two = vec![String::from("a"), String::from("b")];
    let k = FingerprintKind::OpenBabelECFP0;
    assert_eq!(FingerprintDocument::new_from_fingerprints(&k, 40, &fps, &one).err(), Some(DbError::Configuration));
    assert_eq!(FingerprintDocument::new_from_fingerprints(&k, 32, &fps, &two).err(), Some(DbError::LengthMismatch));
    assert_eq!(FingerprintDocument::new_from_fingerprints(&k, 64, &fps, &one).err(), Some(DbError::Generation));
    let smiles = vec![String::from("CCO")];
    assert_eq!(FingerprintDocument::new_from_smiles_vec(&k, 2048, &smiles, &two).err(), Some(DbError::LengthMismatch));
    assert_eq!(FingerprintDocument::new_from_smiles_vec(&k, 100, &smiles, &one).err(), Some(DbError::Configuration));
}

#[test]
fn generated_rows_have_the_kind_width() {
    let smiles = vec![String::from("CCO"), String::from("c1ccccc1"), String::from("CCN")];
    let ids = vec![String::from("e"), String::from("b"), String::from("a")];
    let doc = FingerprintDocument::new_from_smiles_vec(&FingerprintKind::OpenBabelECFP4, 1024, &smiles, &ids).unwrap();
    assert_eq!(doc.len(), 3);
    assert_eq!(doc.nints(), 32);
    for i in 0..3 {
        assert_eq!(doc.get_id(i).unwrap(), &ids[i]);
        assert_eq!(doc.get_data(i).unwrap().len(), 32);
    }
    assert_eq!(doc.desc(), "3\t\tOpenBabel ECFP4 with 1024 bits");
}
