use kbackup_tools::identifier::SingleHashIdentifier;
use kbackup_tools::manifest::{collect_kbi_objects, map_insert, ObjectCollection2, ObjectElement, SavedIncBackupV1};
use kbackup_tools::verify::{
    check_digest, expected_digest, hash_file, verify_object, CheckOutcome, VerificationReport,
};

const ABC_SHA256: &str = "BA7816BF8F01CFEA414140DE5DAE2223B00361A396177A9CB410FF61F20015AD";

#[test]
fn hashes_contents_to_uppercase_hex() {
    assert_eq!(hash_file(b"abc"), ABC_SHA256);
    assert_eq!(
        hash_file(b""),
        "E3B0C44298FC1C149AFBF4C8996FB92427AE41E4649B934CA495991B7852B855"
    );
}

#[test]
fn expected_digest_needs_sha256_tag() {
    assert_eq!(expected_digest("S2-AA11"), Some("AA11".to_string()));
    assert_eq!(expected_digest("S2-"), Some(String::new()));
    assert_eq!(expected_digest("S3-AA11"), None);
    assert_eq!(expected_digest("S2"), None);
}

#[test]
fn check_reports_match_mismatch_and_unsupported() {
    assert_eq!(check_digest("S2-AA", &"AA".to_string()), CheckOutcome::Match);
    match check_digest("S2-AA", &"BB".to_string()) {
        CheckOutcome::Mismatch(m) => {
            assert_eq!(m.name, "S2-AA");
            assert_eq!(m.expected, "AA");
            assert_eq!(m.actual, "BB");
        }
        o => panic!("unexpected {:?}", o),
    }
    assert_eq!(
        check_digest("MD5-AA", &"AA".to_string()),
        CheckOutcome::UnsupportedAlgorithm("MD5-AA".to_string())
    );
}

#[test]
fn verify_object_hashes_the_contents() {
    let name = format!("S2-{}", ABC_SHA256);
    assert_eq!(verify_object(&name, b"abc"), CheckOutcome::Match);
    assert!(matches!(verify_object(&name, b"abd"), CheckOutcome::Mismatch(_)));
    assert!(matches!(verify_object("X-00", b"abc"), CheckOutcome::UnsupportedAlgorithm(_)));
}

#[test]
fn population_with_corrupted_files_reports_each_once() {
    let contents: Vec<Vec<u8>> = (0..5u8).map(|i| vec![i; 10]).collect();
    let names: Vec<String> = contents.iter().map(|c| format!("S2-{}", hash_file(c))).collect();
    let mut stored = contents.clone();
    stored[1][0] ^= 1;
    stored[3].push(7);
    let mut report = VerificationReport::new();
    for (n, c) in names.iter().zip(stored.iter()) {
        report.record(verify_object(n, c));
    }
    report.record(CheckOutcome::Unreadable("S2-00".to_string(), "gone".to_string()));
    assert_eq!(report.mismatches.len(), 2);
    assert_eq!(report.passed, 3);
    assert_eq!(report.errors, 1);
    assert_eq!(report.mismatches[0].name, names[1]);
    assert_eq!(report.mismatches[1].name, names[3]);
}

#[test]
fn manifest_objects_verify_until_one_is_corrupted() {
    let a = b"first object".to_vec();
    let b = b"second object".to_vec();
    let digest = |c: &[u8]| hex::decode(hash_file(c)).unwrap();
    let mut es = Vec::new();
    for (n, c) in [("a.jar", &a), ("b.jar", &b)] {
        let e = ObjectElement {
            name: n.to_string(),
            identifier: SingleHashIdentifier::new("S2".to_string(), digest(c)),
        };
        map_insert(&mut es, n.to_string(), e);
    }
    let mods = ObjectCollection2 { name: "mods".to_string(), elements: es, sub_collections: vec![] };
    let mut subs = Vec::new();
    map_insert(&mut subs, "mods".to_string(), mods);
    let root = ObjectCollection2 { name: String::new(), elements: vec![], sub_collections: subs };
    let manifest = SavedIncBackupV1 {
        object_collection2: root,
        backup_name: "b".to_string(),
        total_size_bytes: 0,
        increased_size_bytes: 0,
        files_added: 2,
        total_files: 2,
    };
    let names = collect_kbi_objects(&manifest);
    assert_eq!(names.len(), 2);
    let run = |store: &[Vec<u8>]| {
        let mut report = VerificationReport::new();
        for (n, c) in names.iter().zip(store.iter()) {
            report.record(verify_object(n, c));
        }
        report
    };
    assert!(run(&[a.clone(), b.clone()]).mismatches.is_empty());
    let mut bad = a.clone();
    bad[0] ^= 0xff;
    let report = run(&[bad, b.clone()]);
    assert_eq!(report.mismatches.len(), 1);
    assert_eq!(report.mismatches[0].name, names[0]);
}
