use kbackup_tools::identifier::{parse_identifier, SingleHashIdentifier};

#[test]
fn renders_tag_dash_and_uppercase_hex() {
    let id = SingleHashIdentifier::new("S2".to_string(), vec![0xaa, 0x11, 0x0f]);
    assert_eq!(id.to_string(), "S2-AA110F");
}

#[test]
fn renders_empty_digest_as_tag_and_dash() {
    let id = SingleHashIdentifier::new("S2".to_string(), vec![]);
    assert_eq!(id.to_string(), "S2-");
}

#[test]
fn canonical_name_reads_back() {
    let id = SingleHashIdentifier::new("S2".to_string(), vec![0x00, 0xff, 0x7a]);
    let name = id.to_string();
    let back = parse_identifier(&name).unwrap();
    assert_eq!(back.typ, "S2");
    assert_eq!(back.hash, vec![0x00, 0xff, 0x7a]);
}

#[test]
fn parse_splits_at_first_dash() {
    let back = parse_identifier("MD5-0A").unwrap();
    assert_eq!(back.typ, "MD5");
    assert_eq!(back.hash, vec![0x0a]);
    assert!(parse_identifier("A-B-0A").is_none());
}

#[test]
fn parse_rejects_malformed_names() {
    assert!(parse_identifier("S2AA11").is_none());
    assert!(parse_identifier("-AA11").is_none());
    assert!(parse_identifier("S2-").is_none());
    assert!(parse_identifier("S2-AA1").is_none());
    assert!(parse_identifier("S2-aa11").is_none());
    assert!(parse_identifier("S2-GG").is_none());
    assert!(parse_identifier("").is_none());
}
