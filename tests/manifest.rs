use kbackup_tools::decode::{decode_backup, decode_collection, DecodeFailure};
use kbackup_tools::identifier::SingleHashIdentifier;
use kbackup_tools::index::NameIndex;
use kbackup_tools::manifest::{
    add_unseen, collect_kbi_objects, map_insert, traverse_all, JavaHashMap, ObjectCollection2,
    ObjectElement, SavedIncBackupV1,
};

fn element(name: &str, digest: Vec<u8>) -> ObjectElement {
    ObjectElement {
        name: name.to_string(),
        identifier: SingleHashIdentifier::new("S2".to_string(), digest),
    }
}

fn collection(
    name: &str,
    elements: Vec<ObjectElement>,
    subs: Vec<ObjectCollection2>,
) -> ObjectCollection2 {
    let mut es: JavaHashMap<String, ObjectElement> = Vec::new();
    for e in elements {
        let k = e.name.clone();
        map_insert(&mut es, k, e);
    }
    let mut ss: JavaHashMap<String, ObjectCollection2> = Vec::new();
    for s in subs {
        let k = s.name.clone();
        map_insert(&mut ss, k, s);
    }
    ObjectCollection2 { name: name.to_string(), elements: es, sub_collections: ss }
}

fn backup(root: ObjectCollection2) -> SavedIncBackupV1 {
    SavedIncBackupV1 {
        object_collection2: root,
        backup_name: "b".to_string(),
        total_size_bytes: 0,
        increased_size_bytes: 0,
        files_added: 0,
        total_files: 0,
    }
}

#[test]
fn map_insert_replaces_value_in_place() {
    let mut m: JavaHashMap<String, i32> = Vec::new();
    map_insert(&mut m, "a".to_string(), 1);
    map_insert(&mut m, "b".to_string(), 2);
    map_insert(&mut m, "a".to_string(), 3);
    assert_eq!(m, vec![("a".to_string(), 3), ("b".to_string(), 2)]);
}

#[test]
fn walk_is_depth_first_own_elements_first() {
    let leaf = collection("deep", vec![element("d", vec![0xdd])], vec![]);
    let mods = collection("mods", vec![element("m", vec![0xcc])], vec![leaf]);
    let cfg = collection("config", vec![element("c", vec![0xbb])], vec![]);
    let root = collection("", vec![element("r", vec![0xaa])], vec![mods, cfg]);
    let mut out = Vec::new();
    traverse_all(&root, &mut out);
    assert_eq!(out, vec!["S2-AA", "S2-CC", "S2-DD", "S2-BB"]);
    let mut again = vec!["x".to_string()];
    traverse_all(&root, &mut again);
    assert_eq!(again, vec!["x", "S2-AA", "S2-CC", "S2-DD", "S2-BB"]);
}

#[test]
fn walk_of_empty_tree_is_empty() {
    let root = collection("", vec![], vec![collection("empty", vec![], vec![])]);
    assert!(collect_kbi_objects(&backup(root)).is_empty());
}

#[test]
fn collect_yields_every_element_of_sub_collection() {
    let mods = collection(
        "mods",
        vec![element("a.jar", vec![0xaa, 0x11]), element("b.jar", vec![0xbb, 0x22])],
        vec![],
    );
    let root = collection("", vec![], vec![mods]);
    assert_eq!(collect_kbi_objects(&backup(root)), vec!["S2-AA11", "S2-BB22"]);
}

#[test]
fn add_unseen_keeps_first_occurrences_only() {
    let mut seen = NameIndex::new();
    let first = add_unseen(&mut seen, &vec!["a".to_string(), "b".to_string(), "a".to_string()]);
    assert_eq!(first, vec!["a", "b"]);
    let second = add_unseen(&mut seen, &vec!["b".to_string(), "c".to_string()]);
    assert_eq!(second, vec!["c"]);
    assert_eq!(seen.len(), 3);
}

#[test]
fn name_index_finds_every_pushed_name() {
    let mut idx = NameIndex::new();
    for i in 0..2000 {
        idx.push(format!("S2-{:08X}", i));
    }
    assert_eq!(idx.find(&"S2-00000000".to_string()), Some(0));
    assert_eq!(idx.find(&"S2-000007CF".to_string()), Some(1999));
    assert_eq!(idx.find(&"S2-000007D0".to_string()), None);
    assert_eq!(idx.len(), 2000);
}

#[test]
fn decode_rejects_non_object_values() {
    let e = decode_backup(&jaded::Value::Null).unwrap_err();
    assert!(matches!(e.failure, DecodeFailure::NotAnObject));
    assert!(e.path.is_empty());
    let e = decode_backup(&jaded::Value::JavaString("x".to_string())).unwrap_err();
    assert!(matches!(e.failure, DecodeFailure::NotAnObject));
}

#[test]
fn decode_refuses_nesting_past_the_limit() {
    let e = decode_collection(&jaded::Value::Null, kbackup_tools::decode::MAX_DEPTH).unwrap_err();
    assert!(matches!(e.failure, DecodeFailure::TooDeep));
}
