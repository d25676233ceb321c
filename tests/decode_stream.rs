use kbackup_tools::decode::{decode_backup, DecodeFailure};
use kbackup_tools::manifest::collect_kbi_objects;

/// Writes a Java object stream by hand.
struct Stream {
    b: Vec<u8>,
}

type Field<'a> = (u8, &'a str, Option<&'a str>);

impl Stream {
    fn new() -> Stream {
        Stream { b: vec![0xAC, 0xED, 0x00, 0x05] }
    }
    fn i32(&mut self, x: i32) {
        self.b.extend_from_slice(&x.to_be_bytes());
    }
    fn i64(&mut self, x: i64) {
        self.b.extend_from_slice(&x.to_be_bytes());
    }
    fn utf(&mut self, s: &str) {
        self.b.extend_from_slice(&(s.len() as u16).to_be_bytes());
        self.b.extend_from_slice(s.as_bytes());
    }
    fn string(&mut self, s: &str) {
        self.b.push(0x74);
        self.utf(s);
    }
    fn class_desc(&mut self, name: &str, flags: u8, fields: &[Field]) {
        self.b.push(0x72);
        self.utf(name);
        self.i64(1);
        self.b.push(flags);
        self.b.extend_from_slice(&(fields.len() as u16).to_be_bytes());
        for (t, n, cls) in fields {
            self.b.push(*t);
            self.utf(n);
            if let Some(c) = cls {
                self.string(c);
            }
        }
        self.b.push(0x78);
        self.b.push(0x70);
    }
    fn bytes(&mut self, bs: &[u8]) {
        self.b.push(0x75);
        self.class_desc("[B", 0x02, &[]);
        self.i32(bs.len() as i32);
        self.b.extend_from_slice(bs);
    }
    fn identifier(&mut self, typ: &str, hash: &[u8]) {
        self.b.push(0x73);
        self.class_desc(
            "SingleHashIdentifier",
            0x02,
            &[(b'L', "type", Some("Ljava/lang/String;")), (b'[', "hash", Some("[B"))],
        );
        self.string(typ);
        self.bytes(hash);
    }
    fn element(&mut self, name: &str, hash: &[u8]) {
        self.b.push(0x73);
        self.class_desc(
            "ObjectElement",
            0x02,
            &[
                (b'L', "name", Some("Ljava/lang/String;")),
                (b'L', "identifier", Some("LSingleHashIdentifier;")),
            ],
        );
        self.string(name);
        self.identifier("S2", hash);
    }
    /// A `java.util.HashMap` whose block data gives `count` entries; `entries`
    /// writes the keys and values.
    fn hash_map(&mut self, count: i32, entries: &dyn Fn(&mut Stream)) {
        self.hash_map_sized(16, count, entries);
    }
    fn hash_map_sized(&mut self, buckets: i32, count: i32, entries: &dyn Fn(&mut Stream)) {
        self.b.push(0x73);
        self.class_desc(
            "java.util.HashMap",
            0x03,
            &[(b'F', "loadFactor", None), (b'I', "threshold", None)],
        );
        self.b.extend_from_slice(&[0x3F, 0x40, 0x00, 0x00]);
        self.i32(12);
        self.b.push(0x77);
        self.b.push(8);
        self.i32(buckets);
        self.i32(count);
        entries(self);
        self.b.push(0x78);
    }
    fn collection_head(&mut self, name: &str) {
        self.b.push(0x73);
        self.class_desc(
            "ObjectCollection2",
            0x02,
            &[
                (b'L', "name", Some("Ljava/lang/String;")),
                (b'L', "elements", Some("Ljava/util/HashMap;")),
                (b'L', "subCollections", Some("Ljava/util/HashMap;")),
            ],
        );
        self.string(name);
    }
    fn backup_head(&mut self) {
        self.b.push(0x73);
        self.class_desc(
            "SavedIncBackupV1",
            0x02,
            &[
                (b'J', "totalSizeBytes", None),
                (b'J', "increasedSizeBytes", None),
                (b'I', "filesAdded", None),
                (b'I', "totalFiles", None),
                (b'L', "backupName", Some("Ljava/lang/String;")),
                (b'L', "objectCollection2", Some("LObjectCollection2;")),
            ],
        );
        self.i64(4096);
        self.i64(1024);
        self.i32(2);
        self.i32(7);
        self.string("nightly");
    }
}

fn read_value(bytes: &[u8]) -> jaded::Value {
    let mut parser = jaded::Parser::new(bytes).unwrap();
    match parser.read().unwrap() {
        jaded::Content::Object(v) => v,
        jaded::Content::Block(_) => panic!("block data"),
    }
}

fn empty_map(s: &mut Stream) {
    s.hash_map(0, &|_| {});
}

/// A manifest whose root has no elements and one sub-collection `mods` with two.
fn mods_manifest() -> Vec<u8> {
    let mut s = Stream::new();
    s.backup_head();
    s.collection_head("");
    empty_map(&mut s);
    s.hash_map(1, &|s| {
        s.string("mods");
        s.collection_head("mods");
        s.hash_map(2, &|s| {
            s.string("a.jar");
            s.element("a.jar", &[0xAA, 0x11]);
            s.string("b.jar");
            s.element("b.jar", &[0xBB, 0x22]);
        });
        empty_map(s);
    });
    s.b
}

#[test]
fn decodes_manifest_from_object_stream() {
    let b = decode_backup(&read_value(&mods_manifest())).unwrap();
    assert_eq!(b.backup_name, "nightly");
    assert_eq!(b.total_size_bytes, 4096);
    assert_eq!(b.increased_size_bytes, 1024);
    assert_eq!(b.files_added, 2);
    assert_eq!(b.total_files, 7);
    let root = &b.object_collection2;
    assert!(root.elements.is_empty());
    assert_eq!(root.sub_collections.len(), 1);
    let (key, mods) = &root.sub_collections[0];
    assert_eq!(key, "mods");
    assert_eq!(mods.name, "mods");
    assert_eq!(mods.elements.len(), 2);
    assert_eq!(mods.elements[0].1.identifier.hash, vec![0xAA, 0x11]);
    assert_eq!(collect_kbi_objects(&b), vec!["S2-AA11", "S2-BB22"]);
}

#[test]
fn repeated_key_keeps_the_later_value() {
    let mut s = Stream::new();
    s.backup_head();
    s.collection_head("");
    s.hash_map(2, &|s| {
        s.string("x");
        s.element("x", &[0x01]);
        s.string("x");
        s.element("x", &[0x02]);
    });
    empty_map(&mut s);
    let b = decode_backup(&read_value(&s.b)).unwrap();
    assert_eq!(collect_kbi_objects(&b), vec!["S2-02"]);
}

#[test]
fn negative_entry_count_is_refused() {
    let mut s = Stream::new();
    s.backup_head();
    s.collection_head("");
    s.hash_map(-1, &|_| {});
    empty_map(&mut s);
    let e = decode_backup(&read_value(&s.b)).unwrap_err();
    assert!(matches!(e.failure, DecodeFailure::NegativeCount(-1)));
    assert_eq!(e.path, vec!["objectCollection2", "elements"]);
}

#[test]
fn too_few_entries_is_a_conversion_error() {
    let mut s = Stream::new();
    s.backup_head();
    s.collection_head("");
    s.hash_map(1, &|_| {});
    empty_map(&mut s);
    let e = decode_backup(&read_value(&s.b)).unwrap_err();
    assert!(matches!(e.failure, DecodeFailure::Conversion(_)));
    assert_eq!(e.path, vec!["objectCollection2", "elements"]);
}

#[test]
fn missing_field_names_its_path() {
    let mut s = Stream::new();
    s.b.push(0x73);
    s.class_desc("SavedIncBackupV1", 0x02, &[(b'I', "totalFiles", None)]);
    s.i32(1);
    let e = decode_backup(&read_value(&s.b)).unwrap_err();
    assert!(matches!(e.failure, DecodeFailure::MissingField));
    assert_eq!(e.path, vec!["objectCollection2"]);
}

#[test]
fn map_without_annotation_is_refused() {
    let mut s = Stream::new();
    s.backup_head();
    s.collection_head("");
    s.b.push(0x73);
    s.class_desc("java.util.HashMap", 0x02, &[]);
    empty_map(&mut s);
    let e = decode_backup(&read_value(&s.b)).unwrap_err();
    assert!(matches!(e.failure, DecodeFailure::MissingAnnotation));
    assert_eq!(e.path, vec!["objectCollection2", "elements"]);
}

#[test]
fn bucket_table_size_does_not_matter() {
    let build = |buckets: i32| {
        let mut s = Stream::new();
        s.backup_head();
        s.collection_head("");
        s.hash_map_sized(buckets, 1, &|s| {
            s.string("x");
            s.element("x", &[0x0f]);
        });
        empty_map(&mut s);
        s.b
    };
    let a = decode_backup(&read_value(&build(16))).unwrap();
    let b = decode_backup(&read_value(&build(-7))).unwrap();
    assert_eq!(collect_kbi_objects(&a), vec!["S2-0F"]);
    assert_eq!(collect_kbi_objects(&a), collect_kbi_objects(&b));
}
