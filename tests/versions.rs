use ocean_drive::versions::{StorageError, Version, VersionMap};

fn record(path: &str, version: &str, hash: Option<&str>, parent: &str, is_folder: bool) -> Version {
    Version {
        path: path.to_string(),
        version: version.to_string(),
        content_hash: hash.map(|h| h.to_string()),
        parent_id: parent.to_string(),
        is_folder,
    }
}

fn same(a: &Version, b: &Version) -> bool {
    a.path == b.path
        && a.version == b.version
        && a.content_hash == b.content_hash
        && a.parent_id == b.parent_id
        && a.is_folder == b.is_folder
}

#[test]
fn insert_replaces_and_remove_is_idempotent() {
    let mut m = VersionMap::new();
    m.insert("a".to_string(), record("/r/a", "1", Some("h"), "root", false));
    m.insert("a".to_string(), record("/r/b", "2", None, "root", false));
    assert_eq!(m.len(), 1);
    assert_eq!(m.get(&"a".to_string()).unwrap().path, "/r/b");
    m.remove(&"a".to_string());
    m.remove(&"a".to_string());
    assert_eq!(m.len(), 0);
    assert!(m.get(&"a".to_string()).is_none());
}

#[test]
fn encode_escapes_fields() {
    let mut m = VersionMap::new();
    m.insert("i\td".to_string(), record("/r/a\\b", "7", Some("ab"), "p", false));
    m.insert("f".to_string(), record("/r/x\ny", "8", None, "p", true));
    assert_eq!(
        m.encode(),
        "i\\td\t7\t=ab\tp\t/r/a\\\\b\tf\t\nf\t8\t\tp\t/r/x\\ny\td\t\n"
    );
}

#[test]
fn round_trip_keeps_every_record() {
    let mut m = VersionMap::new();
    m.insert("x".to_string(), record("/r/x", "1", Some("=h"), "root", false));
    m.insert("y\n".to_string(), record("/r/\ty", "22", None, "x", true));
    m.insert("".to_string(), record("", "", Some(""), "", false));
    let text = m.encode();
    let back = VersionMap::decode(&text).unwrap();
    assert_eq!(back.len(), 3);
    for id in ["x", "y\n", ""] {
        let id = id.to_string();
        assert!(same(back.get(&id).unwrap(), m.get(&id).unwrap()));
    }
    assert_eq!(back.encode(), text);
}

#[test]
fn round_trip_of_empty_map() {
    let m = VersionMap::new();
    assert_eq!(m.encode(), "");
    assert_eq!(VersionMap::decode("").unwrap().len(), 0);
}

#[test]
fn decode_keeps_later_duplicate() {
    let text = "a\t1\t\tp\t/x\tf\t\na\t2\t\tp\t/y\tf\t\n";
    let m = VersionMap::decode(text).unwrap();
    assert_eq!(m.len(), 1);
    assert_eq!(m.get(&"a".to_string()).unwrap().version, "2");
}

#[test]
fn decode_rejects_malformed_text() {
    assert_eq!(VersionMap::decode("a\t1\t").err(), Some(StorageError::Malformed));
    assert_eq!(VersionMap::decode("a\t1\t\tp\t/x\tq\t\n").err(), Some(StorageError::Malformed));
    assert_eq!(VersionMap::decode("a\t1\th\tp\t/x\tf\t\n").err(), Some(StorageError::Malformed));
    assert_eq!(VersionMap::decode("a\\x\t1\t\tp\t/x\tf\t\n").err(), Some(StorageError::Malformed));
    assert_eq!(VersionMap::decode("a\t1\t\tp\t/x\tf\t").err(), Some(StorageError::Malformed));
}

#[test]
fn round_trip_of_many_records() {
    let mut m = VersionMap::new();
    for i in 0..300 {
        let hash = if i % 3 == 0 { None } else { Some(format!("h{}\\", i)) };
        m.insert(
            format!("id{}", i),
            Version {
                path: format!("/r/d{}\t/f{}\n", i % 7, i),
                version: format!("{}", i * 13),
                content_hash: hash,
                parent_id: format!("id{}", i / 2),
                is_folder: i % 5 == 0,
            },
        );
    }
    let back = VersionMap::decode(&m.encode()).unwrap();
    assert_eq!(back.len(), 300);
    for i in 0..300 {
        let id = format!("id{}", i);
        assert!(same(back.get(&id).unwrap(), m.get(&id).unwrap()));
    }
}
