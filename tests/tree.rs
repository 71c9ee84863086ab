use mini_git::error::StoreError;
use mini_git::object::{Kind, Object};
use mini_git::tree::{
    bytes_less, dir_entry, encode_entries, is_skipped_name, sort_entries, EntryType, TreeEntry,
    DIR_MODE,
};

fn entry(name: &str, kind: Kind, fill: u8) -> TreeEntry {
    let mode = if kind == Kind::Tree { DIR_MODE } else { 0o100644 };
    TreeEntry { name: name.as_bytes().to_vec(), mode, hash: [fill; 20], kind }
}

fn names(v: &[TreeEntry]) -> Vec<(String, Kind)> {
    v.iter().map(|e| (String::from_utf8(e.name.clone()).unwrap(), e.kind)).collect()
}

#[test]
fn directory_sorts_as_if_followed_by_slash() {
    let mut v = vec![entry("ba", Kind::Blob, 1), entry("b", Kind::Tree, 2), entry("b", Kind::Blob, 3)];
    sort_entries(&mut v);
    assert_eq!(
        names(&v),
        vec![
            ("b".to_string(), Kind::Blob),
            ("b".to_string(), Kind::Tree),
            ("ba".to_string(), Kind::Blob)
        ]
    );
}

#[test]
fn slash_rule_changes_order_against_dash() {
    // '-' (0x2d) sorts before '/' (0x2f) but after the end of a name.
    let mut v = vec![entry("foo", Kind::Tree, 1), entry("foo-bar", Kind::Blob, 2)];
    sort_entries(&mut v);
    assert_eq!(names(&v)[0].0, "foo-bar");
    let mut w = vec![entry("foo-bar", Kind::Blob, 2), entry("foo", Kind::Blob, 1)];
    sort_entries(&mut w);
    assert_eq!(names(&w)[0].0, "foo");
}

#[test]
fn payload_independent_of_listing_order() {
    let a = vec![entry("z", Kind::Blob, 1), entry("a", Kind::Tree, 2), entry("m", Kind::Blob, 3)];
    let b = vec![entry("a", Kind::Tree, 2), entry("m", Kind::Blob, 3), entry("z", Kind::Blob, 1)];
    let c = vec![entry("m", Kind::Blob, 3), entry("z", Kind::Blob, 1), entry("a", Kind::Tree, 2)];
    let pa = Object::tree_obj_from_vec(a).content;
    assert_eq!(pa, Object::tree_obj_from_vec(b).content);
    assert_eq!(pa, Object::tree_obj_from_vec(c).content);
}

#[test]
fn entry_encoding_is_exact() {
    let v = vec![entry("a.txt", Kind::Blob, 0xab), entry("sub", Kind::Tree, 0x01)];
    let p = encode_entries(&v);
    let mut want = b"100644 a.txt\0".to_vec();
    want.extend([0xab; 20]);
    want.extend(b"40000 sub\0");
    want.extend([0x01; 20]);
    assert_eq!(p, want);
}

#[test]
fn tree_of_file_and_empty_directory() {
    let (empty, _) = Object::tree_obj_from_vec(vec![]).write().unwrap();
    assert_eq!(empty.to_str(), "4b825dc642cb6eb9a060e54bf8d69288fbee4904");
    let blob = Object { kind: Kind::Blob, expected_size: 6, content: b"hello\n".to_vec() };
    let (blob_id, blob_stored) = blob.write().unwrap();
    let sub = dir_entry(b"sub".to_vec(), EntryType::Dir, 0o755, empty.hash).unwrap();
    let file = dir_entry(b"a.txt".to_vec(), EntryType::File, 0o100644, blob_id.hash).unwrap();
    let tree = Object::tree_obj_from_vec(vec![sub, file]);
    assert_eq!(tree.kind, Kind::Tree);
    assert_eq!(tree.expected_size as usize, tree.content.len());
    let mut want = b"100644 a.txt\0".to_vec();
    want.extend(blob_id.hash);
    want.extend(b"40000 sub\0");
    want.extend(empty.hash);
    assert_eq!(tree.content, want);
    let (_, stored) = tree.write().unwrap();
    let back = Object::read(&stored).unwrap();
    assert_eq!(back.kind, Kind::Tree);
    assert_eq!(back.content, want);
    assert_eq!(Object::read(&blob_stored).unwrap().content, b"hello\n".to_vec());
}

#[test]
fn directory_entries_by_type() {
    let f = dir_entry(b"f".to_vec(), EntryType::File, 0o100755, [7; 20]).unwrap();
    assert_eq!((f.mode, f.kind), (0o100755, Kind::Blob));
    let d = dir_entry(b"d".to_vec(), EntryType::Dir, 0o100755, [7; 20]).unwrap();
    assert_eq!((d.mode, d.kind), (0o40000, Kind::Tree));
    assert_eq!(
        dir_entry(b"l".to_vec(), EntryType::Other, 0, [0; 20]).unwrap_err(),
        StoreError::UnsupportedEntryType
    );
}

#[test]
fn skipped_names() {
    assert!(is_skipped_name(b".git"));
    assert!(is_skipped_name(b"target"));
    assert!(!is_skipped_name(b".github"));
    assert!(!is_skipped_name(b"src"));
    assert!(!is_skipped_name(b""));
}

#[test]
fn byte_order() {
    assert!(bytes_less(b"", b"a"));
    assert!(!bytes_less(b"a", b"a"));
    assert!(bytes_less(b"b", b"b/"));
    assert!(bytes_less(b"b/", b"ba"));
    assert!(!bytes_less(b"ba", b"b/"));
    assert!(bytes_less(b"\x7f", b"\x80"));
}

#[test]
fn listing_reads_back_encoded_entries() {
    let v = vec![entry("a b.txt", Kind::Blob, 0x11), entry("sub", Kind::Tree, 0x22)];
    let tree = Object::tree_obj_from_vec(v);
    let listed = mini_git::tree::parse_tree_entries(&tree.content).unwrap();
    assert_eq!(listed.len(), 2);
    assert_eq!(listed[0].mode, b"100644".to_vec());
    assert_eq!(listed[0].name, b"a b.txt".to_vec());
    assert_eq!(listed[0].hash, vec![0x11; 20]);
    assert_eq!(listed[1].mode, b"40000".to_vec());
    assert_eq!(listed[1].name, b"sub".to_vec());
    assert_eq!(listed[1].hash, vec![0x22; 20]);
}

#[test]
fn listing_of_empty_payload() {
    assert!(mini_git::tree::parse_tree_entries(b"").unwrap().is_empty());
}

#[test]
fn listing_entry_without_separator() {
    let mut p = b"100644\0".to_vec();
    p.extend([0u8; 20]);
    assert_eq!(mini_git::tree::parse_tree_entries(&p).unwrap_err(), StoreError::Format);
}

#[test]
fn listing_entry_cut_short() {
    let mut p = b"100644 f\0".to_vec();
    p.extend([0u8; 19]);
    assert_eq!(mini_git::tree::parse_tree_entries(&p).unwrap_err(), StoreError::Format);
    assert_eq!(mini_git::tree::parse_tree_entries(b"100644 f").unwrap_err(), StoreError::Format);
}
