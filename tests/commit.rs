use mini_git::object::{Kind, Object};

const TREE: &str = "4b825dc642cb6eb9a060e54bf8d69288fbee4904";

#[test]
fn root_commit_layout() {
    let c = Object::commit_obj(TREE, "Ann", "ann@example.com", "initial commit\n", None, 1700000000);
    assert_eq!(c.kind, Kind::Commit);
    let body = String::from_utf8(c.content.clone()).unwrap();
    assert_eq!(
        body,
        "tree 4b825dc642cb6eb9a060e54bf8d69288fbee4904\n\
         author Ann <ann@example.com> 1700000000 +0000\n\
         committer Ann <ann@example.com> 1700000000 +0000\n\
         \n\
         initial commit\n\n"
    );
    assert_eq!(c.expected_size as usize, c.content.len());
}

#[test]
fn root_commit_decodes_without_parent() {
    let c = Object::commit_obj(TREE, "Ann", "ann@example.com", "initial commit\n", None, 5);
    let (_, stored) = c.write().unwrap();
    let back = Object::read(&stored).unwrap();
    assert_eq!(back.kind, Kind::Commit);
    let body = String::from_utf8(back.content).unwrap();
    assert!(!body.lines().any(|l| l.starts_with("parent")));
    let (headers, message) = body.split_once("\n\n").unwrap();
    assert!(!headers.contains("\n\n"));
    assert_eq!(headers.lines().count(), 3);
    assert!(message.starts_with("initial commit\n"));
    assert_eq!(message.lines().next(), Some("initial commit"));
}

#[test]
fn commit_with_parent() {
    let parent = "ce013625030ba8dba906f756967f9e9ca394464a";
    let c = Object::commit_obj(TREE, "B", "b@x", "m", Some(parent), 0);
    let body = String::from_utf8(c.content).unwrap();
    let lines: Vec<&str> = body.lines().collect();
    assert_eq!(lines[0], format!("tree {TREE}"));
    assert_eq!(lines[1], format!("parent {parent}"));
    assert_eq!(lines[2], "author B <b@x> 0 +0000");
    assert_eq!(lines[3], "committer B <b@x> 0 +0000");
    assert_eq!(lines[4], "");
    assert_eq!(lines[5], "m");
}

#[test]
fn commit_keeps_utf8_text() {
    let c = Object::commit_obj(TREE, "Zoë", "z@x", "héllo", None, 9);
    let body = String::from_utf8(c.content).unwrap();
    assert!(body.contains("author Zoë <z@x> 9 +0000\n"));
    assert!(body.ends_with("\n\nhéllo\n"));
}

#[test]
fn links_of_root_commit() {
    let c = Object::commit_obj(TREE, "Ann", "a@x", "initial commit\n", None, 1);
    let links = mini_git::commit::Commit::from_obj(&c).unwrap();
    assert_eq!(links.tree.to_str(), TREE);
    assert_eq!(links.tree.hash[0], 0x4b);
    assert!(links.parent.is_none());
}

#[test]
fn links_of_child_commit() {
    let parent = "ce013625030ba8dba906f756967f9e9ca394464a";
    let c = Object::commit_obj(TREE, "Ann", "a@x", "second", Some(parent), 2);
    let links = mini_git::commit::Commit::from_obj(&c).unwrap();
    assert_eq!(links.tree.to_str(), TREE);
    let p = links.parent.unwrap();
    assert_eq!(p.hash.len(), 20);
    assert_eq!(p.hash[0], 0xce);
    assert_eq!(p.to_str(), parent);
}

#[test]
fn links_of_malformed_commit() {
    let bad = Object { kind: Kind::Commit, expected_size: 4, content: b"tre\n".to_vec() };
    assert_eq!(
        mini_git::commit::Commit::from_obj(&bad).unwrap_err(),
        mini_git::error::StoreError::Format
    );
    let no_newline = Object { kind: Kind::Commit, expected_size: 7, content: b"tree ab".to_vec() };
    assert!(mini_git::commit::Commit::from_obj(&no_newline).is_err());
    let blob = Object { kind: Kind::Blob, expected_size: 0, content: vec![] };
    assert!(mini_git::commit::Commit::from_obj(&blob).is_err());
}

#[test]
fn links_with_malformed_identifiers() {
    let c = Object::commit_obj(TREE, "Ann", "a@x", "m", Some("not-a-hash"), 3);
    assert_eq!(
        mini_git::commit::Commit::from_obj(&c).unwrap_err(),
        mini_git::error::StoreError::Format
    );
    let c = Object::commit_obj("4b825dc6", "Ann", "a@x", "m", None, 3);
    assert_eq!(
        mini_git::commit::Commit::from_obj(&c).unwrap_err(),
        mini_git::error::StoreError::Format
    );
    let upper = "CE013625030BA8DBA906F756967F9E9CA394464A";
    let c = Object::commit_obj(TREE, "Ann", "a@x", "m", Some(upper), 3);
    let links = mini_git::commit::Commit::from_obj(&c).unwrap();
    assert_eq!(links.parent.unwrap().to_str(), upper.to_lowercase());
}
