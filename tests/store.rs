use std::io::Write;

use mini_git::digits::{parse_digits, render_digits};
use mini_git::error::StoreError;
use mini_git::hash::GitHash;
use mini_git::object::{parse_frame_header, Kind, Object};

fn blob(content: &[u8]) -> Object {
    Object { kind: Kind::Blob, expected_size: content.len() as u64, content: content.to_vec() }
}

fn compress(data: &[u8]) -> Vec<u8> {
    let mut e = flate2::write::ZlibEncoder::new(Vec::new(), flate2::Compression::default());
    e.write_all(data).unwrap();
    e.finish().unwrap()
}

#[test]
fn hello_blob_has_known_identifier() {
    let (id, _) = blob(b"hello\n").write().unwrap();
    assert_eq!(id.to_str(), "ce013625030ba8dba906f756967f9e9ca394464a");
    assert_eq!(id.hash_start(), "ce");
    assert_eq!(id.hash_end(), "013625030ba8dba906f756967f9e9ca394464a");
}

#[test]
fn hello_blob_reads_back() {
    let (_, stored) = blob(b"hello\n").write().unwrap();
    let o = Object::read(&stored).unwrap();
    assert_eq!(o.kind, Kind::Blob);
    assert_eq!(o.expected_size, 6);
    assert_eq!(o.content, b"hello\n".to_vec());
}

#[test]
fn stored_bytes_decompress_to_frame() {
    let (_, stored) = blob(b"hello\n").write().unwrap();
    let mut d = flate2::read::ZlibDecoder::new(&stored[..]);
    let mut out = Vec::new();
    std::io::Read::read_to_end(&mut d, &mut out).unwrap();
    assert_eq!(out, b"blob 6\0hello\n".to_vec());
    assert_ne!(stored, out);
}

#[test]
fn same_content_same_identifier() {
    let (a, _) = blob(b"some bytes").write().unwrap();
    let (b, _) = blob(b"some bytes").write().unwrap();
    assert_eq!(a.hash, b.hash);
    let t = Object { kind: Kind::Tree, expected_size: 10, content: b"some bytes".to_vec() };
    let (c, _) = t.write().unwrap();
    assert_ne!(a.hash, c.hash);
}

#[test]
fn empty_blob_identifier() {
    let (id, stored) = blob(b"").write().unwrap();
    assert_eq!(id.to_str(), "e69de29bb2d1d6434b8b29ae775ad8c2e48c5391");
    let o = Object::read(&stored).unwrap();
    assert_eq!(o.expected_size, 0);
    assert!(o.content.is_empty());
}

#[test]
fn round_trip_each_kind() {
    for kind in [Kind::Blob, Kind::Tree, Kind::Commit] {
        let content: Vec<u8> = (0..=255u8).collect();
        let o = Object { kind, expected_size: 256, content: content.clone() };
        let (_, stored) = o.write().unwrap();
        let back = Object::read(&stored).unwrap();
        assert_eq!(back.kind, kind);
        assert_eq!(back.expected_size, 256);
        assert_eq!(back.content, content);
    }
}

#[test]
fn frame_layout() {
    let o = Object { kind: Kind::Commit, expected_size: 3, content: b"abc".to_vec() };
    assert_eq!(o.frame().unwrap(), b"commit 3\0abc".to_vec());
}

#[test]
fn declared_size_larger_than_content_is_mismatch() {
    let o = Object { kind: Kind::Blob, expected_size: 7, content: b"hello\n".to_vec() };
    assert_eq!(o.write().unwrap_err(), StoreError::SizeMismatch);
}

#[test]
fn declared_size_smaller_than_content_is_mismatch() {
    let o = Object { kind: Kind::Blob, expected_size: 5, content: b"hello\n".to_vec() };
    assert_eq!(o.frame().unwrap_err(), StoreError::SizeMismatch);
}

#[test]
fn short_content_in_frame_is_mismatch() {
    assert_eq!(Object::parse_frame(b"blob 10\0abc").unwrap_err(), StoreError::SizeMismatch);
}

#[test]
fn content_is_bounded_to_declared_size() {
    let o = Object::parse_frame(b"blob 2\0abc").unwrap();
    assert_eq!(o.content, b"ab".to_vec());
    assert_eq!(o.expected_size, 2);
}

#[test]
fn unknown_kind_is_format_error() {
    assert_eq!(Object::parse_frame(b"widget 3\0abc").unwrap_err(), StoreError::Format);
    let stored = compress(b"widget 3\0abc");
    assert_eq!(Object::read(&stored).unwrap_err(), StoreError::Format);
}

#[test]
fn malformed_headers_are_format_errors() {
    assert_eq!(Object::parse_frame(b"blob 3abc").unwrap_err(), StoreError::Format);
    assert_eq!(Object::parse_frame(b"blob x\0abc").unwrap_err(), StoreError::Format);
    assert_eq!(Object::parse_frame(b"blob\0abc").unwrap_err(), StoreError::Format);
    assert_eq!(Object::parse_frame(b"blob 3 \0abc").unwrap_err(), StoreError::Format);
    assert_eq!(Object::parse_frame(b"blob  3\0abc").unwrap_err(), StoreError::Format);
    assert_eq!(Object::parse_frame(b"Blob 3\0abc").unwrap_err(), StoreError::Format);
    assert_eq!(Object::parse_frame(b"blob \xff\0abc").unwrap_err(), StoreError::Format);
    assert_eq!(
        Object::parse_frame(b"blob 18446744073709551616\0").unwrap_err(),
        StoreError::Format
    );
}

#[test]
fn header_parsing() {
    assert_eq!(parse_frame_header(b"tree 42"), Some((Kind::Tree, 42)));
    assert_eq!(parse_frame_header(b"commit 0"), Some((Kind::Commit, 0)));
    assert_eq!(parse_frame_header(b"blob 18446744073709551615"), Some((Kind::Blob, u64::MAX)));
    assert_eq!(parse_frame_header(b"tree"), None);
}

#[test]
fn corrupt_stream_is_io_error() {
    assert_eq!(Object::read(b"not zlib at all").unwrap_err(), StoreError::Io);
}

#[test]
fn identifier_text_round_trip() {
    let id = GitHash::from_str("ce013625030ba8dba906f756967f9e9ca394464a").unwrap();
    assert_eq!(id.hash[0], 0xce);
    assert_eq!(id.hash[19], 0x4a);
    assert_eq!(id.to_str(), "ce013625030ba8dba906f756967f9e9ca394464a");
    let upper = GitHash::from_str("CE013625030BA8DBA906F756967F9E9CA394464A").unwrap();
    assert_eq!(upper.hash, id.hash);
}

#[test]
fn identifier_from_hex_bytes() {
    let id = GitHash::from_hex(b"e69de29bb2d1d6434b8b29ae775ad8c2e48c5391").unwrap();
    assert_eq!(id.hash[0], 0xe6);
    assert_eq!(
        GitHash::from_hex(b"e69de29bb2d1d6434b8b29ae775ad8c2e48c539").unwrap_err(),
        StoreError::Format
    );
}

#[test]
fn bad_identifier_text() {
    assert_eq!(GitHash::from_str("ce01").unwrap_err(), StoreError::Format);
    assert_eq!(
        GitHash::from_str("zz013625030ba8dba906f756967f9e9ca394464a").unwrap_err(),
        StoreError::Format
    );
    assert_eq!(
        GitHash::from_str("ce013625030ba8dba906f756967f9e9ca394464a00").unwrap_err(),
        StoreError::Format
    );
    assert_eq!(
        GitHash::from_str("\u{e9}e013625030ba8dba906f756967f9e9ca394464").unwrap_err(),
        StoreError::Format
    );
}

#[test]
fn from_slice_keeps_bytes() {
    let mut b = [0u8; 20];
    b[0] = 0x0a;
    b[19] = 0xff;
    let id = GitHash::from_slice(&b);
    assert_eq!(id.to_str(), "0a000000000000000000000000000000000000ff");
    assert_eq!(id.hash_start(), "0a");
}

#[test]
fn digits_render_and_parse() {
    assert_eq!(render_digits(0, 10), b"0".to_vec());
    assert_eq!(render_digits(1234, 10), b"1234".to_vec());
    assert_eq!(render_digits(0o40000, 8), b"40000".to_vec());
    assert_eq!(render_digits(0o100644, 8), b"100644".to_vec());
    assert_eq!(parse_digits(b"0017", 10), Some(17));
    assert_eq!(parse_digits(b"", 10), None);
    assert_eq!(parse_digits(b"+1", 10), None);
    assert_eq!(parse_digits(b"18446744073709551615", 10), Some(u64::MAX));
    assert_eq!(parse_digits(b"18446744073709551616", 10), None);
    assert_eq!(parse_digits(b"755", 8), Some(0o755));
    assert_eq!(parse_digits(b"8", 8), None);
}
