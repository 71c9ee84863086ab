//! Object identifiers: 20-byte SHA-1 digests and their hexadecimal text.

use sha1::Digest;
use vstd::prelude::*;
use vstd::slice::slice_subrange;
use vstd::string::StringSliceAdditionalSpecFns;
use vstd::utf8::{encode_utf8, is_ascii_chars, is_ascii_chars_encode_utf8};

use crate::error::StoreError;

verus! {

/// The SHA-1 digest of `data`.
pub uninterp spec fn sha1_of(data: Seq<u8>) -> Seq<u8>;

/// The lowercase hexadecimal digit for `v` (below sixteen).
pub open spec fn hex_char(v: u8) -> char {
    if v < 10 {
        ((48 + v) as u8) as char
    } else {
        ((87 + v) as u8) as char
    }
}

/// Lowercase hexadecimal text of `b`: two digits per byte, high nibble first.
pub open spec fn hex_text(b: Seq<u8>) -> Seq<char> {
    Seq::new(
        2 * b.len(),
        |i: int|
            if i % 2 == 0 {
                hex_char(b[i / 2] / 16)
            } else {
                hex_char(b[i / 2] % 16)
            },
    )
}

/// `c` is an ASCII hexadecimal digit in either case.
pub open spec fn is_hex_digit(c: u8) -> bool {
    (48 <= c && c <= 57) || (97 <= c && c <= 102) || (65 <= c && c <= 70)
}

/// The value of the ASCII hexadecimal digit `c`.
pub open spec fn hex_digit_value(c: u8) -> int {
    if 48 <= c && c <= 57 {
        c - 48
    } else if 97 <= c && c <= 102 {
        c - 87
    } else {
        c - 55
    }
}

/// `s` spells an identifier: forty ASCII hexadecimal digits.
pub open spec fn is_id_hex(s: Seq<u8>) -> bool {
    s.len() == 40 && forall|i: int| 0 <= i < 40 ==> is_hex_digit(#[trigger] s[i])
}

/// The bytes that the identifier text `s` spells, two digits per byte.
pub open spec fn id_value(s: Seq<u8>) -> Seq<u8> {
    Seq::new(20, |i: int| (hex_digit_value(s[2 * i]) * 16 + hex_digit_value(s[2 * i + 1])) as u8)
}

/// Relies on sha1's `Digest::digest`: the SHA-1 digest of the bytes.
#[verifier::external_body]
fn sha1_digest(data: &[u8]) -> (r: [u8; 20])
    ensures
        r@ == sha1_of(data@),
{
    sha1::Sha1::digest(data).into()
}

/// Relies on hex::encode: two lowercase digits for each byte, in order.
#[verifier::external_body]
fn hex_encode(b: &[u8]) -> (r: String)
    ensures
        r@ == hex_text(b@),
{
    hex::encode(b)
}

/// Relies on hex::decode_to_slice into twenty bytes: it succeeds exactly on
/// forty digits of either case, and each byte is the value of its two digits.
#[verifier::external_body]
fn hex_decode_id(s: &[u8]) -> (r: Option<[u8; 20]>)
    ensures
        r is Some <==> is_id_hex(s@),
        r matches Some(b) ==> b@ == id_value(s@),
{
    let mut buf = [0u8; 20];
    hex::decode_to_slice(s, &mut buf).ok().map(|_| buf)
}

/// An object identifier.
#[derive(Debug, Clone, Copy)]
pub struct GitHash {
    pub hash: [u8; 20],
}

impl View for GitHash {
    type V = Seq<u8>;

    open spec fn view(&self) -> Seq<u8> {
        self.hash@
    }
}

impl GitHash {
    /// The identifier of the framed object bytes `frame`.
    pub fn of_frame(frame: &[u8]) -> (r: GitHash)
        ensures
            r@ == sha1_of(frame@),
    {
        GitHash { hash: sha1_digest(frame) }
    }

    /// Reads identifier text given as bytes: forty hexadecimal digits of
    /// either case.
    pub fn from_hex(hash: &[u8]) -> (r: Result<GitHash, StoreError>)
        ensures
            is_id_hex(hash@) ==> (r matches Ok(h) && h@ == id_value(hash@)),
            !is_id_hex(hash@) ==> r == Err::<GitHash, StoreError>(StoreError::Format),
    {
        match hex_decode_id(hash) {
            Some(b) => Ok(GitHash { hash: b }),
            None => Err(StoreError::Format),
        }
    }

    /// Reads identifier text: forty hexadecimal digits of either case.
    pub fn from_str(hash: &str) -> (r: Result<GitHash, StoreError>)
        ensures
            is_id_hex(hash.spec_bytes()) ==> (r matches Ok(h) && h@ == id_value(hash.spec_bytes())),
            !is_id_hex(hash.spec_bytes()) ==> r == Err::<GitHash, StoreError>(StoreError::Format),
    {
        GitHash::from_hex(hash.as_bytes())
    }

    pub fn from_slice(hash: &[u8; 20]) -> (r: GitHash)
        ensures
            r@ == hash@,
    {
        GitHash { hash: *hash }
    }

    /// The forty lowercase hexadecimal digits of the identifier.
    pub fn to_str(&self) -> (r: String)
        ensures
            r@ == hex_text(self@),
    {
        hex_encode(self.hash.as_slice())
    }

    /// The name of the shard directory: the first two hexadecimal digits.
    pub fn hash_start(&self) -> (r: String)
        ensures
            r@ == hex_text(self@).subrange(0, 2),
    {
        let s = slice_subrange(self.hash.as_slice(), 0, 1);
        let r = hex_encode(s);
        assert(r@ =~= hex_text(self@).subrange(0, 2));
        r
    }

    /// The file name inside the shard directory: the remaining 38 digits.
    pub fn hash_end(&self) -> (r: String)
        ensures
            r@ == hex_text(self@).subrange(2, 40),
    {
        let s = slice_subrange(self.hash.as_slice(), 1, 20);
        let r = hex_encode(s);
        assert forall|i: int| 0 <= i < 38 implies r@[i] == hex_text(self@).subrange(2, 40)[i] by {
            assert((i + 2) / 2 == i / 2 + 1);
            assert((i + 2) % 2 == i % 2);
        }
        assert(r@ =~= hex_text(self@).subrange(2, 40));
        r
    }
}

proof fn lemma_hex_char_value(v: u8)
    requires
        v < 16,
    ensures
        '\0' <= hex_char(v) <= '\u{7f}',
        is_hex_digit(hex_char(v) as u8),
        hex_digit_value(hex_char(v) as u8) == v,
{
}

/// The text of an identifier, as UTF-8 bytes, reads back as the same
/// identifier.
pub proof fn lemma_id_text_round_trip(b: Seq<u8>)
    requires
        b.len() == 20,
    ensures
        is_id_hex(encode_utf8(hex_text(b))),
        id_value(encode_utf8(hex_text(b))) == b,
{
    let t = hex_text(b);
    assert forall|i: int| 0 <= i < t.len() implies '\0' <= #[trigger] t[i] <= '\u{7f}' by {
        lemma_hex_char_value(b[i / 2] / 16);
        lemma_hex_char_value(b[i / 2] % 16);
    }
    assert(is_ascii_chars(t));
    is_ascii_chars_encode_utf8(t);
    let u = encode_utf8(t);
    assert forall|i: int| 0 <= i < 40 implies is_hex_digit(#[trigger] u[i]) by {
        assert(u[i] == t[i] as u8);
        lemma_hex_char_value(b[i / 2] / 16);
        lemma_hex_char_value(b[i / 2] % 16);
    }
    assert forall|i: int| 0 <= i < 20 implies #[trigger] id_value(u)[i] == b[i] by {
        assert((2 * i) / 2 == i && (2 * i) % 2 == 0);
        assert((2 * i + 1) / 2 == i && (2 * i + 1) % 2 == 1);
        assert(u[2 * i] == t[2 * i] as u8);
        assert(u[2 * i + 1] == t[2 * i + 1] as u8);
        lemma_hex_char_value(b[i] / 16);
        lemma_hex_char_value(b[i] % 16);
    }
    assert(id_value(u) =~= b);
}

} // verus!
