//! The three object kinds, the `"<kind> <size>\0<content>"` frame, and the
//! compressed, content-addressed form in which objects are stored.

use std::io::Read;
use std::io::Write;
use vstd::prelude::*;
use vstd::slice::slice_subrange;

use crate::bytes::{append_bytes, copy_range};
use crate::digits::{
    digits_text, is_digit, lemma_digits_text_valid, parse_digits, parsed_digits, render_digits,
};
use crate::error::StoreError;
use crate::hash::{sha1_of, GitHash};

verus! {

#[derive(Debug, Clone, Copy, PartialEq, Eq, Structural)]
pub enum Kind {
    Blob,
    Tree,
    Commit,
}

/// The ASCII token naming each kind in a frame header.
pub open spec fn kind_name(k: Kind) -> Seq<u8> {
    match k {
        Kind::Blob => seq![98u8, 108u8, 111u8, 98u8],
        Kind::Tree => seq![116u8, 114u8, 101u8, 101u8],
        Kind::Commit => seq![99u8, 111u8, 109u8, 109u8, 105u8, 116u8],
    }
}

/// The header of a frame: kind token, a space, and the size in decimal.
pub open spec fn header_text(k: Kind, size: nat) -> Seq<u8> {
    kind_name(k) + seq![32u8] + digits_text(size, 10)
}

/// The framed bytes of an object of kind `k` holding `content`.
pub open spec fn frame_of(k: Kind, content: Seq<u8>) -> Seq<u8> {
    header_text(k, content.len()) + seq![0u8] + content
}

/// The identifier of an object of kind `k` holding `content`.
pub open spec fn object_id(k: Kind, content: Seq<u8>) -> Seq<u8> {
    sha1_of(frame_of(k, content))
}

/// `h` starts with the token of `k` followed by a space.
pub open spec fn starts_with_token(h: Seq<u8>, k: Kind) -> bool {
    let n = kind_name(k).len();
    h.len() > n && h.subrange(0, n as int) == kind_name(k) && h[n as int] == 32
}

/// The kind whose token, with a space after it, starts the header `h`.
pub open spec fn header_kind(h: Seq<u8>) -> Option<Kind> {
    if starts_with_token(h, Kind::Blob) {
        Some(Kind::Blob)
    } else if starts_with_token(h, Kind::Tree) {
        Some(Kind::Tree)
    } else if starts_with_token(h, Kind::Commit) {
        Some(Kind::Commit)
    } else {
        None
    }
}

/// The kind and size that the header text `h` declares, if it is exactly a
/// kind token, one space and a decimal number that fits in a `u64`.
pub open spec fn parse_header(h: Seq<u8>) -> Option<(Kind, u64)> {
    match header_kind(h) {
        Some(k) => match parsed_digits(h.subrange(kind_name(k).len() + 1int, h.len() as int), 10) {
            Some(n) => Some((k, n)),
            None => None,
        },
        None => None,
    }
}

/// `i` is the position of the first NUL byte of `s`.
pub open spec fn is_first_nul(s: Seq<u8>, i: int) -> bool {
    0 <= i < s.len() && s[i] == 0 && forall|j: int| 0 <= j < i ==> s[j] != 0
}

pub open spec fn has_nul(s: Seq<u8>) -> bool {
    exists|i: int| 0 <= i < s.len() && s[i] == 0
}

/// What decoding the frame `s` yields, given its first NUL at `i`: the kind,
/// the declared size and exactly that many content bytes after the NUL.
pub open spec fn decode_at(s: Seq<u8>, i: int) -> Result<(Kind, u64, Seq<u8>), StoreError> {
    match parse_header(s.subrange(0, i)) {
        None => Err(StoreError::Format),
        Some((k, n)) => if s.len() - (i + 1) < n {
            Err(StoreError::SizeMismatch)
        } else {
            Ok((k, n, s.subrange(i + 1, i + 1 + n)))
        },
    }
}

/// What decoding the decompressed frame `s` yields.
pub open spec fn decode_frame(s: Seq<u8>) -> Result<(Kind, u64, Seq<u8>), StoreError> {
    if has_nul(s) {
        decode_at(s, choose|i: int| is_first_nul(s, i))
    } else {
        Err(StoreError::Format)
    }
}

/// What the stored (compressed) bytes `z` decode to.
pub open spec fn decode_stored(z: Seq<u8>) -> Result<(Kind, u64, Seq<u8>), StoreError> {
    match inflate_of(z) {
        Some(f) => decode_frame(f),
        None => Err(StoreError::Io),
    }
}

/// The zlib decompression of `z`, or `None` where it is not a valid stream.
pub uninterp spec fn inflate_of(z: Seq<u8>) -> Option<Seq<u8>>;

/// Relies on flate2's `ZlibEncoder` writing into a `Vec` and `finish`: the
/// stream it produces decompresses to exactly the bytes written. Writing into
/// memory has no failing sink, and the default level is a valid parameter,
/// so neither step returns an error.
#[verifier::external_body]
fn zlib_compress(data: &[u8]) -> (r: Vec<u8>)
    ensures
        inflate_of(r@) == Some(data@),
{
    let mut e = flate2::write::ZlibEncoder::new(Vec::new(), flate2::Compression::default());
    e.write_all(data).and_then(|_| e.finish()).expect("compressing into memory does not fail")
}

/// Relies on flate2's `ZlibDecoder` read to the end: the decompressed bytes,
/// or an error where the stream is corrupt.
#[verifier::external_body]
fn zlib_decompress(z: &[u8]) -> (r: Option<Vec<u8>>)
    ensures
        match r {
            Some(v) => inflate_of(z@) == Some(v@),
            None => inflate_of(z@) is None,
        },
{
    let mut out = Vec::new();
    flate2::read::ZlibDecoder::new(z).read_to_end(&mut out).ok().map(|_| out)
}

impl Kind {
    /// The ASCII token of the kind.
    pub fn name_bytes(&self) -> (r: Vec<u8>)
        ensures
            r@ == kind_name(*self),
    {
        let r = match self {
            Kind::Blob => vec![98u8, 108u8, 111u8, 98u8],
            Kind::Tree => vec![116u8, 114u8, 101u8, 101u8],
            Kind::Commit => vec![99u8, 111u8, 109u8, 109u8, 105u8, 116u8],
        };
        assert(r@ =~= kind_name(*self));
        r
    }
}

/// An object: its kind, its declared size and its content bytes.
#[derive(Debug, Clone)]
pub struct Object {
    pub kind: Kind,
    pub expected_size: u64,
    pub content: Vec<u8>,
}

/// The kind, size and content of a decoded object, or the error.
pub open spec fn object_result(r: Result<Object, StoreError>) -> Result<(Kind, u64, Seq<u8>), StoreError> {
    match r {
        Ok(o) => Ok((o.kind, o.expected_size, o.content@)),
        Err(e) => Err(e),
    }
}

/// What storing an object of kind `k` with declared size `size` and content
/// `c` returns: a size mismatch exactly when the two differ; otherwise the
/// identifier of the frame with bytes that decompress to that frame.
pub open spec fn write_outcome(
    k: Kind,
    size: u64,
    c: Seq<u8>,
    r: Result<(GitHash, Vec<u8>), StoreError>,
) -> bool {
    if c.len() != size {
        r == Err::<(GitHash, Vec<u8>), StoreError>(StoreError::SizeMismatch)
    } else {
        r matches Ok((h, z)) && h@ == object_id(k, c) && inflate_of(z@) == Some(frame_of(k, c))
    }
}

/// Whether the first bytes of `h` are the token of `k` and a space.
fn has_token(h: &[u8], k: Kind) -> (r: bool)
    ensures
        r == starts_with_token(h@, k),
{
    let name = k.name_bytes();
    let n = name.len();
    if h.len() <= n {
        return false;
    }
    let mut i: usize = 0;
    while i < n
        invariant
            i <= n < h.len(),
            name@ == kind_name(k),
            n == name@.len(),
            h@.subrange(0, i as int) == name@.subrange(0, i as int),
        decreases n - i,
    {
        if h[i] != name[i] {
            assert(h@.subrange(0, n as int)[i as int] != name@[i as int]);
            return false;
        }
        assert(h@.subrange(0, i + 1) =~= h@.subrange(0, i as int).push(h@[i as int]));
        assert(name@.subrange(0, i + 1) =~= name@.subrange(0, i as int).push(name@[i as int]));
        i = i + 1;
    }
    assert(name@.subrange(0, n as int) =~= name@);
    h[n] == 32
}

/// Reads a frame header: a kind token, one space, and a decimal size.
pub fn parse_frame_header(h: &[u8]) -> (r: Option<(Kind, u64)>)
    ensures
        r == parse_header(h@),
{
    let k = if has_token(h, Kind::Blob) {
        Kind::Blob
    } else if has_token(h, Kind::Tree) {
        Kind::Tree
    } else if has_token(h, Kind::Commit) {
        Kind::Commit
    } else {
        return None;
    };
    let start = k.name_bytes().len() + 1;
    let digits = slice_subrange(h, start, h.len());
    match parse_digits(digits, 10) {
        Some(n) => Some((k, n)),
        None => None,
    }
}

/// Index of the first NUL byte of `s`, if any.
fn find_nul(s: &[u8]) -> (r: Option<usize>)
    ensures
        match r {
            Some(i) => is_first_nul(s@, i as int),
            None => !has_nul(s@),
        },
{
    let mut i: usize = 0;
    while i < s.len()
        invariant
            i <= s.len(),
            forall|j: int| 0 <= j < i ==> s@[j] != 0,
        decreases s.len() - i,
    {
        if s[i] == 0 {
            return Some(i);
        }
        i = i + 1;
    }
    None
}

proof fn lemma_first_nul_at_or_below(s: Seq<u8>, j: int)
    requires
        0 <= j < s.len(),
        s[j] == 0,
    ensures
        exists|i: int| is_first_nul(s, i),
    decreases j,
{
    if exists|k: int| 0 <= k < j && s[k] == 0 {
        let k = choose|k: int| 0 <= k < j && s[k] == 0;
        lemma_first_nul_at_or_below(s, k);
    } else {
        assert(is_first_nul(s, j));
    }
}

/// A frame holding a NUL byte has a first one.
pub proof fn lemma_first_nul_exists(s: Seq<u8>)
    requires
        has_nul(s),
    ensures
        exists|i: int| is_first_nul(s, i),
{
    let j = choose|j: int| 0 <= j < s.len() && s[j] == 0;
    lemma_first_nul_at_or_below(s, j);
}

proof fn lemma_first_nul_unique(s: Seq<u8>, i: int, j: int)
    requires
        is_first_nul(s, i),
        is_first_nul(s, j),
    ensures
        i == j,
{
}

impl Object {
    /// The framed bytes of the object: header, NUL, then the content.
    /// Fails with a size mismatch where the content's length differs from
    /// the declared size.
    pub fn frame(&self) -> (r: Result<Vec<u8>, StoreError>)
        ensures
            self.content@.len() == self.expected_size ==> (r matches Ok(f) && f@ == frame_of(
                self.kind,
                self.content@,
            )),
            self.content@.len() != self.expected_size ==> r == Err::<Vec<u8>, StoreError>(
                StoreError::SizeMismatch,
            ),
    {
        if self.content.len() as u64 != self.expected_size {
            return Err(StoreError::SizeMismatch);
        }
        let mut f = self.kind.name_bytes();
        f.push(32u8);
        let d = render_digits(self.expected_size, 10);
        append_bytes(&mut f, d.as_slice());
        f.push(0u8);
        append_bytes(&mut f, self.content.as_slice());
        assert(f@ =~= frame_of(self.kind, self.content@));
        Ok(f)
    }

    /// Frames the object, computes its identifier over the framed bytes and
    /// compresses those same bytes for storage.
    pub fn write(&self) -> (r: Result<(GitHash, Vec<u8>), StoreError>)
        ensures
            write_outcome(self.kind, self.expected_size, self.content@, r),
            self.content@.len() == self.expected_size ==> r is Ok,
    {
        let f = self.frame()?;
        let h = GitHash::of_frame(f.as_slice());
        let z = zlib_compress(f.as_slice());
        Ok((h, z))
    }

    /// Decodes a decompressed frame. The content is bounded to the declared
    /// size; fewer bytes than that is a size mismatch.
    pub fn parse_frame(s: &[u8]) -> (r: Result<Object, StoreError>)
        ensures
            object_result(r) == decode_frame(s@),
            r matches Ok(o) ==> o.content@.len() == o.expected_size,
    {
        match find_nul(s) {
            None => Err(StoreError::Format),
            Some(i) => {
                proof {
                    let c = choose|j: int| is_first_nul(s@, j);
                    lemma_first_nul_unique(s@, i as int, c);
                }
                let header = slice_subrange(s, 0, i);
                match parse_frame_header(header) {
                    None => Err(StoreError::Format),
                    Some((kind, size)) => {
                        let avail = s.len() - (i + 1);
                        if (avail as u64) < size {
                            Err(StoreError::SizeMismatch)
                        } else {
                            let end = i + 1 + size as usize;
                            let content = copy_range(s, i + 1, end);
                            Ok(Object { kind, expected_size: size, content })
                        }
                    },
                }
            },
        }
    }

    /// Decodes an object from its stored, compressed bytes.
    pub fn read(stored: &[u8]) -> (r: Result<Object, StoreError>)
        ensures
            object_result(r) == decode_stored(stored@),
            r matches Ok(o) ==> o.content@.len() == o.expected_size,
    {
        match zlib_decompress(stored) {
            Some(f) => Object::parse_frame(f.as_slice()),
            None => Err(StoreError::Io),
        }
    }
}

proof fn lemma_header_decodes(k: Kind, n: u64)
    ensures
        parse_header(header_text(k, n as nat)) == Some((k, n)),
        forall|j: int|
            0 <= j < header_text(k, n as nat).len() ==> #[trigger] header_text(k, n as nat)[j]
                != 0,
{
    let h = header_text(k, n as nat);
    let d = digits_text(n as nat, 10);
    lemma_digits_text_valid(n as nat, 10);
    let m = kind_name(k).len();
    assert(h.subrange(0, m as int) =~= kind_name(k));
    assert(h.subrange(m + 1int, h.len() as int) =~= d);
    assert(h[0] == kind_name(k)[0]);
    assert forall|j: int| 0 <= j < h.len() implies #[trigger] h[j] != 0 by {
        if j > m {
            assert(h[j] == d[j - m - 1]);
            assert(is_digit(d[j - m - 1], 10));
        }
    }
}

/// Decoding the frame of an object gives back its kind, its size and exactly
/// its content.
pub proof fn lemma_frame_round_trip(k: Kind, c: Seq<u8>)
    requires
        c.len() <= u64::MAX,
    ensures
        decode_frame(frame_of(k, c)) == Ok::<(Kind, u64, Seq<u8>), StoreError>(
            (k, c.len() as u64, c),
        ),
{
    let n = c.len() as u64;
    let f = frame_of(k, c);
    let h = header_text(k, n as nat);
    lemma_header_decodes(k, n);
    let i = h.len() as int;
    assert(f[i] == 0);
    assert forall|j: int| 0 <= j < i implies f[j] != 0 by {
        assert(f[j] == h[j]);
    }
    assert(is_first_nul(f, i));
    let w = choose|j: int| is_first_nul(f, j);
    lemma_first_nul_unique(f, i, w);
    assert(f.subrange(0, i) =~= h);
    assert(f.subrange(i + 1, i + 1 + n) =~= c);
}

/// Reading back the bytes that storing an object produced yields that same
/// object: its kind, its size and exactly its content.
pub proof fn lemma_read_after_write(
    k: Kind,
    c: Seq<u8>,
    r: Result<(GitHash, Vec<u8>), StoreError>,
)
    requires
        c.len() <= u64::MAX,
        write_outcome(k, c.len() as u64, c, r),
    ensures
        r is Ok,
        decode_stored(r->Ok_0.1@) == Ok::<(Kind, u64, Seq<u8>), StoreError>(
            (k, c.len() as u64, c),
        ),
{
    lemma_frame_round_trip(k, c);
}

/// Storing the same kind and content twice succeeds both times and gives the
/// same identifier.
pub proof fn lemma_write_deterministic(
    k: Kind,
    c: Seq<u8>,
    r1: Result<(GitHash, Vec<u8>), StoreError>,
    r2: Result<(GitHash, Vec<u8>), StoreError>,
)
    requires
        c.len() <= u64::MAX,
        write_outcome(k, c.len() as u64, c, r1),
        write_outcome(k, c.len() as u64, c, r2),
    ensures
        r1 is Ok && r2 is Ok,
        r1->Ok_0.0@ == r2->Ok_0.0@,
{
}

/// A decoded object never holds a content length other than its declared
/// size; storing content whose length differs from the declared size fails.
pub proof fn lemma_size_integrity(
    z: Seq<u8>,
    k: Kind,
    size: u64,
    c: Seq<u8>,
    r: Result<(GitHash, Vec<u8>), StoreError>,
)
    requires
        write_outcome(k, size, c, r),
    ensures
        decode_stored(z) matches Ok((_, n, content)) ==> content.len() == n,
        c.len() != size ==> r == Err::<(GitHash, Vec<u8>), StoreError>(StoreError::SizeMismatch),
{
    if decode_stored(z) is Ok {
        lemma_first_nul_exists(inflate_of(z)->Some_0);
    }
}

} // verus!
