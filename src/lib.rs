//! A small content-addressed object store: blobs, trees and commits framed as
//! `"<kind> <size>\0<content>"`, identified by the SHA-1 digest of that frame
//! and stored zlib-compressed under a path derived from the identifier.

pub mod bytes;
pub mod commit;
pub mod digits;
pub mod error;
pub mod hash;
pub mod object;
pub mod tree;
