//! Read path for a content-addressable game-asset store: chunked "BLTE"
//! containers, bit-packed local index files, the shared-memory control file,
//! and the paged encoding table that maps content keys to encoding keys.
//! Beside the store live a few companions: a simpler archive index with a
//! text file list, the data rows of a program-viewer, and a session
//! service's user-property record.

use md5::Digest;
use vstd::prelude::*;

pub mod viewer;
pub mod blte;
pub mod casc;
pub mod bytes;
pub mod mojang_session_api;
pub mod nfs;
pub mod tact;

verus! {

/// Errors surfaced by the container, index and encoding-table readers.
#[derive(Debug, Clone, PartialEq, Eq)]
pub enum Error {
    /// An input ended before a read completed, or an inflate call failed.
    Io,
    /// A text field held bytes that are not valid UTF-8.
    Utf8,
    /// Wrong magic, version, flag or size field: the input cannot be used at all.
    Unsupported,
    /// A chunk carried a mode tag other than the supported ones.
    UnknownEncodingMode(char),
    /// An encrypted chunk carried a cipher tag other than the supported one.
    UnknownEncryptionMode(char),
    /// A hash or checksum did not match: fatal for this read, not for the store.
    IntegrityError,
    /// An encrypted chunk named a decryption key (in hex) that the keyring
    /// does not hold; recoverable by retrying once the key is known.
    KeyNotFound(String),
}

/// Reads bytes as characters up to a NUL terminator, consuming it; without
/// one, `Error::Io` after consuming the rest of the input.
pub fn read_asciiz(d: &[u8], pos: &mut usize) -> (r: Result<String, Error>)
    ensures
        match crate::bytes::nul_at(d@, *old(pos) as int) {
            Some(e) => *final(pos) == e + 1 && (r matches Ok(s) && s@ == crate::bytes::byte_chars(
                d@.subrange(*old(pos) as int, e),
            )),
            None => *final(pos) == d@.len() && r == Err::<String, Error>(Error::Io),
        },
{
    let mut s = String::new();
    let mut i: usize = *pos;
    if i > d.len() {
        *pos = d.len();
        return Err(Error::Io);
    }
    proof {
        assert(crate::bytes::byte_chars(d@.subrange(*old(pos) as int, *old(pos) as int)) =~= s@);
    }
    while i < d.len()
        invariant
            *old(pos) <= i <= d@.len(),
            crate::bytes::nul_at(d@, *old(pos) as int) == crate::bytes::nul_at(d@, i as int),
            s@ == crate::bytes::byte_chars(d@.subrange(*old(pos) as int, i as int)),
        decreases d@.len() - i,
    {
        let b = d[i];
        if b == 0 {
            *pos = i + 1;
            return Ok(s);
        }
        crate::bytes::push_char(&mut s, b as char);
        proof {
            assert(d@.subrange(*old(pos) as int, i + 1) =~= d@.subrange(
                *old(pos) as int,
                i as int,
            ).push(d@[i as int]));
            assert(crate::bytes::byte_chars(d@.subrange(*old(pos) as int, i + 1)) =~= s@);
        }
        i = i + 1;
    }
    *pos = i;
    Err(Error::Io)
}

/// The 16-byte MD5 digest of a byte string.
/// Relies on the md-5 crate: the digest depends on the input bytes alone.
pub uninterp spec fn md5_of(bytes: Seq<u8>) -> Seq<u8>;

/// Relies on `md5::Md5` of the md-5 crate: computes the 16-byte MD5 digest.
#[verifier::external_body]
pub fn md5_digest(value: &[u8]) -> (r: Vec<u8>)
    ensures
        r@ == md5_of(value@),
        r@.len() == 16,
{
    let mut h = md5::Md5::new();
    h.update(value);
    h.finalize().to_vec()
}

/// The MD5 digest of a byte string, packed big-endian into one integer.
pub fn md5(value: &[u8]) -> (r: u128)
    ensures
        r == crate::bytes::be_uint(md5_of(value@), 0, 16),
{
    let d = md5_digest(value);
    let mut pos: usize = 0;
    match crate::bytes::read_uint128_be(d.as_slice(), &mut pos, 16) {
        Ok(v) => v,
        Err(_) => {
            proof {
                assert(false);
            }
            0
        },
    }
}

} // verus!
