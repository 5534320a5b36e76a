//! Decoder for the chunked "BLTE" container format.
//!
//! A container is a `BLTE` magic, a big-endian header size, the flag byte
//! `0x0F`, a 24-bit chunk count, one `[encoded_size, content_size, md5]`
//! descriptor per chunk, and then the chunk payloads back to back.  Each
//! payload starts with a mode byte: `'N'` plain bytes, `'Z'` a zlib stream,
//! `'E'` an encrypted chunk naming its decryption key.  The decoded content
//! is the concatenation of the decoded chunks, in chunk order.

use salsa20::cipher::{KeyIvInit, StreamCipher};
use vstd::prelude::*;

use crate::bytes::{append_range, be_uint, bytes_eq, hex_of, read_exact, read_u8, read_uint_be, to_hex};
use crate::{md5_digest, md5_of, Error};

verus! {

/// A source of decryption keys for `'E'` chunks, looked up by key name.
///
/// The decoder has no knowledge of where keys come from; callers hand in an
/// implementation of this trait.  `resolve` must agree with the
/// implementation's own `resolve_spec`.
pub trait Keyring {
    /// What `resolve` answers for a given key name.
    spec fn resolve_spec(&self, name: Seq<u8>) -> Option<Seq<u8>>;

    /// Hands back the key bytes for `name`, or `None` when the key is unknown.
    fn resolve(&self, name: &[u8]) -> (r: Option<Vec<u8>>)
        ensures
            match r {
                Some(k) => self.resolve_spec(name@) matches Some(s) && k@ == s,
                None => self.resolve_spec(name@) is None,
            },
    ;
}

/// A keyring that holds no keys at all.
pub struct EmptyKeyring;

impl Keyring for EmptyKeyring {
    open spec fn resolve_spec(&self, name: Seq<u8>) -> Option<Seq<u8>> {
        None
    }

    fn resolve(&self, name: &[u8]) -> (r: Option<Vec<u8>>) {
        None
    }
}

/// The first key of `pairs` whose name is `name`, if any.
pub open spec fn keytable_lookup(pairs: Seq<(Seq<u8>, Seq<u8>)>, name: Seq<u8>) -> Option<Seq<u8>>
    decreases pairs.len(),
{
    if pairs.len() == 0 {
        None
    } else if pairs[0].0 == name {
        Some(pairs[0].1)
    } else {
        keytable_lookup(pairs.drop_first(), name)
    }
}

/// A keyring backed by a list of `(key name, key bytes)` pairs.
pub struct KeyTable {
    entries: Vec<(Vec<u8>, Vec<u8>)>,
}

impl KeyTable {
    /// The pairs this table holds, in insertion order.
    pub closed spec fn pairs(&self) -> Seq<(Seq<u8>, Seq<u8>)> {
        self.entries@.map_values(|p: (Vec<u8>, Vec<u8>)| (p.0@, p.1@))
    }

    /// A table with no keys.
    pub fn new() -> (r: KeyTable)
        ensures
            r.pairs() == Seq::<(Seq<u8>, Seq<u8>)>::empty(),
    {
        let r = KeyTable { entries: Vec::new() };
        proof {
            assert(r.pairs() =~= Seq::<(Seq<u8>, Seq<u8>)>::empty());
        }
        r
    }

    /// Adds one key under its name; an earlier entry of the same name wins.
    pub fn add(&mut self, name: Vec<u8>, key: Vec<u8>)
        ensures
            final(self).pairs() == old(self).pairs().push((name@, key@)),
    {
        let ghost old_pairs = self.pairs();
        self.entries.push((name, key));
        proof {
            assert(self.pairs() =~= old_pairs.push((name@, key@)));
        }
    }
}

impl Keyring for KeyTable {
    open spec fn resolve_spec(&self, name: Seq<u8>) -> Option<Seq<u8>> {
        keytable_lookup(self.pairs(), name)
    }

    fn resolve(&self, name: &[u8]) -> (r: Option<Vec<u8>>) {
        let mut i: usize = 0;
        proof {
            assert(self.pairs().skip(0) == self.pairs());
        }
        while i < self.entries.len()
            invariant
                i <= self.entries@.len(),
                keytable_lookup(self.pairs(), name@) == keytable_lookup(
                    self.pairs().skip(i as int),
                    name@,
                ),
            decreases self.entries@.len() - i,
        {
            let hit = bytes_eq(self.entries[i].0.as_slice(), name);
            if hit {
                let mut pos: usize = 0;
                let n = self.entries[i].1.len();
                let k = match read_exact(self.entries[i].1.as_slice(), &mut pos, n) {
                    Ok(k) => k,
                    Err(_) => {
                        proof {
                            assert(false);
                        }
                        Vec::new()
                    },
                };
                proof {
                    assert(k@ =~= self.pairs()[i as int].1);
                }
                return Some(k);
            }
            proof {
                assert(self.pairs().skip(i as int).drop_first() =~= self.pairs().skip(i + 1));
            }
            i = i + 1;
        }
        None
    }
}

/// What `decode` failed with, at the level of the byte model.
pub ghost enum DecodeErr {
    /// The input ended early, or a zlib stream did not inflate.
    Io,
    /// Wrong magic, flag, header size, or key and nonce widths.
    Unsupported,
    /// A chunk's bytes did not match the digest in the descriptor table.
    Integrity,
    /// An unknown chunk mode byte.
    UnknownMode(u8),
    /// An unknown cipher byte inside an `'E'` chunk.
    UnknownCipher(u8),
    /// No key under this name: the name travels so that callers can fetch it.
    KeyNotFound(Seq<u8>),
}

/// How an executable `Error` renders a model-level `DecodeErr`.
pub open spec fn err_match(e: Error, ge: DecodeErr) -> bool {
    match ge {
        DecodeErr::Io => e == Error::Io,
        DecodeErr::Unsupported => e == Error::Unsupported,
        DecodeErr::Integrity => e == Error::IntegrityError,
        DecodeErr::UnknownMode(m) => e == Error::UnknownEncodingMode(m as char),
        DecodeErr::UnknownCipher(m) => e == Error::UnknownEncryptionMode(m as char),
        DecodeErr::KeyNotFound(name) => e matches Error::KeyNotFound(h) && h@ == hex_of(name),
    }
}

/// What a zlib-with-header stream inflates to, or `None` when it is not one.
/// Relies on flate2's `ZlibDecoder`: the result depends on the bytes alone.
pub uninterp spec fn inflate(s: Seq<u8>) -> Option<Seq<u8>>;

/// Relies on flate2's `ZlibDecoder::read_to_end`: inflates a whole
/// zlib-with-header stream, or fails on input that is not one.
#[verifier::external_body]
fn inflate_bytes(b: &[u8]) -> (r: Result<Vec<u8>, Error>)
    ensures
        match inflate(b@) {
            Some(s) => r matches Ok(v) && v@ == s,
            None => r == Err::<Vec<u8>, Error>(Error::Io),
        },
{
    let mut out = Vec::new();
    match std::io::Read::read_to_end(&mut flate2::read::ZlibDecoder::new(b), &mut out) {
        Ok(_) => Ok(out),
        Err(_) => Err(Error::Io),
    }
}

/// The 20-round Salsa20 keystream for `key` and `iv`, XORed over `data`.
/// Relies on the salsa20 crate: the result depends on the arguments alone.
pub uninterp spec fn salsa20_apply(key: Seq<u8>, iv: Seq<u8>, data: Seq<u8>) -> Seq<u8>;

/// Relies on `salsa20::Salsa20::apply_keystream`: XORs the keystream selected
/// by `key` and `iv` over `data`, keeping its length.
#[verifier::external_body]
fn salsa20_bytes(key: &[u8], iv: &[u8], data: &[u8]) -> (r: Vec<u8>)
    requires
        key@.len() == 32,
        iv@.len() == 8,
    ensures
        r@ == salsa20_apply(key@, iv@, data@),
        r@.len() == data@.len(),
{
    let mut k = [0u8; 32];
    k.copy_from_slice(key);
    let mut n = [0u8; 8];
    n.copy_from_slice(iv);
    let mut buf = data.to_vec();
    salsa20::Salsa20::new(&k.into(), &n.into()).apply_keystream(&mut buf);
    buf
}

/// The chunk count field.
pub open spec fn chunk_count(d: Seq<u8>) -> int {
    be_uint(d, 9, 3)
}

/// The encoded size of chunk `i`, from its descriptor.
pub open spec fn enc_size_of(d: Seq<u8>, i: int) -> int {
    be_uint(d, 12 + 24 * i, 4)
}

/// The declared content size of chunk `i`, from its descriptor.
pub open spec fn content_size_of(d: Seq<u8>, i: int) -> int {
    be_uint(d, 12 + 24 * i + 4, 4)
}

/// The stored digest of chunk `i`, from its descriptor.
pub open spec fn digest_of(d: Seq<u8>, i: int) -> Seq<u8> {
    d.subrange(12 + 24 * i + 8, 12 + 24 * i + 24)
}

/// The total encoded size of the chunks before chunk `i`.
pub open spec fn sum_enc(d: Seq<u8>, i: int) -> int
    decreases i,
{
    if i <= 0 {
        0
    } else {
        sum_enc(d, i - 1) + enc_size_of(d, i - 1)
    }
}

/// Where chunk `i`'s payload starts in the container.
pub open spec fn chunk_off(d: Seq<u8>, i: int) -> int {
    12 + 24 * chunk_count(d) + sum_enc(d, i)
}

/// The payload bytes of chunk `i`.
pub open spec fn chunk_bytes(d: Seq<u8>, i: int) -> Seq<u8> {
    d.subrange(chunk_off(d, i), chunk_off(d, i) + enc_size_of(d, i))
}

/// The sum of the declared content sizes of the chunks from `i` on.
pub open spec fn content_sum_from(d: Seq<u8>, i: int) -> int
    decreases chunk_count(d) - i,
{
    if i < 0 || i >= chunk_count(d) {
        0
    } else {
        content_size_of(d, i) + content_sum_from(d, i + 1)
    }
}

/// How reading the magic, flag, count and descriptor table ends, mirroring
/// the order of the reads and checks.
pub open spec fn header_outcome(d: Seq<u8>) -> Result<(), DecodeErr> {
    if d.len() < 4 {
        Err(DecodeErr::Io)
    } else if be_uint(d, 0, 4) != 0x424C5445 {
        Err(DecodeErr::Unsupported)
    } else if d.len() < 9 {
        Err(DecodeErr::Io)
    } else if d[8] != 0x0F {
        Err(DecodeErr::Unsupported)
    } else if d.len() < 12 {
        Err(DecodeErr::Io)
    } else if be_uint(d, 4, 4) != 12 + 24 * chunk_count(d) {
        Err(DecodeErr::Unsupported)
    } else if d.len() < 12 + 24 * chunk_count(d) {
        Err(DecodeErr::Io)
    } else {
        Ok(())
    }
}

/// How decoding one chunk payload ends: the mode byte selects plain bytes,
/// a zlib stream, or an encrypted chunk whose key the keyring must hold.
pub open spec fn chunk_mode_outcome<K: Keyring>(enc: Seq<u8>, kr: K) -> Result<Seq<u8>, DecodeErr> {
    if enc.len() < 1 {
        Err(DecodeErr::Io)
    } else if enc[0] == 78 {  // 'N'
        Ok(enc.subrange(1, enc.len() as int))
    } else if enc[0] == 90 {  // 'Z'
        match inflate(enc.subrange(1, enc.len() as int)) {
            Some(s) => Ok(s),
            None => Err(DecodeErr::Io),
        }
    } else if enc[0] == 69 {  // 'E'
        encrypted_outcome(enc, kr)
    } else {
        Err(DecodeErr::UnknownMode(enc[0]))
    }
}

/// How decoding an `'E'` chunk ends: a length-prefixed key name, a
/// length-prefixed nonce, the cipher byte `'S'`, then the ciphertext.
pub open spec fn encrypted_outcome<K: Keyring>(enc: Seq<u8>, kr: K) -> Result<Seq<u8>, DecodeErr> {
    if enc.len() < 2 {
        Err(DecodeErr::Io)
    } else {
        let klen = enc[1] as int;
        if enc.len() < 2 + klen {
            Err(DecodeErr::Io)
        } else {
            let name = enc.subrange(2, 2 + klen);
            match kr.resolve_spec(name) {
                None => Err(DecodeErr::KeyNotFound(name)),
                Some(key) => {
                    if enc.len() < 3 + klen {
                        Err(DecodeErr::Io)
                    } else {
                        let ivlen = enc[2 + klen] as int;
                        if enc.len() < 3 + klen + ivlen {
                            Err(DecodeErr::Io)
                        } else {
                            let iv = enc.subrange(3 + klen, 3 + klen + ivlen);
                            if enc.len() < 4 + klen + ivlen {
                                Err(DecodeErr::Io)
                            } else if enc[3 + klen + ivlen] != 83 {  // 'S'
                                Err(DecodeErr::UnknownCipher(enc[3 + klen + ivlen]))
                            } else if key.len() != 32 || iv.len() != 8 {
                                Err(DecodeErr::Unsupported)
                            } else {
                                Ok(
                                    salsa20_apply(
                                        key,
                                        iv,
                                        enc.subrange(4 + klen + ivlen, enc.len() as int),
                                    ),
                                )
                            }
                        }
                    }
                }
            }
        }
    }
}

/// How decoding the chunks from `i` on ends: each payload must be present
/// and match its digest; the decoded pieces concatenate in chunk order.
pub open spec fn chunks_outcome<K: Keyring>(d: Seq<u8>, kr: K, i: int) -> Result<
    Seq<u8>,
    DecodeErr,
>
    decreases chunk_count(d) - i,
{
    if i < 0 || i >= chunk_count(d) {
        Ok(Seq::empty())
    } else if chunk_off(d, i) + enc_size_of(d, i) > d.len() {
        Err(DecodeErr::Io)
    } else if md5_of(chunk_bytes(d, i)) != digest_of(d, i) {
        Err(DecodeErr::Integrity)
    } else {
        match chunk_mode_outcome(chunk_bytes(d, i), kr) {
            Err(e) => Err(e),
            Ok(s) => match chunks_outcome(d, kr, i + 1) {
                Err(e) => Err(e),
                Ok(t) => Ok(s + t),
            },
        }
    }
}

/// How decoding a whole container ends, for a given keyring.
pub open spec fn decode_outcome<K: Keyring>(d: Seq<u8>, kr: K) -> Result<Seq<u8>, DecodeErr> {
    match header_outcome(d) {
        Err(e) => Err(e),
        Ok(_) => chunks_outcome(d, kr, 0),
    }
}

/// One chunk descriptor, as read from the table.
struct Chunk {
    encoded_size: u32,
    content_size: u32,
    md5: Vec<u8>,
}

impl Chunk {
    fn read_from(d: &[u8], pos: &mut usize) -> (r: Result<Chunk, Error>)
        ensures
            *old(pos) + 24 <= d@.len() ==> *final(pos) == *old(pos) + 24 && (r matches Ok(c)
                && c.encoded_size == be_uint(d@, *old(pos) as int, 4) && c.content_size == be_uint(
                d@,
                *old(pos) + 4,
                4,
            ) && c.md5@ == d@.subrange(*old(pos) + 8, *old(pos) + 24)),
            *old(pos) + 24 > d@.len() ==> r is Err,
    {
        let encoded_size = read_uint_be(d, pos, 4)?;
        let content_size = read_uint_be(d, pos, 4)?;
        let md5 = read_exact(d, pos, 16)?;
        proof {
            crate::bytes::lemma_be_uint_bound(d@, *old(pos) as int, 4);
            crate::bytes::lemma_be_uint_bound(d@, *old(pos) + 4, 4);
            crate::bytes::lemma_pow256_values();
        }
        Ok(
            Chunk {
                encoded_size: encoded_size as u32,
                content_size: content_size as u32,
                md5,
            },
        )
    }
}


/// Decodes a container into its content bytes.
///
/// The result is exactly what the byte model `decode_outcome` yields for
/// this input and keyring: the concatenation of the decoded chunks on
/// success, and the first failing check's error otherwise.  In particular a
/// chunk whose bytes do not match their stored digest never contributes to
/// the output.
pub fn decode<K: Keyring>(d: &[u8], keyring: &K) -> (r: Result<Vec<u8>, Error>)
    ensures
        match decode_outcome(d@, *keyring) {
            Ok(out) => r matches Ok(v) && v@ == out,
            Err(ge) => r matches Err(e) && err_match(e, ge),
        },
{
    let mut pos: usize = 0;
    let magic = match read_uint_be(d, &mut pos, 4) {
        Ok(v) => v,
        Err(_) => {
            return Err(Error::Io);
        },
    };
    if magic != 0x424C5445 {
        return Err(Error::Unsupported);
    }
    let header_size = match read_uint_be(d, &mut pos, 4) {
        Ok(v) => v,
        Err(_) => {
            return Err(Error::Io);
        },
    };
    let flag = match read_u8(d, &mut pos) {
        Ok(v) => v,
        Err(_) => {
            return Err(Error::Io);
        },
    };
    if flag != 0x0F {
        return Err(Error::Unsupported);
    }
    let chunk_cnt = match read_uint_be(d, &mut pos, 3) {
        Ok(v) => v,
        Err(_) => {
            return Err(Error::Io);
        },
    };
    proof {
        crate::bytes::lemma_be_uint_bound(d@, 9, 3);
        crate::bytes::lemma_pow256_values();
    }
    if header_size != 12 + 24 * chunk_cnt {
        return Err(Error::Unsupported);
    }
    let count = chunk_cnt as usize;

    let mut chunks: Vec<Chunk> = Vec::new();
    let mut i: usize = 0;
    while i < count
        invariant
            i <= count,
            count == chunk_count(d@),
            count < 0x100_0000,
            d@.len() >= 12,
            be_uint(d@, 0, 4) == 0x424C5445,
            d@[8] == 0x0F,
            be_uint(d@, 4, 4) == 12 + 24 * chunk_count(d@),
            pos == 12 + 24 * i,
            pos <= d@.len(),
            chunks@.len() == i,
            forall|j: int|
                0 <= j < i ==> (#[trigger] chunks@[j]).encoded_size == enc_size_of(d@, j)
                    && chunks@[j].content_size == content_size_of(d@, j) && chunks@[j].md5@
                    == digest_of(d@, j),
        decreases count - i,
    {
        let c = match Chunk::read_from(d, &mut pos) {
            Ok(c) => c,
            Err(_) => {
                proof {
                    assert(header_outcome(d@) == Err::<(), DecodeErr>(DecodeErr::Io));
                }
                return Err(Error::Io);
            },
        };
        chunks.push(c);
        i = i + 1;
    }
    proof {
        assert(header_outcome(d@) == Ok::<(), DecodeErr>(()));
        assert(sum_enc(d@, 0) == 0);
    }

    let mut content: Vec<u8> = Vec::new();
    let mut i: usize = 0;
    while i < count
        invariant
            i <= count,
            count == chunk_count(d@),
            header_outcome(d@) == Ok::<(), DecodeErr>(()),
            pos == chunk_off(d@, i as int),
            pos <= d@.len(),
            chunks@.len() == count,
            forall|j: int|
                0 <= j < count ==> (#[trigger] chunks@[j]).encoded_size == enc_size_of(d@, j)
                    && chunks@[j].content_size == content_size_of(d@, j) && chunks@[j].md5@
                    == digest_of(d@, j),
            match chunks_outcome(d@, *keyring, i as int) {
                Ok(t) => chunks_outcome(d@, *keyring, 0) == Ok::<Seq<u8>, DecodeErr>(content@ + t),
                Err(e) => chunks_outcome(d@, *keyring, 0) == Err::<Seq<u8>, DecodeErr>(e),
            },
        decreases count - i,
    {
        let ghost gi = i as int;
        let esz = chunks[i].encoded_size as usize;
        let enc = match read_exact(d, &mut pos, esz) {
            Ok(v) => v,
            Err(_) => {
                proof {
                    assert(chunks_outcome(d@, *keyring, gi) == Err::<Seq<u8>, DecodeErr>(
                        DecodeErr::Io,
                    ));
                }
                return Err(Error::Io);
            },
        };
        proof {
            assert(enc@ == chunk_bytes(d@, gi));
        }
        let digest = md5_digest(enc.as_slice());
        let digest_ok = bytes_eq(chunks[i].md5.as_slice(), digest.as_slice());
        if !digest_ok {
            proof {
                assert(md5_of(chunk_bytes(d@, gi)) != digest_of(d@, gi));
                assert(chunks_outcome(d@, *keyring, gi) == Err::<Seq<u8>, DecodeErr>(
                    DecodeErr::Integrity,
                ));
            }
            return Err(Error::IntegrityError);
        }
        proof {
            assert(md5_of(chunk_bytes(d@, gi)) == digest_of(d@, gi));
        }
        if enc.len() == 0 {
            proof {
                assert(chunk_mode_outcome(enc@, *keyring) == Err::<Seq<u8>, DecodeErr>(
                    DecodeErr::Io,
                ));
            }
            return Err(Error::Io);
        }
        let mode = enc[0];
        let ghost content_before = content@;
        if mode == 78 {  // 'N'
            append_range(&mut content, enc.as_slice(), 1, enc.len());
            proof {
                assert(chunk_mode_outcome(enc@, *keyring) == Ok::<Seq<u8>, DecodeErr>(
                    enc@.subrange(1, enc@.len() as int),
                ));
            }
        } else if mode == 90 {  // 'Z'
            let mut p2: usize = 1;
            let n2 = enc.len() - 1;
            let tail = match read_exact(enc.as_slice(), &mut p2, n2) {
                Ok(v) => v,
                Err(_) => {
                    proof {
                        assert(false);
                    }
                    return Err(Error::Io);
                },
            };
            proof {
                assert(tail@ == enc@.subrange(1, enc@.len() as int));
            }
            let inflated = match inflate_bytes(tail.as_slice()) {
                Ok(v) => v,
                Err(_) => {
                    proof {
                        assert(chunk_mode_outcome(enc@, *keyring) == Err::<Seq<u8>, DecodeErr>(
                            DecodeErr::Io,
                        ));
                        assert(chunks_outcome(d@, *keyring, gi) == Err::<Seq<u8>, DecodeErr>(
                            DecodeErr::Io,
                        ));
                    }
                    return Err(Error::Io);
                },
            };
            append_range(&mut content, inflated.as_slice(), 0, inflated.len());
            proof {
                assert(chunk_mode_outcome(enc@, *keyring) == Ok::<Seq<u8>, DecodeErr>(inflated@));
            }
        } else if mode == 69 {  // 'E'
            let mut p2: usize = 1;
            let klen = match read_u8(enc.as_slice(), &mut p2) {
                Ok(v) => v,
                Err(_) => {
                    proof {
                        assert(encrypted_outcome(enc@, *keyring) == Err::<Seq<u8>, DecodeErr>(
                            DecodeErr::Io,
                        ));
                    }
                    return Err(Error::Io);
                },
            };
            let name = match read_exact(enc.as_slice(), &mut p2, klen as usize) {
                Ok(v) => v,
                Err(_) => {
                    proof {
                        assert(encrypted_outcome(enc@, *keyring) == Err::<Seq<u8>, DecodeErr>(
                            DecodeErr::Io,
                        ));
                    }
                    return Err(Error::Io);
                },
            };
            let key = match keyring.resolve(name.as_slice()) {
                Some(k) => k,
                None => {
                    proof {
                        assert(encrypted_outcome(enc@, *keyring) == Err::<Seq<u8>, DecodeErr>(
                            DecodeErr::KeyNotFound(enc@.subrange(2, 2 + klen as int)),
                        ));
                    }
                    return Err(Error::KeyNotFound(to_hex(name.as_slice())));
                },
            };
            let ivlen = match read_u8(enc.as_slice(), &mut p2) {
                Ok(v) => v,
                Err(_) => {
                    proof {
                        assert(encrypted_outcome(enc@, *keyring) == Err::<Seq<u8>, DecodeErr>(
                            DecodeErr::Io,
                        ));
                    }
                    return Err(Error::Io);
                },
            };
            let iv = match read_exact(enc.as_slice(), &mut p2, ivlen as usize) {
                Ok(v) => v,
                Err(_) => {
                    proof {
                        assert(encrypted_outcome(enc@, *keyring) == Err::<Seq<u8>, DecodeErr>(
                            DecodeErr::Io,
                        ));
                    }
                    return Err(Error::Io);
                },
            };
            let cipher = match read_u8(enc.as_slice(), &mut p2) {
                Ok(v) => v,
                Err(_) => {
                    proof {
                        assert(encrypted_outcome(enc@, *keyring) == Err::<Seq<u8>, DecodeErr>(
                            DecodeErr::Io,
                        ));
                    }
                    return Err(Error::Io);
                },
            };
            if cipher != 83 {  // 'S'
                proof {
                    assert(encrypted_outcome(enc@, *keyring) == Err::<Seq<u8>, DecodeErr>(
                        DecodeErr::UnknownCipher(cipher),
                    ));
                }
                return Err(Error::UnknownEncryptionMode(cipher as char));
            }
            if key.len() != 32 || iv.len() != 8 {
                proof {
                    assert(encrypted_outcome(enc@, *keyring) == Err::<Seq<u8>, DecodeErr>(
                        DecodeErr::Unsupported,
                    ));
                }
                return Err(Error::Unsupported);
            }
            let n2 = enc.len() - p2;
            let ct = match read_exact(enc.as_slice(), &mut p2, n2) {
                Ok(v) => v,
                Err(_) => {
                    proof {
                        assert(false);
                    }
                    return Err(Error::Io);
                },
            };
            let plain = salsa20_bytes(key.as_slice(), iv.as_slice(), ct.as_slice());
            append_range(&mut content, plain.as_slice(), 0, plain.len());
            proof {
                assert(encrypted_outcome(enc@, *keyring) == Ok::<Seq<u8>, DecodeErr>(plain@));
            }
        } else {
            proof {
                assert(chunk_mode_outcome(enc@, *keyring) == Err::<Seq<u8>, DecodeErr>(
                    DecodeErr::UnknownMode(mode),
                ));
            }
            return Err(Error::UnknownEncodingMode(mode as char));
        }
        proof {
            let piece = match chunk_mode_outcome(chunk_bytes(d@, gi), *keyring) {
                Ok(s) => s,
                Err(_) => Seq::<u8>::empty(),
            };
            assert(chunk_mode_outcome(chunk_bytes(d@, gi), *keyring) == Ok::<Seq<u8>, DecodeErr>(
                piece,
            ));
            assert(content@ == content_before + piece);
            match chunks_outcome(d@, *keyring, gi + 1) {
                Ok(t) => {
                    assert(chunks_outcome(d@, *keyring, gi) == Ok::<Seq<u8>, DecodeErr>(piece + t));
                    assert(content_before + (piece + t) =~= (content_before + piece) + t);
                },
                Err(_) => {},
            }
        }
        i = i + 1;
    }
    proof {
        assert(chunks_outcome(d@, *keyring, count as int) == Ok::<Seq<u8>, DecodeErr>(
            Seq::empty(),
        ));
        assert(content@ + Seq::<u8>::empty() =~= content@);
    }
    Ok(content)
}


/// For every container and keyring that decode successfully, if each chunk's
/// decoded piece has the length its descriptor declares, then the output
/// length is the sum of the declared content sizes across the chunks.
pub proof fn lemma_decoded_len_is_content_sum<K: Keyring>(d: Seq<u8>, kr: K, out: Seq<u8>)
    requires
        decode_outcome(d, kr) == Ok::<Seq<u8>, DecodeErr>(out),
        forall|i: int|
            0 <= i < chunk_count(d) ==> match chunk_mode_outcome(#[trigger] chunk_bytes(d, i), kr) {
                Ok(s) => s.len() == content_size_of(d, i),
                Err(_) => true,
            },
    ensures
        out.len() == content_sum_from(d, 0),
{
    lemma_chunks_len(d, kr, 0, out);
}

proof fn lemma_chunks_len<K: Keyring>(d: Seq<u8>, kr: K, i: int, out: Seq<u8>)
    requires
        chunks_outcome(d, kr, i) == Ok::<Seq<u8>, DecodeErr>(out),
        forall|j: int|
            0 <= j < chunk_count(d) ==> match chunk_mode_outcome(#[trigger] chunk_bytes(d, j), kr) {
                Ok(s) => s.len() == content_size_of(d, j),
                Err(_) => true,
            },
    ensures
        out.len() == content_sum_from(d, i),
    decreases chunk_count(d) - i,
{
    if i < 0 || i >= chunk_count(d) {
    } else {
        let s = match chunk_mode_outcome(chunk_bytes(d, i), kr) {
            Ok(s) => s,
            Err(_) => Seq::<u8>::empty(),
        };
        let t = match chunks_outcome(d, kr, i + 1) {
            Ok(t) => t,
            Err(_) => Seq::<u8>::empty(),
        };
        lemma_chunks_len(d, kr, i + 1, t);
    }
}

/// For every successful decode, every chunk's bytes matched the digest in
/// its descriptor: corrupt chunk bytes can only surface as an integrity
/// error, never as decoded output.
pub proof fn lemma_success_means_digests_match<K: Keyring>(d: Seq<u8>, kr: K)
    requires
        decode_outcome(d, kr) is Ok,
    ensures
        forall|i: int|
            0 <= i < chunk_count(d) ==> md5_of(#[trigger] chunk_bytes(d, i)) == digest_of(d, i),
{
    assert forall|i: int| 0 <= i < chunk_count(d) implies md5_of(#[trigger] chunk_bytes(d, i))
        == digest_of(d, i) by {
        lemma_chunk_checked(d, kr, 0, i);
    }
}

proof fn lemma_chunk_checked<K: Keyring>(d: Seq<u8>, kr: K, i: int, j: int)
    requires
        chunks_outcome(d, kr, i) is Ok,
        i <= j < chunk_count(d),
        0 <= i,
    ensures
        md5_of(chunk_bytes(d, j)) == digest_of(d, j),
    decreases j - i,
{
    if i < j {
        lemma_chunk_checked(d, kr, i + 1, j);
    }
}

/// A plain `'N'` chunk decodes to exactly its payload minus the mode byte,
/// whatever the keyring holds: the round-trip identity for plain chunks.
pub proof fn lemma_plain_chunk_is_identity<K: Keyring>(enc: Seq<u8>, kr: K)
    requires
        enc.len() >= 1,
        enc[0] == 78,
    ensures
        chunk_mode_outcome(enc, kr) == Ok::<Seq<u8>, DecodeErr>(enc.subrange(1, enc.len() as int)),
{
}

/// A `'Z'` chunk decodes to exactly what its zlib stream inflates to, and
/// fails when the stream does not inflate.
pub proof fn lemma_zlib_chunk_inflates<K: Keyring>(enc: Seq<u8>, kr: K)
    requires
        enc.len() >= 1,
        enc[0] == 90,
    ensures
        chunk_mode_outcome(enc, kr) == match inflate(enc.subrange(1, enc.len() as int)) {
            Some(s) => Ok::<Seq<u8>, DecodeErr>(s),
            None => Err::<Seq<u8>, DecodeErr>(DecodeErr::Io),
        },
{
}

} // verus!
