//! The local store: the shared-memory control file that names each bucket's
//! active index generation, the bit-packed per-bucket index files, and the
//! per-record header checks that guard the stored containers.

use std::collections::HashMap;
use vstd::arithmetic::mul::lemma_mul_inequality;
use vstd::arithmetic::power2::{lemma2_to64, lemma_pow2_adds, lemma_pow2_pos, pow2};
use vstd::prelude::*;

use crate::bytes::{le_uint, nul_at, read_exact, read_uint128_be, read_uint_be, read_uint_le, skip, utf8_str};
use crate::Error;

verus! {

broadcast use vstd::std_specs::hash::group_hash_axioms;

/// The 32-bit Jenkins lookup3 hash of a byte string under a seed.
/// Relies on the fasthash crate: the result depends on bytes and seed alone.
pub uninterp spec fn lookup3_of(data: Seq<u8>, seed: u32) -> u32;

/// Relies on fasthash's `lookup3::hash32_with_seed` (its `hash32` is the same
/// call with seed 0).  The underlying C call takes the length as a 32-bit
/// count, so longer inputs are out.
#[verifier::external_body]
fn lookup3_hash(data: &[u8], seed: u32) -> (r: u32)
    requires
        data@.len() <= 0x7FFF_FFFF,
    ensures
        r == lookup3_of(data@, seed),
{
    fasthash::lookup3::hash32_with_seed(data, seed)
}

/// How many bytes of free-space bookkeeping sit between the path field and
/// the generation numbers, given the declared block size.
pub open spec fn shm_skip(bs: int, bc: int) -> int {
    8 * ((bs - 0x108 - 4 * bc) / 8)
}

/// Where the NUL-truncated path inside the 256-byte window ends.
pub open spec fn shm_path_end(w: Seq<u8>) -> int {
    match nul_at(w, 0) {
        Some(e) => e,
        None => 256,
    }
}

/// The per-bucket generation numbers, one 32-bit value each.
pub open spec fn shm_versions(d: Seq<u8>, vstart: int, bc: int) -> Seq<u32> {
    Seq::new(bc as nat, |k: int| le_uint(d, vstart + 4 * k, 4) as u32)
}

/// How parsing the shared-memory control file ends: a block-type tag that
/// must be 4 or 5, a block size, the 256-byte path, skipped free-space
/// bookkeeping, then one generation number per bucket.
pub open spec fn shm_outcome(d: Seq<u8>, bc: int) -> Result<(Seq<char>, Seq<u32>), Error> {
    if d.len() < 4 {
        Err(Error::Io)
    } else if le_uint(d, 0, 4) != 4 && le_uint(d, 0, 4) != 5 {
        Err(Error::Unsupported)
    } else if d.len() < 264 {
        Err(Error::Io)
    } else if le_uint(d, 4, 4) < 0x108 + 4 * bc {
        Err(Error::Unsupported)
    } else if d.len() < 264 + shm_skip(le_uint(d, 4, 4), bc) + 4 * bc {
        Err(Error::Io)
    } else {
        let w = d.subrange(8, 264);
        let e = shm_path_end(w);
        if !vstd::utf8::valid_utf8(w.subrange(0, e)) {
            Err(Error::Utf8)
        } else {
            Ok(
                (
                    vstd::utf8::decode_utf8(w.subrange(0, e)),
                    shm_versions(d, 264 + shm_skip(le_uint(d, 4, 4), bc), bc),
                ),
            )
        }
    }
}

/// The parsed shared-memory control file: the store path it names and the
/// active index generation of each bucket.
pub struct SharedMemory {
    pub path: String,
    pub versions: Vec<u32>,
}

impl SharedMemory {
    /// Parses the control file for `bucket_count` buckets.
    ///
    /// A block size smaller than the fixed fields plus one generation per
    /// bucket is refused as unsupported rather than read out of range.
    pub fn decode(d: &[u8], bucket_count: usize) -> (r: Result<SharedMemory, Error>)
        requires
            bucket_count <= 0xFFFF,
        ensures
            match shm_outcome(d@, bucket_count as int) {
                Ok((p, v)) => r matches Ok(sm) && sm.path@ == p && sm.versions@ == v,
                Err(e) => r matches Err(e2) && e2 == e,
            },
    {
        let mut pos: usize = 0;
        let tag = match read_uint_le(d, &mut pos, 4) {
            Ok(v) => v,
            Err(_) => {
                return Err(Error::Io);
            },
        };
        if tag != 4 && tag != 5 {
            return Err(Error::Unsupported);
        }
        let bs = match read_uint_le(d, &mut pos, 4) {
            Ok(v) => v,
            Err(_) => {
                return Err(Error::Io);
            },
        };
        let path_bytes = match read_exact(d, &mut pos, 256) {
            Ok(v) => v,
            Err(_) => {
                return Err(Error::Io);
            },
        };
        proof {
            crate::bytes::lemma_le_uint_bound(d@, 4, 4);
            crate::bytes::lemma_pow256_values();
        }
        if bs < 0x108 + 4 * (bucket_count as u64) {
            return Err(Error::Unsupported);
        }
        let skipn64: u64 = 8 * ((bs - 0x108 - 4 * (bucket_count as u64)) / 8);
        let skipn: usize = skipn64 as usize;
        if let Err(_) = skip(d, &mut pos, skipn) {
            return Err(Error::Io);
        }
        let ghost vstart = 264 + shm_skip(le_uint(d@, 4, 4), bucket_count as int);
        proof {
            assert(pos == vstart);
        }
        let mut versions: Vec<u32> = Vec::new();
        let mut k: usize = 0;
        while k < bucket_count
            invariant
                k <= bucket_count,
                bucket_count <= 0xFFFF,
                pos == vstart + 4 * k,
                pos <= d@.len(),
                vstart == 264 + shm_skip(le_uint(d@, 4, 4), bucket_count as int),
                vstart + 4 * bucket_count <= usize::MAX,
                d@.len() >= 264,
                le_uint(d@, 0, 4) == 4 || le_uint(d@, 0, 4) == 5,
                le_uint(d@, 4, 4) >= 0x108 + 4 * bucket_count,
                versions@.len() == k,
                forall|j: int| 0 <= j < k ==> versions@[j] == le_uint(d@, vstart + 4 * j, 4) as u32,
            decreases bucket_count - k,
        {
            let v = match read_uint_le(d, &mut pos, 4) {
                Ok(v) => v,
                Err(_) => {
                    proof {
                        assert(d@.len() < vstart + 4 * bucket_count);
                    }
                    return Err(Error::Io);
                },
            };
            proof {
                crate::bytes::lemma_le_uint_bound(d@, vstart + 4 * k, 4);
                crate::bytes::lemma_pow256_values();
            }
            versions.push(v as u32);
            k = k + 1;
        }

        let mut end: usize = 0;
        proof {
            assert(path_bytes@ =~= d@.subrange(8, 264));
        }
        while end < 256
            invariant
                end <= 256,
                path_bytes@.len() == 256,
                nul_at(path_bytes@, 0) == nul_at(path_bytes@, end as int),
                forall|j: int| 0 <= j < end ==> path_bytes@[j] != 0,
            ensures
                end == shm_path_end(path_bytes@),
            decreases 256 - end,
        {
            if path_bytes[end] == 0 {
                proof {
                    assert(nul_at(path_bytes@, end as int) == Some(end as int));
                }
                break ;
            }
            end = end + 1;
        }
        let mut ppos: usize = 0;
        let prefix = match read_exact(path_bytes.as_slice(), &mut ppos, end) {
            Ok(v) => v,
            Err(_) => {
                proof {
                    assert(false);
                }
                return Err(Error::Io);
            },
        };
        let path = match utf8_str(prefix.as_slice()) {
            Ok(s) => s.to_owned(),
            Err(e) => {
                return Err(e);
            },
        };
        proof {
            assert(versions@ =~= shm_versions(d@, vstart, bucket_count as int));
        }
        Ok(SharedMemory { path, versions })
    }
}

/// One index entry: a truncated key and where its record sits.
#[derive(Debug, Clone, Copy, PartialEq, Eq, Structural)]
pub struct Entry {
    pub key: u128,
    pub file: u64,
    pub offset: u64,
    pub length: u64,
}

/// The field widths an index header may declare: key at most 16 bytes,
/// length and location at most 8, the offset part of the location within
/// the location field, under 64 offset bits, and a positive entry width.
pub open spec fn entry_widths_ok(lsz: int, locsz: int, ksz: int, seg: int) -> bool {
    &&& 0 <= ksz <= 16
    &&& 0 <= lsz <= 8
    &&& 0 <= locsz <= 8
    &&& 0 <= seg < 64
    &&& (seg + 7) / 8 <= locsz
    &&& ksz + locsz + lsz > 0
}

/// The entry packed at `p`: `ksz` key bytes, a big-endian location split
/// into file number (high bits) and offset (low `seg` bits), then a
/// little-endian length.
pub open spec fn entry_spec(ed: Seq<u8>, p: int, lsz: int, locsz: int, ksz: int, seg: int) -> Entry {
    let osz = (seg + 7) / 8;
    let fsz = locsz - osz;
    let fraw = crate::bytes::be_uint(ed, p + ksz, fsz);
    let oraw = crate::bytes::be_uint(ed, p + ksz + fsz, osz);
    let extra = osz * 8 - seg;
    Entry {
        key: crate::bytes::be_uint(ed, p, ksz) as u128,
        file: (fraw * pow2(extra as nat) + oraw / pow2(seg as nat) as int) as u64,
        offset: (oraw % pow2(seg as nat) as int) as u64,
        length: le_uint(ed, p + ksz + locsz, lsz) as u64,
    }
}

/// `2^e` for small exponents, as a machine word.
fn pow2_u64(e: usize) -> (r: u64)
    requires
        e <= 63,
    ensures
        r == pow2(e as nat),
        r >= 1,
{
    proof {
        lemma2_to64();
        vstd::arithmetic::power2::lemma2_to64_rest();
    }
    let mut r: u64 = 1;
    let mut i: usize = 0;
    while i < e
        invariant
            i <= e <= 63,
            r == pow2(i as nat),
            r >= 1,
        decreases e - i,
    {
        proof {
            lemma_pow2_adds(i as nat, 1);
            lemma2_to64();
            lemma_pow2_le(i as nat + 1, 63);
            vstd::arithmetic::power2::lemma2_to64_rest();
        }
        r = r * 2;
        i = i + 1;
    }
    r
}

proof fn lemma_pow2_le(a: nat, b: nat)
    requires
        a <= b,
    ensures
        pow2(a) <= pow2(b),
{
    if a < b {
        vstd::arithmetic::power2::lemma_pow2_strictly_increases(a, b);
    }
}

/// The packed file number fits a machine word: the location field holds at
/// most `8 * locsz` bits and the low `seg` of them are the offset.
proof fn lemma_file_fits(fraw: int, oraw: int, fsz: int, osz: int, seg: int)
    requires
        0 <= fsz,
        0 <= osz,
        fsz + osz <= 8,
        0 <= seg,
        seg <= osz * 8,
        0 <= fraw < pow2((8 * fsz) as nat),
        0 <= oraw < pow2((8 * osz) as nat),
    ensures
        fraw * pow2((osz * 8 - seg) as nat) + oraw / (pow2(seg as nat) as int) >= 0,
        (fraw * pow2((osz * 8 - seg) as nat) + oraw / (pow2(seg as nat) as int)) < pow2(64),
{
    let extra = (osz * 8 - seg) as nat;
    let p2e = pow2(extra) as int;
    let p2s = pow2(seg as nat) as int;
    lemma_pow2_pos(extra);
    lemma_pow2_pos(seg as nat);
    lemma_pow2_adds((8 * fsz) as nat, extra);
    lemma_pow2_adds(seg as nat, extra);
    assert(oraw < p2s * p2e);
    assert(oraw / p2s < p2e) by (nonlinear_arith)
        requires
            oraw >= 0,
            p2s >= 1,
            p2e >= 1,
            oraw < p2s * p2e,
    ;
    assert(oraw / p2s >= 0) by (nonlinear_arith)
        requires
            oraw >= 0,
            p2s >= 1,
    ;
    lemma_mul_inequality(fraw, pow2((8 * fsz) as nat) as int - 1, p2e);
    assert(fraw * p2e <= (pow2((8 * fsz) as nat) as int - 1) * p2e);
    assert((pow2((8 * fsz) as nat) as int - 1) * p2e == pow2((8 * fsz) as nat) as int * p2e - p2e)
        by (nonlinear_arith);
    assert(fraw * p2e + oraw / p2s < pow2((8 * fsz) as nat) as int * p2e);
    assert(pow2((8 * fsz) as nat) as int * p2e == pow2((8 * fsz + extra) as nat) as int);
    assert(8 * fsz + extra == 8 * (fsz + osz) - seg);
    lemma_pow2_le(((8 * (fsz + osz)) - seg) as nat, 64);
    assert(fraw * p2e >= 0) by (nonlinear_arith)
        requires
            fraw >= 0,
            p2e >= 1,
    ;
}

impl Entry {
    /// Unpacks one entry at the cursor, with the widths the index header
    /// declared.  A short input is `Error::Io` and leaves the cursor alone.
    pub fn decode(
        d: &[u8],
        pos: &mut usize,
        length_size: u8,
        location_size: u8,
        key_size: u8,
        segment_bits: u8,
    ) -> (r: Result<Entry, Error>)
        requires
            entry_widths_ok(
                length_size as int,
                location_size as int,
                key_size as int,
                segment_bits as int,
            ),
        ensures
            *old(pos) + key_size + location_size + length_size <= d@.len() ==> *final(pos) == *old(
                pos,
            ) + key_size + location_size + length_size && (r matches Ok(e) && e == entry_spec(
                d@,
                *old(pos) as int,
                length_size as int,
                location_size as int,
                key_size as int,
                segment_bits as int,
            )),
            *old(pos) + key_size + location_size + length_size > d@.len() ==> *final(pos) == *old(
                pos,
            ) && r == Err::<Entry, Error>(Error::Io),
    {
        let w = key_size as usize + location_size as usize + length_size as usize;
        if w > d.len() || *pos > d.len() - w {
            return Err(Error::Io);
        }
        let key = match read_uint128_be(d, pos, key_size as usize) {
            Ok(v) => v,
            Err(_) => {
                proof {
                    assert(false);
                }
                return Err(Error::Io);
            },
        };
        let osz = (segment_bits as usize + 7) / 8;
        let fsz = location_size as usize - osz;
        let fraw = match read_uint_be(d, pos, fsz) {
            Ok(v) => v,
            Err(_) => {
                proof {
                    assert(false);
                }
                return Err(Error::Io);
            },
        };
        let oraw = match read_uint_be(d, pos, osz) {
            Ok(v) => v,
            Err(_) => {
                proof {
                    assert(false);
                }
                return Err(Error::Io);
            },
        };
        let extra = osz * 8 - segment_bits as usize;
        let p2e = pow2_u64(extra);
        let p2s = pow2_u64(segment_bits as usize);
        proof {
            crate::bytes::lemma_be_uint_bound(d@, *old(pos) + key_size, fsz as int);
            crate::bytes::lemma_be_uint_bound(d@, *old(pos) + key_size + fsz, osz as int);
            lemma_pow256_is_pow2(fsz as int);
            lemma_pow256_is_pow2(osz as int);
            lemma_file_fits(
                fraw as int,
                oraw as int,
                fsz as int,
                osz as int,
                segment_bits as int,
            );
            lemma2_to64();
            vstd::arithmetic::power2::lemma2_to64_rest();
            lemma_pow2_adds(63, 1);
        }
        let file = fraw * p2e + oraw / p2s;
        let offset = oraw % p2s;
        let length = if length_size == 0 {
            0
        } else {
            match read_uint_le(d, pos, length_size as usize) {
                Ok(v) => v,
                Err(_) => {
                    proof {
                        assert(false);
                    }
                    return Err(Error::Io);
                },
            }
        };
        Ok(Entry { key, file, offset, length })
    }
}

/// A byte count and a power of two agree: `pow256(n) == pow2(8 * n)`.
proof fn lemma_pow256_is_pow2(n: int)
    requires
        n >= 0,
    ensures
        crate::bytes::pow256(n) == pow2((8 * n) as nat),
    decreases n,
{
    if n == 0 {
        lemma2_to64();
    } else {
        lemma_pow256_is_pow2(n - 1);
        lemma_pow2_adds((8 * (n - 1)) as nat, 8);
        lemma2_to64();
    }
}

/// The parsed header and entries of one index-file generation.
#[verifier::ext_equal]
pub ghost struct IndexModel {
    pub bucket: int,
    pub entry_length_size: int,
    pub entry_location_size: int,
    pub entry_key_size: int,
    pub entry_segment_bits: int,
    pub limit: int,
    pub entries: Seq<Entry>,
}

/// How parsing one bucket's index file ends: a hash-verified header block
/// carrying the entry field widths, then a length-prefixed run of packed
/// entries, kept up to the last complete one.
pub open spec fn idx_outcome(d: Seq<u8>) -> Result<IndexModel, Error> {
    if d.len() < 8 {
        Err(Error::Io)
    } else {
        let hlen = le_uint(d, 0, 4);
        if d.len() < 8 + hlen {
            Err(Error::Io)
        } else {
            let hd = d.subrange(8, 8 + hlen);
            if hlen > 0x7FFF_FFFF {
                Err(Error::Unsupported)
            } else if le_uint(d, 4, 4) != lookup3_of(hd, 0) {
                Err(Error::IntegrityError)
            } else if hlen < 2 {
                Err(Error::Io)
            } else if le_uint(hd, 0, 2) != 7 {
                Err(Error::Unsupported)
            } else if hlen < 16 {
                Err(Error::Io)
            } else if !entry_widths_ok(hd[4] as int, hd[5] as int, hd[6] as int, hd[7] as int) {
                Err(Error::Unsupported)
            } else if d.len() < 24 + hlen {
                Err(Error::Io)
            } else {
                let elen = le_uint(d, 16 + hlen, 4);
                if d.len() < 24 + hlen + elen {
                    Err(Error::Io)
                } else {
                    let ed = d.subrange(24 + hlen, 24 + hlen + elen);
                    let w = hd[6] + hd[5] + hd[4];
                    let count = elen / w;
                    Ok(
                        IndexModel {
                            bucket: le_uint(hd, 2, 2),
                            entry_length_size: hd[4] as int,
                            entry_location_size: hd[5] as int,
                            entry_key_size: hd[6] as int,
                            entry_segment_bits: hd[7] as int,
                            limit: le_uint(hd, 8, 8),
                            entries: Seq::new(
                                count as nat,
                                |j: int|
                                    entry_spec(
                                        ed,
                                        j * w,
                                        hd[4] as int,
                                        hd[5] as int,
                                        hd[6] as int,
                                        hd[7] as int,
                                    ),
                            ),
                        },
                    )
                }
            }
        }
    }
}

/// One generation of a bucket's index file.
pub struct Index {
    pub bucket: u16,
    pub entry_length_size: u8,
    pub entry_location_size: u8,
    pub entry_key_size: u8,
    pub entry_segment_bits: u8,
    pub limit: u64,
    pub entries: Vec<Entry>,
}

impl View for Index {
    type V = IndexModel;

    open spec fn view(&self) -> IndexModel {
        IndexModel {
            bucket: self.bucket as int,
            entry_length_size: self.entry_length_size as int,
            entry_location_size: self.entry_location_size as int,
            entry_key_size: self.entry_key_size as int,
            entry_segment_bits: self.entry_segment_bits as int,
            limit: self.limit as int,
            entries: self.entries@,
        }
    }
}

impl Index {
    /// Parses one index file.  The header block must carry format version 7
    /// and hash-verify under lookup3; a truncated entries block stops at the
    /// last complete entry instead of failing.  Field widths that no entry
    /// could be unpacked under are refused as unsupported.
    pub fn decode(d: &[u8]) -> (r: Result<Index, Error>)
        ensures
            match idx_outcome(d@) {
                Ok(m) => r matches Ok(ix) && ix@ == m,
                Err(e) => r matches Err(e2) && e2 == e,
            },
    {
        let mut pos: usize = 0;
        let hlen64 = match read_uint_le(d, &mut pos, 4) {
            Ok(v) => v,
            Err(_) => {
                return Err(Error::Io);
            },
        };
        let hhash = match read_uint_le(d, &mut pos, 4) {
            Ok(v) => v,
            Err(_) => {
                return Err(Error::Io);
            },
        };
        proof {
            crate::bytes::lemma_le_uint_bound(d@, 0, 4);
            crate::bytes::lemma_pow256_values();
        }
        let hlen = hlen64 as usize;
        let header = match read_exact(d, &mut pos, hlen) {
            Ok(v) => v,
            Err(_) => {
                return Err(Error::Io);
            },
        };
        if hlen > 0x7FFF_FFFF {
            return Err(Error::Unsupported);
        }
        let hh = lookup3_hash(header.as_slice(), 0);
        if hhash != hh as u64 {
            return Err(Error::IntegrityError);
        }
        let hd = header.as_slice();
        let mut hpos: usize = 0;
        let version = match read_uint_le(hd, &mut hpos, 2) {
            Ok(v) => v,
            Err(_) => {
                return Err(Error::Io);
            },
        };
        if version != 7 {
            return Err(Error::Unsupported);
        }
        if header.len() < 16 {
            return Err(Error::Io);
        }
        let bucket64 = match read_uint_le(hd, &mut hpos, 2) {
            Ok(v) => v,
            Err(_) => {
                proof {
                    assert(false);
                }
                return Err(Error::Io);
            },
        };
        let entry_length_size = hd[4];
        let entry_location_size = hd[5];
        let entry_key_size = hd[6];
        let entry_segment_bits = hd[7];
        hpos = 8;
        let limit = match read_uint_le(hd, &mut hpos, 8) {
            Ok(v) => v,
            Err(_) => {
                proof {
                    assert(false);
                }
                return Err(Error::Io);
            },
        };
        let widths_ok = entry_key_size <= 16 && entry_length_size <= 8 && entry_location_size <= 8
            && entry_segment_bits < 64 && (entry_segment_bits as usize + 7) / 8
            <= entry_location_size as usize && entry_key_size as usize
            + entry_location_size as usize + entry_length_size as usize > 0;
        if !widths_ok {
            return Err(Error::Unsupported);
        }
        if let Err(_) = skip(d, &mut pos, 8) {
            return Err(Error::Io);
        }
        let elen64 = match read_uint_le(d, &mut pos, 4) {
            Ok(v) => v,
            Err(_) => {
                return Err(Error::Io);
            },
        };
        if let Err(_) = read_uint_le(d, &mut pos, 4) {
            return Err(Error::Io);
        }
        proof {
            crate::bytes::lemma_le_uint_bound(d@, 16 + hlen as int, 4);
            crate::bytes::lemma_pow256_values();
        }
        let elen = elen64 as usize;
        let entries_data = match read_exact(d, &mut pos, elen) {
            Ok(v) => v,
            Err(_) => {
                return Err(Error::Io);
            },
        };
        let w = entry_key_size as usize + entry_location_size as usize
            + entry_length_size as usize;
        let count = elen / w;
        let ghost gw = w as int;
        let ghost ged = entries_data@;
        let mut entries: Vec<Entry> = Vec::new();
        let mut epos: usize = 0;
        let mut j: usize = 0;
        proof {
            vstd::arithmetic::div_mod::lemma_fundamental_div_mod(elen as int, gw);
            vstd::arithmetic::div_mod::lemma_mod_bound(elen as int, gw);
            assert(gw * (elen as int / gw) == (elen as int / gw) * gw) by (nonlinear_arith);
        }
        while j < count
            invariant
                j <= count,
                count == elen / w,
                w == entry_key_size + entry_location_size + entry_length_size,
                entry_widths_ok(
                    entry_length_size as int,
                    entry_location_size as int,
                    entry_key_size as int,
                    entry_segment_bits as int,
                ),
                count * w <= elen,
                ged == entries_data@,
                ged.len() == elen,
                epos == j * w,
                entries@.len() == j,
                forall|i: int|
                    0 <= i < j ==> entries@[i] == entry_spec(
                        ged,
                        i * (w as int),
                        entry_length_size as int,
                        entry_location_size as int,
                        entry_key_size as int,
                        entry_segment_bits as int,
                    ),
            decreases count - j,
        {
            proof {
                lemma_mul_inequality(j as int + 1, count as int, w as int);
                assert((j as int + 1) * (w as int) == j as int * (w as int) + w as int)
                    by (nonlinear_arith);
            }
            let e = match Entry::decode(
                entries_data.as_slice(),
                &mut epos,
                entry_length_size,
                entry_location_size,
                entry_key_size,
                entry_segment_bits,
            ) {
                Ok(e) => e,
                Err(_) => {
                    proof {
                        assert(false);
                    }
                    return Err(Error::Io);
                },
            };
            entries.push(e);
            j = j + 1;
        }
        let ix = Index {
            bucket: bucket64 as u16,
            entry_length_size,
            entry_location_size,
            entry_key_size,
            entry_segment_bits,
            limit,
            entries,
        };
        proof {
            crate::bytes::lemma_le_uint_bound(header@, 0, 2);
            crate::bytes::lemma_le_uint_bound(header@, 2, 2);
            crate::bytes::lemma_le_uint_bound(header@, 8, 8);
            crate::bytes::lemma_pow256_values();
            crate::bytes::lemma_pow256_val8();
            let m = match idx_outcome(d@) {
                Ok(m) => m,
                Err(_) => IndexModel {
                    bucket: 0,
                    entry_length_size: 0,
                    entry_location_size: 0,
                    entry_key_size: 0,
                    entry_segment_bits: 0,
                    limit: 0,
                    entries: Seq::empty(),
                },
            };
            assert(idx_outcome(d@) is Ok);
            assert(ix@.entries =~= m.entries);
            assert(ix@ =~= m);
        }
        Ok(ix)
    }
}

/// The per-nibble obfuscation constants folded into a record checksum.
pub open spec fn offset_encode_table(i: int) -> u32 {
    if i == 0 {
        0x049396B8
    } else if i == 1 {
        0x72A82A9B
    } else if i == 2 {
        0xEE626CCA
    } else if i == 3 {
        0x9917754F
    } else if i == 4 {
        0x15DE40B1
    } else if i == 5 {
        0xF5A8A9B6
    } else if i == 6 {
        0x421EAC7E
    } else if i == 7 {
        0xA9D55C9A
    } else if i == 8 {
        0x317FD40C
    } else if i == 9 {
        0x04FAF80D
    } else if i == 10 {
        0x3D6BE971
    } else if i == 11 {
        0x52933CFD
    } else if i == 12 {
        0x27F64B7D
    } else if i == 13 {
        0xC6F5C11B
    } else if i == 14 {
        0xD5757E3A
    } else {
        0x6C388745
    }
}

fn offset_encode_entry(i: usize) -> (r: u32)
    requires
        i < 16,
    ensures
        r == offset_encode_table(i as int),
{
    if i == 0 {
        0x049396B8
    } else if i == 1 {
        0x72A82A9B
    } else if i == 2 {
        0xEE626CCA
    } else if i == 3 {
        0x9917754F
    } else if i == 4 {
        0x15DE40B1
    } else if i == 5 {
        0xF5A8A9B6
    } else if i == 6 {
        0x421EAC7E
    } else if i == 7 {
        0xA9D55C9A
    } else if i == 8 {
        0x317FD40C
    } else if i == 9 {
        0x04FAF80D
    } else if i == 10 {
        0x3D6BE971
    } else if i == 11 {
        0x52933CFD
    } else if i == 12 {
        0x27F64B7D
    } else if i == 13 {
        0xC6F5C11B
    } else if i == 14 {
        0xD5757E3A
    } else {
        0x6C388745
    }
}

/// The record start, re-encoded with the data-file number in the top bits.
pub open spec fn rec_enc(off: int, file: int) -> int {
    (off % 0x40000000) + (file % 4) * 0x40000000
}

/// The checksum field's position, re-encoded the same way.
pub open spec fn rec_encc(off: int, file: int) -> int {
    (((off % 0x40000000) + 26) % 0x40000000) + (file % 4) * 0x40000000
}

/// How many header bytes the obfuscated checksum folds over.
pub open spec fn rec_n(off: int, file: int) -> int {
    if rec_encc(off, file) >= rec_enc(off, file) {
        rec_encc(off, file) - rec_enc(off, file)
    } else {
        0
    }
}

/// The obfuscation word XORed over the folded bytes.
pub open spec fn rec_xval(off: int, file: int) -> u32 {
    let ecp4 = (rec_encc(off, file) + 4) % 0x1_0000_0000;
    offset_encode_table(ecp4 % 16) ^ (ecp4 as u32)
}

/// XOR of the bytes `d[off..off+n]` that fall on `lane` of the 4-byte
/// accumulator, counting positions from `enc`.
pub open spec fn fold_lane(d: Seq<u8>, off: int, enc: int, n: int, lane: int) -> u8
    decreases n,
{
    if n <= 0 {
        0
    } else if (enc + (n - 1)) % 4 == lane {
        fold_lane(d, off, enc, n - 1, lane) ^ d[off + (n - 1)]
    } else {
        fold_lane(d, off, enc, n - 1, lane)
    }
}

/// One byte of the obfuscation word, little-endian.
pub open spec fn eo_byte(x: u32, lane: int) -> u8 {
    if lane == 0 {
        (x % 256) as u8
    } else if lane == 1 {
        ((x / 256) % 256) as u8
    } else if lane == 2 {
        ((x / 0x10000) % 256) as u8
    } else {
        ((x / 0x1000000) % 256) as u8
    }
}

/// One byte of the obfuscated record checksum.
pub open spec fn cs_byte(d: Seq<u8>, off: int, file: int, i: int) -> u8 {
    let j = (rec_encc(off, file) + i) % 4;
    fold_lane(d, off, rec_enc(off, file), rec_n(off, file), j) ^ eo_byte(rec_xval(off, file), j)
}

/// The obfuscated record checksum, packed little-endian.
pub open spec fn obf_checksum(d: Seq<u8>, off: int, file: int) -> int {
    cs_byte(d, off, file, 0) + 256 * cs_byte(d, off, file, 1) + 0x10000 * cs_byte(d, off, file, 2)
        + 0x1000000 * cs_byte(d, off, file, 3)
}

/// How verifying a stored record's header ends, and where the container
/// bytes start on success: the length must match the index entry, the first
/// 22 header bytes must hash-verify under a fixed seed, and the obfuscated
/// XOR-fold checksum must match its trailing field.
pub open spec fn rec_outcome(d: Seq<u8>, e: Entry) -> Result<int, Error> {
    let off = e.offset as int;
    let file = e.file as int;
    if d.len() < off + 20 {
        Err(Error::Io)
    } else if le_uint(d, off + 16, 4) != e.length as u32 {
        Err(Error::IntegrityError)
    } else if d.len() < off + 26 {
        Err(Error::Io)
    } else if le_uint(d, off + 22, 4) != lookup3_of(d.subrange(off, off + 22), 0x3D6BE971) {
        Err(Error::IntegrityError)
    } else {
        let n = rec_n(off, file);
        if d.len() < off + n + 4 {
            Err(Error::Io)
        } else if le_uint(d, off + n, 4) != obf_checksum(d, off, file) {
            Err(Error::IntegrityError)
        } else {
            Ok(off + n + 4)
        }
    }
}

impl Entry {
    /// Verifies this entry's record header inside the data file `d` and
    /// hands back where the container bytes start.
    pub fn decode_data_header(&self, d: &[u8]) -> (r: Result<usize, Error>)
        ensures
            match rec_outcome(d@, *self) {
                Ok(p) => r matches Ok(pp) && pp == p,
                Err(e) => r matches Err(e2) && e2 == e,
            },
    {
        let len64 = d.len() as u64;
        if len64 < 20 || self.offset > len64 - 20 {
            return Err(Error::Io);
        }
        let off = self.offset as usize;
        let mut pos: usize = off + 16;
        let stored_len = match read_uint_le(d, &mut pos, 4) {
            Ok(v) => v,
            Err(_) => {
                proof {
                    assert(false);
                }
                return Err(Error::Io);
            },
        };
        if stored_len != (self.length as u32) as u64 {
            return Err(Error::IntegrityError);
        }
        if d.len() - off < 26 {
            return Err(Error::Io);
        }
        let mut hpos: usize = off;
        let head = match read_exact(d, &mut hpos, 22) {
            Ok(v) => v,
            Err(_) => {
                proof {
                    assert(false);
                }
                return Err(Error::Io);
            },
        };
        let hh = lookup3_hash(head.as_slice(), 0x3D6BE971);
        pos = off + 22;
        let stored_hash = match read_uint_le(d, &mut pos, 4) {
            Ok(v) => v,
            Err(_) => {
                proof {
                    assert(false);
                }
                return Err(Error::Io);
            },
        };
        if stored_hash != hh as u64 {
            return Err(Error::IntegrityError);
        }

        let m = self.offset % 0x40000000;
        let fh = (self.file % 4) * 0x40000000;
        let enc: u64 = m + fh;
        let encc: u64 = (m + 26) % 0x40000000 + fh;
        let n: u64 = if encc >= enc {
            encc - enc
        } else {
            0
        };
        proof {
            vstd::arithmetic::div_mod::lemma_mod_bound(self.offset as int, 0x40000000);
            vstd::arithmetic::div_mod::lemma_mod_bound(self.offset as int + 26, 0x40000000);
            vstd::arithmetic::div_mod::lemma_mod_bound((self.offset as int) % 0x40000000 + 26, 0x40000000);
            vstd::arithmetic::div_mod::lemma_mod_decreases(
                ((self.offset as int) % 0x40000000 + 26) as nat,
                0x40000000,
            );
            assert(n == rec_n(self.offset as int, self.file as int));
            assert(n <= 26);
        }
        let nn = n as usize;
        let dlen: usize = d.len();
        let mut h0: u8 = 0;
        let mut h1: u8 = 0;
        let mut h2: u8 = 0;
        let mut h3: u8 = 0;
        let mut k: usize = 0;
        let ghost goff = self.offset as int;
        let ghost gfile = self.file as int;
        while k < nn
            invariant
                k <= nn,
                nn == rec_n(goff, gfile),
                nn <= 26,
                goff == self.offset as int,
                gfile == self.file as int,
                enc == rec_enc(goff, gfile),
                dlen == d@.len(),
                goff + 26 <= dlen,
                h0 == fold_lane(d@, goff, enc as int, k as int, 0),
                h1 == fold_lane(d@, goff, enc as int, k as int, 1),
                h2 == fold_lane(d@, goff, enc as int, k as int, 2),
                h3 == fold_lane(d@, goff, enc as int, k as int, 3),
            decreases nn - k,
        {
            let b = d[self.offset as usize + k];
            let lane = ((enc + k as u64) % 4) as usize;
            if lane == 0 {
                h0 = h0 ^ b;
            } else if lane == 1 {
                h1 = h1 ^ b;
            } else if lane == 2 {
                h2 = h2 ^ b;
            } else {
                h3 = h3 ^ b;
            }
            k = k + 1;
        }
        let ecp4: u64 = (encc + 4) % 0x1_0000_0000;
        let x: u32 = offset_encode_entry((ecp4 % 16) as usize) ^ (ecp4 as u32);
        proof {
            assert(encc == rec_encc(goff, gfile));
            assert(x == rec_xval(goff, gfile));
        }
        let e0: u8 = (x % 256) as u8;
        let e1: u8 = ((x / 256) % 256) as u8;
        let e2: u8 = ((x / 0x10000) % 256) as u8;
        let e3: u8 = ((x / 0x1000000) % 256) as u8;
        let j0 = ((encc + 0) % 4) as usize;
        let j1 = ((encc + 1) % 4) as usize;
        let j2 = ((encc + 2) % 4) as usize;
        let j3 = ((encc + 3) % 4) as usize;
        let c0 = (if j0 == 0 { h0 } else if j0 == 1 { h1 } else if j0 == 2 { h2 } else { h3 })
            ^ (if j0 == 0 { e0 } else if j0 == 1 { e1 } else if j0 == 2 { e2 } else { e3 });
        let c1 = (if j1 == 0 { h0 } else if j1 == 1 { h1 } else if j1 == 2 { h2 } else { h3 })
            ^ (if j1 == 0 { e0 } else if j1 == 1 { e1 } else if j1 == 2 { e2 } else { e3 });
        let c2 = (if j2 == 0 { h0 } else if j2 == 1 { h1 } else if j2 == 2 { h2 } else { h3 })
            ^ (if j2 == 0 { e0 } else if j2 == 1 { e1 } else if j2 == 2 { e2 } else { e3 });
        let c3 = (if j3 == 0 { h0 } else if j3 == 1 { h1 } else if j3 == 2 { h2 } else { h3 })
            ^ (if j3 == 0 { e0 } else if j3 == 1 { e1 } else if j3 == 2 { e2 } else { e3 });
        let checksum: u64 = c0 as u64 + 256 * (c1 as u64) + 0x10000 * (c2 as u64) + 0x1000000 * (
        c3 as u64);
        proof {
            assert(c0 == cs_byte(d@, goff, gfile, 0));
            assert(c1 == cs_byte(d@, goff, gfile, 1));
            assert(c2 == cs_byte(d@, goff, gfile, 2));
            assert(c3 == cs_byte(d@, goff, gfile, 3));
            assert(checksum == obf_checksum(d@, goff, gfile));
        }
        pos = off + nn;
        let stored = match read_uint_le(d, &mut pos, 4) {
            Ok(v) => v,
            Err(_) => {
                return Err(Error::Io);
            },
        };
        if stored != checksum {
            return Err(Error::IntegrityError);
        }
        Ok(off + nn + 4)
    }
}

impl Entry {
    /// Verifies this entry's record header inside the data file `d` and
    /// decodes the container that follows it, with `keyring` answering for
    /// any encrypted chunks.
    pub fn decode_data<K: crate::blte::Keyring>(&self, d: &[u8], keyring: &K) -> (r: Result<
        Vec<u8>,
        Error,
    >)
        ensures
            match rec_outcome(d@, *self) {
                Err(e) => r matches Err(e2) && e2 == e,
                Ok(start) => match crate::blte::decode_outcome(d@.skip(start), *keyring) {
                    Ok(out) => r matches Ok(v) && v@ == out,
                    Err(ge) => r matches Err(e) && crate::blte::err_match(e, ge),
                },
            },
    {
        let start = match self.decode_data_header(d) {
            Ok(p) => p,
            Err(e) => {
                return Err(e);
            },
        };
        proof {
            assert(start <= d@.len());
        }
        let tail = vstd::slice::slice_subrange(d, start, d.len());
        proof {
            assert(tail@ =~= d@.skip(start as int));
        }
        crate::blte::decode(tail, keyring)
    }
}

/// The entries of `es` from `i` on, keyed by their truncated keys; a later
/// entry under the same key replaces an earlier one.
pub open spec fn insert_entries(m: Map<u128, Entry>, es: Seq<Entry>, i: int) -> Map<u128, Entry>
    decreases es.len() - i,
{
    if i < 0 || i >= es.len() {
        m
    } else {
        insert_entries(m.insert(es[i].key, es[i]), es, i + 1)
    }
}

/// All entries of the index generations from `i` on, merged in order.
pub open spec fn insert_indexes(m: Map<u128, Entry>, ixs: Seq<IndexModel>, i: int) -> Map<
    u128,
    Entry,
>
    decreases ixs.len() - i,
{
    if i < 0 || i >= ixs.len() {
        m
    } else {
        insert_indexes(insert_entries(m, ixs[i].entries, 0), ixs, i + 1)
    }
}

/// The opened store: where its data files live and one merged lookup table
/// over every bucket's entries.
pub struct Storage {
    path: String,
    entries: HashMap<u128, Entry>,
}

impl Storage {
    /// The lookup table, as a map from truncated key to entry.
    pub closed spec fn entries_map(&self) -> Map<u128, Entry> {
        self.entries@
    }

    /// The directory that holds the numbered data files.
    pub closed spec fn path_view(&self) -> Seq<char> {
        self.path@
    }

    /// The directory that holds the numbered data files.
    pub fn path(&self) -> (r: &String)
        ensures
            r@ == self.path_view(),
    {
        &self.path
    }

    /// Builds the store's lookup table from every bucket's parsed index.
    pub fn from_indexes(path: String, indexes: &Vec<Index>) -> (r: Storage)
        ensures
            r.path_view() == path@,
            r.entries_map() == insert_indexes(
                Map::empty(),
                indexes@.map_values(|ix: Index| ix@),
                0,
            ),
    {
        let ghost views = indexes@.map_values(|ix: Index| ix@);
        let mut entries: HashMap<u128, Entry> = HashMap::new();
        let mut i: usize = 0;
        while i < indexes.len()
            invariant
                i <= indexes@.len(),
                views == indexes@.map_values(|ix: Index| ix@),
                insert_indexes(entries@, views, i as int) == insert_indexes(
                    Map::<u128, Entry>::empty(),
                    views,
                    0,
                ),
            decreases indexes@.len() - i,
        {
            let es = &indexes[i].entries;
            let ghost m_enter = entries@;
            let mut j: usize = 0;
            while j < es.len()
                invariant
                    j <= es@.len(),
                    es@ == views[i as int].entries,
                    0 <= i < views.len(),
                    insert_entries(entries@, es@, j as int) == insert_entries(m_enter, es@, 0),
                decreases es@.len() - j,
            {
                entries.insert(es[j].key, es[j]);
                j = j + 1;
            }
            i = i + 1;
        }
        Storage { path, entries }
    }

    /// Looks up a key: its high 72 bits (a 9-byte prefix) select the entry.
    /// A missing key is `None`, not an error.
    pub fn lookup(&self, key: u128) -> (r: Option<Entry>)
        ensures
            r == if self.entries_map().contains_key(key >> 56) {
                Some(self.entries_map()[key >> 56])
            } else {
                None::<Entry>
            },
    {
        match self.entries.get(&(key >> 56)) {
            Some(e) => Some(*e),
            None => None,
        }
    }
}

} // verus!
