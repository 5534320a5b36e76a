//! A second, simpler store layout: a text file list and an XOR-masked
//! binary index over numbered archive files.

use vstd::prelude::*;

use crate::bytes::le_uint;

verus! {

/// One FNV-0 step for every byte: multiply, then fold the byte in.
pub open spec fn fnv0_hash(h: u32, s: Seq<u8>) -> u32
    decreases s.len(),
{
    if s.len() == 0 {
        h
    } else {
        fnv0_hash((((h * 0x01000193) % 0x1_0000_0000) as u32) ^ (s[0] as u32), s.drop_first())
    }
}

/// The 32-bit FNV-0 hasher the file list's names are keyed by.
pub struct FNV0Hasher32(pub u32);

impl Default for FNV0Hasher32 {
    /// FNV-0 starts from zero.
    fn default() -> (r: FNV0Hasher32)
        ensures
            r.0 == 0,
    {
        FNV0Hasher32(0)
    }
}

impl FNV0Hasher32 {
    /// The running digest.
    pub fn finish(&self) -> (r: u64)
        ensures
            r == self.0,
    {
        self.0 as u64
    }

    /// Folds `bytes` into the running digest.
    pub fn write(&mut self, bytes: &[u8])
        ensures
            final(self).0 == fnv0_hash(old(self).0, bytes@),
    {
        let mut i: usize = 0;
        proof {
            assert(bytes@.skip(0) == bytes@);
        }
        while i < bytes.len()
            invariant
                i <= bytes@.len(),
                fnv0_hash(old(self).0, bytes@) == fnv0_hash(self.0, bytes@.skip(i as int)),
            decreases bytes@.len() - i,
        {
            self.0 = self.0.wrapping_mul(0x01000193);
            self.0 = self.0 ^ (bytes[i] as u32);
            proof {
                assert(bytes@.skip(i as int).drop_first() =~= bytes@.skip(i + 1));
            }
            i = i + 1;
        }
    }
}

/// The FNV-0 digest of a byte string, from the zero start.
pub fn fnv0(bytes: &[u8]) -> (r: u64)
    ensures
        r == fnv0_hash(0, bytes@),
{
    let mut hasher = FNV0Hasher32::default();
    hasher.write(bytes);
    hasher.finish()
}

/// The parsed text file list.
pub struct FileList {
    pub entries: Vec<FileEntry>,
}

/// One row of the file list.
pub struct FileEntry {
    pub file_name: String,
    pub path_name: String,
    pub time: u32,
    pub compressed_size: u32,
    pub size: u32,
    pub compressed_checksum: u32,
    pub checksum: u32,
}

/// The parsed archive index.
#[derive(Debug)]
pub struct Index {
    pub entries: Vec<IndexEntry>,
}

/// One archive index entry; offset and size are stored XOR-masked with the
/// entry's own name hash.
#[derive(Debug, Clone, Copy, PartialEq, Eq, Structural)]
pub struct IndexEntry {
    pub hash: u32,
    pub offset: u32,
    pub size: u32,
    pub checksum: u32,
    pub time: u32,
}

/// The entry packed at `p`: five 32-bit fields, the offset and size
/// unmasked with the hash.
pub open spec fn nfs_entry_spec(d: Seq<u8>, p: int) -> IndexEntry {
    let hash = le_uint(d, p, 4) as u32;
    IndexEntry {
        hash,
        offset: (le_uint(d, p + 4, 4) as u32) ^ hash,
        size: (le_uint(d, p + 8, 4) as u32) ^ hash,
        checksum: le_uint(d, p + 12, 4) as u32,
        time: le_uint(d, p + 16, 4) as u32,
    }
}

impl Index {
    /// Reads the index: a fixed magic, then packed entries to the end.
    /// An input that ends inside an entry's tail is left out, as only a
    /// trailing partial name hash reads cleanly as the end of the list.
    pub fn decode(d: &[u8]) -> (r: Index)
        requires
            d@.len() >= 4,
            le_uint(d@, 0, 4) == 0x20151018,
            (d@.len() - 4) % 20 <= 3,
        ensures
            r.entries@.len() == (d@.len() - 4) / 20,
            forall|j: int|
                0 <= j < r.entries@.len() ==> r.entries@[j] == nfs_entry_spec(d@, 4 + 20 * j),
    {
        let count = (d.len() - 4) / 20;
        let mut entries: Vec<IndexEntry> = Vec::new();
        let mut j: usize = 0;
        let dlen: usize = d.len();
        while j < count
            invariant
                j <= count,
                count == (dlen - 4) / 20,
                dlen == d@.len(),
                dlen >= 4,
                entries@.len() == j,
                forall|i: int| 0 <= i < j ==> entries@[i] == nfs_entry_spec(d@, 4 + 20 * i),
            decreases count - j,
        {
            proof {
                vstd::arithmetic::div_mod::lemma_fundamental_div_mod(dlen - 4, 20);
                vstd::arithmetic::div_mod::lemma_mod_bound(dlen - 4, 20);
                assert(20 * (j + 1) <= 20 * count) by (nonlinear_arith)
                    requires
                        j + 1 <= count,
                ;
            }
            let base = 4 + 20 * j;
            let mut pos: usize = base;
            let hash = match crate::bytes::read_uint_le(d, &mut pos, 4) {
                Ok(v) => v as u32,
                Err(_) => {
                    proof {
                        assert(false);
                    }
                    return Index { entries };
                },
            };
            let offset = match crate::bytes::read_uint_le(d, &mut pos, 4) {
                Ok(v) => v as u32,
                Err(_) => {
                    proof {
                        assert(false);
                    }
                    return Index { entries };
                },
            };
            let size = match crate::bytes::read_uint_le(d, &mut pos, 4) {
                Ok(v) => v as u32,
                Err(_) => {
                    proof {
                        assert(false);
                    }
                    return Index { entries };
                },
            };
            let checksum = match crate::bytes::read_uint_le(d, &mut pos, 4) {
                Ok(v) => v as u32,
                Err(_) => {
                    proof {
                        assert(false);
                    }
                    return Index { entries };
                },
            };
            let time = match crate::bytes::read_uint_le(d, &mut pos, 4) {
                Ok(v) => v as u32,
                Err(_) => {
                    proof {
                        assert(false);
                    }
                    return Index { entries };
                },
            };
            proof {
                crate::bytes::lemma_le_uint_bound(d@, base as int, 4);
                crate::bytes::lemma_le_uint_bound(d@, base + 4, 4);
                crate::bytes::lemma_le_uint_bound(d@, base + 8, 4);
                crate::bytes::lemma_le_uint_bound(d@, base + 12, 4);
                crate::bytes::lemma_le_uint_bound(d@, base + 16, 4);
                crate::bytes::lemma_pow256_values();
            }
            entries.push(
                IndexEntry { hash, offset: offset ^ hash, size: size ^ hash, checksum, time },
            );
            j = j + 1;
        }
        Index { entries }
    }
}

} // verus!
