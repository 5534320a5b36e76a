//! Build records and the binary manifests that name content: hex key
//! records from build configuration text, and the install and download
//! manifests' framing.  The paged encoding table lives in `encoding`.

use vstd::prelude::*;
use vstd::string::StringSliceAdditionalSpecFns;

use crate::bytes::{be_uint, hex_int, is_hex_byte, nul_at, parse_hex_u128, read_u8, read_uint_be, skip};
use crate::{read_asciiz, Error};

pub use encoding::Encoding;

mod encoding;

verus! {

/// One row of the build listing: which build configuration is active.
#[derive(Debug)]
pub struct BuildInfo {
    pub build_config: u128,
}

/// The two records a build configuration names.
#[derive(Debug)]
pub struct BuildConfig {
    pub root: Record,
    pub encoding: Record,
}

/// A content key and, when given, the encoding key it is stored under.
#[derive(Debug)]
pub struct Record {
    pub c_key: u128,
    pub e_key: Option<u128>,
}

/// The first position at or after `p` holding a space, or the end.
pub open spec fn sep_at(b: Seq<u8>, p: int) -> int
    decreases b.len() - p,
{
    if p < 0 || p >= b.len() {
        b.len() as int
    } else if b[p] == 32 {
        p
    } else {
        sep_at(b, p + 1)
    }
}

/// A record line: one hex key, optionally followed by a space and a second.
pub open spec fn valid_record_bytes(b: Seq<u8>) -> bool {
    let t1e = sep_at(b, 0);
    &&& 1 <= t1e <= 32
    &&& forall|j: int| 0 <= j < t1e ==> is_hex_byte(b[j])
    &&& t1e < b.len() ==> {
        let t2e = sep_at(b, t1e + 1);
        &&& 1 <= t2e - (t1e + 1) <= 32
        &&& forall|j: int| t1e + 1 <= j < t2e ==> is_hex_byte(b[j])
    }
}

impl Record {
    /// Reads the space-separated hex keys of one record line.
    pub fn parse(value: &str) -> (r: Record)
        requires
            valid_record_bytes(value.spec_bytes()),
        ensures
            ({
                let b = value.spec_bytes();
                let t1e = sep_at(b, 0);
                &&& r.c_key == hex_int(b.subrange(0, t1e))
                &&& r.e_key == if t1e < b.len() {
                    Some(hex_int(b.subrange(t1e + 1, sep_at(b, t1e + 1))) as u128)
                } else {
                    None::<u128>
                }
            }),
    {
        let b = value.as_bytes();
        let ghost gb = value.spec_bytes();
        let mut t1e: usize = 0;
        while t1e < b.len()
            invariant
                t1e <= gb.len(),
                gb == b@,
                sep_at(gb, 0) == sep_at(gb, t1e as int),
                forall|j: int| 0 <= j < t1e ==> gb[j] != 32,
            ensures
                t1e == sep_at(gb, 0),
            decreases gb.len() - t1e,
        {
            if b[t1e] == 32 {
                proof {
                    assert(sep_at(gb, t1e as int) == t1e as int);
                }
                break ;
            }
            t1e = t1e + 1;
        }
        proof {
            crate::bytes::lemma_hex_int_bound(gb.subrange(0, t1e as int));
            crate::bytes::lemma_pow16_mono(t1e as int, 32);
            crate::bytes::lemma_pow16_val32();
        }
        let c_key = parse_hex_u128(b, 0, t1e);
        let e_key = if t1e < b.len() {
            let t2s = t1e + 1;
            let mut t2e: usize = t2s;
            while t2e < b.len()
                invariant
                    t2s <= t2e <= gb.len(),
                    gb == b@,
                    sep_at(gb, t2s as int) == sep_at(gb, t2e as int),
                ensures
                    t2e == sep_at(gb, t2s as int),
                decreases gb.len() - t2e,
            {
                if b[t2e] == 32 {
                    proof {
                        assert(sep_at(gb, t2e as int) == t2e as int);
                    }
                    break ;
                }
                t2e = t2e + 1;
            }
            proof {
                crate::bytes::lemma_hex_int_bound(gb.subrange(t2s as int, t2e as int));
                crate::bytes::lemma_pow16_mono(t2e - t2s, 32);
                crate::bytes::lemma_pow16_val32();
            }
            Some(parse_hex_u128(b, t2s, t2e))
        } else {
            None
        };
        Record { c_key, e_key }
    }
}

/// One row of a root listing: a name and its content hash.
#[derive(Debug)]
pub struct RootFile {
    pub id: String,
    pub md5: u128,
}

/// An archive index's entries.
#[derive(Debug)]
pub struct Index {
    pub entries: Vec<Entry>,
}

/// One archive index entry: a key and the byte range it names.
#[derive(Debug)]
pub struct Entry {
    pub key: u128,
    pub offset: u32,
    pub length: u32,
}

/// The install manifest's tags.
#[derive(Debug)]
pub struct Install {
    pub tags: Vec<InstallTag>,
}

/// One install tag: a name, a kind, and the files it marks.
#[derive(Debug)]
pub struct InstallTag {
    pub name: String,
    pub kind: u16,
    pub files: Vec<InstallEntry>,
}

/// One installed file: its name, content hash and length.
#[derive(Debug)]
pub struct InstallEntry {
    pub name: String,
    pub hash: u128,
    pub length: u32,
}

/// The download manifest; its priorities are not kept.
pub struct Download {}

/// Where the cursor stands after `k` more NUL-terminated names, each
/// followed by a 16-bit kind, or `Error::Io` when the input ends first.
pub open spec fn tags_outcome(d: Seq<u8>, pos: int, k: int) -> Result<int, Error>
    decreases k,
{
    if k <= 0 {
        Ok(pos)
    } else {
        match nul_at(d, pos) {
            None => Err(Error::Io),
            Some(e) => {
                if d.len() < e + 3 {
                    Err(Error::Io)
                } else {
                    tags_outcome(d, e + 3, k - 1)
                }
            },
        }
    }
}

/// Where the cursor stands after `k` more install entries, each a
/// NUL-terminated name, a 16-byte hash and a 4-byte length.
pub open spec fn install_entries_outcome(d: Seq<u8>, pos: int, k: int) -> Result<int, Error>
    decreases k,
{
    if k <= 0 {
        Ok(pos)
    } else {
        match nul_at(d, pos) {
            None => Err(Error::Io),
            Some(e) => {
                if d.len() < e + 21 {
                    Err(Error::Io)
                } else {
                    install_entries_outcome(d, e + 21, k - 1)
                }
            },
        }
    }
}

/// How reading the install manifest ends: magic `IN`, version 1, 16-byte
/// hashes, then the tag names and file entries, which are walked and
/// dropped.
pub open spec fn install_outcome(d: Seq<u8>) -> Result<(), Error> {
    if d.len() < 2 {
        Err(Error::Io)
    } else if be_uint(d, 0, 2) != 0x494E {
        Err(Error::Unsupported)
    } else if d.len() < 3 {
        Err(Error::Io)
    } else if d[2] != 1 {
        Err(Error::Unsupported)
    } else if d.len() < 4 {
        Err(Error::Io)
    } else if d[3] != 16 {
        Err(Error::Unsupported)
    } else if d.len() < 10 {
        Err(Error::Io)
    } else {
        match tags_outcome(d, 10, be_uint(d, 4, 2)) {
            Err(e) => Err(e),
            Ok(p) => match install_entries_outcome(d, p, be_uint(d, 6, 4)) {
                Err(e) => Err(e),
                Ok(_) => Ok(()),
            },
        }
    }
}

impl Install {
    /// Walks the install manifest, keeping nothing but the fact that its
    /// framing is whole.
    pub fn decode(d: &[u8]) -> (r: Result<Install, Error>)
        ensures
            match install_outcome(d@) {
                Ok(_) => r matches Ok(ins) && ins.tags@ == Seq::<InstallTag>::empty(),
                Err(e) => r matches Err(e2) && e2 == e,
            },
    {
        let mut pos: usize = 0;
        let magic = match read_uint_be(d, &mut pos, 2) {
            Ok(v) => v,
            Err(_) => {
                return Err(Error::Io);
            },
        };
        if magic != 0x494E {
            return Err(Error::Unsupported);
        }
        let version = match read_u8(d, &mut pos) {
            Ok(v) => v,
            Err(_) => {
                return Err(Error::Io);
            },
        };
        if version != 1 {
            return Err(Error::Unsupported);
        }
        let hash_size = match read_u8(d, &mut pos) {
            Ok(v) => v,
            Err(_) => {
                return Err(Error::Io);
            },
        };
        if hash_size != 16 {
            return Err(Error::Unsupported);
        }
        let tag_count = match read_uint_be(d, &mut pos, 2) {
            Ok(v) => v,
            Err(_) => {
                return Err(Error::Io);
            },
        };
        let entry_count = match read_uint_be(d, &mut pos, 4) {
            Ok(v) => v,
            Err(_) => {
                return Err(Error::Io);
            },
        };
        let mut k: u64 = 0;
        while k < tag_count
            invariant
                k <= tag_count,
                pos <= d@.len(),
                d@.len() >= 10,
                be_uint(d@, 0, 2) == 0x494E,
                d@[2] == 1,
                d@[3] == 16,
                tag_count == be_uint(d@, 4, 2),
                entry_count == be_uint(d@, 6, 4),
                tags_outcome(d@, pos as int, tag_count - k) == tags_outcome(
                    d@,
                    10,
                    tag_count as int,
                ),
            decreases tag_count - k,
        {
            let ghost p0 = pos as int;
            if let Err(_) = read_asciiz(d, &mut pos) {
                return Err(Error::Io);
            }
            proof {
                crate::bytes::lemma_nul_at_range(d@, p0);
            }
            if let Err(_) = skip(d, &mut pos, 2) {
                return Err(Error::Io);
            }
            k = k + 1;
        }
        let ghost entries_start = pos as int;
        let mut k: u64 = 0;
        while k < entry_count
            invariant
                k <= entry_count,
                pos <= d@.len(),
                d@.len() >= 10,
                be_uint(d@, 0, 2) == 0x494E,
                d@[2] == 1,
                d@[3] == 16,
                tag_count == be_uint(d@, 4, 2),
                entry_count == be_uint(d@, 6, 4),
                tags_outcome(d@, 10, tag_count as int) == Ok::<int, Error>(entries_start),
                install_entries_outcome(d@, pos as int, entry_count - k)
                    == install_entries_outcome(d@, entries_start, entry_count as int),
            decreases entry_count - k,
        {
            let ghost p0 = pos as int;
            if let Err(_) = read_asciiz(d, &mut pos) {
                return Err(Error::Io);
            }
            proof {
                crate::bytes::lemma_nul_at_range(d@, p0);
            }
            if let Err(_) = skip(d, &mut pos, 20) {
                return Err(Error::Io);
            }
            k = k + 1;
        }
        Ok(Install { tags: Vec::new() })
    }
}

/// How reading the download manifest ends: magic `DL`, version 1, 16-byte
/// keys, then fixed-width entries and the tag names, walked and dropped.
pub open spec fn download_outcome(d: Seq<u8>) -> Result<(), Error> {
    if d.len() < 2 {
        Err(Error::Io)
    } else if be_uint(d, 0, 2) != 0x444C {
        Err(Error::Unsupported)
    } else if d.len() < 3 {
        Err(Error::Io)
    } else if d[2] != 1 {
        Err(Error::Unsupported)
    } else if d.len() < 4 {
        Err(Error::Io)
    } else if d[3] != 16 {
        Err(Error::Unsupported)
    } else if d.len() < 11 {
        Err(Error::Io)
    } else if d.len() < 11 + 26 * be_uint(d, 5, 4) {
        Err(Error::Io)
    } else {
        match tags_outcome(d, 11 + 26 * be_uint(d, 5, 4), be_uint(d, 9, 2)) {
            Err(e) => Err(e),
            Ok(_) => Ok(()),
        }
    }
}

impl Download {
    /// Walks the download manifest, keeping nothing but the fact that its
    /// framing is whole.
    pub fn decode(d: &[u8]) -> (r: Result<Download, Error>)
        ensures
            match download_outcome(d@) {
                Ok(_) => r is Ok,
                Err(e) => r matches Err(e2) && e2 == e,
            },
    {
        let mut pos: usize = 0;
        let magic = match read_uint_be(d, &mut pos, 2) {
            Ok(v) => v,
            Err(_) => {
                return Err(Error::Io);
            },
        };
        if magic != 0x444C {
            return Err(Error::Unsupported);
        }
        let version = match read_u8(d, &mut pos) {
            Ok(v) => v,
            Err(_) => {
                return Err(Error::Io);
            },
        };
        if version != 1 {
            return Err(Error::Unsupported);
        }
        let key_size = match read_u8(d, &mut pos) {
            Ok(v) => v,
            Err(_) => {
                return Err(Error::Io);
            },
        };
        if key_size != 16 {
            return Err(Error::Unsupported);
        }
        if let Err(_) = read_u8(d, &mut pos) {
            return Err(Error::Io);
        }
        let entry_count = match read_uint_be(d, &mut pos, 4) {
            Ok(v) => v,
            Err(_) => {
                return Err(Error::Io);
            },
        };
        let tag_count = match read_uint_be(d, &mut pos, 2) {
            Ok(v) => v,
            Err(_) => {
                return Err(Error::Io);
            },
        };
        let mut k: u64 = 0;
        proof {
            crate::bytes::lemma_be_uint_bound(d@, 5, 4);
            crate::bytes::lemma_pow256_values();
        }
        while k < entry_count
            invariant
                k <= entry_count,
                pos == 11 + 26 * k,
                pos <= d@.len(),
                entry_count < 0x1_0000_0000,
                d@.len() >= 11,
                be_uint(d@, 0, 2) == 0x444C,
                d@[2] == 1,
                d@[3] == 16,
                entry_count == be_uint(d@, 5, 4),
                tag_count == be_uint(d@, 9, 2),
            decreases entry_count - k,
        {
            if let Err(_) = skip(d, &mut pos, 26) {
                proof {
                    assert(d@.len() < 11 + 26 * (k + 1));
                    assert(26 * (k + 1) <= 26 * entry_count) by (nonlinear_arith)
                        requires
                            k + 1 <= entry_count,
                    ;
                }
                return Err(Error::Io);
            }
            k = k + 1;
        }
        proof {
            assert(pos == 11 + 26 * entry_count);
        }
        let ghost tags_start = pos as int;
        let mut k: u64 = 0;
        while k < tag_count
            invariant
                k <= tag_count,
                pos <= d@.len(),
                d@.len() >= 11,
                be_uint(d@, 0, 2) == 0x444C,
                d@[2] == 1,
                d@[3] == 16,
                entry_count == be_uint(d@, 5, 4),
                tag_count == be_uint(d@, 9, 2),
                tags_start == 11 + 26 * (entry_count as int),
                d@.len() >= tags_start,
                tags_outcome(d@, pos as int, tag_count - k) == tags_outcome(
                    d@,
                    tags_start,
                    tag_count as int,
                ),
            decreases tag_count - k,
        {
            let ghost p0 = pos as int;
            if let Err(_) = read_asciiz(d, &mut pos) {
                return Err(Error::Io);
            }
            proof {
                crate::bytes::lemma_nul_at_range(d@, p0);
            }
            if let Err(_) = skip(d, &mut pos, 2) {
                return Err(Error::Io);
            }
            k = k + 1;
        }
        Ok(Download {  })
    }
}

} // verus!
