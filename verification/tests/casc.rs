//! Store fixtures: the shared-memory control file, index files, and whole
//! records verified and decoded end to end.

use md5::Digest;

use ngdp::blte::EmptyKeyring;
use ngdp::casc::{Entry, Index, SharedMemory, Storage};
use ngdp::Error;

fn md5v(data: &[u8]) -> Vec<u8> {
    let mut h = md5::Md5::new();
    h.update(data);
    h.finalize().to_vec()
}

fn shmem(tag: u32, extra_pairs: u32, generations: &[u32]) -> Vec<u8> {
    let mut d = Vec::new();
    d.extend_from_slice(&tag.to_le_bytes());
    let block_size = 4 + 4 + 0x100 + extra_pairs * 8 + generations.len() as u32 * 4;
    d.extend_from_slice(&block_size.to_le_bytes());
    let mut path = b"test".to_vec();
    path.resize(0x100, 0);
    d.extend_from_slice(&path);
    for p in 0..extra_pairs {
        d.extend_from_slice(&p.to_le_bytes());
        d.extend_from_slice(&p.to_le_bytes());
    }
    for g in generations {
        d.extend_from_slice(&g.to_le_bytes());
    }
    d
}

#[test]
fn shared_memory_reads_each_buckets_generation() {
    let generations: Vec<u32> = (0..16).collect();
    let d = shmem(4, 0, &generations);
    let sm = SharedMemory::decode(&d, 16).unwrap();
    assert_eq!(sm.path, "test");
    for k in 0..16usize {
        assert_eq!(sm.versions[k], k as u32);
    }
}

#[test]
fn shared_memory_skips_free_list_bookkeeping() {
    let generations: Vec<u32> = (100..116).collect();
    let d = shmem(5, 3, &generations);
    let sm = SharedMemory::decode(&d, 16).unwrap();
    assert_eq!(sm.versions, generations);
}

#[test]
fn shared_memory_wrong_tag_is_unsupported() {
    let d = shmem(6, 0, &(0..16).collect::<Vec<u32>>());
    assert!(matches!(SharedMemory::decode(&d, 16), Err(Error::Unsupported)));
}

#[test]
fn shared_memory_short_input_is_an_io_error() {
    let d = shmem(4, 0, &(0..16).collect::<Vec<u32>>());
    assert!(matches!(SharedMemory::decode(&d[..40], 16), Err(Error::Io)));
}

/// Packs `(truncated key, file, offset, length)` with 9-byte keys, 5-byte
/// locations and 30 offset bits.
fn pack_entry(key: u128, file: u64, offset: u64, length: u64) -> Vec<u8> {
    let mut e = Vec::new();
    e.extend_from_slice(&key.to_be_bytes()[7..16]);
    let fraw = (file >> 2) as u8;
    let oraw = ((file & 3) << 30) | offset;
    e.push(fraw);
    e.extend_from_slice(&(oraw as u32).to_be_bytes());
    e.extend_from_slice(&(length as u32).to_le_bytes());
    e
}

fn index_file(bucket: u16, entry_bytes: &[u8]) -> Vec<u8> {
    let mut header = Vec::new();
    header.extend_from_slice(&7u16.to_le_bytes());
    header.extend_from_slice(&bucket.to_le_bytes());
    header.push(4);  // length width
    header.push(5);  // location width
    header.push(9);  // key width
    header.push(30);  // offset bits
    header.extend_from_slice(&0u64.to_le_bytes());
    let mut d = Vec::new();
    d.extend_from_slice(&(header.len() as u32).to_le_bytes());
    d.extend_from_slice(&fasthash::lookup3::hash32(&header).to_le_bytes());
    d.extend_from_slice(&header);
    d.extend_from_slice(&[0u8; 8]);
    d.extend_from_slice(&(entry_bytes.len() as u32).to_le_bytes());
    d.extend_from_slice(&0u32.to_le_bytes());
    d.extend_from_slice(entry_bytes);
    d
}

#[test]
fn index_parses_well_formed_entries() {
    let mut eb = Vec::new();
    eb.extend_from_slice(&pack_entry(0x0102030405060708
        , 3, 0x1000, 64));
    eb.extend_from_slice(&pack_entry(0x1112131415161718, 7, 12345, 99));
    let d = index_file(2, &eb);
    let ix = Index::decode(&d).unwrap();
    assert_eq!(ix.bucket, 2);
    assert_eq!(ix.entries.len(), 2);
    assert_eq!(ix.entries[0].key, 0x0102030405060708);
    assert_eq!(ix.entries[0].file, 3);
    assert_eq!(ix.entries[0].offset, 0x1000);
    assert_eq!(ix.entries[0].length, 64);
    assert_eq!(ix.entries[1].file, 7);
    assert_eq!(ix.entries[1].offset, 12345);
    assert_eq!(ix.entries[1].length, 99);
}

#[test]
fn truncated_entries_block_stops_at_last_complete_entry() {
    let mut eb = Vec::new();
    eb.extend_from_slice(&pack_entry(1, 0, 10, 20));
    eb.extend_from_slice(&pack_entry(2, 0, 30, 40));
    eb.extend_from_slice(&[1, 2, 3, 4, 5]);  // five stray bytes: no full entry
    let d = index_file(0, &eb);
    let ix = Index::decode(&d).unwrap();
    assert_eq!(ix.entries.len(), 2);
    assert_eq!(ix.entries[1].offset, 30);
}

#[test]
fn index_header_corruption_is_an_integrity_error() {
    let d = index_file(0, &pack_entry(1, 0, 10, 20));
    let mut bad = d.clone();
    bad[8] ^= 1;  // inside the hashed header bytes
    assert!(matches!(Index::decode(&bad), Err(Error::IntegrityError)));
}

#[test]
fn index_wrong_version_is_unsupported() {
    let mut header = Vec::new();
    header.extend_from_slice(&6u16.to_le_bytes());
    header.extend_from_slice(&0u16.to_le_bytes());
    header.extend_from_slice(&[4, 5, 9, 30]);
    header.extend_from_slice(&0u64.to_le_bytes());
    let mut d = Vec::new();
    d.extend_from_slice(&(header.len() as u32).to_le_bytes());
    d.extend_from_slice(&fasthash::lookup3::hash32(&header).to_le_bytes());
    d.extend_from_slice(&header);
    d.extend_from_slice(&[0u8; 16]);
    assert!(matches!(Index::decode(&d), Err(Error::Unsupported)));
}

fn obfuscated_checksum(d: &[u8], off: u64, file: u64) -> u32 {
    let offset_encode_table: [u32; 16] = [
        0x049396B8, 0x72A82A9B, 0xEE626CCA, 0x9917754F, 0x15DE40B1, 0xF5A8A9B6, 0x421EAC7E,
        0xA9D55C9A, 0x317FD40C, 0x04FAF80D, 0x3D6BE971, 0x52933CFD, 0x27F64B7D, 0xC6F5C11B,
        0xD5757E3A, 0x6C388745,
    ];
    let enc = ((off % 0x40000000) + (file % 4) * 0x40000000) as u32;
    let encc = ((off % 0x40000000 + 26) % 0x40000000 + (file % 4) * 0x40000000) as u32;
    let mut h = [0u8; 4];
    let mut p = off as usize;
    for i in enc..encc {
        h[(i & 3) as usize] ^= d[p];
        p += 1;
    }
    let ecp4 = (encc as u64 + 4) % 0x1_0000_0000;
    let x = offset_encode_table[(ecp4 % 16) as usize] ^ (ecp4 as u32);
    let e = x.to_le_bytes();
    let mut c = [0u8; 4];
    for i in 0..4usize {
        let j = ((encc as u64 + i as u64) % 4) as usize;
        c[i] = h[j] ^ e[j];
    }
    u32::from_le_bytes(c)
}

/// A whole record: key, length, flags, header hash, obfuscated checksum,
/// then a one-chunk plain container holding `content`.  The length field
/// covers the whole record unless overridden.
fn record_with_length(key: u128, file: u64, length: Option<u32>, content: &[u8]) -> Vec<u8> {
    let mut container = Vec::new();
    container.extend_from_slice(b"BLTE");
    container.extend_from_slice(&36u32.to_be_bytes());  // 4+4+1+3 + 1*(4+4+16)
    container.push(0x0F);
    container.extend_from_slice(&1u32.to_be_bytes()[1..]);
    let mut enc = vec![b'N'];
    enc.extend_from_slice(content);
    container.extend_from_slice(&(enc.len() as u32).to_be_bytes());
    container.extend_from_slice(&(content.len() as u32).to_be_bytes());
    container.extend_from_slice(&md5v(&enc));
    container.extend_from_slice(&enc);

    let length = length.unwrap_or(30 + container.len() as u32);
    let mut d = Vec::new();
    d.extend_from_slice(&key.to_be_bytes());
    d.extend_from_slice(&length.to_le_bytes());
    d.extend_from_slice(&0u16.to_le_bytes());
    let hh = fasthash::lookup3::hash32_with_seed(&d[0..22], 0x3D6BE971);
    d.extend_from_slice(&hh.to_le_bytes());
    d.extend_from_slice(&[0u8; 4]);  // checksum patched below
    d.extend_from_slice(&container);
    let cs = obfuscated_checksum(&d, 0, file);
    d[26..30].copy_from_slice(&cs.to_le_bytes());
    d
}

#[test]
fn record_header_verifies_and_container_decodes() {
    let key = 0xAABBCCDD_00112233_44556677_8899AABBu128;
    let content = b"hello";
    let file_data = record_with_length(key, 0, None, content);
    let entry = Entry { key: key >> 56, file: 0, offset: 0, length: file_data.len() as u64 };
    let start = entry.decode_data_header(&file_data).unwrap();
    assert_eq!(start, 30);
    let out = ngdp::blte::decode(&file_data[start..], &EmptyKeyring).unwrap();
    assert_eq!(out, content);
}

#[test]
fn record_length_mismatch_is_an_integrity_error() {
    let key = 1u128 << 100;
    let file_data = record_with_length(key, 0, None, b"hello");
    let entry = Entry { key: key >> 56, file: 0, offset: 0, length: 41 };
    assert!(matches!(entry.decode_data_header(&file_data), Err(Error::IntegrityError)));
}

#[test]
fn record_header_corruption_is_an_integrity_error() {
    let key = 1u128 << 100;
    let file_data = record_with_length(key, 0, None, b"hello");
    let entry = Entry { key: key >> 56, file: 0, offset: 0, length: file_data.len() as u64 };
    assert!(entry.decode_data_header(&file_data).is_ok());
    let mut bad = file_data.clone();
    bad[3] ^= 1;  // a key byte, covered by the header hash
    assert!(matches!(entry.decode_data_header(&bad), Err(Error::IntegrityError)));
}

#[test]
fn storage_looks_up_by_nine_byte_prefix() {
    let key = 0x0102030405060708_090A0B0C_0D0E0F10u128;
    let content = b"stored bytes";
    let file_data = record_with_length(key, 0, None, content);
    let eb = pack_entry(key >> 56, 0, 0, file_data.len() as u64);
    let ix = Index::decode(&index_file(0, &eb)).unwrap();
    let storage = Storage::from_indexes(String::from("store"), &vec![ix]);
    let entry = storage.lookup(key).expect("entry");
    assert_eq!(entry.length, file_data.len() as u64);
    let out = entry.decode_data(&file_data, &EmptyKeyring).unwrap();
    assert_eq!(out, content);
    assert!(storage.lookup(!key).is_none());
    assert_eq!(storage.path(), "store");
}
