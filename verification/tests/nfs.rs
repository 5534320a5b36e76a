//! The FNV-0 hash and the XOR-masked archive index.

use ngdp::nfs::{fnv0, FNV0Hasher32, FileEntry, FileList, Index};

#[test]
fn fnv0_known_values() {
    assert_eq!(fnv0(b""), 0);
    assert_eq!(fnv0(b"a"), 97);
    assert_eq!(fnv0(b"ab"), 1627429073);
    assert_eq!(fnv0(b"hello"), 3966594024);
}

#[test]
fn fnv0_hasher_is_incremental() {
    let mut h = FNV0Hasher32::default();
    h.write(b"he");
    h.write(b"llo");
    assert_eq!(h.finish(), fnv0(b"hello"));
}

#[test]
fn index_unmasks_offsets_and_sizes() {
    let mut d = Vec::new();
    d.extend_from_slice(&0x20151018u32.to_le_bytes());
    let hash = 0x00000005u32;
    d.extend_from_slice(&hash.to_le_bytes());
    d.extend_from_slice(&(0x1000u32 ^ hash).to_le_bytes());
    d.extend_from_slice(&(77u32 ^ hash).to_le_bytes());
    d.extend_from_slice(&0xAABBCCDDu32.to_le_bytes());
    d.extend_from_slice(&1234u32.to_le_bytes());
    let ix = Index::decode(&d);
    assert_eq!(ix.entries.len(), 1);
    assert_eq!(ix.entries[0].hash, 5);
    assert_eq!(ix.entries[0].offset, 0x1000);
    assert_eq!(ix.entries[0].size, 77);
    assert_eq!(ix.entries[0].checksum, 0xAABBCCDD);
    assert_eq!(ix.entries[0].time, 1234);
}

#[test]
fn index_with_trailing_partial_hash_stops_cleanly() {
    let mut d = Vec::new();
    d.extend_from_slice(&0x20151018u32.to_le_bytes());
    d.extend_from_slice(&[1, 2]);  // a hash read that comes up short
    let ix = Index::decode(&d);
    assert!(ix.entries.is_empty());
}

#[test]
fn file_list_holds_its_rows() {
    let fl = FileList {
        entries: vec![FileEntry {
            file_name: String::from("0a0b0c0d"),
            path_name: String::from("pack"),
            time: 7,
            compressed_size: 10,
            size: 20,
            compressed_checksum: 1,
            checksum: 2,
        }],
    };
    assert_eq!(fl.entries.len(), 1);
    assert_eq!(fl.entries[0].size, 20);
}
