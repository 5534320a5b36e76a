//! Container decoding against byte-for-byte fixtures.

use md5::Digest;
use salsa20::cipher::{KeyIvInit, StreamCipher};
use std::io::Read;

use ngdp::blte::{decode, EmptyKeyring, KeyTable, Keyring};
use ngdp::Error;

fn md5v(data: &[u8]) -> Vec<u8> {
    let mut h = md5::Md5::new();
    h.update(data);
    h.finalize().to_vec()
}

/// Builds a container from `(encoded payload, declared content size)` pairs.
fn container(chunks: &[(&[u8], u32)]) -> Vec<u8> {
    let mut d = Vec::new();
    d.extend_from_slice(b"BLTE");
    let hs = 12 + 24 * chunks.len() as u32;
    d.extend_from_slice(&hs.to_be_bytes());
    d.push(0x0F);
    d.extend_from_slice(&(chunks.len() as u32).to_be_bytes()[1..]);
    for (enc, csz) in chunks {
        d.extend_from_slice(&(enc.len() as u32).to_be_bytes());
        d.extend_from_slice(&csz.to_be_bytes());
        d.extend_from_slice(&md5v(enc));
    }
    for (enc, _) in chunks {
        d.extend_from_slice(enc);
    }
    d
}

#[test]
fn plain_chunk_decodes_to_payload() {
    // One chunk: header size 4+4+1+3 + 1*(4+4+16) = 36.
    let d = container(&[(b"Nhello", 5)]);
    assert_eq!(u32::from_be_bytes([d[4], d[5], d[6], d[7]]), 36);
    let out = decode(&d, &EmptyKeyring).unwrap();
    assert_eq!(out, b"hello");
}

#[test]
fn output_length_is_sum_of_content_sizes() {
    let d = container(&[(b"Nhello", 5), (b"N world", 6)]);
    let out = decode(&d, &EmptyKeyring).unwrap();
    assert_eq!(out.len(), 5 + 6);
    assert_eq!(out, b"hello world");
}

#[test]
fn corrupting_any_payload_byte_is_an_integrity_error() {
    let d = container(&[(b"Nhello", 5)]);
    let payload_start = d.len() - 6;
    for i in payload_start..d.len() {
        let mut bad = d.clone();
        bad[i] ^= 0x40;
        match decode(&bad, &EmptyKeyring) {
            Err(Error::IntegrityError) => {},
            other => panic!("byte {} gave {:?}", i, other),
        }
    }
}

#[test]
fn corrupting_a_stored_digest_is_an_integrity_error() {
    let d = container(&[(b"Nhello", 5)]);
    for i in 20..36 {
        let mut bad = d.clone();
        bad[i] ^= 1;
        assert!(matches!(decode(&bad, &EmptyKeyring), Err(Error::IntegrityError)));
    }
}

#[test]
fn zlib_chunk_reproduces_the_original_bytes() {
    let original = b"the quick brown fox jumps over the lazy dog";
    let mut compressed = Vec::new();
    flate2::read::ZlibEncoder::new(&original[..], flate2::Compression::default())
        .read_to_end(&mut compressed)
        .unwrap();
    let mut enc = vec![b'Z'];
    enc.extend_from_slice(&compressed);
    let d = container(&[(&enc, original.len() as u32)]);
    let out = decode(&d, &EmptyKeyring).unwrap();
    assert_eq!(out, original);
}

#[test]
fn garbled_zlib_chunk_is_an_io_error() {
    // Valid digest over bytes that are not a zlib stream.
    let d = container(&[(b"Znot-deflate", 5)]);
    assert!(matches!(decode(&d, &EmptyKeyring), Err(Error::Io)));
}

fn salsa(key: &[u8; 32], iv: &[u8; 8], data: &[u8]) -> Vec<u8> {
    let mut buf = data.to_vec();
    salsa20::Salsa20::new(&(*key).into(), &(*iv).into()).apply_keystream(&mut buf);
    buf
}

fn encrypted_chunk(name: &[u8], key: &[u8; 32], iv: &[u8; 8], plain: &[u8]) -> Vec<u8> {
    let mut enc = vec![b'E'];
    enc.push(name.len() as u8);
    enc.extend_from_slice(name);
    enc.push(iv.len() as u8);
    enc.extend_from_slice(iv);
    enc.push(b'S');
    enc.extend_from_slice(&salsa(key, iv, plain));
    enc
}

#[test]
fn encrypted_chunk_round_trips_with_the_key() {
    let key = [7u8; 32];
    let iv = [9u8; 8];
    let plain = b"sealed content";
    let enc = encrypted_chunk(&[0xDE, 0xAD], &key, &iv, plain);
    let d = container(&[(&enc, plain.len() as u32)]);
    let mut ring = KeyTable::new();
    ring.add(vec![0xDE, 0xAD], key.to_vec());
    let out = decode(&d, &ring).unwrap();
    assert_eq!(out, plain);
}

#[test]
fn missing_key_names_the_key_in_hex() {
    let key = [7u8; 32];
    let iv = [9u8; 8];
    let enc = encrypted_chunk(&[0xDE, 0xAD], &key, &iv, b"x");
    let d = container(&[(&enc, 1)]);
    match decode(&d, &EmptyKeyring) {
        Err(Error::KeyNotFound(name)) => assert_eq!(name, "dead"),
        other => panic!("{:?}", other),
    }
}

#[test]
fn unknown_cipher_byte_is_reported() {
    let key = [7u8; 32];
    let iv = [9u8; 8];
    let mut enc = encrypted_chunk(&[1], &key, &iv, b"x");
    // The cipher byte sits after the name and nonce fields.
    let cipher_at = 1 + 1 + 1 + 1 + 8;
    enc[cipher_at] = b'Q';
    let d = container(&[(&enc, 1)]);
    let mut ring = KeyTable::new();
    ring.add(vec![1], key.to_vec());
    assert!(matches!(decode(&d, &ring), Err(Error::UnknownEncryptionMode('Q'))));
}

#[test]
fn unknown_mode_byte_is_reported() {
    let d = container(&[(b"Xhello", 5)]);
    assert!(matches!(decode(&d, &EmptyKeyring), Err(Error::UnknownEncodingMode('X'))));
}

#[test]
fn wrong_magic_is_unsupported() {
    let mut d = container(&[(b"Nhello", 5)]);
    d[0] = b'X';
    assert!(matches!(decode(&d, &EmptyKeyring), Err(Error::Unsupported)));
}

#[test]
fn wrong_flag_is_unsupported() {
    let mut d = container(&[(b"Nhello", 5)]);
    d[8] = 0x10;
    assert!(matches!(decode(&d, &EmptyKeyring), Err(Error::Unsupported)));
}

#[test]
fn wrong_header_size_is_unsupported() {
    let mut d = container(&[(b"Nhello", 5)]);
    d[7] = d[7].wrapping_add(1);
    assert!(matches!(decode(&d, &EmptyKeyring), Err(Error::Unsupported)));
}

#[test]
fn truncated_payload_is_an_io_error() {
    let d = container(&[(b"Nhello", 5)]);
    let cut = &d[..d.len() - 2];
    assert!(matches!(decode(cut, &EmptyKeyring), Err(Error::Io)));
}

#[test]
fn first_key_under_a_name_wins() {
    let mut ring = KeyTable::new();
    ring.add(vec![1, 2], vec![0xAA; 32]);
    ring.add(vec![1, 2], vec![0xBB; 32]);
    assert_eq!(ring.resolve(&[1, 2]), Some(vec![0xAA; 32]));
    assert_eq!(ring.resolve(&[3]), None);
}
