//! Build records and the encoding table against byte fixtures.

use md5::Digest;

use ngdp::tact::{Download, Encoding, Install, Record};
use ngdp::Error;

fn md5v(data: &[u8]) -> Vec<u8> {
    let mut h = md5::Md5::new();
    h.update(data);
    h.finalize().to_vec()
}

#[test]
fn record_parses_both_keys() {
    let r = Record::parse("abcdef0123456789abcdef0123456789 00112233445566778899aabbccddeeff");
    assert_eq!(r.c_key, 228367255721259569362527394270995113865u128);
    assert_eq!(r.e_key, Some(88962710306127702866241727433142015u128));
}

#[test]
fn record_parses_a_single_key() {
    let r = Record::parse("000000000000000000000000000000ff");
    assert_eq!(r.c_key, 255);
    assert_eq!(r.e_key, None);
}

#[test]
fn record_accepts_short_and_upper_case_keys() {
    let r = Record::parse("FF 1a");
    assert_eq!(r.c_key, 255);
    assert_eq!(r.e_key, Some(26));
}

/// One content-key page and one encoding-key page, each holding a single
/// real entry and zero padding.
fn encoding_file(ck: u128, ek: u128, c_size: u64, e_size: u64, spec_str: &[u8]) -> Vec<u8> {
    let page_kb = 1u16;
    let mut ce_page = Vec::new();
    ce_page.push(1u8);
    ce_page.extend_from_slice(&c_size.to_be_bytes()[3..8]);
    ce_page.extend_from_slice(&ck.to_be_bytes());
    ce_page.extend_from_slice(&ek.to_be_bytes());
    ce_page.resize(page_kb as usize * 1024, 0);

    let mut es_page = Vec::new();
    es_page.extend_from_slice(&ek.to_be_bytes());
    es_page.extend_from_slice(&0u32.to_be_bytes());
    es_page.extend_from_slice(&e_size.to_be_bytes()[3..8]);
    es_page.resize(page_kb as usize * 1024, 0);

    let mut spec_block = spec_str.to_vec();
    spec_block.push(0);

    let mut d = Vec::new();
    d.extend_from_slice(b"EN");
    d.push(1);  // version
    d.push(16);  // content key width
    d.push(16);  // encoding key width
    d.extend_from_slice(&page_kb.to_be_bytes());
    d.extend_from_slice(&page_kb.to_be_bytes());
    d.extend_from_slice(&1u32.to_be_bytes());
    d.extend_from_slice(&1u32.to_be_bytes());
    d.push(0);
    d.extend_from_slice(&(spec_block.len() as u32).to_be_bytes());
    d.extend_from_slice(&spec_block);
    d.extend_from_slice(&ck.to_be_bytes());
    d.extend_from_slice(&md5v(&ce_page));
    d.extend_from_slice(&ce_page);
    d.extend_from_slice(&ek.to_be_bytes());
    d.extend_from_slice(&md5v(&es_page));
    d.extend_from_slice(&es_page);
    d
}

#[test]
fn encoding_lookup_finds_the_encoding_key() {
    let ck = 0x11111111_22222222_33333333_44444444u128;
    let ek = 0x55555555_66666666_77777777_88888888u128;
    let d = encoding_file(ck, ek, 1000, 900, b"z");
    let enc = Encoding::decode(&d).unwrap();
    assert_eq!(enc.get(ck), Some(ek));
    assert_eq!(enc.get(ck ^ 1), None);
}

#[test]
fn encoding_page_corruption_is_an_integrity_error() {
    let ck = 1u128;
    let ek = 2u128;
    let mut d = encoding_file(ck, ek, 10, 10, b"z");
    let last = d.len() - 1;
    d[last] ^= 1;  // inside the second page's payload
    assert!(matches!(Encoding::decode(&d), Err(Error::IntegrityError)));
}

#[test]
fn encoding_wrong_magic_is_unsupported() {
    let mut d = encoding_file(1, 2, 10, 10, b"z");
    d[0] = b'X';
    assert!(matches!(Encoding::decode(&d), Err(Error::Unsupported)));
}

#[test]
fn encoding_wrong_key_width_is_unsupported() {
    let mut d = encoding_file(1, 2, 10, 10, b"z");
    d[3] = 9;
    assert!(matches!(Encoding::decode(&d), Err(Error::Unsupported)));
}

#[test]
fn install_walks_tags_and_entries() {
    let mut d = Vec::new();
    d.extend_from_slice(b"IN");
    d.push(1);
    d.push(16);
    d.extend_from_slice(&2u16.to_be_bytes());  // tags
    d.extend_from_slice(&1u32.to_be_bytes());  // entries
    d.extend_from_slice(b"Windows\0");
    d.extend_from_slice(&1u16.to_be_bytes());
    d.extend_from_slice(b"Mac\0");
    d.extend_from_slice(&2u16.to_be_bytes());
    d.extend_from_slice(b"some/file\0");
    d.extend_from_slice(&7u128.to_be_bytes());
    d.extend_from_slice(&44u32.to_be_bytes());
    let ins = Install::decode(&d).unwrap();
    assert!(ins.tags.is_empty());
}

#[test]
fn install_wrong_magic_is_unsupported() {
    assert!(matches!(Install::decode(b"XX\x01\x10"), Err(Error::Unsupported)));
}

#[test]
fn install_truncated_entry_is_an_io_error() {
    let mut d = Vec::new();
    d.extend_from_slice(b"IN");
    d.push(1);
    d.push(16);
    d.extend_from_slice(&0u16.to_be_bytes());
    d.extend_from_slice(&1u32.to_be_bytes());
    d.extend_from_slice(b"name\0");
    d.extend_from_slice(&7u64.to_be_bytes());  // hash cut short
    assert!(matches!(Install::decode(&d), Err(Error::Io)));
}

#[test]
fn download_walks_entries_and_tags() {
    let mut d = Vec::new();
    d.extend_from_slice(b"DL");
    d.push(1);
    d.push(16);
    d.push(0);
    d.extend_from_slice(&2u32.to_be_bytes());  // entries
    d.extend_from_slice(&1u16.to_be_bytes());  // tags
    for k in 0..2u8 {
        d.extend_from_slice(&(k as u128).to_be_bytes());
        d.extend_from_slice(&[0, 0, 0, 0, 9]);  // 40-bit size
        d.push(0);
        d.extend_from_slice(&0u32.to_be_bytes());
    }
    d.extend_from_slice(b"tag\0");
    d.extend_from_slice(&3u16.to_be_bytes());
    assert!(Download::decode(&d).is_ok());
}

#[test]
fn download_wrong_version_is_unsupported() {
    assert!(matches!(Download::decode(b"DL\x02\x10"), Err(Error::Unsupported)));
}
