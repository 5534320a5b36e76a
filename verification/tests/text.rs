//! The shared text and digest helpers.

use md5::Digest;

use ngdp::{md5, read_asciiz, Error};

#[test]
fn md5_packs_the_digest_big_endian() {
    let mut h = md5::Md5::new();
    Digest::update(&mut h, b"hello");
    let digest: [u8; 16] = h.finalize().into();
    assert_eq!(md5(b"hello"), u128::from_be_bytes(digest));
}

#[test]
fn read_asciiz_stops_at_the_terminator() {
    let d = b"abc\0def\0rest";
    let mut pos = 0usize;
    assert_eq!(read_asciiz(d, &mut pos).unwrap(), "abc");
    assert_eq!(pos, 4);
    assert_eq!(read_asciiz(d, &mut pos).unwrap(), "def");
    assert_eq!(pos, 8);
    assert!(matches!(read_asciiz(d, &mut pos), Err(Error::Io)));
    assert_eq!(pos, d.len());
}
