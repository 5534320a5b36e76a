//! Byte-level readers shared by every parser in the crate.
//!
//! Each reader takes a slice and a cursor, advances the cursor on success,
//! and reports `Error::Io` when the input ends before the read completes,
//! leaving the cursor where it was.

use vstd::prelude::*;
use vstd::string::StringSliceAdditionalSpecFns;

use crate::Error;

verus! {

/// 256 raised to `n`: the number of values of an `n`-byte field.
pub open spec fn pow256(n: int) -> int
    decreases n,
{
    if n <= 0 {
        1
    } else {
        256 * pow256(n - 1)
    }
}

/// 16 raised to `n`: the number of values of an `n`-digit hex string.
pub open spec fn pow16(n: int) -> int
    decreases n,
{
    if n <= 0 {
        1
    } else {
        16 * pow16(n - 1)
    }
}

pub proof fn lemma_pow256_val8()
    ensures
        pow256(8) == 0x1_0000_0000_0000_0000,
{
    assert(pow256(0) == 1);
    assert(pow256(1) == 256);
    assert(pow256(2) == 0x1_0000);
    assert(pow256(3) == 0x100_0000);
    assert(pow256(4) == 0x1_0000_0000);
    assert(pow256(5) == 0x100_0000_0000);
    assert(pow256(6) == 0x1_0000_0000_0000);
    assert(pow256(7) == 0x100_0000_0000_0000);
}

pub proof fn lemma_pow256_val16()
    ensures
        pow256(16) == 0x1_0000_0000_0000_0000_0000_0000_0000_0000,
{
    lemma_pow256_val8();
    assert(pow256(9) == 0x100 * pow256(8));
    assert(pow256(10) == 0x100 * pow256(9));
    assert(pow256(11) == 0x100 * pow256(10));
    assert(pow256(12) == 0x100 * pow256(11));
    assert(pow256(13) == 0x100 * pow256(12));
    assert(pow256(14) == 0x100 * pow256(13));
    assert(pow256(15) == 0x100 * pow256(14));
    assert(pow256(16) == 0x100 * pow256(15));
}

pub proof fn lemma_pow16_val32()
    ensures
        pow16(32) == 0x1_0000_0000_0000_0000_0000_0000_0000_0000,
    decreases 32int,
{
    lemma_pow256_val16();
    lemma_pow16_pow256_halves(16);
}

/// Two hex digits make one byte: `pow16(2 * n) == pow256(n)`.
pub proof fn lemma_pow16_pow256_halves(n: int)
    requires
        n >= 0,
    ensures
        pow16(2 * n) == pow256(n),
    decreases n,
{
    if n > 0 {
        lemma_pow16_pow256_halves(n - 1);
        assert(pow16(2 * n) == 16 * pow16(2 * n - 1));
        assert(pow16(2 * n - 1) == 16 * pow16(2 * (n - 1)));
    }
}

pub proof fn lemma_pow256_values()
    ensures
        pow256(1) == 0x100,
        pow256(2) == 0x1_0000,
        pow256(3) == 0x100_0000,
        pow256(4) == 0x1_0000_0000,
        pow256(5) == 0x100_0000_0000,
        pow256(6) == 0x1_0000_0000_0000,
        pow256(7) == 0x100_0000_0000_0000,
        pow256(8) == 0x1_0000_0000_0000_0000,
{
    assert(pow256(0) == 1);
    assert(pow256(1) == 256);
    assert(pow256(2) == 0x1_0000);
    assert(pow256(3) == 0x100_0000);
    assert(pow256(4) == 0x1_0000_0000);
    assert(pow256(5) == 0x100_0000_0000);
    assert(pow256(6) == 0x1_0000_0000_0000);
    assert(pow256(7) == 0x100_0000_0000_0000);
}

pub proof fn lemma_pow256_pos(n: int)
    ensures
        pow256(n) >= 1,
    decreases n,
{
    if n > 0 {
        lemma_pow256_pos(n - 1);
    }
}

pub proof fn lemma_pow256_mono(a: int, b: int)
    requires
        a <= b,
    ensures
        pow256(a) <= pow256(b),
    decreases b - a,
{
    if a < b {
        lemma_pow256_mono(a, b - 1);
        lemma_pow256_pos(b - 1);
    }
}

pub proof fn lemma_pow16_pos(n: int)
    ensures
        pow16(n) >= 1,
    decreases n,
{
    if n > 0 {
        lemma_pow16_pos(n - 1);
    }
}

pub proof fn lemma_pow16_mono(a: int, b: int)
    requires
        a <= b,
    ensures
        pow16(a) <= pow16(b),
    decreases b - a,
{
    if a < b {
        lemma_pow16_mono(a, b - 1);
        lemma_pow16_pos(b - 1);
    }
}

/// The integer held big-endian in the `n` bytes of `d` starting at `p`.
pub open spec fn be_uint(d: Seq<u8>, p: int, n: int) -> int
    decreases n,
{
    if n <= 0 {
        0
    } else {
        be_uint(d, p, n - 1) * 256 + d[p + n - 1]
    }
}

/// The integer held little-endian in the `n` bytes of `d` starting at `p`.
pub open spec fn le_uint(d: Seq<u8>, p: int, n: int) -> int
    decreases n,
{
    if n <= 0 {
        0
    } else {
        d[p] + 256 * le_uint(d, p + 1, n - 1)
    }
}

pub proof fn lemma_be_uint_bound(d: Seq<u8>, p: int, n: int)
    requires
        0 <= p,
        p + n <= d.len(),
    ensures
        0 <= be_uint(d, p, n) < pow256(n),
    decreases n,
{
    if n > 0 {
        lemma_be_uint_bound(d, p, n - 1);
    }
}

pub proof fn lemma_le_uint_bound(d: Seq<u8>, p: int, n: int)
    requires
        0 <= p,
        p + n <= d.len(),
    ensures
        0 <= le_uint(d, p, n) < pow256(n),
    decreases n,
{
    if n > 0 {
        lemma_le_uint_bound(d, p + 1, n - 1);
    }
}

/// Reads one byte, or `Error::Io` at the end of the input.
pub fn read_u8(d: &[u8], pos: &mut usize) -> (r: Result<u8, Error>)
    ensures
        *old(pos) < d@.len() ==> *final(pos) == *old(pos) + 1 && r == Ok::<u8, Error>(
            d@[*old(pos) as int],
        ),
        *old(pos) >= d@.len() ==> *final(pos) == *old(pos) && r == Err::<u8, Error>(Error::Io),
{
    if *pos < d.len() {
        let b = d[*pos];
        *pos = *pos + 1;
        Ok(b)
    } else {
        Err(Error::Io)
    }
}

/// Reads an `n`-byte big-endian unsigned integer, `n <= 8`.
pub fn read_uint_be(d: &[u8], pos: &mut usize, n: usize) -> (r: Result<u64, Error>)
    requires
        n <= 8,
    ensures
        *old(pos) + n <= d@.len() ==> *final(pos) == *old(pos) + n && (r matches Ok(v) && v
            == be_uint(d@, *old(pos) as int, n as int)),
        *old(pos) + n > d@.len() ==> *final(pos) == *old(pos) && r == Err::<u64, Error>(Error::Io),
{
    if n > d.len() || *pos > d.len() - n {
        return Err(Error::Io);
    }
    let p0 = *pos;
    let dlen: usize = d.len();
    let mut acc: u64 = 0;
    let mut i: usize = 0;
    while i < n
        invariant
            n <= 8,
            i <= n,
            dlen == d@.len(),
            p0 + n <= dlen,
            acc == be_uint(d@, p0 as int, i as int),
            acc < pow256(i as int),
        decreases n - i,
    {
        proof {
            lemma_pow256_mono(i as int + 1, 8);
            lemma_pow256_val8();
        }
        acc = acc * 256 + (d[p0 + i] as u64);
        i = i + 1;
    }
    *pos = p0 + n;
    Ok(acc)
}

/// Reads an `n`-byte big-endian unsigned integer, `n <= 16`.
pub fn read_uint128_be(d: &[u8], pos: &mut usize, n: usize) -> (r: Result<u128, Error>)
    requires
        n <= 16,
    ensures
        *old(pos) + n <= d@.len() ==> *final(pos) == *old(pos) + n && (r matches Ok(v) && v
            == be_uint(d@, *old(pos) as int, n as int)),
        *old(pos) + n > d@.len() ==> *final(pos) == *old(pos) && r == Err::<u128, Error>(Error::Io),
{
    if n > d.len() || *pos > d.len() - n {
        return Err(Error::Io);
    }
    let p0 = *pos;
    let dlen: usize = d.len();
    let mut acc: u128 = 0;
    let mut i: usize = 0;
    while i < n
        invariant
            n <= 16,
            i <= n,
            dlen == d@.len(),
            p0 + n <= dlen,
            acc == be_uint(d@, p0 as int, i as int),
            acc < pow256(i as int),
        decreases n - i,
    {
        proof {
            lemma_pow256_mono(i as int + 1, 16);
            lemma_pow256_val16();
        }
        acc = acc * 256 + (d[p0 + i] as u128);
        i = i + 1;
    }
    *pos = p0 + n;
    Ok(acc)
}

/// Reads an `n`-byte little-endian unsigned integer, `n <= 8`.
pub fn read_uint_le(d: &[u8], pos: &mut usize, n: usize) -> (r: Result<u64, Error>)
    requires
        n <= 8,
    ensures
        *old(pos) + n <= d@.len() ==> *final(pos) == *old(pos) + n && (r matches Ok(v) && v
            == le_uint(d@, *old(pos) as int, n as int)),
        *old(pos) + n > d@.len() ==> *final(pos) == *old(pos) && r == Err::<u64, Error>(Error::Io),
{
    if n > d.len() || *pos > d.len() - n {
        return Err(Error::Io);
    }
    let p0 = *pos;
    let dlen: usize = d.len();
    let mut acc: u64 = 0;
    let mut i: usize = 0;
    while i < n
        invariant
            n <= 8,
            i <= n,
            dlen == d@.len(),
            p0 + n <= dlen,
            acc == le_uint(d@, p0 + n - i, i as int),
            acc < pow256(i as int),
        decreases n - i,
    {
        proof {
            lemma_pow256_mono(i as int + 1, 8);
            lemma_pow256_val8();
        }
        acc = acc * 256 + (d[p0 + (n - 1 - i)] as u64);
        i = i + 1;
    }
    *pos = p0 + n;
    Ok(acc)
}

/// Reads `n` raw bytes into a fresh vector.
pub fn read_exact(d: &[u8], pos: &mut usize, n: usize) -> (r: Result<Vec<u8>, Error>)
    ensures
        *old(pos) + n <= d@.len() ==> *final(pos) == *old(pos) + n && (r matches Ok(v) && v@
            == d@.subrange(*old(pos) as int, *old(pos) + n)),
        *old(pos) + n > d@.len() ==> *final(pos) == *old(pos) && r == Err::<Vec<u8>, Error>(
            Error::Io,
        ),
{
    if n > d.len() || *pos > d.len() - n {
        return Err(Error::Io);
    }
    let p0 = *pos;
    let dlen: usize = d.len();
    let mut v: Vec<u8> = Vec::new();
    let mut i: usize = 0;
    while i < n
        invariant
            i <= n,
            dlen == d@.len(),
            p0 + n <= dlen,
            v@ == d@.subrange(p0 as int, p0 + i),
        decreases n - i,
    {
        v.push(d[p0 + i]);
        proof {
            assert(d@.subrange(p0 as int, p0 + i + 1) =~= d@.subrange(p0 as int, p0 + i).push(
                d@[p0 + i],
            ));
        }
        i = i + 1;
    }
    *pos = p0 + n;
    Ok(v)
}

/// Advances the cursor over `n` bytes without keeping them.
pub fn skip(d: &[u8], pos: &mut usize, n: usize) -> (r: Result<(), Error>)
    ensures
        *old(pos) + n <= d@.len() ==> *final(pos) == *old(pos) + n && r == Ok::<(), Error>(()),
        *old(pos) + n > d@.len() ==> *final(pos) == *old(pos) && r == Err::<(), Error>(Error::Io),
{
    if n > d.len() || *pos > d.len() - n {
        return Err(Error::Io);
    }
    *pos = *pos + n;
    Ok(())
}

/// Appends the bytes of `src` between `from` and `to` onto `dst`.
pub fn append_range(dst: &mut Vec<u8>, src: &[u8], from: usize, to: usize)
    requires
        from <= to <= src@.len(),
    ensures
        final(dst)@ == old(dst)@ + src@.subrange(from as int, to as int),
{
    let mut i: usize = from;
    proof {
        assert(old(dst)@ + src@.subrange(from as int, from as int) =~= old(dst)@);
    }
    while i < to
        invariant
            from <= i <= to <= src@.len(),
            dst@ == old(dst)@ + src@.subrange(from as int, i as int),
        decreases to - i,
    {
        dst.push(src[i]);
        proof {
            assert(old(dst)@ + src@.subrange(from as int, i + 1) =~= (old(dst)@ + src@.subrange(
                from as int,
                i as int,
            )).push(src@[i as int]));
        }
        i = i + 1;
    }
}

/// Compares two byte strings for equality of their contents.
pub fn bytes_eq(a: &[u8], b: &[u8]) -> (r: bool)
    ensures
        r == (a@ == b@),
{
    if a.len() != b.len() {
        return false;
    }
    let mut i: usize = 0;
    while i < a.len()
        invariant
            i <= a@.len(),
            a@.len() == b@.len(),
            forall|j: int| 0 <= j < i ==> a@[j] == b@[j],
        decreases a@.len() - i,
    {
        if a[i] != b[i] {
            return false;
        }
        i = i + 1;
    }
    proof {
        assert(a@ =~= b@);
    }
    true
}

/// The lower-case hex digit for a value below 16.
pub open spec fn hex_digit(n: int) -> char {
    if n == 0 {
        '0'
    } else if n == 1 {
        '1'
    } else if n == 2 {
        '2'
    } else if n == 3 {
        '3'
    } else if n == 4 {
        '4'
    } else if n == 5 {
        '5'
    } else if n == 6 {
        '6'
    } else if n == 7 {
        '7'
    } else if n == 8 {
        '8'
    } else if n == 9 {
        '9'
    } else if n == 10 {
        'a'
    } else if n == 11 {
        'b'
    } else if n == 12 {
        'c'
    } else if n == 13 {
        'd'
    } else if n == 14 {
        'e'
    } else {
        'f'
    }
}

/// The lower-case hex spelling of a byte string, two digits per byte.
pub open spec fn hex_of(s: Seq<u8>) -> Seq<char>
    decreases s.len(),
{
    if s.len() == 0 {
        Seq::empty()
    } else {
        seq![hex_digit(s[0] as int / 16), hex_digit(s[0] as int % 16)] + hex_of(s.drop_first())
    }
}

/// Relies on String::push: appends exactly the given character.
#[verifier::external_body]
pub fn push_char(s: &mut String, c: char)
    ensures
        final(s)@ == old(s)@.push(c),
{
    s.push(c);
}

fn hex_digit_char(n: u8) -> (c: char)
    requires
        n < 16,
    ensures
        c == hex_digit(n as int),
{
    if n == 0 {
        '0'
    } else if n == 1 {
        '1'
    } else if n == 2 {
        '2'
    } else if n == 3 {
        '3'
    } else if n == 4 {
        '4'
    } else if n == 5 {
        '5'
    } else if n == 6 {
        '6'
    } else if n == 7 {
        '7'
    } else if n == 8 {
        '8'
    } else if n == 9 {
        '9'
    } else if n == 10 {
        'a'
    } else if n == 11 {
        'b'
    } else if n == 12 {
        'c'
    } else if n == 13 {
        'd'
    } else if n == 14 {
        'e'
    } else {
        'f'
    }
}

/// Writes a byte string as lower-case hex, two digits per byte.
pub fn to_hex(b: &[u8]) -> (r: String)
    ensures
        r@ == hex_of(b@),
{
    let mut s = String::new();
    let mut i: usize = 0;
    proof {
        assert(b@.skip(0) == b@);
    }
    while i < b.len()
        invariant
            i <= b@.len(),
            hex_of(b@) =~= s@ + hex_of(b@.skip(i as int)),
        decreases b@.len() - i,
    {
        let byte = b[i];
        push_char(&mut s, hex_digit_char(byte / 16));
        push_char(&mut s, hex_digit_char(byte % 16));
        proof {
            assert(b@.skip(i as int).drop_first() =~= b@.skip(i + 1));
        }
        i = i + 1;
    }
    proof {
        assert(b@.skip(b@.len() as int) =~= Seq::<u8>::empty());
        assert(s@ =~= hex_of(b@));
    }
    s
}

/// The position of the first NUL byte at or after `p`, if any.
pub open spec fn nul_at(d: Seq<u8>, p: int) -> Option<int>
    decreases d.len() - p,
{
    if p < 0 || p >= d.len() {
        None
    } else if d[p] == 0 {
        Some(p)
    } else {
        nul_at(d, p + 1)
    }
}

pub proof fn lemma_nul_at_range(d: Seq<u8>, p: int)
    ensures
        nul_at(d, p) matches Some(e) ==> p <= e < d.len() && d[e] == 0,
    decreases d.len() - p,
{
    if 0 <= p < d.len() && d[p] != 0 {
        lemma_nul_at_range(d, p + 1);
    }
}

/// Each byte read as one character, as Latin-1 text is widened.
pub open spec fn byte_chars(s: Seq<u8>) -> Seq<char> {
    s.map_values(|b: u8| b as char)
}

/// Relies on `core::str::from_utf8`: succeeds exactly on valid UTF-8, and
/// the resulting text decodes the input bytes.
#[verifier::external_body]
pub fn utf8_str<'a>(v: &'a [u8]) -> (r: Result<&'a str, Error>)
    ensures
        match r {
            Ok(s) => vstd::utf8::valid_utf8(v@) && s@ == vstd::utf8::decode_utf8(v@)
                && s.spec_bytes() == v@,
            Err(e) => e == Error::Utf8 && !vstd::utf8::valid_utf8(v@),
        },
{
    match core::str::from_utf8(v) {
        Ok(s) => Ok(s),
        Err(_) => Err(Error::Utf8),
    }
}

/// True of the bytes that spell a hex digit in either case.
pub open spec fn is_hex_byte(b: u8) -> bool {
    (48 <= b <= 57) || (97 <= b <= 102) || (65 <= b <= 70)
}

/// The value of one hex-digit byte.
pub open spec fn hex_val(b: u8) -> int {
    if 48 <= b <= 57 {
        b - 48
    } else if 97 <= b <= 102 {
        b - 97 + 10
    } else {
        b - 65 + 10
    }
}

/// The integer spelt in hex by a byte string, most significant digit first.
pub open spec fn hex_int(s: Seq<u8>) -> int
    decreases s.len(),
{
    if s.len() == 0 {
        0
    } else {
        hex_int(s.drop_last()) * 16 + hex_val(s.last())
    }
}

pub proof fn lemma_hex_int_bound(s: Seq<u8>)
    requires
        forall|j: int| 0 <= j < s.len() ==> is_hex_byte(s[j]),
    ensures
        0 <= hex_int(s) < pow16(s.len() as int),
    decreases s.len(),
{
    if s.len() > 0 {
        lemma_hex_int_bound(s.drop_last());
    }
}

/// Reads the hex digits of `d` between `start` and `end` as one integer.
pub fn parse_hex_u128(d: &[u8], start: usize, end: usize) -> (r: u128)
    requires
        start <= end <= d@.len(),
        end - start <= 32,
        forall|j: int| start <= j < end ==> is_hex_byte(d@[j]),
    ensures
        r == hex_int(d@.subrange(start as int, end as int)),
{
    let mut acc: u128 = 0;
    let mut i: usize = start;
    proof {
        assert(d@.subrange(start as int, start as int) =~= Seq::<u8>::empty());
    }
    while i < end
        invariant
            start <= i <= end <= d@.len(),
            end - start <= 32,
            forall|j: int| start <= j < end ==> is_hex_byte(d@[j]),
            acc == hex_int(d@.subrange(start as int, i as int)),
            acc < pow16(i - start),
        decreases end - i,
    {
        proof {
            lemma_pow16_mono(i - start + 1, 32);
            lemma_pow16_val32();
        }
        let b = d[i];
        let v: u8 = if b >= 48 && b <= 57 {
            b - 48
        } else if b >= 97 && b <= 102 {
            b - 97 + 10
        } else {
            b - 65 + 10
        };
        acc = acc * 16 + (v as u128);
        proof {
            assert(d@.subrange(start as int, i + 1).drop_last() =~= d@.subrange(
                start as int,
                i as int,
            ));
        }
        i = i + 1;
    }
    acc
}

} // verus!
