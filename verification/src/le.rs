//! Little-endian integers as byte sequences.
//!
//! The spec functions give the arithmetic meaning of a little-endian field;
//! the executable functions at the end of the file hand the work to the
//! `byteorder` crate.

use byteorder::{ByteOrder, LittleEndian, WriteBytesExt};
use vstd::prelude::*;

verus! {

/// The unsigned value of the first two bytes of `s`, least significant first.
#[verifier::opaque]
pub open spec fn u16_from_le(s: Seq<u8>) -> int
    recommends
        s.len() >= 2,
{
    s[0] as int + 256 * (s[1] as int)
}

/// The unsigned value of the first four bytes of `s`, least significant first.
#[verifier::opaque]
pub open spec fn u32_from_le(s: Seq<u8>) -> int
    recommends
        s.len() >= 4,
{
    s[0] as int + 256 * (s[1] as int) + 65536 * (s[2] as int) + 16777216 * (s[3] as int)
}

/// The two's-complement value of the first two bytes of `s`.
#[verifier::opaque]
pub open spec fn i16_from_le(s: Seq<u8>) -> int
    recommends
        s.len() >= 2,
{
    let u = u16_from_le(s);
    if u >= 32768 {
        u - 65536
    } else {
        u
    }
}

/// The two's-complement value of the first four bytes of `s`.
#[verifier::opaque]
pub open spec fn i32_from_le(s: Seq<u8>) -> int
    recommends
        s.len() >= 4,
{
    let u = u32_from_le(s);
    if u >= 2147483648 {
        u - 4294967296
    } else {
        u
    }
}

/// The two bytes of `x`, for `0 <= x < 65536`.
#[verifier::opaque]
pub open spec fn u16_to_le(x: int) -> Seq<u8> {
    seq![(x % 256) as u8, ((x / 256) % 256) as u8]
}

/// The four bytes of `x`, for `0 <= x < 4294967296`.
#[verifier::opaque]
pub open spec fn u32_to_le(x: int) -> Seq<u8> {
    seq![
        (x % 256) as u8,
        ((x / 256) % 256) as u8,
        ((x / 65536) % 256) as u8,
        ((x / 16777216) % 256) as u8,
    ]
}

/// The two bytes of the two's-complement form of `x`.
#[verifier::opaque]
pub open spec fn i16_to_le(x: int) -> Seq<u8> {
    u16_to_le(
        if x < 0 {
            x + 65536
        } else {
            x
        },
    )
}

/// The four bytes of the two's-complement form of `x`.
#[verifier::opaque]
pub open spec fn i32_to_le(x: int) -> Seq<u8> {
    u32_to_le(
        if x < 0 {
            x + 4294967296
        } else {
            x
        },
    )
}

/// `n` zero bytes.
pub open spec fn zeros(n: nat) -> Seq<u8> {
    Seq::new(n, |i: int| 0u8)
}

/// Every byte of `s` is zero.
pub open spec fn all_zero(s: Seq<u8>) -> bool {
    forall|i: int| 0 <= i < s.len() ==> s[i] == 0
}

/// How many bytes each encoding has.
pub proof fn lemma_le_len()
    ensures
        forall|x: int| #[trigger] u16_to_le(x).len() == 2,
        forall|x: int| #[trigger] i16_to_le(x).len() == 2,
        forall|x: int| #[trigger] u32_to_le(x).len() == 4,
        forall|x: int| #[trigger] i32_to_le(x).len() == 4,
{
    reveal(u16_to_le);
    reveal(i16_to_le);
    reveal(u32_to_le);
    reveal(i32_to_le);
}

/// The base-256 digits of a four-digit number are its digits.
proof fn lemma_base256(a: int, b: int, c: int, d: int)
    requires
        0 <= a < 256,
        0 <= b < 256,
        0 <= c < 256,
        0 <= d < 256,
    ensures
        ({
            let x = a + 256 * b + 65536 * c + 16777216 * d;
            &&& 0 <= x < 4294967296
            &&& x % 256 == a
            &&& (x / 256) % 256 == b
            &&& (x / 65536) % 256 == c
            &&& (x / 16777216) % 256 == d
        }),
{
    let x = a + 256 * b + 65536 * c + 16777216 * d;
    let y = b + 256 * c + 65536 * d;
    let z = c + 256 * d;
    assert(x == a + 256 * y);
    assert(y == b + 256 * z);
    assert(x / 256 == y && x % 256 == a);
    assert(y / 256 == z && y % 256 == b);
    assert(z / 256 == d && z % 256 == c);
    assert(x / 65536 == z) by {
        assert(x == (a + 256 * b) + 65536 * z);
    }
    assert(x / 16777216 == d) by {
        assert(x == (a + 256 * b + 65536 * c) + 16777216 * d);
    }
}

/// Decoding undoes encoding, and only the first bytes count.
pub proof fn lemma_i32_le_roundtrip(x: int, rest: Seq<u8>)
    requires
        i32::MIN <= x <= i32::MAX,
    ensures
        i32_to_le(x).len() == 4,
        i32_from_le(i32_to_le(x) + rest) == x,
{
    reveal(u16_to_le);
    reveal(i16_to_le);
    reveal(u32_to_le);
    reveal(i32_to_le);
    reveal(u16_from_le);
    reveal(i16_from_le);
    reveal(u32_from_le);
    reveal(i32_from_le);
    let u = if x < 0 {
        x + 4294967296
    } else {
        x
    };
    let s = i32_to_le(x) + rest;
    assert(s[0] == (u % 256) as u8);
    assert(s[1] == ((u / 256) % 256) as u8);
    assert(s[2] == ((u / 65536) % 256) as u8);
    assert(s[3] == ((u / 16777216) % 256) as u8);
}

/// Decoding undoes encoding, and only the first bytes count.
pub proof fn lemma_u32_le_roundtrip(x: int, rest: Seq<u8>)
    requires
        0 <= x <= u32::MAX,
    ensures
        u32_to_le(x).len() == 4,
        u32_from_le(u32_to_le(x) + rest) == x,
{
    reveal(u16_to_le);
    reveal(i16_to_le);
    reveal(u32_to_le);
    reveal(i32_to_le);
    reveal(u16_from_le);
    reveal(i16_from_le);
    reveal(u32_from_le);
    reveal(i32_from_le);
    let s = u32_to_le(x) + rest;
    assert(s[0] == (x % 256) as u8);
    assert(s[1] == ((x / 256) % 256) as u8);
    assert(s[2] == ((x / 65536) % 256) as u8);
    assert(s[3] == ((x / 16777216) % 256) as u8);
}

/// Decoding undoes encoding, and only the first bytes count.
pub proof fn lemma_i16_le_roundtrip(x: int, rest: Seq<u8>)
    requires
        i16::MIN <= x <= i16::MAX,
    ensures
        i16_to_le(x).len() == 2,
        i16_from_le(i16_to_le(x) + rest) == x,
{
    reveal(u16_to_le);
    reveal(i16_to_le);
    reveal(u32_to_le);
    reveal(i32_to_le);
    reveal(u16_from_le);
    reveal(i16_from_le);
    reveal(u32_from_le);
    reveal(i32_from_le);
    let u = if x < 0 {
        x + 65536
    } else {
        x
    };
    let s = i16_to_le(x) + rest;
    assert(s[0] == (u % 256) as u8);
    assert(s[1] == ((u / 256) % 256) as u8);
}

/// Encoding undoes decoding.
pub proof fn lemma_i32_le_bytes(s: Seq<u8>)
    requires
        s.len() == 4,
    ensures
        i32::MIN <= i32_from_le(s) <= i32::MAX,
        i32_to_le(i32_from_le(s)) == s,
{
    reveal(u16_to_le);
    reveal(i16_to_le);
    reveal(u32_to_le);
    reveal(i32_to_le);
    reveal(u16_from_le);
    reveal(i16_from_le);
    reveal(u32_from_le);
    reveal(i32_from_le);
    lemma_base256(s[0] as int, s[1] as int, s[2] as int, s[3] as int);
    assert(i32_to_le(i32_from_le(s)) =~= s);
}

/// Encoding undoes decoding.
pub proof fn lemma_u32_le_bytes(s: Seq<u8>)
    requires
        s.len() == 4,
    ensures
        0 <= u32_from_le(s) <= u32::MAX,
        u32_to_le(u32_from_le(s)) == s,
{
    reveal(u16_to_le);
    reveal(i16_to_le);
    reveal(u32_to_le);
    reveal(i32_to_le);
    reveal(u16_from_le);
    reveal(i16_from_le);
    reveal(u32_from_le);
    reveal(i32_from_le);
    lemma_base256(s[0] as int, s[1] as int, s[2] as int, s[3] as int);
    assert(u32_to_le(u32_from_le(s)) =~= s);
}

/// Encoding undoes decoding.
pub proof fn lemma_i16_le_bytes(s: Seq<u8>)
    requires
        s.len() == 2,
    ensures
        i16::MIN <= i16_from_le(s) <= i16::MAX,
        i16_to_le(i16_from_le(s)) == s,
{
    reveal(u16_to_le);
    reveal(i16_to_le);
    reveal(u32_to_le);
    reveal(i32_to_le);
    reveal(u16_from_le);
    reveal(i16_from_le);
    reveal(u32_from_le);
    reveal(i32_from_le);
    assert(i16_to_le(i16_from_le(s)) =~= s);
}

/// `byteorder::LittleEndian::read_i16`: the two's-complement value of the
/// first two bytes of `buf`, least significant byte first. It panics on a
/// shorter buffer, which the precondition rules out.
#[verifier::external_body]
pub(crate) fn read_i16_le(buf: &[u8]) -> (r: i16)
    requires
        buf@.len() >= 2,
    ensures
        r == i16_from_le(buf@),
{
    LittleEndian::read_i16(buf)
}

/// `byteorder::LittleEndian::read_i32`: the two's-complement value of the
/// first four bytes of `buf`, least significant byte first. It panics on a
/// shorter buffer, which the precondition rules out.
#[verifier::external_body]
pub(crate) fn read_i32_le(buf: &[u8]) -> (r: i32)
    requires
        buf@.len() >= 4,
    ensures
        r == i32_from_le(buf@),
{
    LittleEndian::read_i32(buf)
}

/// `byteorder::LittleEndian::read_u32_into`: fills a vector of `count` words,
/// word `i` being the unsigned little-endian value of bytes `4i .. 4i + 4` of
/// `src`. It panics unless `src` holds exactly `4 * count` bytes.
#[verifier::external_body]
pub(crate) fn read_u32s_le(src: &[u8], count: usize) -> (r: Vec<u32>)
    requires
        src@.len() == 4 * count,
    ensures
        r@.len() == count,
        forall|i: int| 0 <= i < count ==> r@[i] == u32_from_le(#[trigger] src@.subrange(4 * i, 4 * i + 4)),
{
    let mut dst: Vec<u32> = vec![0u32; count];
    LittleEndian::read_u32_into(src, &mut dst);
    dst
}

/// `byteorder::WriteBytesExt::write_i16::<LittleEndian>` on a `Vec<u8>`:
/// appends the two bytes of `n`. Writing to a vector does not fail.
#[verifier::external_body]
pub(crate) fn write_i16_le(out: &mut Vec<u8>, n: i16)
    ensures
        final(out)@ == old(out)@ + i16_to_le(n as int),
{
    let _ = out.write_i16::<LittleEndian>(n);
}

/// `byteorder::WriteBytesExt::write_i32::<LittleEndian>` on a `Vec<u8>`:
/// appends the four bytes of `n`. Writing to a vector does not fail.
#[verifier::external_body]
pub(crate) fn write_i32_le(out: &mut Vec<u8>, n: i32)
    ensures
        final(out)@ == old(out)@ + i32_to_le(n as int),
{
    let _ = out.write_i32::<LittleEndian>(n);
}

/// `byteorder::WriteBytesExt::write_u32::<LittleEndian>` on a `Vec<u8>`:
/// appends the four bytes of `n`. Writing to a vector does not fail.
#[verifier::external_body]
pub(crate) fn write_u32_le(out: &mut Vec<u8>, n: u32)
    ensures
        final(out)@ == old(out)@ + u32_to_le(n as int),
{
    let _ = out.write_u32::<LittleEndian>(n);
}

} // verus!
