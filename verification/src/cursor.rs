//! A read position over a byte buffer, and the append-only writer that
//! mirrors it.

use crate::le::{
    all_zero, i16_from_le, i16_to_le, i32_from_le, i32_to_le, read_i16_le, read_i32_le,
    read_u32s_le, u32_from_le, write_i16_le, write_i32_le, zeros,
};
use vstd::prelude::*;

verus! {

/// Why a read failed.
#[derive(Debug, Clone, Copy, PartialEq, Eq, Structural)]
pub enum ReadError {
    /// The buffer ended before the required number of bytes.
    TruncatedInput,
    /// A field held a value that the format does not allow.
    MalformedStructure,
}

/// Bytes `p .. p + n` lie inside `s`.
pub open spec fn fits(s: Seq<u8>, p: int, n: int) -> bool {
    0 <= p && 0 <= n && p + n <= s.len()
}

/// The bytes `p .. p + n` of `s`.
pub open spec fn bytes_at(s: Seq<u8>, p: int, n: int) -> Seq<u8> {
    s.subrange(p, p + n)
}

/// The little-endian `i32` stored at `p`.
pub open spec fn i32_at(s: Seq<u8>, p: int) -> int {
    i32_from_le(bytes_at(s, p, 4))
}

/// The little-endian `i16` stored at `p`.
pub open spec fn i16_at(s: Seq<u8>, p: int) -> int {
    i16_from_le(bytes_at(s, p, 2))
}

/// The little-endian `u32` stored at `p`.
pub open spec fn u32_at(s: Seq<u8>, p: int) -> int {
    u32_from_le(bytes_at(s, p, 4))
}

/// The `n` little-endian `u32` words stored from `p` on.
pub open spec fn u32s_at(s: Seq<u8>, p: int, n: nat) -> Seq<u32> {
    Seq::new(n, |i: int| u32_at(s, p + 4 * i) as u32)
}

/// The number of bytes from `p` to the end of `s`; zero past the end.
pub open spec fn remaining_at(s: Seq<u8>, p: int) -> int {
    if 0 <= p <= s.len() {
        s.len() - p
    } else {
        0
    }
}

/// What skipping `n` zero bytes at `p` does: nothing is wrong, the buffer is
/// too short, or one of the bytes is not zero.
pub open spec fn zeros_at(s: Seq<u8>, p: int, n: int) -> Result<(), ReadError> {
    if !fits(s, p, n) {
        Err(ReadError::TruncatedInput)
    } else if !all_zero(bytes_at(s, p, n)) {
        Err(ReadError::MalformedStructure)
    } else {
        Ok(())
    }
}

/// `<[u8; N]>::try_from(&[u8])` of std: the array that holds the bytes of the
/// slice, when the slice has exactly `N` of them, and nothing otherwise.
#[verifier::external_body]
pub(crate) fn array_from_slice<const N: usize>(s: &[u8]) -> (r: Option<[u8; N]>)
    ensures
        r is Some <==> s@.len() == N,
        r is Some ==> r->Some_0@ == s@,
{
    <[u8; N]>::try_from(s).ok()
}

/// The array that holds the bytes `s`.
pub open spec fn arr<const N: usize>(s: Seq<u8>) -> [u8; N] {
    choose|a: [u8; N]| a@ == s
}

/// An array is the array that holds its bytes.
pub proof fn lemma_arr<const N: usize>(a: [u8; N])
    ensures
        arr::<N>(a@) == a,
{
    let b = arr::<N>(a@);
    assert(b@ == a@);
    assert(b =~= a);
}

/// `memchr::memchr`: the place of the first byte of `haystack` that equals
/// `needle`, or `None` when no byte does.
#[verifier::external_body]
pub(crate) fn find_byte(needle: u8, haystack: &[u8]) -> (r: Option<usize>)
    ensures
        match r {
            Some(i) => i < haystack@.len() && haystack@[i as int] == needle && forall|j: int|
                0 <= j < i ==> haystack@[j] != needle,
            None => forall|j: int| 0 <= j < haystack@.len() ==> haystack@[j] != needle,
        },
{
    memchr::memchr(needle, haystack)
}

/// A byte buffer with a read position.
pub struct Cursor<'a> {
    pub data: &'a [u8],
    pub position: usize,
}

/// Reads that the tile and map formats need beyond plain integers.
pub trait ReadExt {
    /// The whole buffer.
    spec fn bytes(&self) -> Seq<u8>;

    /// The read position.
    spec fn pos(&self) -> int;

    /// Skips `zerosCount` bytes, all of which must be zero. On an error the
    /// position stays.
    fn consumeZeros(&mut self, zerosCount: usize) -> (r: Result<(), ReadError>)
        ensures
            final(self).bytes() == old(self).bytes(),
            r == zeros_at(old(self).bytes(), old(self).pos(), zerosCount as int),
            final(self).pos() == if r is Ok {
                old(self).pos() + zerosCount
            } else {
                old(self).pos()
            },
    ;

    /// Copies the next `N` bytes into an array. On an error the position
    /// stays.
    fn read_u8_array<const N: usize>(&mut self) -> (r: Result<[u8; N], ReadError>)
        ensures
            final(self).bytes() == old(self).bytes(),
            match r {
                Ok(a) => {
                    &&& fits(old(self).bytes(), old(self).pos(), N as int)
                    &&& a@ == bytes_at(old(self).bytes(), old(self).pos(), N as int)
                    &&& final(self).pos() == old(self).pos() + N
                },
                Err(e) => {
                    &&& !fits(old(self).bytes(), old(self).pos(), N as int)
                    &&& e == ReadError::TruncatedInput
                    &&& final(self).pos() == old(self).pos()
                },
            },
    ;

    /// The number of bytes after the position.
    fn remaining(&self) -> (r: usize)
        ensures
            r == remaining_at(self.bytes(), self.pos()),
    ;
}

impl<'a> Cursor<'a> {
    /// A cursor at the start of `data`.
    pub fn new(data: &'a [u8]) -> (c: Self)
        ensures
            c.data@ == data@,
            c.position == 0,
    {
        Cursor { data, position: 0 }
    }

    /// The read position.
    pub fn position(&self) -> (p: usize)
        ensures
            p == self.position,
    {
        self.position
    }

    /// Whether `n` more bytes can be read.
    pub fn has(&self, n: usize) -> (b: bool)
        ensures
            b == fits(self.data@, self.position as int, n as int),
            self.data@.len() <= usize::MAX,
    {
        self.position <= self.data.len() && n <= self.data.len() - self.position
    }

    /// Skips `n` bytes whatever they hold.
    pub fn consume(&mut self, n: usize) -> (r: Result<(), ReadError>)
        ensures
            final(self).data == old(self).data,
            match r {
                Ok(_) => fits(old(self).data@, old(self).position as int, n as int) 
                    && final(self).position == old(self).position + n,
                Err(e) => !fits(old(self).data@, old(self).position as int, n as int) && e
                    == ReadError::TruncatedInput && final(self).position == old(self).position,
            },
    {
        if !self.has(n) {
            return Err(ReadError::TruncatedInput);
        }
        self.position = self.position + n;
        Ok(())
    }

    /// Reads one byte.
    pub fn read_u8(&mut self) -> (r: Result<u8, ReadError>)
        ensures
            final(self).data == old(self).data,
            match r {
                Ok(v) => fits(old(self).data@, old(self).position as int, 1)
                    && v == old(self).data@[old(self).position as int]
                    && final(self).position == old(self).position + 1,
                Err(e) => !fits(old(self).data@, old(self).position as int, 1) && e
                    == ReadError::TruncatedInput && final(self).position == old(self).position,
            },
    {
        if !self.has(1) {
            return Err(ReadError::TruncatedInput);
        }
        let v = self.data[self.position];
        self.position = self.position + 1;
        Ok(v)
    }

    /// Reads a little-endian `i16`.
    pub fn read_i16(&mut self) -> (r: Result<i16, ReadError>)
        ensures
            final(self).data == old(self).data,
            match r {
                Ok(v) => fits(old(self).data@, old(self).position as int, 2) && v == i16_at(
                    old(self).data@,
                    old(self).position as int,
                ) && final(self).position == old(self).position + 2,
                Err(e) => !fits(old(self).data@, old(self).position as int, 2) && e
                    == ReadError::TruncatedInput && final(self).position == old(self).position,
            },
    {
        if !self.has(2) {
            return Err(ReadError::TruncatedInput);
        }
        let v = read_i16_le(&self.data[self.position..self.position + 2]);
        self.position = self.position + 2;
        Ok(v)
    }

    /// Reads a little-endian `i32`.
    pub fn read_i32(&mut self) -> (r: Result<i32, ReadError>)
        ensures
            final(self).data == old(self).data,
            match r {
                Ok(v) => fits(old(self).data@, old(self).position as int, 4) && v == i32_at(
                    old(self).data@,
                    old(self).position as int,
                ) && final(self).position == old(self).position + 4,
                Err(e) => !fits(old(self).data@, old(self).position as int, 4) && e
                    == ReadError::TruncatedInput && final(self).position == old(self).position,
            },
    {
        if !self.has(4) {
            return Err(ReadError::TruncatedInput);
        }
        let v = read_i32_le(&self.data[self.position..self.position + 4]);
        self.position = self.position + 4;
        Ok(v)
    }

    /// Reads a little-endian `u32`.
    pub fn read_u32(&mut self) -> (r: Result<u32, ReadError>)
        ensures
            final(self).data == old(self).data,
            match r {
                Ok(v) => fits(old(self).data@, old(self).position as int, 4) && v == u32_at(
                    old(self).data@,
                    old(self).position as int,
                ) && final(self).position == old(self).position + 4,
                Err(e) => !fits(old(self).data@, old(self).position as int, 4) && e
                    == ReadError::TruncatedInput && final(self).position == old(self).position,
            },
    {
        match self.read_u32s(1) {
            Ok(words) => {
                assert(words@[0] == u32s_at(old(self).data@, old(self).position as int, 1)[0]);
                proof {
                    crate::le::lemma_u32_le_bytes(
                        bytes_at(old(self).data@, old(self).position as int, 4),
                    );
                }
                Ok(words[0])
            },
            Err(e) => Err(e),
        }
    }

    /// Reads `count` little-endian `u32` words.
    pub fn read_u32s(&mut self, count: usize) -> (r: Result<Vec<u32>, ReadError>)
        ensures
            final(self).data == old(self).data,
            match r {
                Ok(v) => fits(old(self).data@, old(self).position as int, 4 * count) && v@
                    == u32s_at(old(self).data@, old(self).position as int, count as nat)
                    && final(self).position == old(self).position + 4 * count,
                Err(e) => !fits(old(self).data@, old(self).position as int, 4 * count) && e
                    == ReadError::TruncatedInput && final(self).position == old(self).position,
            },
    {
        if self.position > self.data.len() || count > (self.data.len() - self.position) / 4 {
            return Err(ReadError::TruncatedInput);
        }
        let end = self.position + 4 * count;
        let src = &self.data[self.position..end];
        let v = read_u32s_le(src, count);
        proof {
            let s = self.data@;
            let p = self.position as int;
            assert forall|i: int| 0 <= i < count implies v@[i] == u32s_at(s, p, count as nat)[i] by {
                assert(src@.subrange(4 * i, 4 * i + 4) =~= bytes_at(s, p + 4 * i, 4));
            }
            assert(v@ =~= u32s_at(s, p, count as nat));
        }
        self.position = end;
        Ok(v)
    }
}

impl<'a> ReadExt for Cursor<'a> {
    open spec fn bytes(&self) -> Seq<u8> {
        self.data@
    }

    open spec fn pos(&self) -> int {
        self.position as int
    }

    fn consumeZeros(&mut self, zerosCount: usize) -> (r: Result<(), ReadError>) {
        if !self.has(zerosCount) {
            return Err(ReadError::TruncatedInput);
        }
        let start = self.position;
        let mut i: usize = 0;
        while i < zerosCount
            invariant
                i <= zerosCount,
                start == self.position,
                fits(self.data@, start as int, zerosCount as int),
                self.data@.len() <= usize::MAX,
                forall|k: int| 0 <= k < i ==> #[trigger] self.data@[start + k] == 0,
            decreases zerosCount - i,
        {
            if self.data[start + i] != 0 {
                proof {
                    assert(bytes_at(self.data@, start as int, zerosCount as int)[i as int] != 0);
                }
                return Err(ReadError::MalformedStructure);
            }
            i = i + 1;
        }
        assert(all_zero(bytes_at(self.data@, start as int, zerosCount as int))) by {
            assert forall|k: int| 0 <= k < zerosCount implies bytes_at(
                self.data@,
                start as int,
                zerosCount as int,
            )[k] == 0 by {
                assert(self.data@[start + k] == 0);
            }
        }
        self.position = start + zerosCount;
        Ok(())
    }

    fn read_u8_array<const N: usize>(&mut self) -> (r: Result<[u8; N], ReadError>) {
        if !self.has(N) {
            return Err(ReadError::TruncatedInput);
        }
        match array_from_slice::<N>(&self.data[self.position..self.position + N]) {
            Some(a) => {
                self.position = self.position + N;
                Ok(a)
            },
            None => Err(ReadError::TruncatedInput),
        }
    }

    fn remaining(&self) -> (r: usize) {
        if self.position <= self.data.len() {
            self.data.len() - self.position
        } else {
            0
        }
    }
}

/// Writes that the tile and map formats need beyond plain integers.
pub trait WriteExt {
    /// What has been written so far.
    spec fn written(&self) -> Seq<u8>;

    /// Appends `zerosCount` zero bytes.
    fn writeZeros(&mut self, zerosCount: usize)
        ensures
            final(self).written() == old(self).written() + zeros(zerosCount as nat),
    ;
}

impl WriteExt for Vec<u8> {
    open spec fn written(&self) -> Seq<u8> {
        self@
    }

    fn writeZeros(&mut self, zerosCount: usize) {
        let mut i: usize = 0;
        while i < zerosCount
            invariant
                i <= zerosCount,
                self@ == old(self)@ + zeros(i as nat),
            decreases zerosCount - i,
        {
            self.push(0u8);
            i = i + 1;
            assert(self@ =~= old(self)@ + zeros(i as nat));
        }
    }
}

/// Appends one byte.
pub fn write_u8(out: &mut Vec<u8>, n: u8)
    ensures
        final(out)@ == old(out)@.push(n),
{
    out.push(n);
}

/// Appends a little-endian `i16`.
pub fn write_i16(out: &mut Vec<u8>, n: i16)
    ensures
        final(out)@ == old(out)@ + i16_to_le(n as int),
{
    write_i16_le(out, n);
}

/// Appends a little-endian `i32`.
pub fn write_i32(out: &mut Vec<u8>, n: i32)
    ensures
        final(out)@ == old(out)@ + i32_to_le(n as int),
{
    write_i32_le(out, n);
}

/// Appends all of `bytes`.
pub fn write_all(out: &mut Vec<u8>, bytes: &[u8])
    ensures
        final(out)@ == old(out)@ + bytes@,
{
    let mut i: usize = 0;
    while i < bytes.len()
        invariant
            i <= bytes@.len(),
            out@ == old(out)@ + bytes@.subrange(0, i as int),
        decreases bytes@.len() - i,
    {
        out.push(bytes[i]);
        i = i + 1;
        assert(out@ =~= old(out)@ + bytes@.subrange(0, i as int));
    }
    assert(bytes@.subrange(0, bytes@.len() as int) =~= bytes@);
}

} // verus!
