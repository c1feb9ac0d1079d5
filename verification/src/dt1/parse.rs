//! Reading the container.

use crate::cursor::{
    arr, bytes_at, fits, i16_at, i32_at, lemma_arr, zeros_at, Cursor, ReadError, ReadExt,
};
use crate::dt1::{
    Block, Error, FileHeader, Metadata, MetadataView, Tile, TileHeader, TileView,
    VersionMismatchError,
};
use vstd::prelude::*;

verus! {

/// The error of the container that stands for an error of a read.
pub open spec fn lift(e: ReadError) -> Error {
    match e {
        ReadError::TruncatedInput => Error::TruncatedInput,
        ReadError::MalformedStructure => Error::MalformedStructure,
    }
}

/// The error of the container that stands for an error of a read.
pub fn liftError(e: ReadError) -> (r: Error)
    ensures
        r == lift(e),
{
    match e {
        ReadError::TruncatedInput => Error::TruncatedInput,
        ReadError::MalformedStructure => Error::MalformedStructure,
    }
}

/// The pair of numbers as an array.
pub open spec fn pair(a: i32, b: i32) -> [i32; 2] {
    choose|v: [i32; 2]| v[0] == a && v[1] == b
}

/// An array of two numbers is the pair of them.
pub proof fn lemma_pair(v: [i32; 2])
    ensures
        pair(v[0], v[1]) == v,
{
    let w = pair(v[0], v[1]);
    assert(w[0] == v[0] && w[1] == v[1]);
    assert(w@ =~= v@);
    assert(w =~= v);
}

/// The fields of the tile header stored at `p`.
pub open spec fn tile_header_at(s: Seq<u8>, p: int) -> TileHeader {
    TileHeader {
        direction: i32_at(s, p) as i32,
        roofHeight: i16_at(s, p + 4) as i16,
        materialFlags: arr::<2>(bytes_at(s, p + 6, 2)),
        height: i32_at(s, p + 8) as i32,
        width: i32_at(s, p + 12) as i32,
        orientation: i32_at(s, p + 20) as i32,
        mainIndex: i32_at(s, p + 24) as i32,
        subIndex: i32_at(s, p + 28) as i32,
        rarityOrFrameIndex: i32_at(s, p + 32) as i32,
        unknown: arr::<4>(bytes_at(s, p + 36, 4)),
        subtileFlags: arr::<25>(bytes_at(s, p + 40, 25)),
        blockHeadersPointer: i32_at(s, p + 72) as i32,
        blocksDataLength: i32_at(s, p + 76) as i32,
        usuallyZeros: arr::<4>(bytes_at(s, p + 88, 4)),
    }
}

/// The number of blocks that the tile header stored at `p` declares.
pub open spec fn num_blocks_at(s: Seq<u8>, p: int) -> int {
    i32_at(s, p + 80)
}

/// Whether a tile header can be read at `p`: its 96 bytes are there, its
/// runs of zeros hold zeros, and the number of its blocks is not negative.
pub open spec fn tile_header_check(s: Seq<u8>, p: int) -> Result<(), ReadError> {
    if !fits(s, p, 96) {
        Err(ReadError::TruncatedInput)
    } else if zeros_at(s, p + 16, 4) is Err || zeros_at(s, p + 65, 7) is Err || zeros_at(
        s,
        p + 84,
        4,
    ) is Err || zeros_at(s, p + 92, 4) is Err || num_blocks_at(s, p) < 0 {
        Err(ReadError::MalformedStructure)
    } else {
        Ok(())
    }
}

/// The block header stored at `p`.
pub open spec fn block_at(s: Seq<u8>, p: int) -> Block {
    Block {
        x: i16_at(s, p) as i16,
        y: i16_at(s, p + 2) as i16,
        gridX: s[p + 6],
        gridY: s[p + 7],
        format: arr::<2>(bytes_at(s, p + 8, 2)),
        length: i32_at(s, p + 10) as i32,
        fileOffset: i32_at(s, p + 16) as i32,
    }
}

/// Whether a block header can be read at `p`: its 20 bytes are there and
/// its runs of zeros hold zeros.
pub open spec fn block_check(s: Seq<u8>, p: int) -> Result<(), ReadError> {
    if !fits(s, p, 20) {
        Err(ReadError::TruncatedInput)
    } else if zeros_at(s, p + 4, 2) is Err || zeros_at(s, p + 14, 2) is Err {
        Err(ReadError::MalformedStructure)
    } else {
        Ok(())
    }
}

/// The first `k` tile headers, which start at byte 276, each with the
/// number of its blocks.
pub open spec fn parse_headers(s: Seq<u8>, k: int) -> Result<Seq<(TileHeader, int)>, ReadError>
    decreases k,
{
    if k <= 0 {
        Ok(Seq::empty())
    } else {
        match parse_headers(s, k - 1) {
            Err(e) => Err(e),
            Ok(heads) => match tile_header_check(s, 276 + 96 * (k - 1)) {
                Err(e) => Err(e),
                Ok(_) => Ok(
                    heads.push(
                        (
                            tile_header_at(s, 276 + 96 * (k - 1)),
                            num_blocks_at(s, 276 + 96 * (k - 1)),
                        ),
                    ),
                ),
            },
        }
    }
}

/// The first `k` block headers from `p` on.
pub open spec fn parse_blocks(s: Seq<u8>, p: int, k: int) -> Result<Seq<Block>, ReadError>
    decreases k,
{
    if k <= 0 {
        Ok(Seq::empty())
    } else {
        match parse_blocks(s, p, k - 1) {
            Err(e) => Err(e),
            Ok(blocks) => match block_check(s, p + 20 * (k - 1)) {
                Err(e) => Err(e),
                Ok(_) => Ok(blocks.push(block_at(s, p + 20 * (k - 1)))),
            },
        }
    }
}

/// The sum of the lengths that the first `k` blocks declare.
pub open spec fn sum_lengths(blocks: Seq<Block>, k: int) -> int
    decreases k,
{
    if k <= 0 {
        0
    } else {
        sum_lengths(blocks, k - 1) + blocks[k - 1].length
    }
}

/// The tile whose block headers start at `q`, and the place after its
/// payloads. The tile header must point at `q`; the payloads take as many
/// bytes as the block headers declare together.
pub open spec fn tile_at(s: Seq<u8>, q: int, head: (TileHeader, int)) -> Result<
    (TileView, int),
    ReadError,
> {
    if head.0.blockHeadersPointer != q {
        Err(ReadError::MalformedStructure)
    } else {
        match parse_blocks(s, q, head.1) {
            Err(e) => Err(e),
            Ok(blocks) => {
                let total = sum_lengths(blocks, head.1);
                if total < 0 {
                    Err(ReadError::MalformedStructure)
                } else if !fits(s, q + 20 * head.1, total) {
                    Err(ReadError::TruncatedInput)
                } else {
                    Ok((TileView { head: head.0, blocks }, q + 20 * head.1 + total))
                }
            },
        }
    }
}

/// The first `k` tiles, which start after the tile headers, and the place
/// after them.
pub open spec fn parse_tiles(s: Seq<u8>, heads: Seq<(TileHeader, int)>, k: int) -> Result<
    (Seq<TileView>, int),
    ReadError,
>
    decreases k,
{
    if k <= 0 {
        Ok((Seq::empty(), 276 + 96 * (heads.len() as int)))
    } else {
        match parse_tiles(s, heads, k - 1) {
            Err(e) => Err(e),
            Ok((tiles, q)) => match tile_at(s, q, heads[k - 1]) {
                Err(e) => Err(e),
                Ok((tile, next)) => Ok((tiles.push(tile), next)),
            },
        }
    }
}

/// What follows the first 276 bytes: the tile headers, and for each tile
/// its block headers and payloads, up to the end of the buffer.
pub open spec fn parse_body(s: Seq<u8>, n: int) -> Result<Seq<TileView>, ReadError> {
    match parse_headers(s, n) {
        Err(e) => Err(e),
        Ok(heads) => match parse_tiles(s, heads, n) {
            Err(e) => Err(e),
            Ok((tiles, end)) => if end != s.len() {
                Err(ReadError::MalformedStructure)
            } else {
                Ok(tiles)
            },
        },
    }
}

/// The container that the bytes hold, or why there is none: the version
/// `[7, 6]`, 260 zero bytes, the number of tiles, the pointer to the tile
/// headers, which is 276, and then the tiles.
pub open spec fn parse(s: Seq<u8>) -> Result<MetadataView, Error> {
    if !fits(s, 0, 8) {
        Err(Error::TruncatedInput)
    } else if i32_at(s, 0) != 7 || i32_at(s, 4) != 6 {
        Err(
            Error::VersionMismatch(
                VersionMismatchError { version: pair(i32_at(s, 0) as i32, i32_at(s, 4) as i32) },
            ),
        )
    } else if zeros_at(s, 8, 260) is Err {
        Err(lift(zeros_at(s, 8, 260)->Err_0))
    } else if !fits(s, 268, 4) {
        Err(Error::TruncatedInput)
    } else if i32_at(s, 268) < 0 {
        Err(Error::MalformedStructure)
    } else if !fits(s, 272, 4) {
        Err(Error::TruncatedInput)
    } else if i32_at(s, 272) != 276 {
        Err(Error::MalformedStructure)
    } else {
        finish(parse_body(s, i32_at(s, 268)))
    }
}

/// The container with the given tiles, or the error that reading them gave.
pub open spec fn finish(r: Result<Seq<TileView>, ReadError>) -> Result<MetadataView, Error> {
    match r {
        Err(e) => Err(lift(e)),
        Ok(tiles) => Ok(
            MetadataView {
                fileHeader: FileHeader { version: pair(7, 6), tileHeadersPointer: 276 },
                tiles,
            },
        ),
    }
}

/// Reads an `i32` that is known to be there.
pub fn take_i32(cursor: &mut Cursor) -> (v: i32)
    requires
        fits(old(cursor).data@, old(cursor).position as int, 4),
    ensures
        final(cursor).data == old(cursor).data,
        final(cursor).position == old(cursor).position + 4,
        v == i32_at(old(cursor).data@, old(cursor).position as int),
{
    match cursor.read_i32() {
        Ok(v) => v,
        Err(_) => 0,
    }
}

/// Reads an `i16` that is known to be there.
pub fn take_i16(cursor: &mut Cursor) -> (v: i16)
    requires
        fits(old(cursor).data@, old(cursor).position as int, 2),
    ensures
        final(cursor).data == old(cursor).data,
        final(cursor).position == old(cursor).position + 2,
        v == i16_at(old(cursor).data@, old(cursor).position as int),
{
    match cursor.read_i16() {
        Ok(v) => v,
        Err(_) => 0,
    }
}

/// Reads a byte that is known to be there.
pub fn take_u8(cursor: &mut Cursor) -> (v: u8)
    requires
        fits(old(cursor).data@, old(cursor).position as int, 1),
    ensures
        final(cursor).data == old(cursor).data,
        final(cursor).position == old(cursor).position + 1,
        v == old(cursor).data@[old(cursor).position as int],
{
    match cursor.read_u8() {
        Ok(v) => v,
        Err(_) => 0,
    }
}

/// Reads an array of bytes that is known to be there.
pub fn take_array<const N: usize>(cursor: &mut Cursor, or: [u8; N]) -> (v: [u8; N])
    requires
        fits(old(cursor).data@, old(cursor).position as int, N as int),
    ensures
        final(cursor).data == old(cursor).data,
        final(cursor).position == old(cursor).position + N,
        v == arr::<N>(bytes_at(old(cursor).data@, old(cursor).position as int, N as int)),
{
    match cursor.read_u8_array::<N>() {
        Ok(v) => {
            proof {
                lemma_arr(v);
            }
            v
        },
        Err(_) => or,
    }
}

/// Skips `n` bytes that are known to be there and must be zero.
pub fn take_zeros(cursor: &mut Cursor, n: usize) -> (r: Result<(), ReadError>)
    requires
        fits(old(cursor).data@, old(cursor).position as int, n as int),
    ensures
        final(cursor).data == old(cursor).data,
        final(cursor).position == old(cursor).position + n,
        r == zeros_at(old(cursor).data@, old(cursor).position as int, n as int),
        r is Err ==> r->Err_0 == ReadError::MalformedStructure,
{
    let at = cursor.position;
    let there = cursor.has(n);
    assert(there);
    let r = cursor.consumeZeros(n);
    cursor.position = at + n;
    r
}

/// The tile header at the cursor and the number of its blocks.
pub fn readTileHeader(cursor: &mut Cursor) -> (r: Result<(TileHeader, usize), ReadError>)
    ensures
        final(cursor).data == old(cursor).data,
        match r {
            Ok((h, n)) => tile_header_check(old(cursor).data@, old(cursor).position as int) is Ok
                && h == tile_header_at(old(cursor).data@, old(cursor).position as int) && n
                == num_blocks_at(old(cursor).data@, old(cursor).position as int) && n <= i32::MAX
                && final(cursor).position == old(cursor).position + 96,
            Err(e) => tile_header_check(old(cursor).data@, old(cursor).position as int) == Err::<
                (),
                ReadError,
            >(e),
        },
{
    if !cursor.has(96) {
        return Err(ReadError::TruncatedInput);
    }
    let direction = take_i32(cursor);
    let roofHeight = take_i16(cursor);
    let materialFlags = take_array::<2>(cursor, [0u8, 0u8]);
    let height = take_i32(cursor);
    let width = take_i32(cursor);
    let z1 = take_zeros(cursor, 4);
    let orientation = take_i32(cursor);
    let mainIndex = take_i32(cursor);
    let subIndex = take_i32(cursor);
    let rarityOrFrameIndex = take_i32(cursor);
    let unknown = take_array::<4>(cursor, [0u8, 0u8, 0u8, 0u8]);
    let subtileFlags = take_array::<25>(
        cursor,
        [
            0u8,
            0u8,
            0u8,
            0u8,
            0u8,
            0u8,
            0u8,
            0u8,
            0u8,
            0u8,
            0u8,
            0u8,
            0u8,
            0u8,
            0u8,
            0u8,
            0u8,
            0u8,
            0u8,
            0u8,
            0u8,
            0u8,
            0u8,
            0u8,
            0u8,
        ],
    );
    let z2 = take_zeros(cursor, 7);
    let blockHeadersPointer = take_i32(cursor);
    let blocksDataLength = take_i32(cursor);
    let numBlocks = take_i32(cursor);
    let z3 = take_zeros(cursor, 4);
    let usuallyZeros = take_array::<4>(cursor, [0u8, 0u8, 0u8, 0u8]);
    let z4 = take_zeros(cursor, 4);
    if z1.is_err() || z2.is_err() || z3.is_err() || z4.is_err() || numBlocks < 0 {
        return Err(ReadError::MalformedStructure);
    }
    Ok(
        (
            TileHeader {
                direction,
                roofHeight,
                materialFlags,
                height,
                width,
                orientation,
                mainIndex,
                subIndex,
                rarityOrFrameIndex,
                unknown,
                subtileFlags,
                blockHeadersPointer,
                blocksDataLength,
                usuallyZeros,
            },
            numBlocks as usize,
        ),
    )
}

/// The block header at the cursor.
pub fn readBlockHeader(cursor: &mut Cursor) -> (r: Result<Block, ReadError>)
    ensures
        final(cursor).data == old(cursor).data,
        match r {
            Ok(b) => block_check(old(cursor).data@, old(cursor).position as int) is Ok && b
                == block_at(old(cursor).data@, old(cursor).position as int) && final(cursor).position == old(cursor).position + 20,
            Err(e) => block_check(old(cursor).data@, old(cursor).position as int) == Err::<
                (),
                ReadError,
            >(e),
        },
{
    if !cursor.has(20) {
        return Err(ReadError::TruncatedInput);
    }
    let x = take_i16(cursor);
    let y = take_i16(cursor);
    let z1 = take_zeros(cursor, 2);
    let gridX = take_u8(cursor);
    let gridY = take_u8(cursor);
    let format = take_array::<2>(cursor, [0u8, 0u8]);
    let length = take_i32(cursor);
    let z2 = take_zeros(cursor, 2);
    let fileOffset = take_i32(cursor);
    if z1.is_err() || z2.is_err() {
        return Err(ReadError::MalformedStructure);
    }
    Ok(Block { x, y, gridX, gridY, format, length, fileOffset })
}

/// Once a tile header cannot be read, the list cannot be read.
pub proof fn lemma_headers_err(s: Seq<u8>, k: int, n: int)
    requires
        0 <= k <= n,
        parse_headers(s, k) is Err,
    ensures
        parse_headers(s, n) == parse_headers(s, k),
    decreases n,
{
    if k < n {
        lemma_headers_err(s, k, n - 1);
    }
}

/// Once a block header cannot be read, the list cannot be read.
pub proof fn lemma_blocks_err(s: Seq<u8>, p: int, k: int, n: int)
    requires
        0 <= k <= n,
        parse_blocks(s, p, k) is Err,
    ensures
        parse_blocks(s, p, n) == parse_blocks(s, p, k),
    decreases n,
{
    if k < n {
        lemma_blocks_err(s, p, k, n - 1);
    }
}

/// Once a tile cannot be read, the list cannot be read.
pub proof fn lemma_tiles_err(s: Seq<u8>, heads: Seq<(TileHeader, int)>, k: int, n: int)
    requires
        0 <= k <= n,
        parse_tiles(s, heads, k) is Err,
    ensures
        parse_tiles(s, heads, n) == parse_tiles(s, heads, k),
    decreases n,
{
    if k < n {
        lemma_tiles_err(s, heads, k, n - 1);
    }
}

/// The `n` tile headers at the cursor, which stands at byte 276.
pub fn readTileHeaders(cursor: &mut Cursor, n: usize) -> (r: Result<
    Vec<(TileHeader, usize)>,
    ReadError,
>)
    requires
        old(cursor).position == 276,
    ensures
        final(cursor).data == old(cursor).data,
        match r {
            Ok(h) => parse_headers(old(cursor).data@, n as int) == Ok::<
                Seq<(TileHeader, int)>,
                ReadError,
            >(Seq::new(h@.len(), |i: int| (h@[i].0, h@[i].1 as int))) && h@.len() == n && final(cursor).position == 276 + 96 * n && forall|i: int|
                0 <= i < n ==> (#[trigger] h@[i]).1 <= i32::MAX,
            Err(e) => parse_headers(old(cursor).data@, n as int) == Err::<
                Seq<(TileHeader, int)>,
                ReadError,
            >(e),
        },
{
    let ghost s = cursor.data@;
    let mut heads: Vec<(TileHeader, usize)> = Vec::new();
    let ghost mut views: Seq<(TileHeader, int)> = Seq::empty();
    let mut i: usize = 0;
    while i < n
        invariant
            i <= n,
            cursor.data == old(cursor).data,
            s == cursor.data@,
            cursor.position == 276 + 96 * i,
            heads@.len() == i,
            forall|k: int| 0 <= k < i ==> (#[trigger] heads@[k]).1 <= i32::MAX,
            views == Seq::new(heads@.len(), |i: int| (heads@[i].0, heads@[i].1 as int)),
            parse_headers(s, i as int) == Ok::<Seq<(TileHeader, int)>, ReadError>(views),
        decreases n - i,
    {
        match readTileHeader(cursor) {
            Err(e) => {
                proof {
                    lemma_headers_err(s, i + 1, n as int);
                }
                return Err(e);
            },
            Ok(h) => {
                proof {
                    views = views.push((h.0, h.1 as int));
                }
                heads.push(h);
                assert(views =~= Seq::new(heads@.len(), |i: int| (heads@[i].0, heads@[i].1 as int)));
            },
        }
        i = i + 1;
    }
    Ok(heads)
}

/// The `n` block headers at the cursor, and the sum of the lengths that
/// they declare.
pub fn readBlockHeaders(cursor: &mut Cursor, n: usize) -> (r: Result<(Vec<Block>, i64), ReadError>)
    requires
        n <= i32::MAX,
    ensures
        final(cursor).data == old(cursor).data,
        match r {
            Ok((b, total)) => parse_blocks(
                old(cursor).data@,
                old(cursor).position as int,
                n as int,
            ) == Ok::<Seq<Block>, ReadError>(b@) && b@.len() == n && total == sum_lengths(
                b@,
                n as int,
            ) && final(cursor).position == old(cursor).position + 20 * n,
            Err(e) => parse_blocks(old(cursor).data@, old(cursor).position as int, n as int)
                == Err::<Seq<Block>, ReadError>(e),
        },
{
    let ghost s = cursor.data@;
    let ghost p = cursor.position as int;
    let mut blocks: Vec<Block> = Vec::new();
    let mut total: i64 = 0;
    let mut i: usize = 0;
    while i < n
        invariant
            i <= n <= i32::MAX,
            cursor.data == old(cursor).data,
            s == cursor.data@,
            p == old(cursor).position,
            cursor.position == p + 20 * i,
            blocks@.len() == i,
            parse_blocks(s, p, i as int) == Ok::<Seq<Block>, ReadError>(blocks@),
            total == sum_lengths(blocks@, i as int),
            -0x8000_0000 * i <= total <= 0x8000_0000 * i,
        decreases n - i,
    {
        match readBlockHeader(cursor) {
            Err(e) => {
                proof {
                    lemma_blocks_err(s, p, i + 1, n as int);
                }
                return Err(e);
            },
            Ok(b) => {
                let ghost before = blocks@;
                blocks.push(b);
                proof {
                    lemma_sum_lengths_prefix(before, blocks@, i as int);
                }
                total = total + b.length as i64;
            },
        }
        i = i + 1;
    }
    Ok((blocks, total))
}

/// The sum of the first lengths does not depend on the blocks that follow.
pub proof fn lemma_sum_lengths_prefix(a: Seq<Block>, b: Seq<Block>, k: int)
    requires
        0 <= k <= a.len() <= b.len(),
        forall|i: int| 0 <= i < k ==> a[i] == b[i],
    ensures
        sum_lengths(a, k) == sum_lengths(b, k),
    decreases k,
{
    if k > 0 {
        lemma_sum_lengths_prefix(a, b, k - 1);
    }
}

/// The tile whose block headers start at the cursor.
pub fn readTile(cursor: &mut Cursor, head: &(TileHeader, usize)) -> (r: Result<Tile, ReadError>)
    requires
        head.1 <= i32::MAX,
    ensures
        final(cursor).data == old(cursor).data,
        match r {
            Ok(t) => tile_at(
                old(cursor).data@,
                old(cursor).position as int,
                (head.0, head.1 as int),
            ) == Ok::<(TileView, int), ReadError>((t@, final(cursor).position as int)),
            Err(e) => tile_at(
                old(cursor).data@,
                old(cursor).position as int,
                (head.0, head.1 as int),
            ) == Err::<(TileView, int), ReadError>(e),
        },
{
    let len = cursor.data.len();
    if head.0.blockHeadersPointer < 0 || head.0.blockHeadersPointer as usize != cursor.position {
        return Err(ReadError::MalformedStructure);
    }
    match readBlockHeaders(cursor, head.1) {
        Err(e) => Err(e),
        Ok((blocks, total)) => {
            if total < 0 {
                return Err(ReadError::MalformedStructure);
            }
            if cursor.position > len || total as u64 > (len - cursor.position) as u64 {
                return Err(ReadError::TruncatedInput);
            }
            cursor.position = cursor.position + total as usize;
            Ok(Tile::fromHeader(head.0, blocks))
        },
    }
}

impl Metadata {
    /// Reads a container. The payloads of the blocks are passed over.
    pub fn new(dt1: &[u8]) -> (r: Result<Self, Error>)
        ensures
            match r {
                Ok(m) => parse(dt1@) == Ok::<MetadataView, Error>(m@),
                Err(e) => parse(dt1@) == Err::<MetadataView, Error>(e),
            },
    {
        let mut cursor = Cursor::new(dt1);
        let ghost s = dt1@;
        if !cursor.has(8) {
            return Err(Error::TruncatedInput);
        }
        let v0 = take_i32(&mut cursor);
        let v1 = take_i32(&mut cursor);
        if v0 != 7 || v1 != 6 {
            let version = [v0, v1];
            proof {
                lemma_pair(version);
            }
            return Err(Error::VersionMismatch(VersionMismatchError { version }));
        }
        match cursor.consumeZeros(260) {
            Err(e) => {
                return Err(liftError(e));
            },
            Ok(_) => {},
        }
        if !cursor.has(4) {
            return Err(Error::TruncatedInput);
        }
        let numTiles = take_i32(&mut cursor);
        if numTiles < 0 {
            return Err(Error::MalformedStructure);
        }
        if !cursor.has(4) {
            return Err(Error::TruncatedInput);
        }
        let tileHeadersPointer = take_i32(&mut cursor);
        if tileHeadersPointer != 276 {
            return Err(Error::MalformedStructure);
        }
        let n = numTiles as usize;
        let heads = match readTileHeaders(&mut cursor, n) {
            Err(e) => {
                return Err(liftError(e));
            },
            Ok(h) => h,
        };
        let ghost views = Seq::new(heads@.len(), |i: int| (heads@[i].0, heads@[i].1 as int));
        let mut tiles: Vec<Tile> = Vec::new();
        let ghost mut done: Seq<TileView> = Seq::empty();
        let mut t: usize = 0;
        while t < n
            invariant
                t <= n == heads@.len(),
                s == dt1@,
                cursor.data@ == s,
                parse(s) == finish(parse_body(s, n as int)),
                views == Seq::new(heads@.len(), |i: int| (heads@[i].0, heads@[i].1 as int)),
                parse_headers(s, n as int) == Ok::<Seq<(TileHeader, int)>, ReadError>(views),
                done == Seq::new(tiles@.len(), |i: int| tiles@[i]@),
                parse_tiles(s, views, t as int) == Ok::<(Seq<TileView>, int), ReadError>(
                    (done, cursor.position as int),
                ),
                forall|i: int| 0 <= i < n ==> 0 <= (#[trigger] heads@[i]).1 <= i32::MAX,
            decreases n - t,
        {
            assert(views[t as int] == (heads@[t as int].0, heads@[t as int].1 as int));
            match readTile(&mut cursor, &heads[t]) {
                Err(e) => {
                    proof {
                        lemma_tiles_err(s, views, t + 1, n as int);
                    }
                    return Err(liftError(e));
                },
                Ok(tile) => {
                    proof {
                        done = done.push(tile@);
                    }
                    tiles.push(tile);
                    assert(done =~= Seq::new(tiles@.len(), |i: int| tiles@[i]@));
                },
            }
            t = t + 1;
        }
        if cursor.position != dt1.len() {
            return Err(Error::MalformedStructure);
        }
        let version = [7i32, 6i32];
        proof {
            lemma_pair(version);
        }
        let m = Metadata { fileHeader: FileHeader { version, tileHeadersPointer: 276 }, tiles };
        assert(m@.tiles =~= done);
        Ok(m)
    }
}

} // verus!
