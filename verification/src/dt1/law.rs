//! A container that is written and read again is the same container.

use crate::cursor::{arr, bytes_at, fits, i16_at, i32_at, lemma_arr, zeros_at, ReadError};
use crate::dt1::emit::{
    counts_fit, ser_block, ser_block_headers, ser_bodies, ser_file_header, ser_tile_header,
    ser_tile_headers, serialize,
};
use crate::dt1::parse::{
    block_at, block_check, lemma_pair, num_blocks_at, pair, parse, parse_blocks,
    parse_body, parse_headers, parse_tiles, sum_lengths, tile_at, tile_header_at,
    tile_header_check,
};
use crate::dt1::layout::{
    bodies_of, can_emit, emit_bytes, encode_block, block_corner, laid_out,
    laid_out_block, laid_out_tile, lemma_tile_body_grows, lemma_tile_pointer, min_y, slot_corner,
    tile_at as nth_tile, tile_body, tile_fits, tile_pointer,
};
use crate::dt1::{Block, Error, FileHeader, MetadataView, TileHeader, TileView};
use crate::image::Image;
use crate::le::{lemma_le_len, 
    all_zero, i16_to_le, i32_to_le, lemma_i16_le_roundtrip, lemma_i32_le_roundtrip, zeros,
};
use vstd::prelude::*;

verus! {

/// A 32-bit number that lies at `o` in a block lies at `p + o` in a buffer
/// that holds the block at `p`.
pub proof fn lemma_field(s: Seq<u8>, p: int, block: Seq<u8>, o: int, v: int)
    requires
        fits(s, p, block.len() as int),
        bytes_at(s, p, block.len() as int) == block,
        0 <= o,
        o + 4 <= block.len(),
        block.subrange(o, o + 4) == i32_to_le(v),
        i32::MIN <= v <= i32::MAX,
    ensures
        i32_at(s, p + o) == v,
{
    lemma_le_len();
    lemma_i32_le_roundtrip(v, Seq::empty());
    assert(i32_to_le(v) + Seq::<u8>::empty() =~= i32_to_le(v));
    assert(bytes_at(s, p + o, 4) =~= block.subrange(o, o + 4));
}

/// A 16-bit number that lies at `o` in a block lies at `p + o` in a buffer
/// that holds the block at `p`.
pub proof fn lemma_field16(s: Seq<u8>, p: int, block: Seq<u8>, o: int, v: int)
    requires
        fits(s, p, block.len() as int),
        bytes_at(s, p, block.len() as int) == block,
        0 <= o,
        o + 2 <= block.len(),
        block.subrange(o, o + 2) == i16_to_le(v),
        i16::MIN <= v <= i16::MAX,
    ensures
        i16_at(s, p + o) == v,
{
    lemma_le_len();
    lemma_i16_le_roundtrip(v, Seq::empty());
    assert(i16_to_le(v) + Seq::<u8>::empty() =~= i16_to_le(v));
    assert(bytes_at(s, p + o, 2) =~= block.subrange(o, o + 2));
}

/// Bytes that lie at `o` in a block lie at `p + o` in a buffer that holds
/// the block at `p`.
pub proof fn lemma_inner(s: Seq<u8>, p: int, block: Seq<u8>, o: int, n: int)
    requires
        fits(s, p, block.len() as int),
        bytes_at(s, p, block.len() as int) == block,
        0 <= o,
        0 <= n,
        o + n <= block.len(),
    ensures
        fits(s, p + o, n),
        bytes_at(s, p + o, n) == block.subrange(o, o + n),
{
    assert(bytes_at(s, p + o, n) =~= block.subrange(o, o + n));
}

/// A run of zeros that lies at `o` in a block is found at `p + o` in a
/// buffer that holds the block at `p`.
pub proof fn lemma_zero_run(s: Seq<u8>, p: int, block: Seq<u8>, o: int, n: nat)
    requires
        fits(s, p, block.len() as int),
        bytes_at(s, p, block.len() as int) == block,
        0 <= o,
        o + n <= block.len(),
        block.subrange(o, o + n) == zeros(n),
    ensures
        zeros_at(s, p + o, n as int) is Ok,
{
    lemma_inner(s, p, block, o, n as int);
    assert(all_zero(zeros(n)));
}

/// An array that lies at `o` in a block is read at `p + o` in a buffer that
/// holds the block at `p`.
pub proof fn lemma_array<const N: usize>(s: Seq<u8>, p: int, block: Seq<u8>, o: int, a: [u8; N])
    requires
        fits(s, p, block.len() as int),
        bytes_at(s, p, block.len() as int) == block,
        0 <= o,
        o + N <= block.len(),
        block.subrange(o, o + N) == a@,
    ensures
        arr::<N>(bytes_at(s, p + o, N as int)) == a,
{
    lemma_inner(s, p, block, o, N as int);
    lemma_arr(a);
}

/// Where the fields of a block header lie in its 20 bytes.
pub proof fn lemma_block_layout(b: Block)
    ensures
        ser_block(b).len() == 20,
        ser_block(b).subrange(0, 2) == i16_to_le(b.x as int),
        ser_block(b).subrange(2, 4) == i16_to_le(b.y as int),
        ser_block(b).subrange(4, 6) == zeros(2),
        ser_block(b)[6] == b.gridX,
        ser_block(b)[7] == b.gridY,
        ser_block(b).subrange(8, 10) == b.format@,
        ser_block(b).subrange(10, 14) == i32_to_le(b.length as int),
        ser_block(b).subrange(14, 16) == zeros(2),
        ser_block(b).subrange(16, 20) == i32_to_le(b.fileOffset as int),
{
    lemma_le_len();
    let r = ser_block(b);
    assert(b.format@.len() == 2);
    assert(r.len() == 20);
    assert(r.subrange(0, 2) =~= i16_to_le(b.x as int));
    assert(r.subrange(2, 4) =~= i16_to_le(b.y as int));
    assert(r.subrange(4, 6) =~= zeros(2));
    assert(r.subrange(8, 10) =~= b.format@);
    assert(r.subrange(10, 14) =~= i32_to_le(b.length as int));
    assert(r.subrange(14, 16) =~= zeros(2));
    assert(r.subrange(16, 20) =~= i32_to_le(b.fileOffset as int));
}

/// A block header is read as it was written.
pub proof fn lemma_block(s: Seq<u8>, p: int, b: Block)
    requires
        fits(s, p, 20),
        bytes_at(s, p, 20) == ser_block(b),
    ensures
        block_check(s, p) is Ok,
        block_at(s, p) == b,
{
    lemma_le_len();
    let r = ser_block(b);
    lemma_block_layout(b);
    lemma_field16(s, p, r, 0, b.x as int);
    lemma_field16(s, p, r, 2, b.y as int);
    lemma_zero_run(s, p, r, 4, 2);
    assert(s[p + 6] == bytes_at(s, p, 20)[6]);
    assert(s[p + 7] == bytes_at(s, p, 20)[7]);
    lemma_array::<2>(s, p, r, 8, b.format);
    lemma_field(s, p, r, 10, b.length as int);
    lemma_zero_run(s, p, r, 14, 2);
    lemma_field(s, p, r, 16, b.fileOffset as int);
}

/// The first 40 bytes of a tile header.
pub open spec fn tile_header_front(h: TileHeader) -> Seq<u8> {
    i32_to_le(h.direction as int) + i16_to_le(h.roofHeight as int) + h.materialFlags@ + i32_to_le(
        h.height as int,
    ) + i32_to_le(h.width as int) + zeros(4) + i32_to_le(h.orientation as int) + i32_to_le(
        h.mainIndex as int,
    ) + i32_to_le(h.subIndex as int) + i32_to_le(h.rarityOrFrameIndex as int) + h.unknown@
}

/// The last 31 bytes of a tile header.
pub open spec fn tile_header_back(h: TileHeader, num_blocks: int) -> Seq<u8> {
    zeros(7) + i32_to_le(h.blockHeadersPointer as int) + i32_to_le(h.blocksDataLength as int)
        + i32_to_le(num_blocks) + zeros(4) + h.usuallyZeros@ + zeros(4)
}

/// A tile header is its first 40 bytes, the 25 flags of the subtiles, and
/// its last 31 bytes.
pub proof fn lemma_tile_header_parts(h: TileHeader, num_blocks: int)
    ensures
        tile_header_front(h).len() == 40,
        tile_header_back(h, num_blocks).len() == 31,
        ser_tile_header(h, num_blocks) == tile_header_front(h) + h.subtileFlags@
            + tile_header_back(h, num_blocks),
        ser_tile_header(h, num_blocks).len() == 96,
{
    lemma_le_len();
    assert(h.materialFlags@.len() == 2);
    assert(h.unknown@.len() == 4);
    assert(h.usuallyZeros@.len() == 4);
    assert(h.subtileFlags@.len() == 25);
    assert(ser_tile_header(h, num_blocks) =~= tile_header_front(h) + h.subtileFlags@
        + tile_header_back(h, num_blocks));
}

/// Where the fields lie in the first 40 bytes of a tile header.
pub proof fn lemma_front_layout(h: TileHeader)
    ensures
        tile_header_front(h).len() == 40,
        tile_header_front(h).subrange(0, 4) == i32_to_le(h.direction as int),
        tile_header_front(h).subrange(4, 6) == i16_to_le(h.roofHeight as int),
        tile_header_front(h).subrange(6, 8) == h.materialFlags@,
        tile_header_front(h).subrange(8, 12) == i32_to_le(h.height as int),
        tile_header_front(h).subrange(12, 16) == i32_to_le(h.width as int),
        tile_header_front(h).subrange(16, 20) == zeros(4),
        tile_header_front(h).subrange(20, 24) == i32_to_le(h.orientation as int),
        tile_header_front(h).subrange(24, 28) == i32_to_le(h.mainIndex as int),
        tile_header_front(h).subrange(28, 32) == i32_to_le(h.subIndex as int),
        tile_header_front(h).subrange(32, 36) == i32_to_le(h.rarityOrFrameIndex as int),
        tile_header_front(h).subrange(36, 40) == h.unknown@,
{
    lemma_le_len();
    let r = tile_header_front(h);
    assert(h.materialFlags@.len() == 2);
    assert(h.unknown@.len() == 4);
    assert(r.len() == 40);
    assert(r.subrange(0, 4) =~= i32_to_le(h.direction as int));
    assert(r.subrange(4, 6) =~= i16_to_le(h.roofHeight as int));
    assert(r.subrange(6, 8) =~= h.materialFlags@);
    assert(r.subrange(8, 12) =~= i32_to_le(h.height as int));
    assert(r.subrange(12, 16) =~= i32_to_le(h.width as int));
    assert(r.subrange(16, 20) =~= zeros(4));
    assert(r.subrange(20, 24) =~= i32_to_le(h.orientation as int));
    assert(r.subrange(24, 28) =~= i32_to_le(h.mainIndex as int));
    assert(r.subrange(28, 32) =~= i32_to_le(h.subIndex as int));
    assert(r.subrange(32, 36) =~= i32_to_le(h.rarityOrFrameIndex as int));
    assert(r.subrange(36, 40) =~= h.unknown@);
}

/// Where the fields lie in the last 31 bytes of a tile header.
pub proof fn lemma_back_layout(h: TileHeader, num_blocks: int)
    ensures
        tile_header_back(h, num_blocks).len() == 31,
        tile_header_back(h, num_blocks).subrange(0, 7) == zeros(7),
        tile_header_back(h, num_blocks).subrange(7, 11) == i32_to_le(h.blockHeadersPointer as int),
        tile_header_back(h, num_blocks).subrange(11, 15) == i32_to_le(h.blocksDataLength as int),
        tile_header_back(h, num_blocks).subrange(15, 19) == i32_to_le(num_blocks),
        tile_header_back(h, num_blocks).subrange(19, 23) == zeros(4),
        tile_header_back(h, num_blocks).subrange(23, 27) == h.usuallyZeros@,
        tile_header_back(h, num_blocks).subrange(27, 31) == zeros(4),
{
    lemma_le_len();
    let r = tile_header_back(h, num_blocks);
    assert(h.usuallyZeros@.len() == 4);
    assert(r.len() == 31);
    assert(r.subrange(0, 7) =~= zeros(7));
    assert(r.subrange(7, 11) =~= i32_to_le(h.blockHeadersPointer as int));
    assert(r.subrange(11, 15) =~= i32_to_le(h.blocksDataLength as int));
    assert(r.subrange(15, 19) =~= i32_to_le(num_blocks));
    assert(r.subrange(19, 23) =~= zeros(4));
    assert(r.subrange(23, 27) =~= h.usuallyZeros@);
    assert(r.subrange(27, 31) =~= zeros(4));
}

/// A tile header is read as it was written.
pub proof fn lemma_tile_header(s: Seq<u8>, p: int, h: TileHeader, num_blocks: int)
    requires
        fits(s, p, 96),
        bytes_at(s, p, 96) == ser_tile_header(h, num_blocks),
        0 <= num_blocks <= i32::MAX,
    ensures
        tile_header_check(s, p) is Ok,
        tile_header_at(s, p) == h,
        num_blocks_at(s, p) == num_blocks,
{
    lemma_le_len();
    let r = ser_tile_header(h, num_blocks);
    let front = tile_header_front(h);
    let back = tile_header_back(h, num_blocks);
    lemma_tile_header_parts(h, num_blocks);
    lemma_front_layout(h);
    lemma_back_layout(h, num_blocks);
    lemma_inner(s, p, r, 0, 40);
    assert(r.subrange(0, 40) =~= front);
    lemma_inner(s, p, r, 40, 25);
    assert(r.subrange(40, 65) =~= h.subtileFlags@);
    lemma_arr(h.subtileFlags);
    lemma_inner(s, p, r, 65, 31);
    assert(r.subrange(65, 96) =~= back);
    lemma_field(s, p, front, 0, h.direction as int);
    lemma_field16(s, p, front, 4, h.roofHeight as int);
    lemma_array::<2>(s, p, front, 6, h.materialFlags);
    lemma_field(s, p, front, 8, h.height as int);
    lemma_field(s, p, front, 12, h.width as int);
    lemma_zero_run(s, p, front, 16, 4);
    lemma_field(s, p, front, 20, h.orientation as int);
    lemma_field(s, p, front, 24, h.mainIndex as int);
    lemma_field(s, p, front, 28, h.subIndex as int);
    lemma_field(s, p, front, 32, h.rarityOrFrameIndex as int);
    lemma_array::<4>(s, p, front, 36, h.unknown);
    lemma_zero_run(s, p + 65, back, 0, 7);
    lemma_field(s, p + 65, back, 7, h.blockHeadersPointer as int);
    lemma_field(s, p + 65, back, 11, h.blocksDataLength as int);
    lemma_field(s, p + 65, back, 15, num_blocks);
    lemma_zero_run(s, p + 65, back, 19, 4);
    lemma_array::<4>(s, p + 65, back, 23, h.usuallyZeros);
    lemma_zero_run(s, p + 65, back, 27, 4);
}

/// The bytes of the first `k` tile headers are `96 k`, and they start the
/// bytes of more tile headers.
pub proof fn lemma_ser_tile_headers(tiles: Seq<TileView>, k: int, n: int)
    requires
        0 <= k <= n,
    ensures
        ser_tile_headers(tiles, k).len() == 96 * k,
        ser_tile_headers(tiles, n).len() == 96 * n,
        ser_tile_headers(tiles, n).subrange(0, 96 * k) == ser_tile_headers(tiles, k),
    decreases n,
{
    lemma_le_len();
    if n > 0 {
        lemma_tile_header_parts(tiles[n - 1].head, tiles[n - 1].blocks.len() as int);
        if k < n {
            lemma_ser_tile_headers(tiles, k, n - 1);
            assert(ser_tile_headers(tiles, n).subrange(0, 96 * k) =~= ser_tile_headers(
                tiles,
                n - 1,
            ).subrange(0, 96 * k));
        } else {
            lemma_ser_tile_headers(tiles, n - 1, n - 1);
            assert(ser_tile_headers(tiles, n).subrange(0, 96 * n) =~= ser_tile_headers(tiles, n));
        }
    } else {
        assert(ser_tile_headers(tiles, 0).subrange(0, 0) =~= ser_tile_headers(tiles, 0));
    }
}

/// Tile header `k` lies in the buffer where the tile headers before it end.
proof fn lemma_tile_header_bytes(s: Seq<u8>, p: int, tiles: Seq<TileView>, k: int)
    requires
        0 <= k < tiles.len(),
        fits(s, p, 96 * (tiles.len() as int)),
        bytes_at(s, p, 96 * (tiles.len() as int)) == ser_tile_headers(tiles, tiles.len() as int),
    ensures
        fits(s, p + 96 * k, 96),
        bytes_at(s, p + 96 * k, 96) == ser_tile_header(tiles[k].head, tiles[k].blocks.len() as int),
{
    lemma_le_len();
    let n = tiles.len() as int;
    let all = ser_tile_headers(tiles, n);
    let one = ser_tile_header(tiles[k].head, tiles[k].blocks.len() as int);
    lemma_ser_tile_headers(tiles, k + 1, n);
    lemma_ser_tile_headers(tiles, k, k + 1);
    lemma_tile_header_parts(tiles[k].head, tiles[k].blocks.len() as int);
    lemma_chunk(s, p, all, ser_tile_headers(tiles, k), one);
}

/// A part that follows a start of a block lies in the buffer that holds
/// the block where the start ends.
pub proof fn lemma_chunk(s: Seq<u8>, p: int, all: Seq<u8>, before: Seq<u8>, one: Seq<u8>)
    requires
        fits(s, p, all.len() as int),
        bytes_at(s, p, all.len() as int) == all,
        before.len() + one.len() <= all.len(),
        all.subrange(0, (before.len() + one.len()) as int) == before + one,
    ensures
        fits(s, p + before.len(), one.len() as int),
        bytes_at(s, p + before.len(), one.len() as int) == one,
{
    assert forall|j: int| 0 <= j < one.len() implies bytes_at(
        s,
        p + before.len(),
        one.len() as int,
    )[j] == one[j] by {
        assert(s[p + before.len() + j] == bytes_at(s, p, all.len() as int)[before.len() + j]);
        assert(all[before.len() + j] == all.subrange(0, (before.len() + one.len()) as int)[before.len()
            + j]);
    }
    assert(bytes_at(s, p + before.len(), one.len() as int) =~= one);
}

/// The tile headers with the numbers of their blocks.
pub open spec fn heads_of(tiles: Seq<TileView>) -> Seq<(TileHeader, int)> {
    Seq::new(tiles.len(), |i: int| (tiles[i].head, tiles[i].blocks.len() as int))
}

/// The tile headers are read as they were written.
pub proof fn lemma_headers(s: Seq<u8>, tiles: Seq<TileView>, k: int)
    requires
        0 <= k <= tiles.len(),
        forall|t: int| 0 <= t < tiles.len() ==> (#[trigger] tiles[t]).blocks.len() <= i32::MAX,
        fits(s, 276, 96 * (tiles.len() as int)),
        bytes_at(s, 276, 96 * (tiles.len() as int)) == ser_tile_headers(tiles, tiles.len() as int),
    ensures
        parse_headers(s, k) == Ok::<Seq<(TileHeader, int)>, ReadError>(
            heads_of(tiles).subrange(0, k),
        ),
    decreases k,
{
    if k > 0 {
        lemma_headers(s, tiles, k - 1);
        lemma_tile_header_bytes(s, 276, tiles, k - 1);
        let t = tiles[k - 1];
        lemma_tile_header(s, 276 + 96 * (k - 1), t.head, t.blocks.len() as int);
        assert(heads_of(tiles).subrange(0, k - 1).push((t.head, t.blocks.len() as int))
            =~= heads_of(tiles).subrange(0, k));
    } else {
        assert(heads_of(tiles).subrange(0, 0) =~= Seq::<(TileHeader, int)>::empty());
    }
}

/// The bytes of the first `k` block headers are `20 k`, and they start the
/// bytes of more block headers.
pub proof fn lemma_ser_block_headers(blocks: Seq<Block>, k: int, n: int)
    requires
        0 <= k <= n,
    ensures
        ser_block_headers(blocks, k).len() == 20 * k,
        ser_block_headers(blocks, n).len() == 20 * n,
        ser_block_headers(blocks, n).subrange(0, 20 * k) == ser_block_headers(blocks, k),
    decreases n,
{
    lemma_le_len();
    if n > 0 {
        lemma_block_layout(blocks[n - 1]);
        if k < n {
            lemma_ser_block_headers(blocks, k, n - 1);
            assert(ser_block_headers(blocks, n).subrange(0, 20 * k) =~= ser_block_headers(
                blocks,
                n - 1,
            ).subrange(0, 20 * k));
        } else {
            lemma_ser_block_headers(blocks, n - 1, n - 1);
            assert(ser_block_headers(blocks, n).subrange(0, 20 * n) =~= ser_block_headers(
                blocks,
                n,
            ));
        }
    } else {
        assert(ser_block_headers(blocks, 0).subrange(0, 0) =~= ser_block_headers(blocks, 0));
    }
}

/// Block header `k` lies in the buffer where the block headers before it
/// end.
proof fn lemma_block_bytes(s: Seq<u8>, p: int, blocks: Seq<Block>, k: int)
    requires
        0 <= k < blocks.len(),
        fits(s, p, 20 * (blocks.len() as int)),
        bytes_at(s, p, 20 * (blocks.len() as int)) == ser_block_headers(blocks, blocks.len() as int),
    ensures
        fits(s, p + 20 * k, 20),
        bytes_at(s, p + 20 * k, 20) == ser_block(blocks[k]),
{
    lemma_le_len();
    let n = blocks.len() as int;
    let all = ser_block_headers(blocks, n);
    let one = ser_block(blocks[k]);
    lemma_ser_block_headers(blocks, k + 1, n);
    lemma_ser_block_headers(blocks, k, k + 1);
    assert(ser_block_headers(blocks, k + 1) == ser_block_headers(blocks, k) + one);
    assert forall|j: int| 0 <= j < 20 implies bytes_at(s, p + 20 * k, 20)[j] == one[j] by {
        assert(s[p + 20 * k + j] == bytes_at(s, p, 20 * n)[20 * k + j]);
        assert(all[20 * k + j] == all.subrange(0, 20 * (k + 1))[20 * k + j]);
    }
    assert(bytes_at(s, p + 20 * k, 20) =~= one);
}

/// The block headers are read as they were written.
pub proof fn lemma_blocks(s: Seq<u8>, p: int, blocks: Seq<Block>, k: int)
    requires
        0 <= k <= blocks.len(),
        fits(s, p, 20 * (blocks.len() as int)),
        bytes_at(s, p, 20 * (blocks.len() as int)) == ser_block_headers(blocks, blocks.len() as int),
    ensures
        parse_blocks(s, p, k) == Ok::<Seq<Block>, ReadError>(blocks.subrange(0, k)),
    decreases k,
{
    if k > 0 {
        lemma_blocks(s, p, blocks, k - 1);
        lemma_block_bytes(s, p, blocks, k - 1);
        lemma_block(s, p + 20 * (k - 1), blocks[k - 1]);
        assert(blocks.subrange(0, k - 1).push(blocks[k - 1]) =~= blocks.subrange(0, k));
    } else {
        assert(blocks.subrange(0, 0) =~= Seq::<Block>::empty());
    }
}

/// A tile is read as it was written: its block headers, and then as many
/// bytes passed over as they declare.
pub proof fn lemma_tile(s: Seq<u8>, q: int, t: TileView, body: Seq<u8>)
    requires
        0 <= q,
        fits(s, q, 20 * (t.blocks.len() as int) + body.len()),
        bytes_at(s, q, 20 * (t.blocks.len() as int)) == ser_block_headers(t.blocks, t.blocks.len() as int),
        t.head.blockHeadersPointer == q,
        sum_lengths(t.blocks, t.blocks.len() as int) == body.len(),
    ensures
        tile_at(s, q, (t.head, t.blocks.len() as int)) == Ok::<(TileView, int), ReadError>(
            (t, q + 20 * (t.blocks.len() as int) + body.len()),
        ),
{
    let n = t.blocks.len() as int;
    lemma_blocks(s, q, t.blocks, n);
    assert(t.blocks.subrange(0, n) =~= t.blocks);
}

/// Bytes that the first `k` tiles take after the tile headers, and that
/// they start the bytes of more tiles.
pub proof fn lemma_ser_bodies(tiles: Seq<TileView>, bodies: Seq<Seq<u8>>, k: int, n: int)
    requires
        0 <= k <= n,
    ensures
        ser_bodies(tiles, bodies, k).len() <= ser_bodies(tiles, bodies, n).len(),
        ser_bodies(tiles, bodies, n).subrange(0, ser_bodies(tiles, bodies, k).len() as int)
            == ser_bodies(tiles, bodies, k),
    decreases n,
{
    lemma_le_len();
    let short = ser_bodies(tiles, bodies, k);
    if k < n {
        lemma_ser_bodies(tiles, bodies, k, n - 1);
        assert(ser_bodies(tiles, bodies, n).subrange(0, short.len() as int) =~= ser_bodies(
            tiles,
            bodies,
            n - 1,
        ).subrange(0, short.len() as int));
    } else {
        assert(short.subrange(0, short.len() as int) =~= short);
    }
}

/// Where the block headers of tile `t` start when every tile is followed
/// by the next: after the file header, the tile headers, and the tiles
/// before it.
pub open spec fn body_start(m: MetadataView, bodies: Seq<Seq<u8>>, t: int) -> int {
    276 + 96 * (m.tiles.len() as int) + ser_bodies(m.tiles, bodies, t).len()
}

/// The container can be read back: it has the version `[7, 6]` and the
/// pointer 276, its counts fit 32 bits, every tile points at its block
/// headers, and the lengths that the blocks of a tile declare are together
/// the length of its payloads.
pub open spec fn readable(m: MetadataView, bodies: Seq<Seq<u8>>) -> bool {
    &&& m.fileHeader.version[0] == 7
    &&& m.fileHeader.version[1] == 6
    &&& m.fileHeader.tileHeadersPointer == 276
    &&& counts_fit(m)
    &&& bodies.len() == m.tiles.len()
    &&& forall|t: int|
        0 <= t < m.tiles.len() ==> {
            &&& (#[trigger] m.tiles[t]).head.blockHeadersPointer == body_start(m, bodies, t)
            &&& sum_lengths(m.tiles[t].blocks, m.tiles[t].blocks.len() as int) == bodies[t].len()
        }
}

/// Tile `k` lies in the buffer where the tiles before it end.
proof fn lemma_tile_bytes(s: Seq<u8>, p: int, tiles: Seq<TileView>, bodies: Seq<Seq<u8>>, k: int)
    requires
        0 <= k < tiles.len(),
        0 <= p,
        fits(s, p, ser_bodies(tiles, bodies, tiles.len() as int).len() as int),
        bytes_at(s, p, ser_bodies(tiles, bodies, tiles.len() as int).len() as int) == ser_bodies(
            tiles,
            bodies,
            tiles.len() as int,
        ),
    ensures
        ({
            let q = p + ser_bodies(tiles, bodies, k).len();
            let nb = tiles[k].blocks.len() as int;
            &&& fits(s, q, 20 * nb + bodies[k].len())
            &&& bytes_at(s, q, 20 * nb) == ser_block_headers(tiles[k].blocks, nb)
            &&& ser_bodies(tiles, bodies, k + 1).len() == ser_bodies(tiles, bodies, k).len() + 20
                * nb + bodies[k].len()
        }),
{
    lemma_le_len();
    let n = tiles.len() as int;
    let all = ser_bodies(tiles, bodies, n);
    let before = ser_bodies(tiles, bodies, k);
    let nb = tiles[k].blocks.len() as int;
    let heads = ser_block_headers(tiles[k].blocks, nb);
    let q = p + before.len();
    lemma_ser_bodies(tiles, bodies, k + 1, n);
    lemma_ser_bodies(tiles, bodies, k, k + 1);
    lemma_ser_block_headers(tiles[k].blocks, nb, nb);
    assert(ser_bodies(tiles, bodies, k + 1) == before + heads + bodies[k]);
    assert forall|j: int| 0 <= j < 20 * nb implies bytes_at(s, q, 20 * nb)[j] == heads[j] by {
        assert(s[q + j] == bytes_at(s, p, all.len() as int)[before.len() + j]);
        assert(all[before.len() + j] == all.subrange(
            0,
            ser_bodies(tiles, bodies, k + 1).len() as int,
        )[before.len() + j]);
    }
    assert(bytes_at(s, q, 20 * nb) =~= heads);
}

/// The tiles are read as they were written.
pub proof fn lemma_tiles(s: Seq<u8>, m: MetadataView, bodies: Seq<Seq<u8>>, k: int)
    requires
        0 <= k <= m.tiles.len(),
        readable(m, bodies),
        fits(
            s,
            276 + 96 * (m.tiles.len() as int),
            ser_bodies(m.tiles, bodies, m.tiles.len() as int).len() as int,
        ),
        bytes_at(
            s,
            276 + 96 * (m.tiles.len() as int),
            ser_bodies(m.tiles, bodies, m.tiles.len() as int).len() as int,
        ) == ser_bodies(m.tiles, bodies, m.tiles.len() as int),
    ensures
        parse_tiles(s, heads_of(m.tiles), k) == Ok::<(Seq<TileView>, int), ReadError>(
            (m.tiles.subrange(0, k), body_start(m, bodies, k)),
        ),
    decreases k,
{
    if k > 0 {
        lemma_tiles(s, m, bodies, k - 1);
        lemma_tile_bytes(s, 276 + 96 * (m.tiles.len() as int), m.tiles, bodies, k - 1);
        let t = m.tiles[k - 1];
        assert(t.head.blockHeadersPointer == body_start(m, bodies, k - 1));
        lemma_tile(s, body_start(m, bodies, k - 1), t, bodies[k - 1]);
        assert(heads_of(m.tiles)[k - 1] == (t.head, t.blocks.len() as int));
        assert(m.tiles.subrange(0, k - 1).push(t) =~= m.tiles.subrange(0, k));
    } else {
        assert(m.tiles.subrange(0, 0) =~= Seq::<TileView>::empty());
    }
}

/// Where the fields of the file header lie in its 276 bytes.
pub proof fn lemma_file_header_layout(fh: FileHeader, n: int)
    ensures
        ser_file_header(fh, n).len() == 276,
        ser_file_header(fh, n).subrange(0, 4) == i32_to_le(fh.version[0] as int),
        ser_file_header(fh, n).subrange(4, 8) == i32_to_le(fh.version[1] as int),
        ser_file_header(fh, n).subrange(8, 268) == zeros(260),
        ser_file_header(fh, n).subrange(268, 272) == i32_to_le(n),
        ser_file_header(fh, n).subrange(272, 276) == i32_to_le(fh.tileHeadersPointer as int),
{
    lemma_le_len();
    let r = ser_file_header(fh, n);
    assert(r.len() == 276);
    assert(r.subrange(0, 4) =~= i32_to_le(fh.version[0] as int));
    assert(r.subrange(4, 8) =~= i32_to_le(fh.version[1] as int));
    assert(r.subrange(8, 268) =~= zeros(260));
    assert(r.subrange(268, 272) =~= i32_to_le(n));
    assert(r.subrange(272, 276) =~= i32_to_le(fh.tileHeadersPointer as int));
}

/// Where the three parts of a buffer lie.
pub proof fn lemma_parts3(s: Seq<u8>, a: Seq<u8>, b: Seq<u8>, c: Seq<u8>)
    requires
        s == a + b + c,
    ensures
        s.len() == a.len() + b.len() + c.len(),
        bytes_at(s, 0, a.len() as int) == a,
        bytes_at(s, a.len() as int, b.len() as int) == b,
        bytes_at(s, (a.len() + b.len()) as int, c.len() as int) == c,
{
    assert(bytes_at(s, 0, a.len() as int) =~= a);
    assert(bytes_at(s, a.len() as int, b.len() as int) =~= b);
    assert(bytes_at(s, (a.len() + b.len()) as int, c.len() as int) =~= c);
}

/// The file header is read as it was written.
pub proof fn lemma_file_header(s: Seq<u8>, fh: FileHeader, n: int)
    requires
        fits(s, 0, 276),
        bytes_at(s, 0, 276) == ser_file_header(fh, n),
        fh.version[0] == 7,
        fh.version[1] == 6,
        fh.tileHeadersPointer == 276,
        0 <= n <= i32::MAX,
    ensures
        i32_at(s, 0) == 7,
        i32_at(s, 4) == 6,
        zeros_at(s, 8, 260) is Ok,
        i32_at(s, 268) == n,
        i32_at(s, 272) == 276,
{
    lemma_le_len();
    let head = ser_file_header(fh, n);
    lemma_file_header_layout(fh, n);
    lemma_field(s, 0, head, 0, 7);
    lemma_field(s, 0, head, 4, 6);
    lemma_zero_run(s, 0, head, 8, 260);
    lemma_field(s, 0, head, 268, n);
    lemma_field(s, 0, head, 272, 276);
}

/// The tiles of a container that can be read back are read as they were
/// written.
pub proof fn lemma_body(m: MetadataView, bodies: Seq<Seq<u8>>)
    requires
        readable(m, bodies),
    ensures
        serialize(m, bodies).len() >= 276,
        bytes_at(serialize(m, bodies), 0, 276) == ser_file_header(
            m.fileHeader,
            m.tiles.len() as int,
        ),
        parse_body(serialize(m, bodies), m.tiles.len() as int) == Ok::<Seq<TileView>, ReadError>(
            m.tiles,
        ),
{
    lemma_le_len();
    let s = serialize(m, bodies);
    let n = m.tiles.len() as int;
    let head = ser_file_header(m.fileHeader, n);
    let heads = ser_tile_headers(m.tiles, n);
    let rest = ser_bodies(m.tiles, bodies, n);
    lemma_file_header_layout(m.fileHeader, n);
    lemma_ser_tile_headers(m.tiles, n, n);
    lemma_parts3(s, head, heads, rest);
    lemma_headers(s, m.tiles, n);
    assert(heads_of(m.tiles).subrange(0, n) =~= heads_of(m.tiles));
    lemma_tiles(s, m, bodies, n);
    assert(m.tiles.subrange(0, n) =~= m.tiles);
}

/// A container that can be read back is read as it was written: reading
/// the bytes that `writeWithBlockData` writes gives the container back.
pub proof fn lemma_roundtrip(m: MetadataView, bodies: Seq<Seq<u8>>)
    requires
        readable(m, bodies),
    ensures
        parse(serialize(m, bodies)) == Ok::<MetadataView, Error>(m),
{
    let s = serialize(m, bodies);
    lemma_body(m, bodies);
    lemma_file_header(s, m.fileHeader, m.tiles.len() as int);
    lemma_pair(m.fileHeader.version);
}

/// The lengths that the blocks of a laid out tile declare are together the
/// length of its payloads.
proof fn lemma_laid_out_lengths(img: &Image, p: (int, int), pointer: int, t: TileView, k: int)
    requires
        0 <= pointer,
        tile_fits(img, p, pointer, t),
        0 <= k <= t.blocks.len(),
    ensures
        sum_lengths(laid_out_tile(img, p, pointer, t).blocks, k) == tile_body(
            img,
            p,
            min_y(t.blocks, t.blocks.len() as int),
            t.blocks,
            k,
        ).len(),
    decreases k,
{
    if k > 0 {
        let n = t.blocks.len() as int;
        let miny = min_y(t.blocks, n);
        lemma_laid_out_lengths(img, p, pointer, t, k - 1);
        lemma_tile_body_grows(img, p, miny, t.blocks, k, n);
        let one = encode_block(img, t.blocks[k - 1].format, block_corner(p, miny, t.blocks[k - 1]));
        assert(tile_body(img, p, miny, t.blocks, k) == tile_body(img, p, miny, t.blocks, k - 1)
            + one);
        assert(laid_out_tile(img, p, pointer, t).blocks[k - 1] == laid_out_block(
            img,
            p,
            miny,
            t.blocks,
            k - 1,
        ));
    }
}

/// In the layout every tile follows the one before it.
proof fn lemma_laid_out_start(m: MetadataView, img: &Image, t: int)
    requires
        0 <= t <= m.tiles.len(),
    ensures
        body_start(laid_out(m, img), bodies_of(m, img), t) == tile_pointer(m, img, t),
    decreases t,
{
    lemma_le_len();
    if t > 0 {
        lemma_laid_out_start(m, img, t - 1);
        let tiles = laid_out(m, img).tiles;
        let bodies = bodies_of(m, img);
        let nb = m.tiles[t - 1].blocks.len() as int;
        assert(tiles[t - 1].blocks.len() == nb);
        lemma_ser_block_headers(tiles[t - 1].blocks, nb, nb);
        assert(ser_bodies(tiles, bodies, t) == ser_bodies(tiles, bodies, t - 1)
            + ser_block_headers(tiles[t - 1].blocks, nb) + bodies[t - 1]);
    }
}

/// What is written around payloads encoded from an atlas can be read back.
pub proof fn lemma_emit_readable(m: MetadataView, img: &Image)
    requires
        can_emit(m, img),
        m.fileHeader.version[0] == 7,
        m.fileHeader.version[1] == 6,
        m.fileHeader.tileHeadersPointer == 276,
    ensures
        readable(laid_out(m, img), bodies_of(m, img)),
{
    let out = laid_out(m, img);
    let bodies = bodies_of(m, img);
    assert forall|t: int| 0 <= t < out.tiles.len() implies {
        &&& (#[trigger] out.tiles[t]).blocks.len() <= i32::MAX
        &&& out.tiles[t].head.blockHeadersPointer == body_start(out, bodies, t)
        &&& sum_lengths(out.tiles[t].blocks, out.tiles[t].blocks.len() as int) == bodies[t].len()
    } by {
        assert(nth_tile(m, t).blocks.len() >= 1);
        lemma_tile_pointer(m, img, t);
        lemma_laid_out_start(m, img, t);
        lemma_laid_out_lengths(
            img,
            slot_corner(m, img, t),
            tile_pointer(m, img, t),
            m.tiles[t],
            m.tiles[t].blocks.len() as int,
        );
    }
}

/// Round trip of the structure: a container written around payloads that
/// are encoded from an atlas is read back as it was laid out; and a
/// container whose pointers, lengths and offsets are those of the layout
/// is read back as it is.
pub proof fn lemma_emit_roundtrip(m: MetadataView, img: &Image)
    requires
        can_emit(m, img),
        m.fileHeader.version[0] == 7,
        m.fileHeader.version[1] == 6,
        m.fileHeader.tileHeadersPointer == 276,
    ensures
        parse(emit_bytes(m, img)) == Ok::<MetadataView, Error>(laid_out(m, img)),
        laid_out(m, img) == m ==> parse(emit_bytes(m, img)) == Ok::<MetadataView, Error>(m),
{
    lemma_emit_readable(m, img);
    lemma_roundtrip(laid_out(m, img), bodies_of(m, img));
}

/// Bytes that the first `k` tiles take after the tile headers, as the
/// headers of the blocks declare them.
pub open spec fn declared_span(tiles: Seq<TileView>, k: int) -> int
    decreases k,
{
    if k <= 0 {
        0
    } else {
        declared_span(tiles, k - 1) + 20 * (tiles[k - 1].blocks.len() as int) + sum_lengths(
            tiles[k - 1].blocks,
            tiles[k - 1].blocks.len() as int,
        )
    }
}

/// Bytes of the container up to the end of tile `k`, as the headers of the
/// blocks declare them.
pub open spec fn declared_len(tiles: Seq<TileView>, k: int) -> int {
    276 + 96 * (tiles.len() as int) + declared_span(tiles, k)
}

/// What the first tiles take does not depend on the tiles that follow.
proof fn lemma_span_prefix(a: Seq<TileView>, b: Seq<TileView>, k: int)
    requires
        0 <= k <= a.len() <= b.len(),
        forall|i: int| 0 <= i < k ==> a[i] == b[i],
    ensures
        declared_span(a, k) == declared_span(b, k),
    decreases k,
{
    if k > 0 {
        lemma_span_prefix(a, b, k - 1);
    }
}

/// As many block headers are read as were asked for.
proof fn lemma_parse_blocks_len(s: Seq<u8>, p: int, k: int)
    requires
        parse_blocks(s, p, k) is Ok,
    ensures
        parse_blocks(s, p, k)->Ok_0.len() == if k >= 0 {
            k
        } else {
            0
        },
    decreases k,
{
    if k > 0 {
        lemma_parse_blocks_len(s, p, k - 1);
    }
}

/// As many tile headers are read as were asked for, and none with a
/// negative number of blocks.
proof fn lemma_parse_headers_len(s: Seq<u8>, k: int)
    requires
        0 <= k,
        parse_headers(s, k) is Ok,
    ensures
        parse_headers(s, k)->Ok_0.len() == k,
        forall|i: int| 0 <= i < k ==> (#[trigger] parse_headers(s, k)->Ok_0[i]).1 >= 0,
    decreases k,
{
    if k > 0 {
        lemma_parse_headers_len(s, k - 1);
    }
}

/// The tiles that are read are as many as were asked for, and they end
/// where their headers say.
proof fn lemma_parse_tiles_len(s: Seq<u8>, heads: Seq<(TileHeader, int)>, k: int)
    requires
        0 <= k <= heads.len(),
        forall|i: int| 0 <= i < heads.len() ==> (#[trigger] heads[i]).1 >= 0,
        parse_tiles(s, heads, k) is Ok,
    ensures
        parse_tiles(s, heads, k)->Ok_0.0.len() == k,
        parse_tiles(s, heads, k)->Ok_0.1 == 276 + 96 * heads.len() + declared_span(
            parse_tiles(s, heads, k)->Ok_0.0,
            k,
        ),
    decreases k,
{
    if k > 0 {
        let before = parse_tiles(s, heads, k - 1);
        assert(before is Ok);
        lemma_parse_tiles_len(s, heads, k - 1);
        let q = before->Ok_0.1;
        let tile = tile_at(s, q, heads[k - 1]);
        assert(tile is Ok);
        let here = parse_tiles(s, heads, k)->Ok_0.0;
        assert(here == before->Ok_0.0.push(tile->Ok_0.0));
        assert(heads[k - 1].1 >= 0);
        lemma_parse_blocks_len(s, q, heads[k - 1].1);
        lemma_span_prefix(before->Ok_0.0, here, k - 1);
    }
}

/// A container that is read has the length that its headers declare.
pub proof fn lemma_parse_len(b: Seq<u8>)
    requires
        parse(b) is Ok,
    ensures
        b.len() == declared_len(parse(b)->Ok_0.tiles, parse(b)->Ok_0.tiles.len() as int),
{
    let n = i32_at(b, 268);
    let heads = parse_headers(b, n)->Ok_0;
    lemma_parse_headers_len(b, n);
    lemma_parse_tiles_len(b, heads, n);
}

/// What is written around payloads has the length that its layout
/// declares.
pub proof fn lemma_emit_len(m: MetadataView, img: &Image)
    requires
        can_emit(m, img),
    ensures
        emit_bytes(m, img).len() == tile_pointer(m, img, m.tiles.len() as int),
{
    lemma_le_len();
    let n = m.tiles.len() as int;
    let out = laid_out(m, img);
    lemma_file_header_layout(out.fileHeader, n);
    lemma_ser_tile_headers(out.tiles, n, n);
    lemma_laid_out_start(m, img, n);
}

/// The length that the layout declares is that of the pointers of the
/// layout.
proof fn lemma_declared_is_pointer(m: MetadataView, img: &Image, k: int)
    requires
        can_emit(m, img),
        0 <= k <= m.tiles.len(),
    ensures
        declared_len(laid_out(m, img).tiles, k) == tile_pointer(m, img, k),
    decreases k,
{
    assert(laid_out(m, img).tiles.len() == m.tiles.len());
    if k > 0 {
        lemma_declared_is_pointer(m, img, k - 1);
        assert(laid_out(m, img).tiles[k - 1].blocks.len() == m.tiles[k - 1].blocks.len());
        assert(nth_tile(m, k - 1).blocks.len() >= 1);
        lemma_tile_pointer(m, img, k - 1);
        lemma_laid_out_lengths(
            img,
            slot_corner(m, img, k - 1),
            tile_pointer(m, img, k - 1),
            m.tiles[k - 1],
            m.tiles[k - 1].blocks.len() as int,
        );
    }
}

/// Round trip of the structure from the bytes: when a container that was
/// read is written around payloads as long as its own, with its pointers
/// and offsets those of the layout, then what is written is as long as
/// what was read, and reading it gives the same container.
pub proof fn lemma_parse_emit_parse(b: Seq<u8>, img: &Image)
    requires
        parse(b) is Ok,
        can_emit(parse(b)->Ok_0, img),
        laid_out(parse(b)->Ok_0, img) == parse(b)->Ok_0,
    ensures
        parse(emit_bytes(parse(b)->Ok_0, img)) == parse(b),
        emit_bytes(parse(b)->Ok_0, img).len() == b.len(),
{
    let m = parse(b)->Ok_0;
    lemma_pair([7i32, 6i32]);
    assert(m.fileHeader.version == pair(7, 6));
    lemma_emit_roundtrip(m, img);
    lemma_parse_len(b);
    lemma_emit_len(m, img);
    lemma_declared_is_pointer(m, img, m.tiles.len() as int);
}

} // verus!
