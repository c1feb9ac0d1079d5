//! Writing the container.

use crate::cursor::{fits, write_all, write_i16, write_i32, write_u8, ReadError, WriteExt};
use crate::dt1::parse::sum_lengths;
use crate::dt1::{Block, FileHeader, Metadata, MetadataView, TileHeader, TileView};
use crate::le::{i16_to_le, i32_to_le, zeros};
use vstd::prelude::*;

verus! {

/// The 276 bytes at the start of the container.
pub open spec fn ser_file_header(fh: FileHeader, num_tiles: int) -> Seq<u8> {
    i32_to_le(fh.version[0] as int) + i32_to_le(fh.version[1] as int) + zeros(260) + i32_to_le(
        num_tiles,
    ) + i32_to_le(fh.tileHeadersPointer as int)
}

/// The 96 bytes of the header of a tile with `num_blocks` blocks.
pub open spec fn ser_tile_header(h: TileHeader, num_blocks: int) -> Seq<u8> {
    i32_to_le(h.direction as int) + i16_to_le(h.roofHeight as int) + h.materialFlags@ + i32_to_le(
        h.height as int,
    ) + i32_to_le(h.width as int) + zeros(4) + i32_to_le(h.orientation as int) + i32_to_le(
        h.mainIndex as int,
    ) + i32_to_le(h.subIndex as int) + i32_to_le(h.rarityOrFrameIndex as int) + h.unknown@
        + h.subtileFlags@ + zeros(7) + i32_to_le(h.blockHeadersPointer as int) + i32_to_le(
        h.blocksDataLength as int,
    ) + i32_to_le(num_blocks) + zeros(4) + h.usuallyZeros@ + zeros(4)
}

/// The 20 bytes of the header of a block.
pub open spec fn ser_block(b: Block) -> Seq<u8> {
    i16_to_le(b.x as int) + i16_to_le(b.y as int) + zeros(2) + seq![b.gridX, b.gridY] + b.format@
        + i32_to_le(b.length as int) + zeros(2) + i32_to_le(b.fileOffset as int)
}

/// The headers of the first `n` tiles, one after the other.
pub open spec fn ser_tile_headers(tiles: Seq<TileView>, n: int) -> Seq<u8>
    decreases n,
{
    if n <= 0 {
        Seq::empty()
    } else {
        ser_tile_headers(tiles, n - 1) + ser_tile_header(
            tiles[n - 1].head,
            tiles[n - 1].blocks.len() as int,
        )
    }
}

/// The headers of the first `n` blocks, one after the other.
pub open spec fn ser_block_headers(blocks: Seq<Block>, n: int) -> Seq<u8>
    decreases n,
{
    if n <= 0 {
        Seq::empty()
    } else {
        ser_block_headers(blocks, n - 1) + ser_block(blocks[n - 1])
    }
}

/// For each of the first `n` tiles the headers of its blocks and then the
/// payloads of its blocks.
pub open spec fn ser_bodies(tiles: Seq<TileView>, bodies: Seq<Seq<u8>>, n: int) -> Seq<u8>
    decreases n,
{
    if n <= 0 {
        Seq::empty()
    } else {
        ser_bodies(tiles, bodies, n - 1) + ser_block_headers(
            tiles[n - 1].blocks,
            tiles[n - 1].blocks.len() as int,
        ) + bodies[n - 1]
    }
}

/// The container that holds `m` and, for each tile, the payloads `bodies[t]`
/// of its blocks: the file header, the tile headers, then for each tile its
/// block headers and payloads. Every field is written as it stands in `m`.
pub open spec fn serialize(m: MetadataView, bodies: Seq<Seq<u8>>) -> Seq<u8> {
    ser_file_header(m.fileHeader, m.tiles.len() as int) + ser_tile_headers(
        m.tiles,
        m.tiles.len() as int,
    ) + ser_bodies(m.tiles, bodies, m.tiles.len() as int)
}

/// The counts of `m` can be written as 32-bit numbers.
pub open spec fn counts_fit(m: MetadataView) -> bool {
    &&& m.tiles.len() <= i32::MAX
    &&& forall|t: int| 0 <= t < m.tiles.len() ==> (#[trigger] m.tiles[t]).blocks.len() <= i32::MAX
}

/// Appends the header of a block.
pub fn writeBlockHeader(out: &mut Vec<u8>, b: &Block)
    ensures
        final(out)@ == old(out)@ + ser_block(*b),
{
    write_i16(out, b.x);
    write_i16(out, b.y);
    out.writeZeros(2);
    write_u8(out, b.gridX);
    write_u8(out, b.gridY);
    write_all(out, b.format.as_slice());
    write_i32(out, b.length);
    out.writeZeros(2);
    write_i32(out, b.fileOffset);
    assert(out@ =~= old(out)@ + ser_block(*b));
}

/// Appends the header of a tile with `numBlocks` blocks.
pub fn writeTileHeader(out: &mut Vec<u8>, h: &TileHeader, numBlocks: i32)
    ensures
        final(out)@ == old(out)@ + ser_tile_header(*h, numBlocks as int),
{
    write_i32(out, h.direction);
    write_i16(out, h.roofHeight);
    write_all(out, h.materialFlags.as_slice());
    write_i32(out, h.height);
    write_i32(out, h.width);
    out.writeZeros(4);
    write_i32(out, h.orientation);
    write_i32(out, h.mainIndex);
    write_i32(out, h.subIndex);
    write_i32(out, h.rarityOrFrameIndex);
    write_all(out, h.unknown.as_slice());
    write_all(out, h.subtileFlags.as_slice());
    out.writeZeros(7);
    write_i32(out, h.blockHeadersPointer);
    write_i32(out, h.blocksDataLength);
    write_i32(out, numBlocks);
    out.writeZeros(4);
    write_all(out, h.usuallyZeros.as_slice());
    out.writeZeros(4);
    assert(out@ =~= old(out)@ + ser_tile_header(*h, numBlocks as int));
}

impl Metadata {
    /// The container that holds this metadata and, for each tile, the given
    /// payloads of its blocks. Every field is written as it stands; nothing
    /// is written when a count does not fit 32 bits or when the number of
    /// bodies is not that of the tiles.
    pub fn writeWithBlockData(&self, bodies: &Vec<Vec<u8>>) -> (r: Result<Vec<u8>, ReadError>)
        ensures
            r is Ok <==> counts_fit(self@) && bodies@.len() == self.tiles@.len(),
            r is Ok ==> r->Ok_0@ == serialize(self@, bodies.deep_view()),
            r is Err ==> r->Err_0 == ReadError::MalformedStructure,
    {
        let n = self.tiles.len();
        if n > i32::MAX as usize || bodies.len() != n {
            return Err(ReadError::MalformedStructure);
        }
        let mut t: usize = 0;
        while t < n
            invariant
                t <= n == self.tiles@.len(),
                forall|u: int| 0 <= u < t ==> (#[trigger] self@.tiles[u]).blocks.len() <= i32::MAX,
            decreases n - t,
        {
            if self.tiles[t].blocks.len() > i32::MAX as usize {
                assert(self@.tiles[t as int].blocks.len() > i32::MAX);
                return Err(ReadError::MalformedStructure);
            }
            t = t + 1;
        }
        let mut out: Vec<u8> = Vec::new();
        write_i32(&mut out, self.fileHeader.version[0]);
        write_i32(&mut out, self.fileHeader.version[1]);
        out.writeZeros(260);
        write_i32(&mut out, n as i32);
        write_i32(&mut out, self.fileHeader.tileHeadersPointer);
        assert(out@ =~= ser_file_header(self.fileHeader, n as int));
        let mut t: usize = 0;
        while t < n
            invariant
                t <= n == self.tiles@.len(),
                counts_fit(self@),
                out@ == ser_file_header(self.fileHeader, n as int) + ser_tile_headers(
                    self@.tiles,
                    t as int,
                ),
            decreases n - t,
        {
            let tile = &self.tiles[t];
            assert(self@.tiles[t as int] == tile@);
            let h = tile.header();
            writeTileHeader(&mut out, &h, tile.blocks.len() as i32);
            t = t + 1;
            assert(out@ =~= ser_file_header(self.fileHeader, n as int) + ser_tile_headers(
                self@.tiles,
                t as int,
            ));
        }
        let ghost head = out@;
        let mut t: usize = 0;
        assert(out@ =~= head + ser_bodies(self@.tiles, bodies.deep_view(), 0));
        while t < n
            invariant
                t <= n == self.tiles@.len(),
                bodies@.len() == n,
                out@ == head + ser_bodies(self@.tiles, bodies.deep_view(), t as int),
            decreases n - t,
        {
            let tile = &self.tiles[t];
            assert(self@.tiles[t as int] == tile@);
            let ghost start = out@;
            let mut k: usize = 0;
            assert(out@ =~= start + ser_block_headers(tile.blocks@, 0));
            while k < tile.blocks.len()
                invariant
                    k <= tile.blocks@.len(),
                    out@ == start + ser_block_headers(tile.blocks@, k as int),
                decreases tile.blocks@.len() - k,
            {
                writeBlockHeader(&mut out, &tile.blocks[k]);
                k = k + 1;
                assert(out@ =~= start + ser_block_headers(tile.blocks@, k as int));
            }
            write_all(&mut out, bodies[t].as_slice());
            assert(bodies.deep_view()[t as int] == bodies@[t as int]@);
            t = t + 1;
            assert(out@ =~= head + ser_bodies(self@.tiles, bodies.deep_view(), t as int));
        }
        Ok(out)
    }
}

/// Where the payloads of a tile start in a container: after its block
/// headers.
pub open spec fn payloads_start(t: TileView) -> int {
    t.head.blockHeadersPointer + 20 * t.blocks.len()
}

/// The payloads of the blocks of a tile lie in the container `dt1`, as long
/// together as the blocks declare.
pub open spec fn payloads_in(t: TileView, dt1: Seq<u8>) -> bool {
    &&& 0 <= sum_lengths(t.blocks, t.blocks.len() as int)
    &&& fits(dt1, payloads_start(t), sum_lengths(t.blocks, t.blocks.len() as int))
}

/// The payloads of the blocks of each tile, as they lie in the container
/// `dt1`.
pub open spec fn bodies_in(m: MetadataView, dt1: Seq<u8>) -> Seq<Seq<u8>> {
    Seq::new(
        m.tiles.len(),
        |t: int|
            dt1.subrange(
                payloads_start(m.tiles[t]),
                payloads_start(m.tiles[t]) + sum_lengths(
                    m.tiles[t].blocks,
                    m.tiles[t].blocks.len() as int,
                ),
            ),
    )
}

/// The sum of the lengths that the blocks declare.
pub fn sumLengths(blocks: &Vec<Block>) -> (r: i64)
    requires
        blocks@.len() <= i32::MAX,
    ensures
        r == sum_lengths(blocks@, blocks@.len() as int),
{
    let mut total: i64 = 0;
    let mut k: usize = 0;
    while k < blocks.len()
        invariant
            k <= blocks@.len() <= i32::MAX,
            total == sum_lengths(blocks@, k as int),
            -0x8000_0000 * k <= total <= 0x8000_0000 * k,
        decreases blocks@.len() - k,
    {
        total = total + blocks[k].length as i64;
        k = k + 1;
    }
    total
}

impl Metadata {
    /// The container that holds this metadata and the payloads of the
    /// container `dt1` that it was read from: every field is written as it
    /// stands, and after the block headers of each tile the bytes that
    /// follow them in `dt1`. Nothing is written when a count does not fit
    /// 32 bits or when the payloads of a tile do not lie in `dt1`.
    pub fn writeWithBlockDataFromDT1(&self, dt1: &[u8]) -> (r: Result<Vec<u8>, ReadError>)
        ensures
            r is Ok <==> counts_fit(self@) && forall|t: int|
                0 <= t < self@.tiles.len() ==> payloads_in(#[trigger] self@.tiles[t], dt1@),
            r is Ok ==> r->Ok_0@ == serialize(self@, bodies_in(self@, dt1@)),
            r is Err ==> r->Err_0 == ReadError::MalformedStructure,
    {
        let n = self.tiles.len();
        let len = dt1.len();
        let mut bodies: Vec<Vec<u8>> = Vec::new();
        let mut t: usize = 0;
        while t < n
            invariant
                t <= n == self.tiles@.len(),
                len == dt1@.len(),
                bodies@.len() == t,
                forall|u: int|
                    0 <= u < t ==> (#[trigger] self@.tiles[u]).blocks.len() <= i32::MAX
                        && payloads_in(self@.tiles[u], dt1@),
                forall|u: int| 0 <= u < t ==> (#[trigger] bodies@[u])@ == bodies_in(self@, dt1@)[u],
            decreases n - t,
        {
            let tile = &self.tiles[t];
            assert(self@.tiles[t as int] == tile@);
            if tile.blocks.len() > i32::MAX as usize {
                return Err(ReadError::MalformedStructure);
            }
            let total = sumLengths(&tile.blocks);
            let start: i64 = tile.blockHeadersPointer as i64 + 20 * (tile.blocks.len() as i64);
            if total < 0 || start < 0 || start as u64 > len as u64 || total as u64 > len as u64
                - start as u64 {
                assert(!payloads_in(self@.tiles[t as int], dt1@));
                return Err(ReadError::MalformedStructure);
            }
            let from = start as usize;
            let body = vstd::slice::slice_to_vec(&dt1[from..from + total as usize]);
            bodies.push(body);
            t = t + 1;
        }
        proof {
            assert(bodies.deep_view() =~= bodies_in(self@, dt1@)) by {
                assert(bodies.deep_view().len() == n);
                assert forall|u: int| 0 <= u < n implies bodies.deep_view()[u] == bodies_in(
                    self@,
                    dt1@,
                )[u] by {
                    assert(bodies.deep_view()[u] == bodies@[u]@);
                }
            }
        }
        match self.writeWithBlockData(&bodies) {
            Ok(bytes) => Ok(bytes),
            Err(e) => {
                assert(!counts_fit(self@));
                Err(ReadError::MalformedStructure)
            },
        }
    }
}

} // verus!
