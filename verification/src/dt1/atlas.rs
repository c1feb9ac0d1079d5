//! Drawing every block of a container into one atlas.

use crate::choice::{candidates, chooseTileColumns, chosen, lemma_best, lemma_candidates};
use crate::columns::{lemma_after, Columns, TilesIterator};
use crate::cursor::{fits, ReadError};
use crate::dt1::draw::{iso_paint, iso_valid, rle_paint, rle_valid, DrawDestination, DrawFn};
use crate::dt1::{block_height, is_isometric, Block, Tile, TileView, BLOCKWIDTH};
use crate::image::Image;
use crate::le::zeros;
use vstd::prelude::*;

verus! {

/// A block with what the atlas needs of its tile: the height of the slot
/// and the place of the tile's block headers.
#[derive(Debug, Clone, Copy)]
pub struct AtlasBlock {
    pub height: usize,
    pub pointer: i32,
    pub block: Block,
}

/// The blocks of a tile as the atlas takes them.
pub open spec fn tile_blocks(t: TileView) -> Seq<AtlasBlock> {
    Seq::new(
        t.blocks.len(),
        |k: int|
            AtlasBlock {
                height: block_height(t.head.orientation) as usize,
                pointer: t.head.blockHeadersPointer,
                block: t.blocks[k],
            },
    )
}

/// The blocks of the first `t` tiles in their order.
pub open spec fn atlas_blocks(tiles: Seq<TileView>, t: int) -> Seq<AtlasBlock>
    decreases t,
{
    if t <= 0 {
        Seq::empty()
    } else {
        atlas_blocks(tiles, t - 1) + tile_blocks(tiles[t - 1])
    }
}

/// The heights of the slots of the blocks.
pub open spec fn heights_of(blocks: Seq<AtlasBlock>) -> Seq<usize> {
    Seq::new(blocks.len(), |i: int| blocks[i].height)
}

/// The greatest block height among the first `t` tiles; zero for none.
pub open spec fn max_block_height(tiles: Seq<TileView>, t: int) -> int
    decreases t,
{
    if t <= 0 {
        0
    } else if block_height(tiles[t - 1].head.orientation) > max_block_height(tiles, t - 1) {
        block_height(tiles[t - 1].head.orientation)
    } else {
        max_block_height(tiles, t - 1)
    }
}

/// The least block height among the first `t` tiles; 32 for none.
pub open spec fn min_block_height(tiles: Seq<TileView>, t: int) -> int
    decreases t,
{
    if t <= 0 {
        32
    } else if block_height(tiles[t - 1].head.orientation) < min_block_height(tiles, t - 1) {
        block_height(tiles[t - 1].head.orientation)
    } else {
        min_block_height(tiles, t - 1)
    }
}

/// The payload of a block in the container `dt1`: `length` bytes at the
/// tile's block headers plus the block's offset.
pub open spec fn payload_at(dt1: Seq<u8>, ab: AtlasBlock) -> Result<Seq<u8>, ReadError> {
    let start = ab.pointer + ab.block.fileOffset;
    if start < 0 || ab.block.length < 0 {
        Err(ReadError::MalformedStructure)
    } else if !fits(dt1, start, ab.block.length as int) {
        Err(ReadError::TruncatedInput)
    } else {
        Ok(dt1.subrange(start, start + ab.block.length))
    }
}

/// The raster after a block with the payload `data` was drawn at `place`:
/// a block with the isometric tag by the isometric decoder, every other
/// block by the run-length decoder.
pub open spec fn draw_one(px: Seq<u8>, width: int, place: (nat, nat), format: [u8; 2], data: Seq<u8>) -> Result<
    Seq<u8>,
    ReadError,
> {
    if is_isometric(format) {
        if iso_valid(px.len() as int, width, place.0 as int, place.1 as int, data) {
            Ok(iso_paint(px, width, place.0 as int, place.1 as int, data, 15))
        } else {
            Err(ReadError::MalformedStructure)
        }
    } else {
        let first = place.1 * width + place.0;
        if rle_valid(px.len() as int, width, first, first, data, 0) {
            Ok(rle_paint(px, width, first, first, data, 0))
        } else {
            Err(ReadError::MalformedStructure)
        }
    }
}

/// The raster after the first `k` blocks were drawn, each in the slot that
/// columns of width 32 and height `full` give it.
pub open spec fn draw_all(px: Seq<u8>, width: int, full: nat, blocks: Seq<AtlasBlock>, dt1: Seq<u8>, k: int) -> Result<
    Seq<u8>,
    ReadError,
>
    decreases k,
{
    if k <= 0 {
        Ok(px)
    } else {
        match draw_all(px, width, full, blocks, dt1, k - 1) {
            Err(e) => Err(e),
            Ok(before) => match payload_at(dt1, blocks[k - 1]) {
                Err(e) => Err(e),
                Ok(data) => draw_one(
                    before,
                    width,
                    Columns::fresh(full).after(heights_of(blocks), (k - 1) as nat).place(
                        BLOCKWIDTH as nat,
                        blocks[k - 1].height as nat,
                    ),
                    blocks[k - 1].block.format,
                    data,
                ),
            },
        }
    }
}

/// The columns of the atlas for the tiles: those chosen for the heights of
/// the blocks, the first candidate being as high as the highest block and
/// the candidates growing by the height of the lowest one.
pub open spec fn atlas_columns(tiles: Seq<TileView>) -> Columns {
    if tiles.len() == 0 {
        Columns::fresh(0)
    } else {
        chosen(
            heights_of(atlas_blocks(tiles, tiles.len() as int)),
            BLOCKWIDTH as nat,
            max_block_height(tiles, tiles.len() as int) as nat,
            min_block_height(tiles, tiles.len() as int) as nat,
        )
    }
}

/// The most blocks that an atlas is made for.
pub open spec fn max_blocks() -> int {
    (usize::MAX / 2 - 64) / 32
}

/// The atlas of the tiles of the container `dt1`: its width, its height and
/// its pixels. There is none when the blocks are more than `max_blocks()`,
/// when the atlas would have more pixels than a machine word counts, or
/// when a block cannot be drawn.
pub open spec fn atlas(tiles: Seq<TileView>, dt1: Seq<u8>) -> Result<(nat, nat, Seq<u8>), ReadError> {
    let blocks = atlas_blocks(tiles, tiles.len() as int);
    let (w, h) = atlas_columns(tiles).dimensions(BLOCKWIDTH as nat);
    if blocks.len() > max_blocks() || w * h > usize::MAX {
        Err(ReadError::MalformedStructure)
    } else {
        match draw_all(zeros(w * h), w as int, h, blocks, dt1, blocks.len() as int) {
            Err(e) => Err(e),
            Ok(px) => Ok((w, h, px)),
        }
    }
}

/// The views of the tiles.
pub open spec fn tile_views(tiles: Seq<Tile>) -> Seq<TileView> {
    Seq::new(tiles.len(), |i: int| tiles[i]@)
}

/// More tiles have no fewer blocks.
pub proof fn lemma_atlas_blocks_grow(tiles: Seq<TileView>, j: int, k: int)
    requires
        0 <= j <= k,
    ensures
        atlas_blocks(tiles, j).len() <= atlas_blocks(tiles, k).len(),
    decreases k,
{
    if j < k {
        lemma_atlas_blocks_grow(tiles, j, k - 1);
    }
}

/// The block heights of the tiles lie between the least and the greatest,
/// which are 16 or 32.
pub proof fn lemma_block_heights(tiles: Seq<TileView>, t: int, i: int)
    requires
        0 <= i < t <= tiles.len(),
    ensures
        16 <= min_block_height(tiles, t) <= block_height(tiles[i].head.orientation)
            <= max_block_height(tiles, t) <= 32,
    decreases t,
{
    if i < t - 1 {
        lemma_block_heights(tiles, t - 1, i);
    } else if t > 1 {
        lemma_block_heights(tiles, t - 1, 0);
    } else {
        assert(min_block_height(tiles, 0) == 32 && max_block_height(tiles, 0) == 0);
    }
}

/// Every block of the first `t` tiles has the block height of one of them.
pub proof fn lemma_atlas_heights(tiles: Seq<TileView>, t: int, n: int, i: int)
    requires
        0 <= t <= n <= tiles.len(),
        0 <= i < atlas_blocks(tiles, t).len(),
    ensures
        min_block_height(tiles, n) <= atlas_blocks(tiles, t)[i].height <= max_block_height(
            tiles,
            n,
        ),
        16 <= atlas_blocks(tiles, t)[i].height <= 32,
    decreases t,
{
    if t > 0 {
        let before = atlas_blocks(tiles, t - 1);
        if i < before.len() {
            lemma_atlas_heights(tiles, t - 1, n, i);
        } else {
            lemma_block_heights(tiles, n, t - 1);
        }
    }
}

/// The blocks of the tiles, in their order, each with what the atlas needs
/// of its tile; the greatest block height of the tiles and the least. There
/// is no list when the blocks are more than `max_blocks()`.
pub fn atlasBlocks(tiles: &[Tile]) -> (r: Option<(Vec<AtlasBlock>, usize, usize)>)
    ensures
        r is Some <==> atlas_blocks(tile_views(tiles@), tiles@.len() as int).len() <= max_blocks(),
        r is Some ==> {
            let (blocks, max, min) = r->Some_0;
            &&& blocks@ == atlas_blocks(tile_views(tiles@), tiles@.len() as int)
            &&& max == max_block_height(tile_views(tiles@), tiles@.len() as int)
            &&& min == min_block_height(tile_views(tiles@), tiles@.len() as int)
        },
{
    let ghost views = tile_views(tiles@);
    let limit: usize = (usize::MAX / 2 - 64) / 32;
    let mut blocks: Vec<AtlasBlock> = Vec::new();
    let mut max: usize = 0;
    let mut min: usize = 32;
    let mut t: usize = 0;
    while t < tiles.len()
        invariant
            t <= tiles@.len(),
            views == tile_views(tiles@),
            limit == max_blocks(),
            blocks@ == atlas_blocks(views, t as int),
            blocks@.len() <= limit,
            max == max_block_height(views, t as int),
            min == min_block_height(views, t as int),
        decreases tiles@.len() - t,
    {
        let tile = &tiles[t];
        assert(views[t as int] == tile@);
        let height = tile.blockHeight();
        let ghost before = blocks@;
        let mut k: usize = 0;
        while k < tile.blocks.len()
            invariant
                k <= tile.blocks@.len(),
                height == block_height(tile.orientation),
                blocks@.len() == before.len() + k,
                before.len() <= limit,
                forall|i: int| 0 <= i < before.len() ==> #[trigger] blocks@[i] == before[i],
                forall|i: int|
                    0 <= i < k ==> #[trigger] blocks@[before.len() + i] == tile_blocks(tile@)[i],
            decreases tile.blocks@.len() - k,
        {
            blocks.push(
                AtlasBlock { height, pointer: tile.blockHeadersPointer, block: tile.blocks[k] },
            );
            k = k + 1;
        }
        assert(tile_blocks(tile@).len() == tile.blocks@.len());
        assert forall|i: int| 0 <= i < blocks@.len() implies blocks@[i] == (before + tile_blocks(
            tile@,
        ))[i] by {
            if i >= before.len() {
                assert(blocks@[before.len() + (i - before.len())] == tile_blocks(tile@)[i
                    - before.len()]);
            }
        }
        assert(blocks@ =~= before + tile_blocks(tile@));
        if blocks.len() > limit {
            proof {
                lemma_atlas_blocks_grow(views, t + 1, tiles@.len() as int);
            }
            return None;
        }
        if height > max {
            max = height;
        }
        if height < min {
            min = height;
        }
        t = t + 1;
    }
    Some((blocks, max, min))
}

/// The payload of a block in the container.
pub fn payloadOf<'a>(dt1: &'a [u8], ab: &AtlasBlock) -> (r: Result<&'a [u8], ReadError>)
    ensures
        match r {
            Ok(d) => payload_at(dt1@, *ab) == Ok::<Seq<u8>, ReadError>(d@),
            Err(e) => payload_at(dt1@, *ab) == Err::<Seq<u8>, ReadError>(e),
        },
{
    let start: i64 = ab.pointer as i64 + ab.block.fileOffset as i64;
    if start < 0 || ab.block.length < 0 {
        return Err(ReadError::MalformedStructure);
    }
    let len = dt1.len();
    if start as u64 > len as u64 || ab.block.length as u64 > (len as u64 - start as u64) {
        return Err(ReadError::TruncatedInput);
    }
    let from = start as usize;
    Ok(&dt1[from..from + ab.block.length as usize])
}

impl DrawFn {
    /// Draws a block with this decoder.
    pub fn draw<T: DrawDestination>(self, dst: &mut T, x0: usize, y0: usize, data: &[u8]) -> (r:
        Result<(), ReadError>)
        ensures
            final(dst).row_width() == old(dst).row_width(),
            final(dst).rows() == old(dst).rows(),
            final(dst).pixels().len() == old(dst).pixels().len(),
            match self {
                DrawFn::Isometric => {
                    &&& r is Ok <==> iso_valid(
                        old(dst).pixels().len() as int,
                        old(dst).row_width(),
                        x0 as int,
                        y0 as int,
                        data@,
                    )
                    &&& r is Ok ==> final(dst).pixels() == iso_paint(
                        old(dst).pixels(),
                        old(dst).row_width(),
                        x0 as int,
                        y0 as int,
                        data@,
                        15,
                    )
                },
                DrawFn::RLE => {
                    &&& r is Ok <==> rle_valid(
                        old(dst).pixels().len() as int,
                        old(dst).row_width(),
                        y0 * old(dst).row_width() + x0,
                        y0 * old(dst).row_width() + x0,
                        data@,
                        0,
                    )
                    &&& r is Ok ==> final(dst).pixels() == rle_paint(
                        old(dst).pixels(),
                        old(dst).row_width(),
                        y0 * old(dst).row_width() + x0,
                        y0 * old(dst).row_width() + x0,
                        data@,
                        0,
                    )
                },
            },
            r is Err ==> r->Err_0 == ReadError::MalformedStructure && final(dst).pixels() == old(dst).pixels(),
    {
        match self {
            DrawFn::Isometric => dst.drawBlockIsometric(x0, y0, data),
            DrawFn::RLE => dst.drawBlockRLE(x0, y0, data),
        }
    }
}

/// Draws the blocks into `image`, each in the slot that columns of width 32
/// as high as the image give it.
pub fn drawBlocks(image: &mut Image, blocks: &Vec<AtlasBlock>, dt1: &[u8]) -> (r: Result<
    (),
    ReadError,
>)
    requires
        old(image).wf(),
        blocks@.len() <= max_blocks(),
        forall|i: int|
            0 <= i < blocks@.len() ==> 1 <= (#[trigger] blocks@[i]).height <= old(image).height,
        old(image).height <= usize::MAX / 2,
    ensures
        final(image).width == old(image).width,
        final(image).height == old(image).height,
        match r {
            Ok(_) => draw_all(
                old(image).data@,
                old(image).width as int,
                old(image).height as nat,
                blocks@,
                dt1@,
                blocks@.len() as int,
            ) == Ok::<Seq<u8>, ReadError>(final(image).data@) && final(image).wf(),
            Err(e) => draw_all(
                old(image).data@,
                old(image).width as int,
                old(image).height as nat,
                blocks@,
                dt1@,
                blocks@.len() as int,
            ) == Err::<Seq<u8>, ReadError>(e),
        },
{
    let ghost hs = heights_of(blocks@);
    let ghost fresh = Columns::fresh(image.height as nat);
    let ghost w = image.width as int;
    let ghost full = image.height as nat;
    let ghost px0 = image.data@;
    let mut points = TilesIterator::new(BLOCKWIDTH, image);
    let n = blocks.len();
    let mut k: usize = 0;
    while k < n
        invariant
            k <= n == blocks@.len(),
            n <= max_blocks(),
            hs == heights_of(blocks@),
            fresh == Columns::fresh(full),
            fresh.admits(hs),
            w == image.width,
            full == image.height,
            full <= usize::MAX / 2,
            image.width == old(image).width,
            image.height == old(image).height,
            image.data@.len() == px0.len(),
            old(image).wf(),
            px0 == old(image).data@,
            points.tile_width() == BLOCKWIDTH,
            points.tileColumns@ == fresh.after(hs, k as nat),
            draw_all(px0, w, full, blocks@, dt1@, k as int) == Ok::<Seq<u8>, ReadError>(
                image.data@,
            ),
        decreases n - k,
    {
        let ab = &blocks[k];
        proof {
            lemma_after(fresh, hs, k as nat, k as nat);
            assert(hs[k as int] == ab.height);
            let o = points.tileColumns.numOverflownColumns as int;
            assert((o + 1) * 32 <= (n + 1) * 32) by (nonlinear_arith)
                requires
                    0 <= o <= n,
            ;
        }
        let place = points.next(ab.height);
        let data = match payloadOf(dt1, ab) {
            Err(e) => {
                proof {
                    lemma_draw_err(px0, w, full, blocks@, dt1@, k + 1, n as int);
                }
                return Err(e);
            },
            Ok(d) => d,
        };
        match ab.block.drawFn().draw(image, place[0], place[1], data) {
            Err(e) => {
                proof {
                    lemma_draw_err(px0, w, full, blocks@, dt1@, k + 1, n as int);
                }
                return Err(e);
            },
            Ok(_) => {},
        }
        k = k + 1;
    }
    Ok(())
}

/// Once a block cannot be drawn, the atlas cannot be drawn.
pub proof fn lemma_draw_err(px: Seq<u8>, width: int, full: nat, blocks: Seq<AtlasBlock>, dt1: Seq<u8>, k: int, n: int)
    requires
        0 <= k <= n,
        draw_all(px, width, full, blocks, dt1, k) is Err,
    ensures
        draw_all(px, width, full, blocks, dt1, n) == draw_all(px, width, full, blocks, dt1, k),
    decreases n,
{
    if k < n {
        lemma_draw_err(px, width, full, blocks, dt1, k, n - 1);
    }
}

/// The columns chosen for tiles of width `tw` and of heights up to `max`,
/// the candidates growing by `min`, are at least as high as `max`, and
/// neither their height nor their number leaves the range of the machine.
pub proof fn lemma_chosen_bounds(hs: Seq<usize>, tw: nat, max: nat, min: nat)
    requires
        min >= 1,
        forall|i: int| 0 <= i < hs.len() ==> 1 <= #[trigger] hs[i] <= max,
    ensures
        ({
            let c = chosen(hs, tw, max, min);
            &&& c.wf()
            &&& max <= c.full <= max + hs.len() * max + min
            &&& c.overflown <= hs.len()
        }),
{
    let cands = candidates(hs, max, min, hs.len());
    lemma_candidates(hs, max, min, hs.len());
    lemma_best(cands, tw, cands.len() as int, 0);
}

impl Image {
    /// The atlas of the tiles of the container `dt1`: every block decoded
    /// into a slot of its own, the slots in columns of width 32.
    pub fn fromDT1(tiles: &[Tile], dt1: &[u8]) -> (r: Result<Self, ReadError>)
        ensures
            match r {
                Ok(image) => atlas(tile_views(tiles@), dt1@) == Ok::<(nat, nat, Seq<u8>), ReadError>(
                    (image.width as nat, image.height as nat, image.data@),
                ) && image.wf(),
                Err(e) => atlas(tile_views(tiles@), dt1@) == Err::<
                    (nat, nat, Seq<u8>),
                    ReadError,
                >(e),
            },
    {
        let ghost views = tile_views(tiles@);
        let (blocks, max, min) = match atlasBlocks(tiles) {
            None => {
                return Err(ReadError::MalformedStructure);
            },
            Some(r) => r,
        };
        let mut heights: Vec<usize> = Vec::new();
        let mut i: usize = 0;
        while i < blocks.len()
            invariant
                i <= blocks@.len(),
                heights@.len() == i,
                forall|j: int| 0 <= j < i ==> #[trigger] heights@[j] == blocks@[j].height,
            decreases blocks@.len() - i,
        {
            heights.push(blocks[i].height);
            i = i + 1;
        }
        assert(heights@ =~= heights_of(blocks@));
        let columns = if tiles.len() == 0 {
            crate::columns::TileColumns {
                fullColumnHeight: 0,
                numOverflownColumns: 0,
                lastColumnHeight: 0,
            }
        } else {
            proof {
                lemma_block_heights(views, tiles@.len() as int, 0);
                assert forall|j: int| 0 <= j < heights@.len() implies 1 <= #[trigger] heights@[j]
                    <= max by {
                    lemma_atlas_heights(views, tiles@.len() as int, tiles@.len() as int, j);
                }
                assert((heights@.len() + 1) * max <= (heights@.len() + 1) * 32)
                    by (nonlinear_arith)
                    requires
                        max <= 32,
                ;
                lemma_chosen_bounds(heights@, BLOCKWIDTH as nat, max as nat, min as nat);
            }
            chooseTileColumns(&heights, BLOCKWIDTH, max, min)
        };
        assert(columns@ == atlas_columns(views));
        proof {
            if tiles@.len() > 0 {
                lemma_block_heights(views, tiles@.len() as int, 0);
                assert forall|j: int| 0 <= j < heights@.len() implies 1 <= #[trigger] heights@[j]
                    <= max by {
                    lemma_atlas_heights(views, tiles@.len() as int, tiles@.len() as int, j);
                }
                lemma_chosen_bounds(heights@, BLOCKWIDTH as nat, max as nat, min as nat);
                assert(heights@.len() * max <= heights@.len() * 32) by (nonlinear_arith)
                    requires
                        max <= 32,
                ;
            }
            let o = columns.numOverflownColumns as int;
            let n = heights@.len() as int;
            assert((o + 1) * 32 <= (n + 1) * 32) by (nonlinear_arith)
                requires
                    0 <= o <= n,
            ;
        }
        let dimensions = columns.dimensions(BLOCKWIDTH);
        let area = match dimensions[0].checked_mul(dimensions[1]) {
            None => {
                return Err(ReadError::MalformedStructure);
            },
            Some(a) => a,
        };
        let mut image = Image::fromWidthHeight(dimensions[0], dimensions[1]);
        assert(image.data@ =~= zeros((dimensions[0] * dimensions[1]) as nat));
        proof {
            assert forall|j: int| 0 <= j < blocks@.len() implies 1 <= (#[trigger] blocks@[j]).height
                <= image.height by {
                assert(heights@[j] == blocks@[j].height);
                if tiles@.len() > 0 {
                    lemma_atlas_heights(views, tiles@.len() as int, tiles@.len() as int, j);
                }
            }
        }
        match drawBlocks(&mut image, &blocks, dt1) {
            Err(e) => Err(e),
            Ok(_) => Ok(image),
        }
    }
}

} // verus!
