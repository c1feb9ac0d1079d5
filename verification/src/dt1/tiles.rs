//! Building the atlas of tiles from the atlas of blocks.

use crate::choice::{chooseTileColumns, chosen};
use crate::columns::{lemma_push, Columns, TilesIterator};
use crate::cursor::ReadError;
use crate::dt1::atlas::{
    atlasBlocks, atlas_blocks, heights_of, lemma_atlas_blocks_grow, lemma_atlas_heights,
    lemma_chosen_bounds, tile_blocks, tile_views, AtlasBlock,
};
use crate::dt1::{
    block_height, Block, Tile, TileHeader, TileView, BLOCKWIDTH, FLOOR_ROOF_BLOCKHEIGHT, TILEWIDTH,
};
use crate::ext::{lemma_next_multiple_of, next_multiple_of, UsizeExt};
use crate::image::{in_rect, Image};
use crate::FULLY_TRANSPARENT;
use vstd::prelude::*;

verus! {

/// The first row from `k` on of the stripe of width 32 at `(x0, y0)` that
/// holds a pixel, or `h` when none of the `h` rows does.
pub open spec fn dy_start(img: &Image, x0: int, y0: int, h: int, k: int) -> int
    decreases h - k,
{
    if k >= h {
        h
    } else if !img.row_empty(x0, 32, y0 + k) {
        k
    } else {
        dy_start(img, x0, y0, h, k + 1)
    }
}

/// The row after the last row before `e` that holds a pixel, or `start`
/// when no row from `start` on does.
pub open spec fn dy_end(img: &Image, x0: int, y0: int, start: int, e: int) -> int
    decreases e - start,
{
    if e <= start {
        start
    } else if !img.row_empty(x0, 32, y0 + e - 1) {
        e
    } else {
        dy_end(img, x0, y0, start, e - 1)
    }
}

/// The rows of the stripe that are left when the empty rows at its top and
/// at its bottom are trimmed.
pub open spec fn dy_range(img: &Image, x0: int, y0: int, h: int) -> (int, int) {
    let start = dy_start(img, x0, y0, h, 0);
    (start, dy_end(img, x0, y0, start, h))
}

/// The first row that holds a pixel is the row before which all rows are
/// empty.
pub proof fn lemma_dy_start(img: &Image, x0: int, y0: int, h: int, k: int, s: int)
    requires
        0 <= k <= s <= h,
        forall|dy: int| k <= dy < s ==> img.row_empty(x0, 32, #[trigger] (y0 + dy)),
        s < h ==> !img.row_empty(x0, 32, y0 + s),
    ensures
        dy_start(img, x0, y0, h, k) == s,
    decreases s - k,
{
    if k < s {
        assert(img.row_empty(x0, 32, y0 + k));
        lemma_dy_start(img, x0, y0, h, k + 1, s);
    }
}

/// The row after the last row that holds a pixel is the row from which on
/// all rows are empty.
pub proof fn lemma_dy_end(img: &Image, x0: int, y0: int, start: int, h: int, e: int)
    requires
        start <= e <= h,
        forall|dy: int| e <= dy < h ==> img.row_empty(x0, 32, #[trigger] (y0 + dy)),
        start < e ==> !img.row_empty(x0, 32, y0 + e - 1),
    ensures
        dy_end(img, x0, y0, start, h) == e,
    decreases h - e,
{
    if e < h {
        assert(img.row_empty(x0, 32, y0 + (h - 1)));
        lemma_dy_end(img, x0, y0, start, h - 1, e);
    }
}

/// The rows that block `f` of all blocks keeps: all of its slot, or, where
/// the packing is zealous, its rows in the atlas of blocks without the
/// empty ones at the top and at the bottom.
pub open spec fn kept_rows(blocks: Seq<AtlasBlock>, src: &Image, zealous: bool, f: int) -> (int, int) {
    if zealous {
        let c = src_corner(blocks, src, f);
        dy_range(src, c.0, c.1, blocks[f].height as int)
    } else {
        (0, blocks[f].height as int)
    }
}

/// The corner of the slot of block `f` in the atlas of blocks.
pub open spec fn src_corner(blocks: Seq<AtlasBlock>, src: &Image, f: int) -> (int, int) {
    let hs = heights_of(blocks);
    let (x, y) = Columns::fresh(src.height as nat).after(hs, f as nat).place(
        BLOCKWIDTH as nat,
        hs[f] as nat,
    );
    (x as int, y as int)
}

/// The slot of block `f` lies in the atlas of blocks.
pub open spec fn src_ok(blocks: Seq<AtlasBlock>, src: &Image, f: int) -> bool {
    blocks[f].height <= src.height && src_corner(blocks, src, f).0 + 32 <= src.width
}

/// The least of `y` plus the first kept row, among the first `k` of the
/// blocks from block `first` on.
pub open spec fn tile_top(blocks: Seq<AtlasBlock>, src: &Image, zealous: bool, first: int, k: int) -> int
    decreases k,
{
    let top = blocks[first + k - 1].block.y + kept_rows(blocks, src, zealous, first + k - 1).0;
    if k <= 1 {
        top
    } else if top < tile_top(blocks, src, zealous, first, k - 1) {
        top
    } else {
        tile_top(blocks, src, zealous, first, k - 1)
    }
}

/// The greatest of `y` plus the row after the last kept row, among the
/// first `k` of the blocks from block `first` on.
pub open spec fn tile_bottom(blocks: Seq<AtlasBlock>, src: &Image, zealous: bool, first: int, k: int) -> int
    decreases k,
{
    let bottom = blocks[first + k - 1].block.y + kept_rows(blocks, src, zealous, first + k - 1).1;
    if k <= 1 {
        bottom
    } else if bottom > tile_bottom(blocks, src, zealous, first, k - 1) {
        bottom
    } else {
        tile_bottom(blocks, src, zealous, first, k - 1)
    }
}

/// The blocks with their `y` counted from `top`.
pub open spec fn moved_blocks(blocks: Seq<Block>, top: int) -> Seq<Block> {
    Seq::new(blocks.len(), |k: int| Block { y: (blocks[k].y - top) as i16, ..blocks[k] })
}

/// The tile as it goes into the atlas of tiles: as high as its kept rows
/// reach, rounded up to 16, and its blocks counted from its first kept row.
pub open spec fn tile_in_atlas(t: TileView, top: int, bottom: int) -> TileView {
    TileView {
        head: TileHeader { height: next_multiple_of(bottom - top, 16) as i32, ..t.head },
        blocks: moved_blocks(t.blocks, top),
    }
}

/// The tile can go into the atlas of tiles: it is not without height, and
/// the places of its blocks can be counted from its first kept row.
pub open spec fn tile_movable(t: TileView, top: int, bottom: int) -> bool {
    &&& top < bottom
    &&& forall|k: int|
        0 <= k < t.blocks.len() ==> i16::MIN <= (#[trigger] t.blocks[k]).y - top <= i16::MAX
}

/// The place among all blocks of the first block of tile `t`.
pub open spec fn first_block(tiles: Seq<TileView>, t: int) -> int {
    atlas_blocks(tiles, t).len() as int
}

/// The first kept row of tile `t`, counted like the `y` of its blocks.
pub open spec fn top_of(tiles: Seq<TileView>, src: &Image, zealous: bool, t: int) -> int {
    tile_top(
        atlas_blocks(tiles, tiles.len() as int),
        src,
        zealous,
        first_block(tiles, t),
        tiles[t].blocks.len() as int,
    )
}

/// The row after the last kept row of tile `t`.
pub open spec fn bottom_of(tiles: Seq<TileView>, src: &Image, zealous: bool, t: int) -> int {
    tile_bottom(
        atlas_blocks(tiles, tiles.len() as int),
        src,
        zealous,
        first_block(tiles, t),
        tiles[t].blocks.len() as int,
    )
}

/// The first `t` tiles as they go into the atlas of tiles; the tiles
/// without blocks are left out.
pub open spec fn kept(tiles: Seq<TileView>, src: &Image, zealous: bool, t: int) -> Seq<TileView>
    decreases t,
{
    if t <= 0 {
        Seq::empty()
    } else if tiles[t - 1].blocks.len() == 0 {
        kept(tiles, src, zealous, t - 1)
    } else {
        kept(tiles, src, zealous, t - 1).push(
            tile_in_atlas(
                tiles[t - 1],
                top_of(tiles, src, zealous, t - 1),
                bottom_of(tiles, src, zealous, t - 1),
            ),
        )
    }
}

/// The heights of the tiles; a height below zero counts as zero.
pub open spec fn tile_heights(tiles: Seq<TileView>) -> Seq<usize> {
    Seq::new(
        tiles.len(),
        |u: int|
            if tiles[u].head.height < 0 {
                0usize
            } else {
                tiles[u].head.height as usize
            },
    )
}

/// The greatest height among the first `u` tiles; zero for none.
pub open spec fn max_height(tiles: Seq<TileView>, u: int) -> int
    decreases u,
{
    if u <= 0 {
        0
    } else if tiles[u - 1].head.height > max_height(tiles, u - 1) {
        tiles[u - 1].head.height as int
    } else {
        max_height(tiles, u - 1)
    }
}

/// The columns of the atlas of the tiles: those chosen for their heights,
/// the first candidate being as high as the highest tile and the
/// candidates growing by 16.
pub open spec fn tile_columns(tiles: Seq<TileView>) -> Columns {
    chosen(
        tile_heights(tiles),
        TILEWIDTH as nat,
        max_height(tiles, tiles.len() as int) as nat,
        FLOOR_ROOF_BLOCKHEIGHT as nat,
    )
}

/// `dst`, a raster of width `dw`, with the pixels of the rectangle of `src`
/// at `sp` that are not transparent copied to `dp`.
pub open spec fn blit(dst: Seq<u8>, dw: int, dp: (int, int), src: &Image, sp: (int, int), w: int, h: int) -> Seq<u8> {
    Seq::new(
        dst.len(),
        |i: int|
            {
                let x = i % dw;
                let y = i / dw;
                if in_rect(x, y, dp.0, dp.1, w, h) && src.at(x - dp.0 + sp.0, y - dp.1 + sp.1)
                    != FULLY_TRANSPARENT {
                    src.at(x - dp.0 + sp.0, y - dp.1 + sp.1)
                } else {
                    dst[i]
                }
            },
    )
}

/// The corner in the atlas of tiles of block `k` of the tile that has the
/// place `u` among the kept tiles `into` and its slot in the columns as
/// high as `full`.
pub open spec fn dest_corner(into: Seq<TileView>, full: nat, u: int, k: int) -> (int, int) {
    let hs = tile_heights(into);
    let (x, y) = Columns::fresh(full).after(hs, u as nat).place(TILEWIDTH as nat, hs[u] as nat);
    (x + into[u].blocks[k].x, y + into[u].blocks[k].y)
}

/// The raster of the atlas of tiles after the rows that the first `k`
/// blocks of tile `t` keep were copied from the atlas of blocks, the tiles
/// before it being done.
pub open spec fn copied(
    tiles: Seq<TileView>,
    src: &Image,
    zealous: bool,
    dst: Seq<u8>,
    dw: int,
    full: nat,
    t: int,
    k: int,
) -> Seq<u8>
    decreases t, k,
{
    if k <= 0 {
        if t <= 0 {
            dst
        } else {
            copied(tiles, src, zealous, dst, dw, full, t - 1, tiles[t - 1].blocks.len() as int)
        }
    } else {
        let blocks = atlas_blocks(tiles, tiles.len() as int);
        let into = kept(tiles, src, zealous, tiles.len() as int);
        let u = kept(tiles, src, zealous, t).len() as int;
        let f = first_block(tiles, t) + k - 1;
        let rows = kept_rows(blocks, src, zealous, f);
        let to = dest_corner(into, full, u, k - 1);
        let from = src_corner(blocks, src, f);
        blit(
            copied(tiles, src, zealous, dst, dw, full, t, k - 1),
            dw,
            (to.0, to.1 + rows.0),
            src,
            (from.0, from.1 + rows.0),
            32,
            rows.1 - rows.0,
        )
    }
}

/// Block `k` of tile `t` can be copied: the rows that it keeps come to lie
/// in the atlas of tiles.
pub open spec fn copy_ok(
    tiles: Seq<TileView>,
    src: &Image,
    zealous: bool,
    dw: int,
    dh: int,
    t: int,
    k: int,
) -> bool {
    let blocks = atlas_blocks(tiles, tiles.len() as int);
    let into = kept(tiles, src, zealous, tiles.len() as int);
    let u = kept(tiles, src, zealous, t).len() as int;
    let rows = kept_rows(blocks, src, zealous, first_block(tiles, t) + k);
    let c = dest_corner(into, dh as nat, u, k);
    &&& 0 <= c.0
    &&& c.0 + 32 <= dw
    &&& 0 <= c.1 + rows.0
    &&& c.1 + rows.1 <= dh
}

/// The atlas of tiles can be built: the blocks are not too many, each has
/// its slot in the atlas of blocks, every tile with blocks can go into the
/// atlas, the tiles are not too many or too high for the columns to be
/// chosen, the atlas has no more pixels than a machine word counts, and
/// every block comes to lie in it.
pub open spec fn can_build(tiles: Seq<TileView>, src: &Image, zealous: bool) -> bool {
    let blocks = atlas_blocks(tiles, tiles.len() as int);
    let into = kept(tiles, src, zealous, tiles.len() as int);
    let (w, h) = tile_columns(into).dimensions(TILEWIDTH as nat);
    &&& blocks.len() <= crate::dt1::atlas::max_blocks()
    &&& sources_ok(tiles, src)
    &&& tiles_movable(tiles, src, zealous)
    &&& (into.len() + 1) * max_height(into, into.len() as int) + 16 <= usize::MAX / 2
    &&& (into.len() + 1) * 160 <= usize::MAX / 2
    &&& w * h <= usize::MAX
    &&& forall|t: int, k: int|
        0 <= t < tiles.len() && 0 <= k < tiles[t].blocks.len() ==> #[trigger] copy_ok(
            tiles,
            src,
            zealous,
            w as int,
            h as int,
            t,
            k,
        )
}

/// The atlas of tiles: the tiles that go into it, its width and height, and
/// its pixels.
pub open spec fn built(tiles: Seq<TileView>, src: &Image, zealous: bool) -> (Seq<TileView>, nat, nat, Seq<u8>) {
    let into = kept(tiles, src, zealous, tiles.len() as int);
    let (w, h) = tile_columns(into).dimensions(TILEWIDTH as nat);
    (
        into,
        w,
        h,
        copied(
            tiles,
            src,
            zealous,
            crate::le::zeros(w * h),
            w as int,
            h,
            tiles.len() as int,
            0,
        ),
    )
}

/// The blocks of tile `t` lie among all blocks from `first_block(t)` on.
pub proof fn lemma_flat(tiles: Seq<TileView>, n: int, t: int, k: int)
    requires
        0 <= t < n <= tiles.len(),
        0 <= k < tiles[t].blocks.len(),
    ensures
        first_block(tiles, t + 1) == first_block(tiles, t) + tiles[t].blocks.len(),
        first_block(tiles, t) + k < atlas_blocks(tiles, n).len(),
        atlas_blocks(tiles, n)[first_block(tiles, t) + k] == tile_blocks(tiles[t])[k],
    decreases n,
{
    if t < n - 1 {
        lemma_flat(tiles, n - 1, t, k);
    }
}

/// The rows that a block keeps of its slot in the atlas of blocks.
pub fn keptRows(src: &mut Image, point: [usize; 2], height: usize, zealous: bool) -> (r: [i16; 2])
    requires
        old(src).wf(),
        old(src).holds(point[0] as int, point[1] as int, 32, height as int),
        height <= 32,
    ensures
        *final(src) == *old(src),
        (r[0] as int, r[1] as int) == if zealous {
            dy_range(old(src), point[0] as int, point[1] as int, height as int)
        } else {
            (0int, height as int)
        },
        0 <= r[0] <= r[1] <= height,
{
    if zealous {
        let r = src.boundingDyRangeBlockwidth(point, height);
        proof {
            let (x0, y0, h) = (point[0] as int, point[1] as int, height as int);
            lemma_dy_start(src, x0, y0, h, 0, r[0] as int);
            lemma_dy_end(src, x0, y0, r[0] as int, h, r[1] as int);
        }
        r
    } else {
        [0, height as i16]
    }
}

/// The tile as it goes into the atlas of tiles, its first kept row being
/// `top` and the row after its last `bottom`.
pub fn moveTile(tile: &Tile, top: i32, bottom: i32) -> (r: Result<Tile, ReadError>)
    requires
        -0x10000 <= top,
        bottom <= 0x10000,
    ensures
        r is Ok <==> tile_movable(tile@, top as int, bottom as int),
        r is Ok ==> r->Ok_0@ == tile_in_atlas(tile@, top as int, bottom as int),
        r is Ok ==> 16 <= r->Ok_0.height <= 0x20000,
        r is Err ==> r->Err_0 == ReadError::MalformedStructure,
{
    if top >= bottom {
        return Err(ReadError::MalformedStructure);
    }
    let mut blocks: Vec<Block> = Vec::new();
    let mut k: usize = 0;
    while k < tile.blocks.len()
        invariant
            k <= tile.blocks@.len(),
            -0x10000 <= top < bottom <= 0x10000,
            blocks@.len() == k,
            forall|i: int|
                0 <= i < k ==> i16::MIN <= (#[trigger] tile.blocks@[i]).y - top <= i16::MAX,
            forall|i: int|
                0 <= i < k ==> #[trigger] blocks@[i] == moved_blocks(tile.blocks@, top as int)[i],
        decreases tile.blocks@.len() - k,
    {
        let b = tile.blocks[k];
        let y = b.y as i32 - top;
        if y < i16::MIN as i32 || y > i16::MAX as i32 {
            assert(!(i16::MIN <= tile@.blocks[k as int].y - top <= i16::MAX));
            return Err(ReadError::MalformedStructure);
        }
        blocks.push(
            Block {
                x: b.x,
                y: y as i16,
                gridX: b.gridX,
                gridY: b.gridY,
                format: b.format,
                length: b.length,
                fileOffset: b.fileOffset,
            },
        );
        k = k + 1;
    }
    proof {
        lemma_next_multiple_of((bottom - top) as int, 16);
    }
    let height = ((bottom - top) as usize).nextMultipleOf(16);
    let mut h = tile.header();
    h.height = height as i32;
    let moved = Tile::fromHeader(h, blocks);
    assert(moved@.blocks =~= moved_blocks(tile.blocks@, top as int));
    Ok(moved)
}

/// The corner as a pair of numbers.
pub open spec fn corner_of(c: [usize; 2]) -> (int, int) {
    (c[0] as int, c[1] as int)
}

/// Every block has its slot in the atlas of blocks.
pub open spec fn sources_ok(tiles: Seq<TileView>, src: &Image) -> bool {
    let blocks = atlas_blocks(tiles, tiles.len() as int);
    forall|f: int| 0 <= f < blocks.len() ==> #[trigger] src_ok(blocks, src, f)
}

/// Every tile with blocks can go into the atlas of tiles.
pub open spec fn tiles_movable(tiles: Seq<TileView>, src: &Image, zealous: bool) -> bool {
    forall|t: int|
        0 <= t < tiles.len() && tiles[t].blocks.len() > 0 ==> tile_movable(
            tiles[t],
            #[trigger] top_of(tiles, src, zealous, t),
            bottom_of(tiles, src, zealous, t),
        )
}

/// Where a block lies in the atlas of blocks: the corner of its slot, and
/// the first row that it keeps and the row after the last.
#[derive(Debug, Clone, Copy)]
pub struct Slot {
    pub corner: [usize; 2],
    pub rows: [i16; 2],
}

/// The slots are those of the blocks `from .. to`: each lies in the atlas
/// of blocks, with the rows that its block keeps.
pub open spec fn slots_ok(
    slots: Seq<Slot>,
    blocks: Seq<AtlasBlock>,
    src: &Image,
    zealous: bool,
    from: int,
    to: int,
) -> bool {
    forall|f: int|
        from <= f < to ==> {
            let slot = #[trigger] slots[f];
            &&& corner_of(slot.corner) == src_corner(blocks, src, f)
            &&& src.holds(slot.corner[0] as int, slot.corner[1] as int, 32, blocks[f].height as int)
            &&& (slot.rows[0] as int, slot.rows[1] as int) == kept_rows(blocks, src, zealous, f)
            &&& 0 <= slot.rows[0] <= slot.rows[1] <= blocks[f].height
        }
}

/// Finds the slots of the `nb` blocks from block `first` on in the atlas of
/// blocks, and the rows that the blocks keep together: returns the first of
/// them and the row after the last, counted like the `y` of the blocks.
pub fn tileRows(
    blocks: &Vec<AtlasBlock>,
    first: usize,
    nb: usize,
    src: &mut Image,
    zealous: bool,
    points: &mut TilesIterator,
    slots: &mut Vec<Slot>,
) -> (r: Result<(i32, i32), ReadError>)
    requires
        old(src).wf(),
        1 <= nb,
        first + nb <= blocks@.len() <= crate::dt1::atlas::max_blocks(),
        forall|f: int| 0 <= f < blocks@.len() ==> 16 <= (#[trigger] blocks@[f]).height <= 32,
        old(points).tile_width() == BLOCKWIDTH,
        old(points).tileColumns@ == Columns::fresh(old(src).height as nat).after(
            heights_of(blocks@),
            first as nat,
        ),
        old(points).tileColumns@.wf(),
        old(points).tileColumns@.full == old(src).height,
        old(points).tileColumns@.overflown <= first,
        old(slots)@.len() == first,
    ensures
        *final(src) == *old(src),
        final(points).tile_width() == BLOCKWIDTH,
        r is Ok <==> forall|f: int| first <= f < first + nb ==> #[trigger] src_ok(blocks@, old(src), f),
        r is Ok ==> {
            &&& r->Ok_0.0 == tile_top(blocks@, old(src), zealous, first as int, nb as int)
            &&& r->Ok_0.1 == tile_bottom(blocks@, old(src), zealous, first as int, nb as int)
            &&& -0x8000 <= r->Ok_0.0 <= r->Ok_0.1 <= 0x8020
            &&& final(points).tileColumns@ == Columns::fresh(old(src).height as nat).after(
                heights_of(blocks@),
                (first + nb) as nat,
            )
            &&& final(points).tileColumns@.wf()
            &&& final(points).tileColumns@.full == old(src).height
            &&& final(points).tileColumns@.overflown <= first + nb
            &&& final(slots)@.len() == first + nb
            &&& forall|f: int| 0 <= f < first ==> #[trigger] final(slots)@[f] == old(slots)@[f]
            &&& slots_ok(final(slots)@, blocks@, old(src), zealous, first as int, first + nb)
        },
        r is Err ==> r->Err_0 == ReadError::MalformedStructure,
{
    let ghost hs = heights_of(blocks@);
    let ghost fresh = Columns::fresh(src.height as nat);
    if src.width < 32 {
        assert(!src_ok(blocks@, old(src), first as int));
        return Err(ReadError::MalformedStructure);
    }
    let area = src.data.len();
    proof {
        let (w, h) = (src.width as int, src.height as int);
        assert(area == w * h);
        assert(32 * h <= w * h) by (nonlinear_arith)
            requires
                32 <= w,
                0 <= h,
        ;
    }
    let mut top: i32 = 0;
    let mut bottom: i32 = 0;
    let mut k: usize = 0;
    while k < nb
        invariant
            k <= nb,
            1 <= nb,
            first + nb <= blocks@.len() <= crate::dt1::atlas::max_blocks(),
            forall|f: int| 0 <= f < blocks@.len() ==> 16 <= (#[trigger] blocks@[f]).height <= 32,
            hs == heights_of(blocks@),
            *src == *old(src),
            src.wf(),
            src.width >= 32,
            32 * src.height <= usize::MAX,
            fresh == Columns::fresh(src.height as nat),
            points.tile_width() == BLOCKWIDTH,
            points.tileColumns@ == fresh.after(hs, (first + k) as nat),
            points.tileColumns@.wf(),
            points.tileColumns@.full == src.height,
            points.tileColumns@.overflown <= first + k,
            slots@.len() == first + k,
            forall|f: int| 0 <= f < first ==> #[trigger] slots@[f] == old(slots)@[f],
            forall|f: int| first <= f < first + k ==> #[trigger] src_ok(blocks@, old(src), f),
            slots_ok(slots@, blocks@, old(src), zealous, first as int, first + k),
            k > 0 ==> top == tile_top(blocks@, old(src), zealous, first as int, k as int),
            k > 0 ==> bottom == tile_bottom(blocks@, old(src), zealous, first as int, k as int),
            k > 0 ==> -0x8000 <= top <= bottom <= 0x8020,
        decreases nb - k,
    {
        let f = first + k;
        let ab = &blocks[f];
        assert(hs[f as int] == ab.height);
        if ab.height > src.height {
            assert(!src_ok(blocks@, old(src), f as int));
            return Err(ReadError::MalformedStructure);
        }
        proof {
            lemma_push(points.tileColumns@, ab.height as nat);
            let o = points.tileColumns.numOverflownColumns as int;
            assert((o + 1) * 32 <= (blocks@.len() + 1) * 32) by (nonlinear_arith)
                requires
                    0 <= o <= blocks@.len(),
            ;
        }
        let point = points.next(ab.height);
        assert(corner_of(point) == src_corner(blocks@, old(src), f as int));
        if point[0] > src.width - 32 {
            assert(!src_ok(blocks@, old(src), f as int));
            return Err(ReadError::MalformedStructure);
        }
        let rows = keptRows(src, point, ab.height, zealous);
        let y = ab.block.y as i32;
        let start = y + rows[0] as i32;
        let end = y + rows[1] as i32;
        if k == 0 || start < top {
            top = start;
        }
        if k == 0 || end > bottom {
            bottom = end;
        }
        slots.push(Slot { corner: point, rows });
        k = k + 1;
    }
    Ok((top, bottom))
}

/// The tiles before `t` that go into the atlas are the first of all that
/// go into it.
pub proof fn lemma_kept_prefix(tiles: Seq<TileView>, src: &Image, zealous: bool, t: int, n: int)
    requires
        0 <= t <= n,
    ensures
        kept(tiles, src, zealous, t).len() <= kept(tiles, src, zealous, n).len(),
        forall|u: int|
            0 <= u < kept(tiles, src, zealous, t).len() ==> #[trigger] kept(tiles, src, zealous, n)[u]
                == kept(tiles, src, zealous, t)[u],
    decreases n,
{
    if t < n {
        lemma_kept_prefix(tiles, src, zealous, t, n - 1);
    }
}

/// The tiles as they go into the atlas of tiles, and the slot of every
/// block in the atlas of blocks.
pub fn moveTiles(tiles: &[Tile], blocks: &Vec<AtlasBlock>, src: &mut Image, zealous: bool) -> (r: Result<
    (Vec<Tile>, Vec<Slot>),
    ReadError,
>)
    requires
        old(src).wf(),
        blocks@ == atlas_blocks(tile_views(tiles@), tiles@.len() as int),
        blocks@.len() <= crate::dt1::atlas::max_blocks(),
    ensures
        *final(src) == *old(src),
        r is Ok <==> sources_ok(tile_views(tiles@), old(src)) && tiles_movable(
            tile_views(tiles@),
            old(src),
            zealous,
        ),
        r is Ok ==> {
            &&& tile_views(r->Ok_0.0@) == kept(tile_views(tiles@), old(src), zealous, tiles@.len() as int)
            &&& r->Ok_0.1@.len() == blocks@.len()
            &&& slots_ok(r->Ok_0.1@, blocks@, old(src), zealous, 0, blocks@.len() as int)
            &&& forall|u: int|
                0 <= u < r->Ok_0.0@.len() ==> 16 <= (#[trigger] r->Ok_0.0@[u]).height <= 0x20000
        },
        r is Err ==> r->Err_0 == ReadError::MalformedStructure,
{
    let ghost views = tile_views(tiles@);
    let ghost n = tiles@.len() as int;
    let mut points = TilesIterator::new(BLOCKWIDTH, src);
    let mut slots: Vec<Slot> = Vec::new();
    let mut into: Vec<Tile> = Vec::new();
    let mut first: usize = 0;
    let mut t: usize = 0;
    proof {
        assert forall|f: int| 0 <= f < blocks@.len() implies 16 <= (#[trigger] blocks@[f]).height
            <= 32 by {
            lemma_atlas_heights(views, n, n, f);
        }
    }
    while t < tiles.len()
        invariant
            t <= tiles@.len(),
            n == tiles@.len(),
            views == tile_views(tiles@),
            blocks@ == atlas_blocks(views, n),
            blocks@.len() <= crate::dt1::atlas::max_blocks(),
            forall|f: int| 0 <= f < blocks@.len() ==> 16 <= (#[trigger] blocks@[f]).height <= 32,
            *src == *old(src),
            src.wf(),
            first == first_block(views, t as int),
            first <= blocks@.len(),
            points.tile_width() == BLOCKWIDTH,
            points.tileColumns@ == Columns::fresh(src.height as nat).after(
                heights_of(blocks@),
                first as nat,
            ),
            points.tileColumns@.wf(),
            points.tileColumns@.full == src.height,
            points.tileColumns@.overflown <= first,
            slots@.len() == first,
            slots_ok(slots@, blocks@, old(src), zealous, 0, first as int),
            forall|f: int| 0 <= f < first ==> #[trigger] src_ok(blocks@, old(src), f),
            forall|u: int|
                0 <= u < t && views[u].blocks.len() > 0 ==> tile_movable(
                    views[u],
                    #[trigger] top_of(views, old(src), zealous, u),
                    bottom_of(views, old(src), zealous, u),
                ),
            tile_views(into@) == kept(views, old(src), zealous, t as int),
            forall|u: int| 0 <= u < into@.len() ==> 16 <= (#[trigger] into@[u]).height <= 0x20000,
        decreases tiles@.len() - t,
    {
        let tile = &tiles[t];
        let nb = tile.blocks.len();
        assert(views[t as int] == tile@);
        proof {
            lemma_atlas_blocks_grow(views, t + 1, n);
        }
        if nb > 0 {
            proof {
                lemma_flat(views, n, t as int, 0);
            }
            let (top, bottom) = match tileRows(
                blocks,
                first,
                nb,
                src,
                zealous,
                &mut points,
                &mut slots,
            ) {
                Err(e) => {
                    return Err(e);
                },
                Ok(rows) => rows,
            };
            assert(top == top_of(views, old(src), zealous, t as int));
            assert(bottom == bottom_of(views, old(src), zealous, t as int));
            let moved = match moveTile(tile, top, bottom) {
                Err(e) => {
                    return Err(e);
                },
                Ok(moved) => moved,
            };
            let ghost old_into = into@;
            into.push(moved);
            assert(tile_views(into@) =~= tile_views(old_into).push(moved@));
            first = first + nb;
        }
        t = t + 1;
    }
    proof {
        assert(first == blocks@.len());
    }
    Ok((into, slots))
}

/// The heights of the tiles and the greatest of them.
pub fn tileHeights(tiles: &Vec<Tile>) -> (r: (Vec<usize>, usize))
    ensures
        r.0@ == tile_heights(tile_views(tiles@)),
        r.1 == max_height(tile_views(tiles@), tiles@.len() as int),
        forall|u: int| 0 <= u < tiles@.len() ==> #[trigger] r.0@[u] <= r.1,
{
    let ghost views = tile_views(tiles@);
    let mut heights: Vec<usize> = Vec::new();
    let mut max: usize = 0;
    let mut u: usize = 0;
    while u < tiles.len()
        invariant
            u <= tiles@.len(),
            views == tile_views(tiles@),
            heights@.len() == u,
            forall|i: int| 0 <= i < u ==> #[trigger] heights@[i] == tile_heights(views)[i],
            forall|i: int| 0 <= i < u ==> #[trigger] heights@[i] <= max,
            max == max_height(views, u as int),
        decreases tiles@.len() - u,
    {
        let height = tiles[u].height;
        assert(views[u as int].head.height == height);
        let h: usize = if height < 0 {
            0
        } else {
            height as usize
        };
        if h > max {
            max = h;
        }
        heights.push(h);
        u = u + 1;
    }
    assert(heights@ =~= tile_heights(views));
    (heights, max)
}

/// `base + delta`, where a stretch of `size` from there on lies in
/// `0 .. limit`.
pub fn shifted(base: usize, delta: i32, size: usize, limit: usize) -> (r: Option<usize>)
    ensures
        r is Some <==> 0 <= base + delta && base + delta + size <= limit,
        r is Some ==> r->Some_0 == base + delta,
{
    if size > limit {
        return None;
    }
    let room = limit - size;
    if delta < 0 {
        let back = (-(delta as i64)) as usize;
        if base < back || base - back > room {
            None
        } else {
            Some(base - back)
        }
    } else {
        let forth = delta as usize;
        if base > room || forth > room - base {
            None
        } else {
            Some(base + forth)
        }
    }
}

/// What a blit leaves in the pixels of the destination.
pub proof fn lemma_blit(before: &Image, after: &Image, dp: (int, int), src: &Image, sp: (int, int), w: int, h: int)
    requires
        before.wf(),
        before.holds(dp.0, dp.1, w, h),
        after.same_outside(before, dp.0, dp.1, w, h),
        forall|dx: int, dy: int|
            0 <= dx < w && 0 <= dy < h ==> #[trigger] after.at(dp.0 + dx, dp.1 + dy) == if src.at(
                sp.0 + dx,
                sp.1 + dy,
            ) == FULLY_TRANSPARENT {
                before.at(dp.0 + dx, dp.1 + dy)
            } else {
                src.at(sp.0 + dx, sp.1 + dy)
            },
    ensures
        after.data@ == blit(before.data@, before.width as int, dp, src, sp, w, h),
{
    let dw = before.width as int;
    let dh = before.height as int;
    let want = blit(before.data@, dw, dp, src, sp, w, h);
    assert(after.data@.len() == want.len());
    assert forall|i: int| 0 <= i < want.len() implies after.data@[i] == want[i] by {
        assert(dw > 0 && dh > 0) by (nonlinear_arith)
            requires
                0 <= i < dw * dh,
                dw >= 0,
                dh >= 0,
        ;
        let x = i % dw;
        let y = i / dw;
        assert(i == y * dw + x && 0 <= x < dw && 0 <= y < dh) by (nonlinear_arith)
            requires
                0 <= i < dw * dh,
                dw > 0,
                x == i % dw,
                y == i / dw,
        ;
        assert(after.at(x, y) == after.data@[i]);
        assert(before.at(x, y) == before.data@[i]);
        if in_rect(x, y, dp.0, dp.1, w, h) {
            let dx = x - dp.0;
            let dy = y - dp.1;
            assert(after.at(dp.0 + dx, dp.1 + dy) == after.at(x, y));
        }
    }
    assert(after.data@ =~= want);
}

/// Copies the rows that the blocks of tile `t` keep from their slots in
/// the atlas of blocks; the tile has the place `u` among the tiles of the
/// atlas and its corner there at `point`.
fn copyTile(
    tiles: &[Tile],
    t: usize,
    moved: &Tile,
    point: [usize; 2],
    blocks: &Vec<AtlasBlock>,
    first: usize,
    slots: &Vec<Slot>,
    src: &Image,
    dest: &mut Image,
    Ghost(zealous): Ghost<bool>,
    Ghost(start): Ghost<Seq<u8>>,
    Ghost(u): Ghost<int>,
) -> (r: Result<(), ReadError>)
    requires
        src.wf(),
        old(dest).wf(),
        t < tiles@.len(),
        blocks@ == atlas_blocks(tile_views(tiles@), tiles@.len() as int),
        first == first_block(tile_views(tiles@), t as int),
        slots@.len() == blocks@.len(),
        slots_ok(slots@, blocks@, src, zealous, 0, blocks@.len() as int),
        u == kept(tile_views(tiles@), src, zealous, t as int).len(),
        0 <= u < kept(tile_views(tiles@), src, zealous, tiles@.len() as int).len(),
        moved@ == kept(tile_views(tiles@), src, zealous, tiles@.len() as int)[u],
        moved@.blocks.len() == tiles@[t as int]@.blocks.len(),
        forall|k: int|
            0 <= k < moved@.blocks.len() ==> (point[0] + (#[trigger] moved@.blocks[k]).x, point[1]
                + moved@.blocks[k].y) == dest_corner(
                kept(tile_views(tiles@), src, zealous, tiles@.len() as int),
                old(dest).height as nat,
                u,
                k,
            ),
        old(dest).data@ == copied(
            tile_views(tiles@),
            src,
            zealous,
            start,
            old(dest).width as int,
            old(dest).height as nat,
            t as int,
            0,
        ),
    ensures
        final(dest).width == old(dest).width,
        final(dest).height == old(dest).height,
        final(dest).wf(),
        r is Ok <==> forall|k: int|
            0 <= k < tiles@[t as int]@.blocks.len() ==> #[trigger] copy_ok(
                tile_views(tiles@),
                src,
                zealous,
                old(dest).width as int,
                old(dest).height as int,
                t as int,
                k,
            ),
        r is Ok ==> final(dest).data@ == copied(
            tile_views(tiles@),
            src,
            zealous,
            start,
            old(dest).width as int,
            old(dest).height as nat,
            t + 1,
            0,
        ),
        r is Err ==> r->Err_0 == ReadError::MalformedStructure,
{
    let ghost views = tile_views(tiles@);
    let ghost n = tiles@.len() as int;
    let ghost into = kept(views, src, zealous, n);
    let nb = moved.blocks.len();
    let mut k: usize = 0;
    assert(views[t as int] == tiles@[t as int]@);
    while k < nb
        invariant
            k <= nb,
            nb == moved@.blocks.len(),
            nb == views[t as int].blocks.len(),
            src.wf(),
            dest.wf(),
            dest.width == old(dest).width,
            dest.height == old(dest).height,
            t < n,
            n == tiles@.len(),
            views == tile_views(tiles@),
            into == kept(views, src, zealous, n),
            blocks@ == atlas_blocks(views, n),
            first == first_block(views, t as int),
            slots@.len() == blocks@.len(),
            slots_ok(slots@, blocks@, src, zealous, 0, blocks@.len() as int),
            u == kept(views, src, zealous, t as int).len(),
            forall|i: int|
                0 <= i < nb ==> (point[0] + (#[trigger] moved@.blocks[i]).x, point[1]
                    + moved@.blocks[i].y) == dest_corner(into, dest.height as nat, u, i),
            forall|i: int|
                0 <= i < k ==> #[trigger] copy_ok(
                    views,
                    src,
                    zealous,
                    dest.width as int,
                    dest.height as int,
                    t as int,
                    i,
                ),
            dest.data@ == copied(
                views,
                src,
                zealous,
                start,
                dest.width as int,
                dest.height as nat,
                t as int,
                k as int,
            ),
        decreases nb - k,
    {
        proof {
            lemma_flat(views, n, t as int, k as int);
        }
        let total = blocks.len();
        assert(first + k < total);
        let block = &moved.blocks[k];
        let ab = &blocks[first + k];
        let slot = slots[first + k];
        assert(ab.height == block_height(views[t as int].head.orientation));
        assert(corner_of(slot.corner) == src_corner(blocks@, src, first + k));
        let ghost c = dest_corner(into, dest.height as nat, u, k as int);
        assert(c == (point[0] + block.x, point[1] + block.y));
        let start = slot.rows[0] as usize;
        let height = slot.rows[1] as usize - start;
        let x = match shifted(point[0], block.x as i32, BLOCKWIDTH, dest.width) {
            None => {
                assert(!copy_ok(
                    views,
                    src,
                    zealous,
                    dest.width as int,
                    dest.height as int,
                    t as int,
                    k as int,
                ));
                return Err(ReadError::MalformedStructure);
            },
            Some(x) => x,
        };
        let y = match shifted(point[1], block.y as i32 + slot.rows[0] as i32, height, dest.height) {
            None => {
                assert(!copy_ok(
                    views,
                    src,
                    zealous,
                    dest.width as int,
                    dest.height as int,
                    t as int,
                    k as int,
                ));
                return Err(ReadError::MalformedStructure);
            },
            Some(y) => y,
        };
        let from = [slot.corner[0], slot.corner[1] + start];
        let ghost before = *dest;
        dest.blitPixelsRectangle([x, y], [BLOCKWIDTH, height], src, from);
        proof {
            lemma_blit(
                &before,
                dest,
                (x as int, y as int),
                src,
                (from[0] as int, from[1] as int),
                32,
                height as int,
            );
        }
        k = k + 1;
    }
    Ok(())
}

/// Copies the rows that every block keeps from its slot in the atlas of
/// blocks to its place in the atlas of tiles.
fn copyBlocks(
    tiles: &[Tile],
    into: &Vec<Tile>,
    heights: &Vec<usize>,
    blocks: &Vec<AtlasBlock>,
    slots: &Vec<Slot>,
    src: &Image,
    dest: &mut Image,
    Ghost(zealous): Ghost<bool>,
) -> (r: Result<(), ReadError>)
    requires
        src.wf(),
        old(dest).wf(),
        old(dest).height <= usize::MAX / 2,
        blocks@ == atlas_blocks(tile_views(tiles@), tiles@.len() as int),
        slots@.len() == blocks@.len(),
        slots_ok(slots@, blocks@, src, zealous, 0, blocks@.len() as int),
        tile_views(into@) == kept(tile_views(tiles@), src, zealous, tiles@.len() as int),
        heights@ == tile_heights(tile_views(into@)),
        forall|u: int| 0 <= u < heights@.len() ==> 1 <= #[trigger] heights@[u] <= old(dest).height,
        (into@.len() + 1) * 160 <= usize::MAX,
    ensures
        final(dest).width == old(dest).width,
        final(dest).height == old(dest).height,
        final(dest).wf(),
        r is Ok <==> forall|t: int, k: int|
            0 <= t < tiles@.len() && 0 <= k < tiles@[t]@.blocks.len() ==> #[trigger] copy_ok(
                tile_views(tiles@),
                src,
                zealous,
                old(dest).width as int,
                old(dest).height as int,
                t,
                k,
            ),
        r is Ok ==> final(dest).data@ == copied(
            tile_views(tiles@),
            src,
            zealous,
            old(dest).data@,
            old(dest).width as int,
            old(dest).height as nat,
            tiles@.len() as int,
            0,
        ),
        r is Err ==> r->Err_0 == ReadError::MalformedStructure,
{
    let ghost views = tile_views(tiles@);
    let ghost n = tiles@.len() as int;
    let ghost start = dest.data@;
    let mut points = TilesIterator::new(TILEWIDTH, dest);
    let mut first: usize = 0;
    let mut u: usize = 0;
    let mut t: usize = 0;
    while t < tiles.len()
        invariant
            t <= n,
            n == tiles@.len(),
            views == tile_views(tiles@),
            src.wf(),
            dest.wf(),
            dest.width == old(dest).width,
            dest.height == old(dest).height,
            dest.height <= usize::MAX / 2,
            blocks@ == atlas_blocks(views, n),
            slots@.len() == blocks@.len(),
            slots_ok(slots@, blocks@, src, zealous, 0, blocks@.len() as int),
            tile_views(into@) == kept(views, src, zealous, n),
            heights@ == tile_heights(tile_views(into@)),
            forall|i: int| 0 <= i < heights@.len() ==> 1 <= #[trigger] heights@[i] <= dest.height,
            (into@.len() + 1) * 160 <= usize::MAX,
            first == first_block(views, t as int),
            u == kept(views, src, zealous, t as int).len(),
            u <= into@.len(),
            points.tile_width() == TILEWIDTH,
            points.tileColumns@ == Columns::fresh(dest.height as nat).after(heights@, u as nat),
            points.tileColumns@.wf(),
            points.tileColumns@.full == dest.height,
            points.tileColumns@.overflown <= u,
            forall|i: int, k: int|
                0 <= i < t && 0 <= k < views[i].blocks.len() ==> #[trigger] copy_ok(
                    views,
                    src,
                    zealous,
                    dest.width as int,
                    dest.height as int,
                    i,
                    k,
                ),
            dest.data@ == copied(
                views,
                src,
                zealous,
                start,
                dest.width as int,
                dest.height as nat,
                t as int,
                0,
            ),
        decreases n - t,
    {
        let tile = &tiles[t];
        assert(views[t as int] == tile@);
        proof {
            lemma_kept_prefix(views, src, zealous, t + 1, n);
        }
        if tile.blocks.len() > 0 {
            proof {
                lemma_flat(views, n, t as int, 0);
                assert(tile_views(into@).len() == into@.len());
                lemma_push(points.tileColumns@, heights@[u as int] as nat);
                let o = points.tileColumns.numOverflownColumns as int;
                assert((o + 1) * 160 <= (into@.len() + 1) * 160) by (nonlinear_arith)
                    requires
                        0 <= o <= into@.len(),
                ;
            }
            let total = blocks.len();
            proof {
                lemma_flat(views, n, t as int, tile.blocks@.len() - 1);
            }
            let moved = &into[u];
            assert(moved@ == tile_views(into@)[u as int]);
            let point = points.next(heights[u]);
            match copyTile(
                tiles,
                t,
                moved,
                point,
                blocks,
                first,
                slots,
                src,
                dest,
                Ghost(zealous),
                Ghost(start),
                Ghost(u as int),
            ) {
                Err(e) => {
                    return Err(e);
                },
                Ok(_) => {},
            }
            first = first + tile.blocks.len();
            u = u + 1;
        }
        t = t + 1;
    }
    Ok(())
}

/// The atlas of tiles for the atlas of blocks `src`: the tiles as they go
/// into it, and its image. Each tile gets a slot of width 160 and of its own
/// height in columns chosen for those heights, and the rows that a block
/// keeps are copied from its slot in `src` to its place in the slot of its
/// tile. A zealous packing leaves out the empty rows above and below each
/// tile.
pub fn tileAtlas(tiles: &[Tile], src: &mut Image, zealous: bool) -> (r: Result<(Vec<Tile>, Image), ReadError>)
    requires
        old(src).wf(),
    ensures
        *final(src) == *old(src),
        r is Ok <==> can_build(tile_views(tiles@), old(src), zealous),
        r is Ok ==> {
            let b = built(tile_views(tiles@), old(src), zealous);
            &&& tile_views(r->Ok_0.0@) == b.0
            &&& r->Ok_0.1.width == b.1
            &&& r->Ok_0.1.height == b.2
            &&& r->Ok_0.1.data@ == b.3
            &&& r->Ok_0.1.wf()
        },
        r is Err ==> r->Err_0 == ReadError::MalformedStructure,
{
    let ghost views = tile_views(tiles@);
    let (blocks, _, _) = match atlasBlocks(tiles) {
        None => {
            return Err(ReadError::MalformedStructure);
        },
        Some(found) => found,
    };
    let (into, slots) = match moveTiles(tiles, &blocks, src, zealous) {
        Err(e) => {
            return Err(e);
        },
        Ok(moved) => moved,
    };
    let (heights, max) = tileHeights(&into);
    let count = into.len();
    assert(tile_views(into@).len() == count);
    if count >= usize::MAX / 2 {
        assert((count + 1) * 160 > usize::MAX / 2);
        return Err(ReadError::MalformedStructure);
    }
    match (count + 1).checked_mul(max) {
        None => {
            return Err(ReadError::MalformedStructure);
        },
        Some(rows) => {
            if rows > usize::MAX / 2 - FLOOR_ROOF_BLOCKHEIGHT {
                return Err(ReadError::MalformedStructure);
            }
        },
    }
    match (count + 1).checked_mul(TILEWIDTH) {
        None => {
            return Err(ReadError::MalformedStructure);
        },
        Some(width) => {
            if width > usize::MAX / 2 {
                return Err(ReadError::MalformedStructure);
            }
        },
    }
    proof {
        lemma_chosen_bounds(
            heights@,
            TILEWIDTH as nat,
            max as nat,
            FLOOR_ROOF_BLOCKHEIGHT as nat,
        );
        assert(max + count * max == (count + 1) * max) by (nonlinear_arith);
    }
    let columns = chooseTileColumns(&heights, TILEWIDTH, max, FLOOR_ROOF_BLOCKHEIGHT);
    assert(columns@ == tile_columns(tile_views(into@)));
    proof {
        let o = columns.numOverflownColumns as int;
        assert((o + 1) * 160 <= (count + 1) * 160) by (nonlinear_arith)
            requires
                0 <= o <= count,
        ;
    }
    let dimensions = columns.dimensions(TILEWIDTH);
    if dimensions[0].checked_mul(dimensions[1]).is_none() {
        return Err(ReadError::MalformedStructure);
    }
    let mut dest = Image::fromWidthHeight(dimensions[0], dimensions[1]);
    assert(dest.data@ =~= crate::le::zeros((dimensions[0] * dimensions[1]) as nat));
    match copyBlocks(tiles, &into, &heights, &blocks, &slots, src, &mut dest, Ghost(zealous)) {
        Err(e) => Err(e),
        Ok(_) => Ok((into, dest)),
    }
}

} // verus!
