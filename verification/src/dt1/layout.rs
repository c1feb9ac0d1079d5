//! Laying the container out anew around block payloads that are encoded
//! from an atlas of tiles.

use crate::columns::{lemma_push, Columns, TilesIterator};
use crate::cursor::ReadError;
use crate::dt1::emit::{counts_fit, serialize};
use crate::dt1::encode::{iso_bytes, rle_bytes, writeBlockDataIsometric, writeBlockDataRLE};
use crate::dt1::{
    block_height, is_isometric, is_rle, is_rle_isometric, Block, Metadata, MetadataView, Tile,
    TileHeader, TileView, ISOMETRIC_ROWS, MAX_BLOCKHEIGHT, TILEWIDTH,
};
use crate::ext::{lemma_next_multiple_of, next_multiple_of, UsizeExt};
use crate::image::Image;
use crate::Vec2;
use vstd::prelude::*;

verus! {

/// The least `y` among the first `n` blocks.
pub open spec fn min_y(blocks: Seq<Block>, n: int) -> int
    decreases n,
{
    if n <= 1 {
        blocks[0].y as int
    } else if blocks[n - 1].y < min_y(blocks, n - 1) {
        blocks[n - 1].y as int
    } else {
        min_y(blocks, n - 1)
    }
}

/// The greatest `y` among the first `n` blocks.
pub open spec fn max_y(blocks: Seq<Block>, n: int) -> int
    decreases n,
{
    if n <= 1 {
        blocks[0].y as int
    } else if blocks[n - 1].y > max_y(blocks, n - 1) {
        blocks[n - 1].y as int
    } else {
        max_y(blocks, n - 1)
    }
}

/// Height of the slot that a tile takes in the atlas: from its topmost block
/// to the bottom of its lowest one, rounded up to a multiple of 16.
pub open spec fn slot_height(t: TileView) -> int {
    let n = t.blocks.len() as int;
    next_multiple_of(
        max_y(t.blocks, n) + block_height(t.head.orientation) - min_y(t.blocks, n),
        16,
    )
}

/// Rows of pixels that a block of the given format covers.
pub open spec fn block_rows(format: [u8; 2]) -> int {
    if is_rle(format) {
        32
    } else {
        15
    }
}

/// The format tag is one of the three that are known.
pub open spec fn known_format(format: [u8; 2]) -> bool {
    is_isometric(format) || is_rle(format) || is_rle_isometric(format)
}

/// The corner in the atlas of block `b` of a tile whose slot is at `p` and
/// whose topmost block is at `miny`.
pub open spec fn block_corner(p: (int, int), miny: int, b: Block) -> (int, int) {
    (p.0 + b.x, p.1 + b.y - miny)
}

/// The block can be encoded: its format is known and its pixels lie in the
/// atlas.
pub open spec fn block_ok(img: &Image, p: (int, int), miny: int, b: Block) -> bool {
    let c = block_corner(p, miny, b);
    &&& known_format(b.format)
    &&& 0 <= c.0
    &&& c.0 + 32 <= img.width
    &&& 0 <= c.1
    &&& c.1 + block_rows(b.format) <= img.height
}

/// The payload of a block with its corner at `c`.
pub open spec fn encode_block(img: &Image, format: [u8; 2], c: (int, int)) -> Seq<u8> {
    if is_isometric(format) {
        iso_bytes(img, c.0, c.1, 15)
    } else {
        rle_bytes(img, c.0, c.1, !is_rle(format), block_rows(format))
    }
}

/// The payloads of the first `k` blocks of a tile, one after the other.
pub open spec fn tile_body(img: &Image, p: (int, int), miny: int, blocks: Seq<Block>, k: int) -> Seq<u8>
    decreases k,
{
    if k <= 0 {
        Seq::empty()
    } else {
        tile_body(img, p, miny, blocks, k - 1) + encode_block(
            img,
            blocks[k - 1].format,
            block_corner(p, miny, blocks[k - 1]),
        )
    }
}

/// Block `k` with the length of its new payload and the offset of that
/// payload from the start of the tile's block headers.
pub open spec fn laid_out_block(img: &Image, p: (int, int), miny: int, blocks: Seq<Block>, k: int) -> Block {
    Block {
        length: encode_block(img, blocks[k].format, block_corner(p, miny, blocks[k])).len() as i32,
        fileOffset: (20 * blocks.len() + tile_body(img, p, miny, blocks, k).len()) as i32,
        ..blocks[k]
    }
}

/// Bytes that a tile takes after the tile headers: 20 for each block header
/// and the payloads.
pub open spec fn body_len(img: &Image, p: (int, int), t: TileView) -> int {
    let n = t.blocks.len() as int;
    20 * n + tile_body(img, p, min_y(t.blocks, n), t.blocks, n).len()
}

/// The tile with its block headers at `pointer` and every length and offset
/// as the new payloads give them.
pub open spec fn laid_out_tile(img: &Image, p: (int, int), pointer: int, t: TileView) -> TileView {
    let n = t.blocks.len() as int;
    TileView {
        head: TileHeader {
            blockHeadersPointer: pointer as i32,
            blocksDataLength: body_len(img, p, t) as i32,
            ..t.head
        },
        blocks: Seq::new(n as nat, |k: int| laid_out_block(img, p, min_y(t.blocks, n), t.blocks, k)),
    }
}

/// The tile can be laid out at `pointer` with its slot at `p`: it has a
/// block, every block can be encoded, and the tile ends before byte `2^31`.
pub open spec fn tile_fits(img: &Image, p: (int, int), pointer: int, t: TileView) -> bool {
    let n = t.blocks.len() as int;
    &&& n >= 1
    &&& forall|k: int| 0 <= k < n ==> block_ok(img, p, min_y(t.blocks, n), #[trigger] t.blocks[k])
    &&& pointer + body_len(img, p, t) <= i32::MAX
}

/// The heights of the slots of the tiles.
pub open spec fn slot_heights(m: MetadataView) -> Seq<usize> {
    Seq::new(m.tiles.len(), |t: int| slot_height(m.tiles[t]) as usize)
}

/// The corner of the slot of tile `t` in an atlas: the tiles are placed in
/// columns of width 160 as high as the atlas, in their order.
pub open spec fn slot_corner(m: MetadataView, img: &Image, t: int) -> (int, int) {
    let hs = slot_heights(m);
    let (x, y) = Columns::fresh(img.height as nat).after(hs, t as nat).place(
        TILEWIDTH as nat,
        hs[t] as nat,
    );
    (x as int, y as int)
}

/// Where the block headers of tile `t` start: after the file header, the
/// tile headers, and the tiles before it.
pub open spec fn tile_pointer(m: MetadataView, img: &Image, t: int) -> int
    decreases t,
{
    if t <= 0 {
        276 + 96 * (m.tiles.len() as int)
    } else {
        tile_pointer(m, img, t - 1) + body_len(img, slot_corner(m, img, t - 1), m.tiles[t - 1])
    }
}

/// Tile `t` of the container.
pub open spec fn tile_at(m: MetadataView, t: int) -> TileView {
    m.tiles[t]
}

/// The container can be written around payloads encoded from `img`: the
/// tile headers end before byte `2^31`, and each tile has a slot no higher
/// than the atlas and can be laid out there.
pub open spec fn can_emit(m: MetadataView, img: &Image) -> bool {
    &&& 276 + 96 * m.tiles.len() <= i32::MAX
    &&& forall|t: int|
        0 <= t < m.tiles.len() ==> {
            &&& (#[trigger] tile_at(m, t)).blocks.len() >= 1
            &&& slot_height(m.tiles[t]) <= img.height
            &&& tile_fits(img, slot_corner(m, img, t), tile_pointer(m, img, t), m.tiles[t])
        }
}

/// The metadata with every pointer, length and offset as the payloads
/// encoded from `img` give them.
pub open spec fn laid_out(m: MetadataView, img: &Image) -> MetadataView {
    MetadataView {
        fileHeader: m.fileHeader,
        tiles: Seq::new(
            m.tiles.len(),
            |t: int| laid_out_tile(img, slot_corner(m, img, t), tile_pointer(m, img, t), m.tiles[t]),
        ),
    }
}

/// The payloads of the blocks of each tile, encoded from `img`.
pub open spec fn bodies_of(m: MetadataView, img: &Image) -> Seq<Seq<u8>> {
    Seq::new(
        m.tiles.len(),
        |t: int|
            tile_body(
                img,
                slot_corner(m, img, t),
                min_y(m.tiles[t].blocks, m.tiles[t].blocks.len() as int),
                m.tiles[t].blocks,
                m.tiles[t].blocks.len() as int,
            ),
    )
}

/// The container written around payloads encoded from `img`.
pub open spec fn emit_bytes(m: MetadataView, img: &Image) -> Seq<u8> {
    serialize(laid_out(m, img), bodies_of(m, img))
}

/// The payloads of more blocks take no fewer bytes.
pub proof fn lemma_tile_body_grows(img: &Image, p: (int, int), miny: int, blocks: Seq<Block>, j: int, k: int)
    requires
        0 <= j <= k,
    ensures
        tile_body(img, p, miny, blocks, j).len() <= tile_body(img, p, miny, blocks, k).len(),
    decreases k,
{
    if j < k {
        lemma_tile_body_grows(img, p, miny, blocks, j, k - 1);
    }
}

/// The extremes lie among the blocks they were taken from.
pub proof fn lemma_min_max_y(blocks: Seq<Block>, n: int, k: int)
    requires
        0 <= k < n <= blocks.len(),
    ensures
        i16::MIN <= min_y(blocks, n) <= blocks[k].y <= max_y(blocks, n) <= i16::MAX,
    decreases n,
{
    if n > 1 {
        if k < n - 1 {
            lemma_min_max_y(blocks, n - 1, k);
        } else {
            lemma_min_max_y(blocks, n - 1, 0);
        }
    }
}

/// The least and the greatest `y` among the blocks of a tile.
pub fn blockSpan(blocks: &Vec<Block>) -> (r: (i16, i16))
    requires
        blocks@.len() >= 1,
    ensures
        r.0 == min_y(blocks@, blocks@.len() as int),
        r.1 == max_y(blocks@, blocks@.len() as int),
{
    let mut startY: i16 = blocks[0].y;
    let mut endY: i16 = blocks[0].y;
    let mut k: usize = 1;
    while k < blocks.len()
        invariant
            1 <= k <= blocks@.len(),
            startY == min_y(blocks@, k as int),
            endY == max_y(blocks@, k as int),
        decreases blocks@.len() - k,
    {
        let y = blocks[k].y;
        if y < startY {
            startY = y;
        }
        if y > endY {
            endY = y;
        }
        k = k + 1;
    }
    (startY, endY)
}

/// Encodes the blocks of `tile` from `tileImage`, the slot of the tile being
/// at `point`, and lays the tile out with its block headers at `pointer`.
/// Returns the tile as it is to be written, and the payloads of its blocks.
pub fn layOutTile(tile: &Tile, tileImage: &Image, point: Vec2, pointer: i32) -> (r: Result<
    (Tile, Vec<u8>),
    ReadError,
>)
    requires
        tileImage.wf(),
        0 <= pointer,
    ensures
        r is Ok <==> tile_fits(tileImage, (point[0] as int, point[1] as int), pointer as int, tile@),
        r is Ok ==> r->Ok_0.0@ == laid_out_tile(
            tileImage,
            (point[0] as int, point[1] as int),
            pointer as int,
            tile@,
        ) && r->Ok_0.1@ == tile_body(
            tileImage,
            (point[0] as int, point[1] as int),
            min_y(tile.blocks@, tile.blocks@.len() as int),
            tile.blocks@,
            tile.blocks@.len() as int,
        ),
        r is Err ==> r->Err_0 == ReadError::MalformedStructure,
{
    let ghost p = (point[0] as int, point[1] as int);
    let ghost view = tile@;
    let nb = tile.blocks.len();
    if nb == 0 {
        return Err(ReadError::MalformedStructure);
    }
    let budget: usize = (i32::MAX - pointer) as usize;
    let (startY, _endY) = blockSpan(&tile.blocks);
    let ghost miny = startY as int;
    if nb > budget / 20 {
        assert(!tile_fits(tileImage, p, pointer as int, view));
        return Err(ReadError::MalformedStructure);
    }
    let headers: usize = 20 * nb;
    let mut body: Vec<u8> = Vec::new();
    let mut blocks: Vec<Block> = Vec::new();
    let mut k: usize = 0;
    while k < nb
        invariant
            k <= nb == tile.blocks@.len(),
            nb >= 1,
            tileImage.wf(),
            view == tile@,
            p == (point[0] as int, point[1] as int),
            miny == min_y(tile.blocks@, nb as int),
            miny == startY,
            headers == 20 * nb,
            budget == i32::MAX - pointer,
            0 <= pointer,
            headers + body@.len() <= budget,
            forall|i: int| 0 <= i < k ==> block_ok(tileImage, p, miny, #[trigger] tile.blocks@[i]),
            body@ == tile_body(tileImage, p, miny, tile.blocks@, k as int),
            blocks@.len() == k,
            forall|i: int|
                0 <= i < k ==> #[trigger] blocks@[i] == laid_out_block(
                    tileImage,
                    p,
                    miny,
                    tile.blocks@,
                    i,
                ),
        decreases nb - k,
    {
        let b = tile.blocks[k];
        proof {
            lemma_min_max_y(tile.blocks@, nb as int, k as int);
        }
        let isometric = b.format[0] == 1 && b.format[1] == 0;
        let rle = b.format[0] == 1 && b.format[1] == 16;
        let rleIsometric = b.format[0] == 5 && b.format[1] == 32;
        if !isometric && !rle && !rleIsometric {
            assert(!block_ok(tileImage, p, miny, tile.blocks@[k as int]));
            return Err(ReadError::MalformedStructure);
        }
        let rows: usize = if rle {
            MAX_BLOCKHEIGHT
        } else {
            ISOMETRIC_ROWS
        };
        // the corner of the block in the atlas
        let bx: usize = if b.x >= 0 {
            match point[0].checked_add(b.x as usize) {
                Some(v) => v,
                None => {
                    assert(!block_ok(tileImage, p, miny, tile.blocks@[k as int]));
                    return Err(ReadError::MalformedStructure);
                },
            }
        } else {
            let back = (-(b.x as i32)) as usize;
            if point[0] < back {
                assert(!block_ok(tileImage, p, miny, tile.blocks@[k as int]));
                return Err(ReadError::MalformedStructure);
            }
            point[0] - back
        };
        let down = (b.y as i32 - startY as i32) as usize;
        let by: usize = match point[1].checked_add(down) {
            Some(v) => v,
            None => {
                assert(!block_ok(tileImage, p, miny, tile.blocks@[k as int]));
                return Err(ReadError::MalformedStructure);
            },
        };
        if bx > tileImage.width || tileImage.width - bx < 32 || by > tileImage.height
            || tileImage.height - by < rows {
            assert(!block_ok(tileImage, p, miny, tile.blocks@[k as int]));
            return Err(ReadError::MalformedStructure);
        }
        assert(block_ok(tileImage, p, miny, tile.blocks@[k as int]));
        assert(block_corner(p, miny, tile.blocks@[k as int]) == (bx as int, by as int));
        let start = body.len();
        if isometric {
            writeBlockDataIsometric(&mut body, [bx, by], tileImage);
        } else {
            writeBlockDataRLE(&mut body, [bx, by], rows, tileImage);
        }
        assert(body@ == tile_body(tileImage, p, miny, tile.blocks@, k as int + 1));
        let length = body.len() - start;
        if body.len() > budget - headers {
            proof {
                lemma_tile_body_grows(tileImage, p, miny, tile.blocks@, k as int + 1, nb as int);
            }
            return Err(ReadError::MalformedStructure);
        }
        blocks.push(
            Block {
                x: b.x,
                y: b.y,
                gridX: b.gridX,
                gridY: b.gridY,
                format: b.format,
                length: length as i32,
                fileOffset: (headers + start) as i32,
            },
        );
        k = k + 1;
    }
    let mut h = tile.header();
    h.blockHeadersPointer = pointer;
    h.blocksDataLength = (headers + body.len()) as i32;
    let t = Tile::fromHeader(h, blocks);
    assert(t@.blocks =~= laid_out_tile(tileImage, p, pointer as int, view).blocks);
    Ok((t, body))
}

/// The corner that the columns `c` give to the slot of tile `t`.
pub open spec fn next_corner(c: Columns, t: TileView) -> (int, int) {
    let (x, y) = c.place(TILEWIDTH as nat, slot_height(t) as nat);
    (x as int, y as int)
}

/// Tile `t` has a block, a slot no higher than the atlas, and can be laid
/// out at `pointer` in the slot that the columns `c` give it.
pub open spec fn tile_ok(img: &Image, c: Columns, pointer: int, t: TileView) -> bool {
    &&& t.blocks.len() >= 1
    &&& slot_height(t) <= img.height
    &&& tile_fits(img, next_corner(c, t), pointer, t)
}

/// Gives `tile` the next slot of the atlas and lays it out there with its
/// block headers at `pointer`.
pub fn layOutNext(tile: &Tile, tileImage: &Image, points: &mut TilesIterator, pointer: i32) -> (r:
    Result<(Tile, Vec<u8>), ReadError>)
    requires
        tileImage.wf(),
        tileImage.width >= 32,
        0 <= pointer,
        old(points).tile_width() == TILEWIDTH,
        old(points).tileColumns@.wf(),
        old(points).tileColumns@.full == tileImage.height,
        old(points).tileColumns.numOverflownColumns * 160 <= tileImage.width + 32768,
    ensures
        r is Ok <==> tile_ok(tileImage, old(points).tileColumns@, pointer as int, tile@),
        r is Ok ==> {
            let p = next_corner(old(points).tileColumns@, tile@);
            &&& final(points).tile_width() == TILEWIDTH
            &&& final(points).tileColumns@ == old(points).tileColumns@.push(
                slot_height(tile@) as nat,
            )
            &&& final(points).tileColumns@.wf()
            &&& final(points).tileColumns.numOverflownColumns * 160 <= tileImage.width + 32768
            &&& slot_height(tile@) <= usize::MAX
            &&& r->Ok_0.0@ == laid_out_tile(tileImage, p, pointer as int, tile@)
            &&& r->Ok_0.1@ == tile_body(
                tileImage,
                p,
                min_y(tile.blocks@, tile.blocks@.len() as int),
                tile.blocks@,
                tile.blocks@.len() as int,
            )
            &&& pointer + body_len(tileImage, p, tile@) <= i32::MAX
        },
        r is Err ==> r->Err_0 == ReadError::MalformedStructure,
{
    let nb = tile.blocks.len();
    if nb == 0 {
        return Err(ReadError::MalformedStructure);
    }
    let (startY, endY) = blockSpan(&tile.blocks);
    proof {
        lemma_min_max_y(tile.blocks@, nb as int, 0);
    }
    let span: usize = (endY as i32 - startY as i32) as usize + tile.blockHeight();
    proof {
        lemma_next_multiple_of(span as int, 16);
    }
    let slot = span.nextMultipleOf(16);
    assert(slot == slot_height(tile@));
    if slot > tileImage.height {
        return Err(ReadError::MalformedStructure);
    }
    let area = tileImage.data.len();
    assert(area == tileImage.width * tileImage.height);
    let ghost before = points.tileColumns@;
    proof {
        let w = tileImage.width as int;
        let h = tileImage.height as int;
        assert(w * 16 <= w * h) by (nonlinear_arith)
            requires
                16 <= h,
                0 <= w,
        ;
        assert(32 * h <= w * h) by (nonlinear_arith)
            requires
                32 <= w,
                0 <= h,
        ;
        lemma_push(before, slot as nat);
        let o = points.tileColumns.numOverflownColumns as int;
        assert((o + 1) * 160 == o * 160 + 160) by (nonlinear_arith);
    }
    let point = points.next(slot);
    let ghost p = (point[0] as int, point[1] as int);
    assert(p == next_corner(before, tile@));
    match layOutTile(tile, tileImage, point, pointer) {
        Err(e) => Err(ReadError::MalformedStructure),
        Ok((laid, body)) => {
            proof {
                // the column of this tile holds a block, so it lies in the atlas
                assert(block_ok(tileImage, p, min_y(tile.blocks@, nb as int), tile.blocks@[0]));
                assert(before.column(slot as nat) == points.tileColumns@.overflown);
            }
            Ok((laid, body))
        },
    }
}

/// The state of the columns before tile `t` is placed.
pub open spec fn columns_before(m: MetadataView, img: &Image, t: int) -> Columns {
    Columns::fresh(img.height as nat).after(slot_heights(m), t as nat)
}

/// What `can_emit` asks of tile `t`, said over the columns.
pub proof fn lemma_tile_ok(m: MetadataView, img: &Image, t: int)
    requires
        0 <= t < m.tiles.len(),
    ensures
        tile_ok(img, columns_before(m, img, t), tile_pointer(m, img, t), m.tiles[t]) <==> {
            &&& m.tiles[t].blocks.len() >= 1
            &&& slot_height(m.tiles[t]) <= img.height
            &&& tile_fits(img, slot_corner(m, img, t), tile_pointer(m, img, t), m.tiles[t])
        },
        slot_height(m.tiles[t]) >= 0 ==> next_corner(columns_before(m, img, t), m.tiles[t])
            == slot_corner(m, img, t),
{
    let b = m.tiles[t].blocks;
    if b.len() >= 1 {
        lemma_min_max_y(b, b.len() as int, 0);
        lemma_next_multiple_of(
            max_y(b, b.len() as int) + block_height(m.tiles[t].head.orientation) - min_y(
                b,
                b.len() as int,
            ),
            16,
        );
    }
}

/// Tile `u` was laid out: it could be, `tile` is what is to be written for
/// it, and `body` holds the payloads of its blocks.
#[verifier::opaque]
pub open spec fn tile_done(m: MetadataView, img: &Image, u: int, tile: TileView, body: Seq<u8>) -> bool {
    &&& tile_ok(img, columns_before(m, img, u), tile_pointer(m, img, u), m.tiles[u])
    &&& tile == laid_out_tile(img, slot_corner(m, img, u), tile_pointer(m, img, u), m.tiles[u])
    &&& body == tile_body(
        img,
        slot_corner(m, img, u),
        min_y(m.tiles[u].blocks, m.tiles[u].blocks.len() as int),
        m.tiles[u].blocks,
        m.tiles[u].blocks.len() as int,
    )
}

/// A tile that cannot be laid out stops the whole container.
proof fn lemma_tile_stops(m: MetadataView, img: &Image, t: int)
    requires
        0 <= t < m.tiles.len(),
        !tile_ok(img, columns_before(m, img, t), tile_pointer(m, img, t), m.tiles[t]),
    ensures
        !can_emit(m, img),
{
    lemma_tile_ok(m, img, t);
    if can_emit(m, img) {
        assert(tile_at(m, t).blocks.len() >= 1);
    }
}

/// What one step of laying out establishes for the next.
proof fn lemma_tile_step(m: MetadataView, img: &Image, t: int, tile: TileView, body: Seq<u8>)
    requires
        0 <= t < m.tiles.len(),
        tile_ok(img, columns_before(m, img, t), tile_pointer(m, img, t), m.tiles[t]),
        slot_height(m.tiles[t]) <= usize::MAX,
        tile == laid_out_tile(
            img,
            next_corner(columns_before(m, img, t), m.tiles[t]),
            tile_pointer(m, img, t),
            m.tiles[t],
        ),
        body == tile_body(
            img,
            next_corner(columns_before(m, img, t), m.tiles[t]),
            min_y(m.tiles[t].blocks, m.tiles[t].blocks.len() as int),
            m.tiles[t].blocks,
            m.tiles[t].blocks.len() as int,
        ),
    ensures
        tile_done(m, img, t, tile, body),
        columns_before(m, img, t + 1) == columns_before(m, img, t).push(
            slot_height(m.tiles[t]) as nat,
        ),
        tile_pointer(m, img, t + 1) == tile_pointer(m, img, t) + 20 * m.tiles[t].blocks.len()
            + body.len(),
{
    reveal(tile_done);
    lemma_tile_ok(m, img, t);
    assert(slot_heights(m)[t] == slot_height(m.tiles[t]));
}

/// When every tile was laid out, the container can be written, and the
/// tiles and bodies are those of the layout.
proof fn lemma_all_done(m: MetadataView, img: &Image, out: MetadataView, bodies: Seq<Seq<u8>>)
    requires
        276 + 96 * m.tiles.len() <= i32::MAX,
        out.fileHeader == m.fileHeader,
        out.tiles.len() == m.tiles.len(),
        bodies.len() == m.tiles.len(),
        forall|u: int| 0 <= u < m.tiles.len() ==> tile_done(m, img, u, #[trigger] out.tiles[u], bodies[u]),
    ensures
        can_emit(m, img),
        out == laid_out(m, img),
        bodies == bodies_of(m, img),
        counts_fit(out),
{
    reveal(tile_done);
    assert forall|u: int| 0 <= u < m.tiles.len() implies {
        &&& (#[trigger] tile_at(m, u)).blocks.len() >= 1
        &&& slot_height(m.tiles[u]) <= img.height
        &&& tile_fits(img, slot_corner(m, img, u), tile_pointer(m, img, u), m.tiles[u])
    } by {
        assert(tile_done(m, img, u, out.tiles[u], bodies[u]));
        lemma_tile_ok(m, img, u);
    }
    assert forall|u: int| 0 <= u < m.tiles.len() implies out.tiles[u] == laid_out(m, img).tiles[u]
        && bodies[u] == bodies_of(m, img)[u] && (#[trigger] out.tiles[u]).blocks.len()
        <= i32::MAX by {
        assert(tile_done(m, img, u, out.tiles[u], bodies[u]));
        lemma_tile_pointer(m, img, u);
        assert(tile_fits(img, slot_corner(m, img, u), tile_pointer(m, img, u), m.tiles[u]));
        assert(out.tiles[u].blocks.len() == m.tiles[u].blocks.len());
    }
    assert(out.tiles =~= laid_out(m, img).tiles);
    assert forall|u: int| 0 <= u < bodies.len() implies #[trigger] bodies[u] == bodies_of(m, img)[u] by {
        assert(tile_done(m, img, u, out.tiles[u], bodies[u]));
    }
    assert(bodies =~= bodies_of(m, img));
}

/// The block headers of no tile start before the end of the tile headers.
pub proof fn lemma_tile_pointer(m: MetadataView, img: &Image, t: int)
    requires
        0 <= t,
    ensures
        tile_pointer(m, img, t) >= 276 + 96 * m.tiles.len(),
    decreases t,
{
    if t > 0 {
        lemma_tile_pointer(m, img, t - 1);
    }
}

/// A raster narrower than a block holds no tile.
proof fn lemma_too_narrow(m: MetadataView, img: &Image)
    requires
        m.tiles.len() > 0,
        img.width < 32,
    ensures
        !can_emit(m, img),
{
    lemma_tile_ok(m, img, 0);
    if can_emit(m, img) {
        let t0 = m.tiles[0];
        assert(tile_at(m, 0).blocks.len() >= 1);
        assert(block_ok(
            img,
            slot_corner(m, img, 0),
            min_y(t0.blocks, t0.blocks.len() as int),
            t0.blocks[0],
        ));
        lemma_push(columns_before(m, img, 0), slot_heights(m)[0] as nat);
    }
}

impl Metadata {
    /// The container that holds this metadata around block payloads that are
    /// encoded anew from the atlas `tileImage`. The tiles lie in the atlas in
    /// columns of width 160, each in a slot as high as its blocks reach,
    /// rounded up to 16. Every pointer, length and offset is computed from
    /// the new payloads; the other fields are written as they stand.
    pub fn writeWithBlockDataFromTileImage(&self, tileImage: &Image) -> (r: Result<
        Vec<u8>,
        ReadError,
    >)
        requires
            tileImage.wf(),
        ensures
            r is Ok <==> can_emit(self@, tileImage),
            r is Ok ==> r->Ok_0@ == emit_bytes(self@, tileImage),
            r is Err ==> r->Err_0 == ReadError::MalformedStructure,
    {
        let ghost m = self@;
        let n = self.tiles.len();
        if n > ((i32::MAX - 276) / 96) as usize {
            return Err(ReadError::MalformedStructure);
        }
        if n > 0 && tileImage.width < 32 {
            proof {
                lemma_too_narrow(m, tileImage);
            }
            return Err(ReadError::MalformedStructure);
        }
        let mut points = TilesIterator::new(TILEWIDTH, tileImage);
        let mut pointer: i32 = 276 + 96 * (n as i32);
        let mut tiles: Vec<Tile> = Vec::new();
        let mut bodies: Vec<Vec<u8>> = Vec::new();
        let mut t: usize = 0;
        while t < n
            invariant
                t <= n == self.tiles@.len(),
                m == self@,
                tileImage.wf(),
                n > 0 ==> tileImage.width >= 32,
                276 + 96 * n <= i32::MAX,
                0 <= pointer == tile_pointer(m, tileImage, t as int),
                points.tile_width() == TILEWIDTH,
                points.tileColumns@ == columns_before(m, tileImage, t as int),
                points.tileColumns@.wf(),
                points.tileColumns@.full == tileImage.height,
                points.tileColumns.numOverflownColumns * 160 <= tileImage.width + 32768,
                tiles@.len() == t,
                bodies@.len() == t,
                forall|u: int|
                    0 <= u < t ==> tile_done(m, tileImage, u, (#[trigger] tiles@[u])@, bodies@[u]@),
            decreases n - t,
        {
            let tile = &self.tiles[t];
            assert(m.tiles[t as int] == tile@);
            match layOutNext(tile, tileImage, &mut points, pointer) {
                Err(e) => {
                    proof {
                        lemma_tile_stops(m, tileImage, t as int);
                    }
                    return Err(ReadError::MalformedStructure);
                },
                Ok((laid, body)) => {
                    proof {
                        lemma_tile_step(m, tileImage, t as int, laid@, body@);
                    }
                    pointer = pointer + (20 * tile.blocks.len() + body.len()) as i32;
                    tiles.push(laid);
                    bodies.push(body);
                },
            }
            t = t + 1;
        }
        let out = Metadata { fileHeader: self.fileHeader, tiles };
        proof {
            assert(bodies.deep_view().len() == n);
            assert forall|u: int| 0 <= u < n implies tile_done(
                m,
                tileImage,
                u,
                #[trigger] out@.tiles[u],
                bodies.deep_view()[u],
            ) by {
                assert(bodies.deep_view()[u] == bodies@[u]@);
                assert(out@.tiles[u] == out.tiles@[u]@);
            }
            lemma_all_done(m, tileImage, out@, bodies.deep_view());
        }
        out.writeWithBlockData(&bodies)
    }
}

} // verus!
