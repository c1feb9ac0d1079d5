//! Encoding the pixels of a raster into the payload of a block.

use crate::dt1::{nbpix, xjump, ISOMETRIC_ROWS, MAX_BLOCKHEIGHT, NBPIX, XJUMP};
use crate::image::{lemma_pixel_index, Image};
use crate::{Vec2, FULLY_TRANSPARENT};
use vstd::prelude::*;

verus! {

/// The `n` pixels of row `y` of `img` from column `x` on.
pub open spec fn row_pixels(img: &Image, x: int, y: int, n: int) -> Seq<u8> {
    Seq::new(n as nat, |i: int| img.at(x + i, y))
}

/// The first `rows` rows of the isometric payload for the block whose corner
/// is `(bx, by)`: row `dy` gives its `nbpix(dy)` pixels from column
/// `bx + xjump(dy)` on, as they are.
pub open spec fn iso_bytes(img: &Image, bx: int, by: int, rows: int) -> Seq<u8>
    decreases rows,
{
    if rows <= 0 {
        Seq::empty()
    } else {
        iso_bytes(img, bx, by, rows - 1) + row_pixels(
            img,
            bx + xjump(rows - 1),
            by + rows - 1,
            nbpix(rows - 1),
        )
    }
}

/// The first place from `k` on where `px` is transparent, or its length.
pub open spec fn run_end(px: Seq<u8>, k: int) -> int
    decreases px.len() - k,
{
    if k >= px.len() || px[k] == FULLY_TRANSPARENT {
        k
    } else {
        run_end(px, k + 1)
    }
}

/// The run-length code of the pixels of a row from place `k` on, `jump`
/// transparent pixels having gone by since the last run: each run of pixels
/// that are not transparent gives the pair `(jump, length)` and then its
/// pixels; the row ends with a pair of zeros.
pub open spec fn rle_row(px: Seq<u8>, k: int, jump: int) -> Seq<u8>
    decreases px.len() - k,
{
    if k < 0 || k >= px.len() {
        seq![0u8, 0u8]
    } else if px[k] == FULLY_TRANSPARENT {
        rle_row(px, k + 1, jump + 1)
    } else {
        let end = run_end(px, k);
        if end <= k || end > px.len() {
            seq![0u8, 0u8]
        } else {
            seq![jump as u8, (end - k) as u8] + px.subrange(k, end) + rle_row(px, end, 0)
        }
    }
}

/// Column offset of row `dy` of a run-length block: that of the isometric
/// outline, or none.
pub open spec fn rle_jump(diamond: bool, dy: int) -> int {
    if diamond {
        xjump(dy)
    } else {
        0
    }
}

/// Pixels in row `dy` of a run-length block.
pub open spec fn rle_pixels(diamond: bool, dy: int) -> int {
    if diamond {
        nbpix(dy)
    } else {
        32
    }
}

/// The first `rows` rows of the run-length payload for the block whose corner
/// is `(bx, by)`.
pub open spec fn rle_bytes(img: &Image, bx: int, by: int, diamond: bool, rows: int) -> Seq<u8>
    decreases rows,
{
    if rows <= 0 {
        Seq::empty()
    } else {
        let dy = rows - 1;
        rle_bytes(img, bx, by, diamond, dy) + rle_row(
            row_pixels(img, bx + rle_jump(diamond, dy), by + dy, rle_pixels(diamond, dy)),
            0,
            rle_jump(diamond, dy),
        )
    }
}

/// A run ends inside the row, after its start, and holds no transparent
/// pixel.
pub proof fn lemma_run_end(px: Seq<u8>, k: int)
    requires
        0 <= k <= px.len(),
    ensures
        k <= run_end(px, k) <= px.len(),
        forall|i: int| k <= i < run_end(px, k) ==> px[i] != FULLY_TRANSPARENT,
        run_end(px, k) < px.len() ==> px[run_end(px, k)] == FULLY_TRANSPARENT,
        k < px.len() && px[k] != FULLY_TRANSPARENT ==> run_end(px, k) > k,
    decreases px.len() - k,
{
    if k < px.len() && px[k] != FULLY_TRANSPARENT {
        lemma_run_end(px, k + 1);
    }
}

/// Appends the run-length code of `row` to `out`; `jump` is the number of
/// transparent pixels that precede the row.
pub fn encodeRowRLE(out: &mut Vec<u8>, row: &[u8], jump: u8)
    requires
        row@.len() + jump <= u8::MAX,
    ensures
        final(out)@ == old(out)@ + rle_row(row@, 0, jump as int),
{
    let n = row.len();
    let mut k: usize = 0;
    let mut xjump: u8 = jump;
    while k < n
        invariant
            k <= n == row@.len(),
            row@.len() + jump <= u8::MAX,
            xjump <= jump + k,
            old(out)@ + rle_row(row@, 0, jump as int) == out@ + rle_row(row@, k as int, xjump as int),
        decreases n - k,
    {
        if row[k] == FULLY_TRANSPARENT {
            xjump = xjump + 1;
            k = k + 1;
        } else {
            let start = k;
            let ghost before = out@;
            proof {
                lemma_run_end(row@, start as int);
            }
            let mut end: usize = k + 1;
            while end < n && row[end] != FULLY_TRANSPARENT
                invariant
                    start < end <= n == row@.len(),
                    run_end(row@, start as int) == run_end(row@, end as int),
                decreases n - end,
            {
                end = end + 1;
            }
            assert(run_end(row@, start as int) == end);
            out.push(xjump);
            out.push((end - start) as u8);
            let mut i: usize = start;
            while i < end
                invariant
                    start <= i <= end <= n == row@.len(),
                    out@ == before + seq![xjump, (end - start) as u8] + row@.subrange(
                        start as int,
                        i as int,
                    ),
                decreases end - i,
            {
                out.push(row[i]);
                i = i + 1;
                assert(out@ =~= before + seq![xjump, (end - start) as u8] + row@.subrange(
                    start as int,
                    i as int,
                ));
            }
            assert(out@ + rle_row(row@, end as int, 0) =~= before + rle_row(
                row@,
                start as int,
                xjump as int,
            ));
            xjump = 0;
            k = end;
        }
    }
    out.push(0u8);
    out.push(0u8);
    assert(out@ =~= old(out)@ + rle_row(row@, 0, jump as int));
}

/// The pixels of a row of a well-formed image are a stretch of its pixel
/// array.
pub proof fn lemma_row_pixels(img: &Image, x: int, y: int, n: int)
    requires
        img.wf(),
        0 <= x,
        0 <= n,
        x + n <= img.width,
        0 <= y < img.height,
    ensures
        0 <= y * img.width + x,
        y * img.width + x + n <= img.data@.len(),
        row_pixels(img, x, y, n) == img.data@.subrange(y * img.width + x, y * img.width + x + n),
{
    if n > 0 {
        lemma_pixel_index(img.width as int, img.height as int, x, y);
        lemma_pixel_index(img.width as int, img.height as int, x + n - 1, y);
    } else {
        assert(0 <= y * img.width) by (nonlinear_arith)
            requires
                0 <= y,
                0 <= img.width,
        ;
        assert(y * img.width + x <= img.width * img.height) by (nonlinear_arith)
            requires
                0 <= y < img.height,
                0 <= x <= img.width,
        ;
    }
    assert(row_pixels(img, x, y, n) =~= img.data@.subrange(
        y * img.width + x,
        y * img.width + x + n,
    ));
}

/// The `n` pixels of row `y` of `img` from column `x` on.
pub fn rowSlice(img: &Image, x: usize, y: usize, n: usize) -> (r: &[u8])
    requires
        img.wf(),
        x + n <= img.width,
        y < img.height,
    ensures
        r@ == row_pixels(img, x as int, y as int, n as int),
{
    proof {
        lemma_row_pixels(img, x as int, y as int, n as int);
    }
    let len = img.data.len();
    let start = y * img.width + x;
    assert(start + n <= len);
    &img.data.as_slice()[start..start + n]
}

/// Appends to `out` the isometric payload of the block whose corner in
/// `tileImage` is `point`: 15 rows, 256 bytes.
pub fn writeBlockDataIsometric(out: &mut Vec<u8>, point: Vec2, tileImage: &Image)
    requires
        tileImage.wf(),
        tileImage.holds(point[0] as int, point[1] as int, 32, 15),
    ensures
        final(out)@ == old(out)@ + iso_bytes(tileImage, point[0] as int, point[1] as int, 15),
{
    let mut dy: usize = 0;
    while dy < ISOMETRIC_ROWS
        invariant
            dy <= ISOMETRIC_ROWS,
            tileImage.wf(),
            tileImage.holds(point[0] as int, point[1] as int, 32, 15),
            out@ == old(out)@ + iso_bytes(tileImage, point[0] as int, point[1] as int, dy as int),
        decreases ISOMETRIC_ROWS - dy,
    {
        proof {
            crate::dt1::lemma_tables(dy as int);
        }
        let row = rowSlice(tileImage, point[0] + XJUMP[dy], point[1] + dy, NBPIX[dy]);
        crate::cursor::write_all(out, row);
        dy = dy + 1;
        assert(out@ =~= old(out)@ + iso_bytes(tileImage, point[0] as int, point[1] as int, dy as int));
    }
}

/// Appends to `out` the run-length payload of the block whose corner in
/// `tileImage` is `point`. A block of height 32 has rows of 32 pixels; a
/// lower one has the rows of the isometric outline.
pub fn writeBlockDataRLE(out: &mut Vec<u8>, point: Vec2, blockHeight: usize, tileImage: &Image)
    requires
        tileImage.wf(),
        blockHeight == MAX_BLOCKHEIGHT || blockHeight <= ISOMETRIC_ROWS,
        tileImage.holds(point[0] as int, point[1] as int, 32, blockHeight as int),
    ensures
        final(out)@ == old(out)@ + rle_bytes(
            tileImage,
            point[0] as int,
            point[1] as int,
            blockHeight != MAX_BLOCKHEIGHT,
            blockHeight as int,
        ),
{
    let diamond = blockHeight != MAX_BLOCKHEIGHT;
    let mut dy: usize = 0;
    while dy < blockHeight
        invariant
            dy <= blockHeight,
            diamond == (blockHeight != MAX_BLOCKHEIGHT),
            blockHeight == MAX_BLOCKHEIGHT || blockHeight <= ISOMETRIC_ROWS,
            tileImage.wf(),
            tileImage.holds(point[0] as int, point[1] as int, 32, blockHeight as int),
            out@ == old(out)@ + rle_bytes(
                tileImage,
                point[0] as int,
                point[1] as int,
                diamond,
                dy as int,
            ),
        decreases blockHeight - dy,
    {
        let (jump, pixels) = if diamond {
            proof {
                crate::dt1::lemma_tables(dy as int);
            }
            (XJUMP[dy], NBPIX[dy])
        } else {
            (0, 32)
        };
        let row = rowSlice(tileImage, point[0] + jump, point[1] + dy, pixels);
        encodeRowRLE(out, row, jump as u8);
        dy = dy + 1;
        assert(out@ =~= old(out)@ + rle_bytes(
            tileImage,
            point[0] as int,
            point[1] as int,
            diamond,
            dy as int,
        ));
    }
}

} // verus!
