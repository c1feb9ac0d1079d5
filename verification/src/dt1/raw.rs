//! Decoding blocks into a plain buffer of rows of 256 pixels, whatever the
//! pixels are.

use crate::cursor::ReadError;
use crate::dt1::draw::{
    capped, capped_index, iso_fits, iso_offset, iso_paint, iso_row_start, lemma_iso_offsets,
    lemma_next_row, rle_fits, rle_paint, splice,
};
use crate::dt1::{nbpix, ISOMETRIC_LENGTH, ISOMETRIC_ROWS, NBPIX, XJUMP};
use vstd::prelude::*;

verus! {

/// Pixels in a row of the buffer.
pub const RAW_WIDTH: usize = 256;

/// Writes `bytes` over the places of `dst` from `at` on.
pub fn writeRun(dst: &mut Vec<u8>, at: usize, bytes: &[u8])
    requires
        at + bytes@.len() <= old(dst)@.len(),
    ensures
        final(dst)@ == splice(old(dst)@, at as int, bytes@),
{
    let n = dst.len();
    let mut k: usize = 0;
    assert(dst@ =~= splice(old(dst)@, at as int, bytes@.subrange(0, 0)));
    while k < bytes.len()
        invariant
            k <= bytes@.len(),
            n == old(dst)@.len(),
            at + bytes@.len() <= n,
            dst@ == splice(old(dst)@, at as int, bytes@.subrange(0, k as int)),
        decreases bytes@.len() - k,
    {
        dst[at + k] = bytes[k];
        k = k + 1;
        assert(dst@ =~= splice(old(dst)@, at as int, bytes@.subrange(0, k as int)));
    }
    assert(bytes@.subrange(0, bytes@.len() as int) =~= bytes@);
}

/// Draws an isometric block at `(x0, y0)` of a buffer of rows of 256
/// pixels: row `dy` of the 15 rows puts its `NBPIX[dy]` bytes from column
/// `x0 + XJUMP[dy]` of row `y0 + dy` on. A payload that does not fit leaves
/// the buffer as it is.
pub fn drawBlockIsometric(dst: &mut Vec<u8>, x0: usize, y0: usize, data: &[u8]) -> (r: Result<
    (),
    ReadError,
>)
    ensures
        r is Ok <==> iso_fits(old(dst)@.len() as int, RAW_WIDTH as int, x0 as int, y0 as int, data@),
        r is Ok ==> final(dst)@ == iso_paint(
            old(dst)@,
            RAW_WIDTH as int,
            x0 as int,
            y0 as int,
            data@,
            15,
        ),
        r is Err ==> r->Err_0 == ReadError::MalformedStructure && final(dst)@ == old(dst)@,
{
    let ghost before = dst@;
    let ghost w = RAW_WIDTH as int;
    let area = dst.len();
    if data.len() != ISOMETRIC_LENGTH {
        return Err(ReadError::MalformedStructure);
    }
    let mut row: usize = capped_index(RAW_WIDTH, x0, y0);
    let mut dy: usize = 0;
    while dy < ISOMETRIC_ROWS
        invariant
            dy <= ISOMETRIC_ROWS,
            w == RAW_WIDTH,
            area == before.len(),
            row == capped((y0 + dy) * w + x0),
            dst@ == before,
            data@.len() == ISOMETRIC_LENGTH,
            forall|d: int|
                0 <= d < dy ==> #[trigger] iso_row_start(w, x0 as int, y0 as int, d) + nbpix(d)
                    <= area,
        decreases ISOMETRIC_ROWS - dy,
    {
        proof {
            crate::dt1::lemma_tables(dy as int);
            lemma_next_row(w, x0 as int, y0 as int, dy as int);
        }
        let start = row.saturating_add(XJUMP[dy]);
        if start > area || NBPIX[dy] > area - start {
            assert(!(iso_row_start(w, x0 as int, y0 as int, dy as int) + nbpix(dy as int) <= area));
            return Err(ReadError::MalformedStructure);
        }
        row = row.saturating_add(RAW_WIDTH);
        dy = dy + 1;
    }
    let mut row: usize = capped_index(RAW_WIDTH, x0, y0);
    let mut dy: usize = 0;
    let mut offset: usize = 0;
    while dy < ISOMETRIC_ROWS
        invariant
            dy <= ISOMETRIC_ROWS,
            w == RAW_WIDTH,
            row == capped((y0 + dy) * w + x0),
            offset == iso_offset(dy as int),
            data@.len() == ISOMETRIC_LENGTH,
            dst@.len() == area,
            dst@ == iso_paint(before, w, x0 as int, y0 as int, data@, dy as int),
            forall|d: int|
                0 <= d < 15 ==> #[trigger] iso_row_start(w, x0 as int, y0 as int, d) + nbpix(d)
                    <= area,
        decreases ISOMETRIC_ROWS - dy,
    {
        proof {
            crate::dt1::lemma_tables(dy as int);
            lemma_next_row(w, x0 as int, y0 as int, dy as int);
            assert(iso_row_start(w, x0 as int, y0 as int, dy as int) + nbpix(dy as int) <= area);
            lemma_iso_offsets();
        }
        let start = row + XJUMP[dy];
        let n = NBPIX[dy];
        assert(iso_offset(dy as int + 1) == offset + n);
        writeRun(dst, start, &data[offset..offset + n]);
        offset = offset + n;
        row = row.saturating_add(RAW_WIDTH);
        dy = dy + 1;
    }
    Ok(())
}

/// Draws a run-length block from `(x0, y0)` of a buffer of rows of 256
/// pixels on: a pair of zeros starts the next row at column `x0`, any other
/// pair `(jump, solid)` skips `jump` pixels and is followed by the `solid`
/// bytes to put. A payload that does not fit leaves the buffer as it is.
pub fn drawBlockNormal(dst: &mut Vec<u8>, x0: usize, y0: usize, data: &[u8]) -> (r: Result<
    (),
    ReadError,
>)
    ensures
        r is Ok <==> rle_fits(
            old(dst)@.len() as int,
            RAW_WIDTH as int,
            y0 * RAW_WIDTH + x0,
            y0 * RAW_WIDTH + x0,
            data@,
            0,
        ),
        r is Ok ==> final(dst)@ == rle_paint(
            old(dst)@,
            RAW_WIDTH as int,
            y0 * RAW_WIDTH + x0,
            y0 * RAW_WIDTH + x0,
            data@,
            0,
        ),
        r is Err ==> r->Err_0 == ReadError::MalformedStructure && final(dst)@ == old(dst)@,
{
    let ghost before = dst@;
    let ghost w = RAW_WIDTH as int;
    let ghost first = y0 * w + x0;
    let area = dst.len();
    let length = data.len();
    let mut j: usize = capped_index(RAW_WIDTH, x0, y0);
    let mut row: usize = j;
    let ghost mut gj: int = first;
    let ghost mut grow: int = first;
    let mut i: usize = 0;
    while i < length
        invariant
            i <= length == data@.len(),
            w == RAW_WIDTH,
            0 <= gj && 0 <= grow,
            j == capped(gj),
            row == capped(grow),
            dst@ == before,
            area == before.len(),
            first == y0 * w + x0,
            rle_fits(area as int, w, first, first, data@, 0) == rle_fits(
                area as int,
                w,
                gj,
                grow,
                data@,
                i as int,
            ),
        decreases length - i,
    {
        if length - i < 2 {
            return Err(ReadError::MalformedStructure);
        }
        let jump = data[i] as usize;
        let solid = data[i + 1] as usize;
        i = i + 2;
        if jump != 0 || solid != 0 {
            if solid > length - i {
                return Err(ReadError::MalformedStructure);
            }
            let at = j.saturating_add(jump);
            if solid > 0 && (at > area || solid > area - at) {
                return Err(ReadError::MalformedStructure);
            }
            j = at.saturating_add(solid);
            proof {
                gj = gj + jump + solid;
            }
            i = i + solid;
        } else {
            row = row.saturating_add(RAW_WIDTH);
            j = row;
            proof {
                grow = grow + w;
                gj = grow;
            }
        }
    }
    let mut j: usize = capped_index(RAW_WIDTH, x0, y0);
    let mut row: usize = j;
    proof {
        gj = first;
        grow = first;
    }
    let mut i: usize = 0;
    while i < length
        invariant
            i <= length == data@.len(),
            w == RAW_WIDTH,
            0 <= gj && 0 <= grow,
            j == capped(gj),
            row == capped(grow),
            dst@.len() == area,
            rle_fits(area as int, w, gj, grow, data@, i as int),
            rle_paint(before, w, first, first, data@, 0) == rle_paint(
                dst@,
                w,
                gj,
                grow,
                data@,
                i as int,
            ),
        decreases length - i,
    {
        let jump = data[i] as usize;
        let solid = data[i + 1] as usize;
        i = i + 2;
        if jump != 0 || solid != 0 {
            let at = j.saturating_add(jump);
            if solid > 0 {
                writeRun(dst, at, &data[i..i + solid]);
            } else {
                assert(data@.subrange(i as int, i + solid).len() == 0);
            }
            j = at.saturating_add(solid);
            proof {
                gj = gj + jump + solid;
            }
            i = i + solid;
        } else {
            row = row.saturating_add(RAW_WIDTH);
            j = row;
            proof {
                grow = grow + w;
                gj = grow;
            }
        }
    }
    Ok(())
}

} // verus!
