//! Decoding the payload of a block into a raster.

use crate::cursor::ReadError;
use crate::dt1::{nbpix, xjump, ISOMETRIC_LENGTH, ISOMETRIC_ROWS, NBPIX, XJUMP};
use crate::image::Image;
use crate::FULLY_TRANSPARENT;
use vstd::prelude::*;

verus! {

/// `px` with `bytes` written over the places `at .. at + bytes.len()`.
pub open spec fn splice(px: Seq<u8>, at: int, bytes: Seq<u8>) -> Seq<u8> {
    px.subrange(0, at) + bytes + px.subrange(at + bytes.len(), px.len() as int)
}

/// No byte of `s` is the transparent index.
pub open spec fn opaque_bytes(s: Seq<u8>) -> bool {
    forall|i: int| 0 <= i < s.len() ==> s[i] != FULLY_TRANSPARENT
}

/// Where the bytes of row `dy` of an isometric payload start: the number of
/// pixels in the rows above.
pub open spec fn iso_offset(dy: int) -> int
    decreases dy,
{
    if dy <= 0 {
        0
    } else {
        iso_offset(dy - 1) + nbpix(dy - 1)
    }
}

/// The place in a raster of width `width` of the first pixel of row `dy` of
/// an isometric block drawn at `(x0, y0)`.
pub open spec fn iso_row_start(width: int, x0: int, y0: int, dy: int) -> int {
    (y0 + dy) * width + x0 + xjump(dy)
}

/// An isometric payload fits the raster: it has 256 bytes, and each of its
/// 15 rows lies inside the raster.
pub open spec fn iso_fits(area: int, width: int, x0: int, y0: int, data: Seq<u8>) -> bool {
    &&& data.len() == ISOMETRIC_LENGTH
    &&& forall|dy: int| 0 <= dy < 15 ==> #[trigger] iso_row_start(width, x0, y0, dy) + nbpix(dy) <= area
}

/// An isometric payload can be drawn: it fits the raster, and none of its
/// bytes is transparent.
pub open spec fn iso_valid(area: int, width: int, x0: int, y0: int, data: Seq<u8>) -> bool {
    iso_fits(area, width, x0, y0, data) && opaque_bytes(data)
}

/// The raster after the first `rows` rows of an isometric payload were drawn
/// at `(x0, y0)`.
pub open spec fn iso_paint(px: Seq<u8>, width: int, x0: int, y0: int, data: Seq<u8>, rows: int) -> Seq<u8>
    decreases rows,
{
    if rows <= 0 {
        px
    } else {
        splice(
            iso_paint(px, width, x0, y0, data, rows - 1),
            iso_row_start(width, x0, y0, rows - 1),
            data.subrange(iso_offset(rows - 1), iso_offset(rows)),
        )
    }
}

/// A run-length payload can be drawn from byte `i` on, the next pixel going
/// to place `j` of a raster of `area` pixels and the current row starting at
/// place `row`: every pair is whole, every run has its bytes, none of them
/// transparent, and lies inside the raster.
pub open spec fn rle_valid(area: int, width: int, j: int, row: int, data: Seq<u8>, i: int) -> bool
    decreases data.len() - i,
{
    if i >= data.len() {
        i == data.len()
    } else if i + 2 > data.len() {
        false
    } else {
        let jump = data[i] as int;
        let solid = data[i + 1] as int;
        if jump == 0 && solid == 0 {
            rle_valid(area, width, row + width, row + width, data, i + 2)
        } else {
            &&& i + 2 + solid <= data.len()
            &&& solid > 0 ==> j + jump + solid <= area
            &&& opaque_bytes(data.subrange(i + 2, i + 2 + solid))
            &&& rle_valid(area, width, j + jump + solid, row, data, i + 2 + solid)
        }
    }
}

/// A run-length payload fits the raster from byte `i` on, the next pixel
/// going to place `j` and the current row starting at place `row`: every
/// pair is whole, every run has its bytes and lies inside the raster.
pub open spec fn rle_fits(area: int, width: int, j: int, row: int, data: Seq<u8>, i: int) -> bool
    decreases data.len() - i,
{
    if i >= data.len() {
        i == data.len()
    } else if i + 2 > data.len() {
        false
    } else {
        let jump = data[i] as int;
        let solid = data[i + 1] as int;
        if jump == 0 && solid == 0 {
            rle_fits(area, width, row + width, row + width, data, i + 2)
        } else {
            &&& i + 2 + solid <= data.len()
            &&& solid > 0 ==> j + jump + solid <= area
            &&& rle_fits(area, width, j + jump + solid, row, data, i + 2 + solid)
        }
    }
}

/// The raster after a run-length payload was drawn from byte `i` on: a pair
/// of zeros starts the next row; any other pair `(jump, solid)` skips `jump`
/// places and writes the `solid` bytes that follow it.
pub open spec fn rle_paint(px: Seq<u8>, width: int, j: int, row: int, data: Seq<u8>, i: int) -> Seq<u8>
    decreases data.len() - i,
{
    if i + 2 > data.len() {
        px
    } else {
        let jump = data[i] as int;
        let solid = data[i + 1] as int;
        if jump == 0 && solid == 0 {
            rle_paint(px, width, row + width, row + width, data, i + 2)
        } else if i + 2 + solid > data.len() {
            px
        } else if solid == 0 {
            rle_paint(px, width, j + jump, row, data, i + 2)
        } else {
            rle_paint(
                splice(px, j + jump, data.subrange(i + 2, i + 2 + solid)),
                width,
                j + jump + solid,
                row,
                data,
                i + 2 + solid,
            )
        }
    }
}

/// `n`, or `usize::MAX` when `n` is larger.
pub open spec fn capped(n: int) -> int {
    if n <= usize::MAX {
        n
    } else {
        usize::MAX as int
    }
}

/// `y * w + x`, capped at `usize::MAX`.
pub fn capped_index(w: usize, x: usize, y: usize) -> (r: usize)
    ensures
        r == capped(y * w + x),
{
    assert(0 <= y * w) by (nonlinear_arith)
        requires
            0 <= y,
            0 <= w,
    ;
    match y.checked_mul(w) {
        Some(p) => p.saturating_add(x),
        None => usize::MAX,
    }
}

/// Which of the two decoders a block needs.
#[derive(Debug, Clone, Copy, PartialEq, Eq, Structural)]
pub enum DrawFn {
    Isometric,
    RLE,
}

/// A raster that blocks can be drawn on, pixel by pixel.
pub trait DrawDestination {
    /// The pixels, row by row.
    spec fn pixels(&self) -> Seq<u8>;

    /// The number of pixels in a row.
    spec fn row_width(&self) -> int;

    /// The number of rows.
    spec fn rows(&self) -> int;

    /// The number of pixels in a row.
    fn width(&self) -> (w: usize)
        ensures
            w == self.row_width(),
    ;

    /// The number of pixels.
    fn area(&self) -> (n: usize)
        ensures
            n == self.pixels().len(),
    ;

    /// Sets the pixel at place `atIndex` to `value`, which is not the
    /// transparent index.
    fn putpixel(&mut self, atIndex: usize, value: u8)
        requires
            atIndex < old(self).pixels().len(),
            value != FULLY_TRANSPARENT,
        ensures
            final(self).pixels() == old(self).pixels().update(atIndex as int, value),
            final(self).row_width() == old(self).row_width(),
            final(self).rows() == old(self).rows(),
    ;

    /// Writes `bytes` over the places from `at` on.
    fn putpixels(&mut self, at: usize, bytes: &[u8])
        requires
            at + bytes@.len() <= old(self).pixels().len(),
            opaque_bytes(bytes@),
        ensures
            final(self).pixels() == splice(old(self).pixels(), at as int, bytes@),
            final(self).row_width() == old(self).row_width(),
            final(self).rows() == old(self).rows(),
    {
        let ghost before = self.pixels();
        let area = self.area();
        let mut k: usize = 0;
        assert(self.pixels() =~= splice(before, at as int, bytes@.subrange(0, 0)));
        while k < bytes.len()
            invariant
                k <= bytes@.len(),
                area == before.len(),
                at + bytes@.len() <= before.len(),
                opaque_bytes(bytes@),
                self.row_width() == old(self).row_width(),
                self.rows() == old(self).rows(),
                self.pixels() == splice(before, at as int, bytes@.subrange(0, k as int)),
            decreases bytes@.len() - k,
        {
            self.putpixel(at + k, bytes[k]);
            k = k + 1;
            assert(self.pixels() =~= splice(before, at as int, bytes@.subrange(0, k as int)));
        }
        assert(bytes@.subrange(0, bytes@.len() as int) =~= bytes@);
    }

    /// Draws an isometric block at `(x0, y0)`: row `dy` of the 15 rows puts
    /// its `NBPIX[dy]` pixels from column `x0 + XJUMP[dy]` of row `y0 + dy`
    /// on. A payload that cannot be drawn leaves the raster as it is.
    fn drawBlockIsometric(&mut self, x0: usize, y0: usize, data: &[u8]) -> (r: Result<(), ReadError>)
        ensures
            final(self).row_width() == old(self).row_width(),
            final(self).rows() == old(self).rows(),
            final(self).pixels().len() == old(self).pixels().len(),
            r is Ok <==> iso_valid(
                old(self).pixels().len() as int,
                old(self).row_width(),
                x0 as int,
                y0 as int,
                data@,
            ),
            r is Ok ==> final(self).pixels() == iso_paint(
                old(self).pixels(),
                old(self).row_width(),
                x0 as int,
                y0 as int,
                data@,
                15,
            ),
            r is Err ==> r == Err::<(), ReadError>(ReadError::MalformedStructure) && final(self).pixels() == old(self).pixels(),
    {
        let ghost before = self.pixels();
        let ghost w = self.row_width();
        let area = self.area();
        let width = self.width();
        if data.len() != ISOMETRIC_LENGTH {
            return Err(ReadError::MalformedStructure);
        }
        let mut k: usize = 0;
        while k < ISOMETRIC_LENGTH
            invariant
                k <= ISOMETRIC_LENGTH,
                data@.len() == ISOMETRIC_LENGTH,
                forall|i: int| 0 <= i < k ==> data@[i] != FULLY_TRANSPARENT,
                self.pixels() == before,
                self.row_width() == w,
                self.rows() == old(self).rows(),
                area == before.len(),
            decreases ISOMETRIC_LENGTH - k,
        {
            if data[k] == FULLY_TRANSPARENT {
                return Err(ReadError::MalformedStructure);
            }
            k = k + 1;
        }
        assert(opaque_bytes(data@));
        let mut row: usize = capped_index(width, x0, y0);
        let mut dy: usize = 0;
        while dy < ISOMETRIC_ROWS
            invariant
                dy <= ISOMETRIC_ROWS,
                width == w,
                area == before.len(),
                row == capped((y0 + dy) * w + x0),
                self.pixels() == before,
                self.row_width() == w,
                self.rows() == old(self).rows(),
                data@.len() == ISOMETRIC_LENGTH,
                opaque_bytes(data@),
                forall|d: int|
                    0 <= d < dy ==> #[trigger] iso_row_start(w, x0 as int, y0 as int, d) + nbpix(d)
                        <= area,
            decreases ISOMETRIC_ROWS - dy,
        {
            proof {
                crate::dt1::lemma_tables(dy as int);
                lemma_next_row(w, x0 as int, y0 as int, dy as int);
            }
            let start = row.saturating_add(XJUMP[dy]);
            if start > area || NBPIX[dy] > area - start {
                assert(!(iso_row_start(w, x0 as int, y0 as int, dy as int) + nbpix(dy as int)
                    <= area));
                return Err(ReadError::MalformedStructure);
            }
            row = row.saturating_add(width);
            dy = dy + 1;
        }
        let mut row: usize = capped_index(width, x0, y0);
        let mut dy: usize = 0;
        let mut offset: usize = 0;
        while dy < ISOMETRIC_ROWS
            invariant
                dy <= ISOMETRIC_ROWS,
                width == w,
                row == capped((y0 + dy) * w + x0),
                offset == iso_offset(dy as int),
                data@.len() == ISOMETRIC_LENGTH,
                opaque_bytes(data@),
                self.row_width() == w,
                self.rows() == old(self).rows(),
                self.pixels().len() == area,
                self.pixels() == iso_paint(before, w, x0 as int, y0 as int, data@, dy as int),
                forall|d: int|
                    0 <= d < 15 ==> #[trigger] iso_row_start(w, x0 as int, y0 as int, d) + nbpix(d)
                        <= area,
            decreases ISOMETRIC_ROWS - dy,
        {
            proof {
                crate::dt1::lemma_tables(dy as int);
                lemma_next_row(w, x0 as int, y0 as int, dy as int);
                assert(iso_row_start(w, x0 as int, y0 as int, dy as int) + nbpix(dy as int) <= area);
                lemma_iso_offsets();
            }
            let start = row + XJUMP[dy];
            let n = NBPIX[dy];
            assert(iso_offset(dy as int + 1) == offset + n);
            let bytes = &data[offset..offset + n];
            assert(opaque_bytes(bytes@)) by {
                assert forall|t: int| 0 <= t < bytes@.len() implies bytes@[t] != FULLY_TRANSPARENT by {
                    assert(bytes@[t] == data@[offset + t]);
                }
            }
            self.putpixels(start, bytes);
            offset = offset + n;
            row = row.saturating_add(width);
            dy = dy + 1;
        }
        Ok(())
    }

    /// Draws a run-length block from `(x0, y0)` on: the payload is a list of
    /// pairs `(jump, solid)`; a pair of zeros starts the next row at column
    /// `x0`, any other pair skips `jump` pixels and is followed by the `solid`
    /// pixels to draw. A payload that cannot be drawn leaves the raster as it
    /// is.
    fn drawBlockRLE(&mut self, x0: usize, y0: usize, data: &[u8]) -> (r: Result<(), ReadError>)
        ensures
            final(self).row_width() == old(self).row_width(),
            final(self).rows() == old(self).rows(),
            final(self).pixels().len() == old(self).pixels().len(),
            r is Ok <==> rle_valid(
                old(self).pixels().len() as int,
                old(self).row_width(),
                y0 * old(self).row_width() + x0,
                y0 * old(self).row_width() + x0,
                data@,
                0,
            ),
            r is Ok ==> final(self).pixels() == rle_paint(
                old(self).pixels(),
                old(self).row_width(),
                y0 * old(self).row_width() + x0,
                y0 * old(self).row_width() + x0,
                data@,
                0,
            ),
            r is Err ==> r == Err::<(), ReadError>(ReadError::MalformedStructure) && final(self).pixels() == old(self).pixels(),
    {
        let ghost before = self.pixels();
        let ghost w = self.row_width();
        let ghost first = y0 * w + x0;
        let area = self.area();
        let width = self.width();
        let length = data.len();
        // the places, capped where they leave the range of the machine
        let mut j: usize = capped_index(width, x0, y0);
        let mut row: usize = j;
        let ghost mut gj: int = first;
        let ghost mut grow: int = first;
        let mut i: usize = 0;
        assert(0 <= y0 * w) by (nonlinear_arith)
            requires
                0 <= y0,
                0 <= w,
        ;
        while i < length
            invariant
                i <= length == data@.len(),
                width == w,
                0 <= gj && 0 <= grow,
                j == capped(gj),
                row == capped(grow),
                self.pixels() == before,
                self.row_width() == w,
                self.rows() == old(self).rows(),
                area == before.len(),
                first == y0 * w + x0,
                rle_valid(area as int, w, first, first, data@, 0) == rle_valid(
                    area as int,
                    w,
                    gj,
                    grow,
                    data@,
                    i as int,
                ),
            decreases length - i,
        {
            if length - i < 2 {
                return Err(ReadError::MalformedStructure);
            }
            let jump = data[i] as usize;
            let solid = data[i + 1] as usize;
            i = i + 2;
            if jump != 0 || solid != 0 {
                if solid > length - i {
                    return Err(ReadError::MalformedStructure);
                }
                let at = j.saturating_add(jump);
                if solid > 0 && (at > area || solid > area - at) {
                    return Err(ReadError::MalformedStructure);
                }
                let mut k: usize = 0;
                while k < solid
                    invariant
                        k <= solid,
                        i + solid <= length == data@.len(),
                        forall|t: int| 0 <= t < k ==> #[trigger] data@[i + t] != FULLY_TRANSPARENT,
                        self.pixels() == before,
                        self.row_width() == w,
                        self.rows() == old(self).rows(),
                self.rows() == old(self).rows(),
                        area == before.len(),
                        first == y0 * w + x0,
                        !opaque_bytes(data@.subrange(i as int, i + solid)) ==> !rle_valid(
                            area as int,
                            w,
                            first,
                            first,
                            data@,
                            0,
                        ),
                    decreases solid - k,
                {
                    if data[i + k] == FULLY_TRANSPARENT {
                        assert(data@.subrange(i as int, i + solid)[k as int] == FULLY_TRANSPARENT);
                        return Err(ReadError::MalformedStructure);
                    }
                    k = k + 1;
                }
                assert(opaque_bytes(data@.subrange(i as int, i + solid))) by {
                    let run = data@.subrange(i as int, i + solid);
                    assert forall|t: int| 0 <= t < run.len() implies #[trigger] run[t]
                        != FULLY_TRANSPARENT by {
                        assert(data@[i + t] != FULLY_TRANSPARENT);
                    }
                }
                j = at.saturating_add(solid);
                proof {
                    gj = gj + jump + solid;
                }
                i = i + solid;
            } else {
                row = row.saturating_add(width);
                j = row;
                proof {
                    grow = grow + w;
                    gj = grow;
                }
            }
        }
        let mut j: usize = capped_index(width, x0, y0);
        let mut row: usize = j;
        proof {
            gj = first;
            grow = first;
        }
        let mut i: usize = 0;
        while i < length
            invariant
                i <= length == data@.len(),
                width == w,
                0 <= gj && 0 <= grow,
                j == capped(gj),
                row == capped(grow),
                self.row_width() == w,
                self.rows() == old(self).rows(),
                self.pixels().len() == area,
                rle_valid(area as int, w, gj, grow, data@, i as int),
                rle_paint(before, w, first, first, data@, 0) == rle_paint(
                    self.pixels(),
                    w,
                    gj,
                    grow,
                    data@,
                    i as int,
                ),
            decreases length - i,
        {
            let jump = data[i] as usize;
            let solid = data[i + 1] as usize;
            i = i + 2;
            if jump != 0 || solid != 0 {
                let at = j.saturating_add(jump);
                if solid > 0 {
                    let bytes = &data[i..i + solid];
                    self.putpixels(at, bytes);
                } else {
                    assert(data@.subrange(i as int, i + solid).len() == 0);
                }
                j = at.saturating_add(solid);
                proof {
                    gj = gj + jump + solid;
                }
                i = i + solid;
            } else {
                row = row.saturating_add(width);
                j = row;
                proof {
                    grow = grow + w;
                    gj = grow;
                }
            }
        }
        Ok(())
    }
}

/// The row below starts one raster width further on.
pub proof fn lemma_next_row(w: int, x0: int, y0: int, dy: int)
    requires
        0 <= w,
        0 <= x0,
        0 <= y0,
        0 <= dy,
    ensures
        0 <= (y0 + dy) * w + x0,
        (y0 + dy + 1) * w + x0 == (y0 + dy) * w + x0 + w,
        iso_row_start(w, x0, y0, dy) == (y0 + dy) * w + x0 + xjump(dy),
{
    assert(0 <= (y0 + dy) * w) by (nonlinear_arith)
        requires
            0 <= y0 + dy,
            0 <= w,
    ;
    assert((y0 + dy + 1) * w == (y0 + dy) * w + w) by (nonlinear_arith);
}

/// Where each row of an isometric payload starts.
pub proof fn lemma_iso_offsets()
    ensures
        iso_offset(0) == 0,
        iso_offset(1) == 4,
        iso_offset(2) == 12,
        iso_offset(3) == 24,
        iso_offset(4) == 40,
        iso_offset(5) == 60,
        iso_offset(6) == 84,
        iso_offset(7) == 112,
        iso_offset(8) == 144,
        iso_offset(9) == 172,
        iso_offset(10) == 196,
        iso_offset(11) == 216,
        iso_offset(12) == 232,
        iso_offset(13) == 244,
        iso_offset(14) == 252,
        iso_offset(15) == 256,
{
    reveal_with_fuel(iso_offset, 16);
}

impl DrawDestination for Image {
    open spec fn pixels(&self) -> Seq<u8> {
        self.data@
    }

    open spec fn row_width(&self) -> int {
        self.width as int
    }

    open spec fn rows(&self) -> int {
        self.height as int
    }

    fn width(&self) -> (w: usize) {
        self.width
    }

    fn area(&self) -> (n: usize) {
        self.data.len()
    }

    fn putpixel(&mut self, atIndex: usize, value: u8)
        ensures
            final(self).width == old(self).width,
            final(self).height == old(self).height,
    {
        self.data[atIndex] = value;
    }
}

} // verus!
