//! Pixels that are decoded and encoded again give the same payload.

use crate::dt1::draw::{
    iso_offset, iso_paint, iso_row_start, lemma_iso_offsets, opaque_bytes, rle_paint, rle_valid,
    splice,
};
use crate::dt1::encode::{
    iso_bytes, lemma_row_pixels, lemma_run_end, rle_bytes, rle_jump, rle_pixels, rle_row,
    row_pixels, run_end,
};
use crate::dt1::{nbpix, xjump};
use crate::image::Image;
use crate::FULLY_TRANSPARENT;
use vstd::prelude::*;

verus! {

/// The rows of a raster follow one another: a place in an earlier row lies
/// before every place of a later row.
pub proof fn lemma_rows_apart(w: int, y1: int, y2: int, x1: int, x2: int)
    requires
        0 <= y1 < y2,
        0 <= x1 <= w,
        0 <= x2,
    ensures
        0 <= y1 * w + x1 <= y2 * w + x2,
{
    assert(y1 * w + w <= y2 * w) by (nonlinear_arith)
        requires
            y1 + 1 <= y2,
            0 <= w,
    ;
    assert(0 <= y1 * w) by (nonlinear_arith)
        requires
            0 <= y1,
            0 <= w,
    ;
}

/// What the rows of an isometric block hold after they were drawn: their
/// bytes of the payload; and the raster is as long as it was.
pub proof fn lemma_iso_painted(px: Seq<u8>, w: int, h: int, x0: int, y0: int, data: Seq<u8>, rows: int, dy: int, i: int)
    requires
        px.len() == w * h,
        0 <= x0,
        0 <= y0,
        x0 + 32 <= w,
        y0 + 15 <= h,
        data.len() == 256,
        0 <= dy < rows <= 15,
        0 <= i < nbpix(dy),
    ensures
        iso_paint(px, w, x0, y0, data, rows).len() == px.len(),
        0 <= iso_row_start(w, x0, y0, dy) + i < px.len(),
        iso_paint(px, w, x0, y0, data, rows)[iso_row_start(w, x0, y0, dy) + i] == data[iso_offset(
            dy,
        ) + i],
    decreases rows,
{
    lemma_iso_offsets();
    let last = rows - 1;
    let before = iso_paint(px, w, x0, y0, data, last);
    let at = iso_row_start(w, x0, y0, last);
    let bytes = data.subrange(iso_offset(last), iso_offset(rows));
    lemma_iso_len(px, w, h, x0, y0, data, last);
    crate::image::lemma_pixel_index(w, h, x0 + xjump(last), y0 + last);
    crate::image::lemma_pixel_index(w, h, x0 + xjump(last) + nbpix(last) - 1, y0 + last);
    crate::image::lemma_pixel_index(w, h, x0 + xjump(dy) + i, y0 + dy);
    assert(bytes.len() == nbpix(last));
    if dy < last {
        lemma_iso_painted(px, w, h, x0, y0, data, last, dy, i);
        lemma_rows_apart(w, y0 + dy, y0 + last, x0 + xjump(dy) + i + 1, x0 + xjump(last));
    }
}

/// Drawing an isometric block that lies in the raster leaves the raster as
/// long as it was.
pub proof fn lemma_iso_len(px: Seq<u8>, w: int, h: int, x0: int, y0: int, data: Seq<u8>, rows: int)
    requires
        px.len() == w * h,
        0 <= x0,
        0 <= y0,
        x0 + 32 <= w,
        y0 + 15 <= h,
        data.len() == 256,
        0 <= rows <= 15,
    ensures
        iso_paint(px, w, x0, y0, data, rows).len() == px.len(),
    decreases rows,
{
    if rows > 0 {
        lemma_iso_offsets();
        let last = rows - 1;
        lemma_iso_len(px, w, h, x0, y0, data, last);
        crate::image::lemma_pixel_index(w, h, x0 + xjump(last), y0 + last);
        crate::image::lemma_pixel_index(w, h, x0 + xjump(last) + nbpix(last) - 1, y0 + last);
    }
}

/// The rows of an isometric block that was drawn are encoded as the bytes
/// that were drawn.
proof fn lemma_iso_rows(img: &Image, after: &Image, x0: int, y0: int, data: Seq<u8>, rows: int)
    requires
        img.wf(),
        img.holds(x0, y0, 32, 15),
        data.len() == 256,
        after.width == img.width,
        after.height == img.height,
        after.data@ == iso_paint(img.data@, img.width as int, x0, y0, data, 15),
        0 <= rows <= 15,
    ensures
        iso_bytes(after, x0, y0, rows) == data.subrange(0, iso_offset(rows)),
    decreases rows,
{
    lemma_iso_offsets();
    if rows > 0 {
        let dy = rows - 1;
        lemma_iso_rows(img, after, x0, y0, data, dy);
        let row = row_pixels(after, x0 + xjump(dy), y0 + dy, nbpix(dy));
        assert forall|i: int| 0 <= i < nbpix(dy) implies row[i] == data[iso_offset(dy) + i] by {
            lemma_iso_painted(
                img.data@,
                img.width as int,
                img.height as int,
                x0,
                y0,
                data,
                15,
                dy,
                i,
            );
        }
        assert(iso_bytes(after, x0, y0, rows) =~= data.subrange(0, iso_offset(rows)));
    } else {
        assert(iso_bytes(after, x0, y0, 0) =~= data.subrange(0, 0));
    }
}

/// Round trip of the pixels of an isometric block: the 256 bytes that were
/// drawn where the block lies in the image are the bytes that the block is
/// encoded to.
pub proof fn lemma_iso_roundtrip(img: &Image, after: &Image, x0: int, y0: int, data: Seq<u8>)
    requires
        img.wf(),
        img.holds(x0, y0, 32, 15),
        data.len() == 256,
        after.width == img.width,
        after.height == img.height,
        after.data@ == iso_paint(img.data@, img.width as int, x0, y0, data, 15),
    ensures
        iso_bytes(after, x0, y0, 15) == data,
{
    lemma_iso_offsets();
    lemma_iso_rows(img, after, x0, y0, data, 15);
    assert(data.subrange(0, 256) =~= data);
}

/// `px` with the pixels of the row `r` from pixel `k` on, those that are
/// not transparent, at their places; pixel 0 of the row has the place
/// `base`.
pub open spec fn stamp_row(px: Seq<u8>, base: int, r: Seq<u8>, k: int) -> Seq<u8> {
    Seq::new(
        px.len(),
        |idx: int|
            if base + k <= idx < base + r.len() && r[idx - base] != FULLY_TRANSPARENT {
                r[idx - base]
            } else {
                px[idx]
            },
    )
}

/// The code of a row ends with a pair of zeros.
pub proof fn lemma_rle_row_len(r: Seq<u8>, k: int, jump: int)
    requires
        0 <= k,
    ensures
        rle_row(r, k, jump).len() >= 2,
    decreases r.len() - k,
{
    if k < r.len() {
        if r[k] == FULLY_TRANSPARENT {
            lemma_rle_row_len(r, k + 1, jump + 1);
        } else {
            lemma_run_end(r, k);
            lemma_rle_row_len(r, run_end(r, k), 0);
        }
    }
}

/// Decoding the code of a row, from pixel `k` of the row on, puts the pixels
/// of the row that are not transparent at their places and goes on with the
/// next row.
pub proof fn lemma_rle_row(
    area: int,
    w: int,
    px: Seq<u8>,
    data: Seq<u8>,
    i: int,
    r: Seq<u8>,
    k: int,
    jump: int,
    base: int,
    row: int,
)
    requires
        px.len() == area,
        0 <= k <= r.len(),
        0 <= jump,
        jump + (r.len() - k) <= 255,
        0 <= base + k - jump,
        base + r.len() <= area,
        0 <= i,
        i + rle_row(r, k, jump).len() <= data.len(),
        data.subrange(i, i + rle_row(r, k, jump).len()) == rle_row(r, k, jump),
    ensures
        rle_valid(area, w, base + k - jump, row, data, i) == rle_valid(
            area,
            w,
            row + w,
            row + w,
            data,
            i + rle_row(r, k, jump).len(),
        ),
        rle_paint(px, w, base + k - jump, row, data, i) == rle_paint(
            stamp_row(px, base, r, k),
            w,
            row + w,
            row + w,
            data,
            i + rle_row(r, k, jump).len(),
        ),
    decreases r.len() - k,
{
    let c = rle_row(r, k, jump);
    lemma_rle_row_len(r, k, jump);
    assert(data[i] == c[0] && data[i + 1] == c[1]) by {
        assert(data.subrange(i, i + c.len())[0] == data[i]);
        assert(data.subrange(i, i + c.len())[1] == data[i + 1]);
    }
    if k >= r.len() {
        assert(stamp_row(px, base, r, k) =~= px);
    } else if r[k] == FULLY_TRANSPARENT {
        lemma_rle_row(area, w, px, data, i, r, k + 1, jump + 1, base, row);
        assert(stamp_row(px, base, r, k) =~= stamp_row(px, base, r, k + 1));
    } else {
        let end = run_end(r, k);
        lemma_run_end(r, k);
        let solid = end - k;
        let run = r.subrange(k, end);
        let rest = rle_row(r, end, 0);
        assert(c == seq![jump as u8, solid as u8] + run + rest);
        assert(data[i] == jump && data[i + 1] == solid);
        assert(data.subrange(i + 2, i + 2 + solid) =~= run) by {
            assert forall|t: int| 0 <= t < solid implies data[i + 2 + t] == run[t] by {
                assert(data.subrange(i, i + c.len())[2 + t] == data[i + 2 + t]);
            }
        }
        assert(data.subrange(i + 2 + solid, i + 2 + solid + rest.len()) =~= rest) by {
            assert forall|t: int| 0 <= t < rest.len() implies data[i + 2 + solid + t]
                == rest[t] by {
                assert(data.subrange(i, i + c.len())[2 + solid + t] == data[i + 2 + solid + t]);
            }
        }
        assert(opaque_bytes(run));
        let painted = splice(px, base + k, run);
        lemma_rle_row(area, w, painted, data, i + 2 + solid, r, end, 0, base, row);
        assert(stamp_row(painted, base, r, end) =~= stamp_row(px, base, r, k));
    }
}

/// The place of the first pixel of row `dy` of a run-length block.
pub open spec fn row_base(w: int, bx: int, by: int, diamond: bool, dy: int) -> int {
    (by + dy) * w + bx + rle_jump(diamond, dy)
}

/// The pixels of row `dy` of a run-length block.
pub open spec fn block_row(img: &Image, bx: int, by: int, diamond: bool, dy: int) -> Seq<u8> {
    row_pixels(img, bx + rle_jump(diamond, dy), by + dy, rle_pixels(diamond, dy))
}

/// `px` with the pixels of the first `d` rows of the block of `img` that
/// are not transparent at their places.
pub open spec fn stamp_rows(px: Seq<u8>, img: &Image, bx: int, by: int, diamond: bool, d: int) -> Seq<u8>
    decreases d,
{
    if d <= 0 {
        px
    } else {
        stamp_row(
            stamp_rows(px, img, bx, by, diamond, d - 1),
            row_base(img.width as int, bx, by, diamond, d - 1),
            block_row(img, bx, by, diamond, d - 1),
            0,
        )
    }
}

/// The block has the shape of a run-length block: 32 rows of 32 pixels, or
/// up to 15 rows of the isometric outline.
pub open spec fn rle_shape(diamond: bool, rows: int) -> bool {
    if diamond {
        0 <= rows <= 15
    } else {
        rows == 32
    }
}

/// The code of fewer rows starts the code of more.
pub proof fn lemma_rle_bytes_prefix(img: &Image, bx: int, by: int, diamond: bool, d: int, rows: int)
    requires
        0 <= d <= rows,
    ensures
        rle_bytes(img, bx, by, diamond, d).len() <= rle_bytes(img, bx, by, diamond, rows).len(),
        rle_bytes(img, bx, by, diamond, rows).subrange(
            0,
            rle_bytes(img, bx, by, diamond, d).len() as int,
        ) == rle_bytes(img, bx, by, diamond, d),
    decreases rows,
{
    let short = rle_bytes(img, bx, by, diamond, d);
    if d < rows {
        lemma_rle_bytes_prefix(img, bx, by, diamond, d, rows - 1);
        assert(rle_bytes(img, bx, by, diamond, rows).subrange(0, short.len() as int) =~= rle_bytes(
            img,
            bx,
            by,
            diamond,
            rows - 1,
        ).subrange(0, short.len() as int));
    } else {
        assert(short.subrange(0, short.len() as int) =~= short);
    }
}

/// Where the rows of a block that lies in the image lie in its pixels.
pub proof fn lemma_row_geometry(img: &Image, bx: int, by: int, diamond: bool, rows: int, dy: int)
    requires
        img.wf(),
        rle_shape(diamond, rows),
        img.holds(bx, by, 32, rows),
        0 <= dy < rows,
    ensures
        0 <= rle_jump(diamond, dy),
        0 <= rle_pixels(diamond, dy),
        rle_jump(diamond, dy) + rle_pixels(diamond, dy) <= 32,
        block_row(img, bx, by, diamond, dy).len() == rle_pixels(diamond, dy),
        0 <= (by + dy) * img.width + bx,
        row_base(img.width as int, bx, by, diamond, dy) + rle_pixels(diamond, dy)
            <= img.data@.len(),
        (by + dy + 1) * img.width + bx == (by + dy) * img.width + bx + img.width,
        block_row(img, bx, by, diamond, dy) == img.data@.subrange(
            row_base(img.width as int, bx, by, diamond, dy),
            row_base(img.width as int, bx, by, diamond, dy) + rle_pixels(diamond, dy),
        ),
{
    let w = img.width as int;
    lemma_row_pixels(img, bx + rle_jump(diamond, dy), by + dy, rle_pixels(diamond, dy));
    assert((by + dy + 1) * w == (by + dy) * w + w) by (nonlinear_arith);
    assert(0 <= (by + dy) * w) by (nonlinear_arith)
        requires
            0 <= by + dy,
            0 <= w,
    ;
}

/// Decoding the code of a block row by row: after the first `d` rows the
/// pixels of those rows are at their places, and the decoder stands at the
/// start of row `d`.
pub proof fn lemma_rle_rows(img: &Image, px: Seq<u8>, bx: int, by: int, diamond: bool, rows: int, d: int)
    requires
        img.wf(),
        rle_shape(diamond, rows),
        img.holds(bx, by, 32, rows),
        px.len() == img.data@.len(),
        0 <= d <= rows,
    ensures
        ({
            let w = img.width as int;
            let data = rle_bytes(img, bx, by, diamond, rows);
            let i = rle_bytes(img, bx, by, diamond, d).len() as int;
            &&& stamp_rows(px, img, bx, by, diamond, d).len() == px.len()
            &&& rle_valid(px.len() as int, w, by * w + bx, by * w + bx, data, 0) == rle_valid(
                px.len() as int,
                w,
                (by + d) * w + bx,
                (by + d) * w + bx,
                data,
                i,
            )
            &&& rle_paint(px, w, by * w + bx, by * w + bx, data, 0) == rle_paint(
                stamp_rows(px, img, bx, by, diamond, d),
                w,
                (by + d) * w + bx,
                (by + d) * w + bx,
                data,
                i,
            )
        }),
    decreases d,
{
    let w = img.width as int;
    let data = rle_bytes(img, bx, by, diamond, rows);
    if d > 0 {
        let dy = d - 1;
        lemma_rle_rows(img, px, bx, by, diamond, rows, dy);
        lemma_row_geometry(img, bx, by, diamond, rows, dy);
        lemma_rle_bytes_prefix(img, bx, by, diamond, d, rows);
        lemma_rle_bytes_prefix(img, bx, by, diamond, dy, d);
        let before = rle_bytes(img, bx, by, diamond, dy);
        let r = block_row(img, bx, by, diamond, dy);
        let jump = rle_jump(diamond, dy);
        let c = rle_row(r, 0, jump);
        let base = row_base(w, bx, by, diamond, dy);
        let i = before.len() as int;
        assert(rle_bytes(img, bx, by, diamond, d) == before + c);
        assert(data.subrange(i, i + c.len()) =~= c) by {
            assert forall|t: int| 0 <= t < c.len() implies data[i + t] == c[t] by {
                assert(data.subrange(0, (before + c).len() as int)[i + t] == data[i + t]);
            }
        }
        lemma_rle_row(
            px.len() as int,
            w,
            stamp_rows(px, img, bx, by, diamond, dy),
            data,
            i,
            r,
            0,
            jump,
            base,
            (by + dy) * w + bx,
        );
    } else {
        assert(rle_bytes(img, bx, by, diamond, 0).len() == 0);
    }
}

/// What the places of the rows of a block hold after the block was
/// stamped: the pixel of the block where it is not transparent, and what
/// was there before where it is.
pub proof fn lemma_stamped(img: &Image, px: Seq<u8>, bx: int, by: int, diamond: bool, rows: int, d: int, dy: int, t: int)
    requires
        img.wf(),
        rle_shape(diamond, rows),
        img.holds(bx, by, 32, rows),
        px.len() == img.data@.len(),
        0 <= dy < d <= rows,
        0 <= t < rle_pixels(diamond, dy),
    ensures
        ({
            let at = row_base(img.width as int, bx, by, diamond, dy) + t;
            let pixel = block_row(img, bx, by, diamond, dy)[t];
            &&& stamp_rows(px, img, bx, by, diamond, d).len() == px.len()
            &&& 0 <= at < px.len()
            &&& stamp_rows(px, img, bx, by, diamond, d)[at] == if pixel != FULLY_TRANSPARENT {
                pixel
            } else {
                px[at]
            }
        }),
    decreases d,
{
    let w = img.width as int;
    let last = d - 1;
    lemma_stamp_len(img, px, bx, by, diamond, rows, last);
    lemma_row_geometry(img, bx, by, diamond, rows, dy);
    lemma_row_geometry(img, bx, by, diamond, rows, last);
    if dy < last {
        lemma_stamped(img, px, bx, by, diamond, rows, last, dy, t);
        lemma_rows_apart(
            w,
            by + dy,
            by + last,
            bx + rle_jump(diamond, dy) + t + 1,
            bx + rle_jump(diamond, last),
        );
    } else {
        lemma_unstamped(
            img,
            px,
            bx,
            by,
            diamond,
            rows,
            last,
            row_base(w, bx, by, diamond, dy) + t,
        );
    }
}

/// Stamping the first `d` rows of a block leaves the places from row `d` on
/// as they were.
pub proof fn lemma_unstamped(img: &Image, px: Seq<u8>, bx: int, by: int, diamond: bool, rows: int, d: int, idx: int)
    requires
        img.wf(),
        rle_shape(diamond, rows),
        img.holds(bx, by, 32, rows),
        px.len() == img.data@.len(),
        0 <= d <= rows,
        (by + d) * img.width <= idx < px.len(),
    ensures
        stamp_rows(px, img, bx, by, diamond, d)[idx] == px[idx],
    decreases d,
{
    if d > 0 {
        let w = img.width as int;
        let last = d - 1;
        lemma_stamp_len(img, px, bx, by, diamond, rows, last);
        lemma_row_geometry(img, bx, by, diamond, rows, last);
        assert((by + last) * w + w == (by + d) * w) by (nonlinear_arith)
            requires
                last == d - 1,
        ;
        lemma_unstamped(img, px, bx, by, diamond, rows, last, idx);
    }
}

/// Stamping a block leaves the raster as long as it was.
pub proof fn lemma_stamp_len(img: &Image, px: Seq<u8>, bx: int, by: int, diamond: bool, rows: int, d: int)
    requires
        0 <= d <= rows,
    ensures
        stamp_rows(px, img, bx, by, diamond, d).len() == px.len(),
    decreases d,
{
    if d > 0 {
        lemma_stamp_len(img, px, bx, by, diamond, rows, d - 1);
    }
}

/// The rows of a block that was decoded onto a blank raster are encoded as
/// the rows of the block that the code came from.
proof fn lemma_rle_rows_equal(img: &Image, after: &Image, px: Seq<u8>, bx: int, by: int, diamond: bool, rows: int, d: int)
    requires
        img.wf(),
        rle_shape(diamond, rows),
        img.holds(bx, by, 32, rows),
        px.len() == img.data@.len(),
        forall|i: int| 0 <= i < px.len() ==> px[i] == FULLY_TRANSPARENT,
        after.width == img.width,
        after.height == img.height,
        after.data@ == stamp_rows(px, img, bx, by, diamond, rows),
        0 <= d <= rows,
    ensures
        rle_bytes(after, bx, by, diamond, d) == rle_bytes(img, bx, by, diamond, d),
        forall|dy: int|
            0 <= dy < d ==> #[trigger] block_row(after, bx, by, diamond, dy) == block_row(
                img,
                bx,
                by,
                diamond,
                dy,
            ),
    decreases d,
{
    if d > 0 {
        let dy = d - 1;
        lemma_rle_rows_equal(img, after, px, bx, by, diamond, rows, dy);
        lemma_stamp_len(img, px, bx, by, diamond, rows, rows);
        lemma_row_geometry(img, bx, by, diamond, rows, dy);
        lemma_row_geometry(after, bx, by, diamond, rows, dy);
        let a = block_row(after, bx, by, diamond, dy);
        let b = block_row(img, bx, by, diamond, dy);
        assert forall|t: int| 0 <= t < a.len() implies a[t] == b[t] by {
            lemma_stamped(img, px, bx, by, diamond, rows, rows, dy, t);
        }
        assert(a =~= b);
    }
}

/// Round trip of the pixels of a run-length block: the code that the
/// encoder gives for a block can be decoded; decoded onto a blank raster
/// it gives the pixels of the block; and those are encoded to the same
/// code again.
pub proof fn lemma_rle_roundtrip(img: &Image, blank: &Image, after: &Image, bx: int, by: int, diamond: bool, rows: int)
    requires
        img.wf(),
        rle_shape(diamond, rows),
        img.holds(bx, by, 32, rows),
        blank.width == img.width,
        blank.height == img.height,
        blank.wf(),
        forall|i: int| 0 <= i < blank.data@.len() ==> blank.data@[i] == FULLY_TRANSPARENT,
        after.width == img.width,
        after.height == img.height,
        after.data@ == rle_paint(
            blank.data@,
            img.width as int,
            by * img.width + bx,
            by * img.width + bx,
            rle_bytes(img, bx, by, diamond, rows),
            0,
        ),
    ensures
        rle_valid(
            blank.data@.len() as int,
            img.width as int,
            by * img.width + bx,
            by * img.width + bx,
            rle_bytes(img, bx, by, diamond, rows),
            0,
        ),
        rle_bytes(after, bx, by, diamond, rows) == rle_bytes(img, bx, by, diamond, rows),
        forall|dy: int|
            0 <= dy < rows ==> #[trigger] block_row(after, bx, by, diamond, dy) == block_row(
                img,
                bx,
                by,
                diamond,
                dy,
            ),
{
    let px = blank.data@;
    lemma_rle_rows(img, px, bx, by, diamond, rows, rows);
    lemma_stamp_len(img, px, bx, by, diamond, rows, rows);
    assert(after.data@ == stamp_rows(px, img, bx, by, diamond, rows));
    lemma_rle_rows_equal(img, after, px, bx, by, diamond, rows, rows);
}

} // verus!
