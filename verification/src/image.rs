//! A raster of palette indices, stored row by row.

use crate::{Rectangle, Vec2, FULLY_TRANSPARENT};
use vstd::prelude::*;

verus! {

/// Width of the stripe whose empty rows `boundingDyRangeBlockwidth` trims.
pub const STRIPE_WIDTH: usize = 32;

/// An image of `width * height` palette indices. Index 0 is transparent.
pub struct Image {
    pub width: usize,
    pub height: usize,
    pub data: Vec<u8>,
}

/// Pixel `(x, y)` of a raster of width `w` sits at `y * w + x`, and different
/// pixels sit at different places.
pub proof fn lemma_pixel_index(w: int, h: int, x: int, y: int)
    requires
        0 <= x < w,
        0 <= y < h,
    ensures
        0 <= y * w + x < w * h,
        (y * w + x) / w == y,
        (y * w + x) % w == x,
{
    assert(0 <= y * w) by (nonlinear_arith)
        requires
            0 <= y,
            0 <= w,
    ;
    assert(y * w + x < w * h) by (nonlinear_arith)
        requires
            0 <= x < w,
            0 <= y < h,
    ;
    assert((y * w + x) / w == y && (y * w + x) % w == x) by (nonlinear_arith)
        requires
            0 <= x < w,
            0 <= y,
    ;
}

/// Two pixels of one raster share a place only if they are the same pixel.
pub proof fn lemma_pixel_distinct(w: int, x1: int, y1: int, x2: int, y2: int)
    requires
        0 <= x1 < w,
        0 <= x2 < w,
        0 <= y1,
        0 <= y2,
        y1 * w + x1 == y2 * w + x2,
    ensures
        x1 == x2,
        y1 == y2,
{
    lemma_pixel_index(w, y1 + 1, x1, y1);
    lemma_pixel_index(w, y2 + 1, x2, y2);
}

/// `(x, y)` lies in the rectangle with corner `(x0, y0)` and size `w` by `h`.
pub open spec fn in_rect(x: int, y: int, x0: int, y0: int, w: int, h: int) -> bool {
    x0 <= x < x0 + w && y0 <= y < y0 + h
}

/// `(x, y)` lies on the one-pixel border of the rectangle.
pub open spec fn on_border(x: int, y: int, x0: int, y0: int, w: int, h: int) -> bool {
    in_rect(x, y, x0, y0, w, h) && (x == x0 || x == x0 + w - 1 || y == y0 || y == y0 + h - 1)
}

impl Image {
    /// The pixel array has `width * height` entries.
    pub open spec fn wf(&self) -> bool {
        self.data@.len() == self.width * self.height
    }

    /// The pixel in column `x` of row `y`.
    pub open spec fn at(&self, x: int, y: int) -> u8 {
        self.data@[y * self.width + x]
    }

    /// The rectangle lies inside the image.
    pub open spec fn holds(&self, x0: int, y0: int, w: int, h: int) -> bool {
        0 <= x0 && 0 <= y0 && 0 <= w && 0 <= h && x0 + w <= self.width && y0 + h <= self.height
    }

    /// Same size as `other`, and the same pixels outside the rectangle.
    pub open spec fn same_outside(&self, other: &Image, x0: int, y0: int, w: int, h: int) -> bool {
        &&& self.width == other.width
        &&& self.height == other.height
        &&& self.wf()
        &&& forall|x: int, y: int|
            0 <= x < self.width && 0 <= y < self.height && !in_rect(x, y, x0, y0, w, h)
                ==> #[trigger] self.at(x, y) == other.at(x, y)
    }

    /// Row `y` holds no pixel in the columns `x0 .. x0 + w`.
    pub open spec fn row_empty(&self, x0: int, w: int, y: int) -> bool {
        forall|x: int| x0 <= x < x0 + w ==> #[trigger] self.at(x, y) == FULLY_TRANSPARENT
    }

    /// Column `x` holds no pixel in the rows `y0 .. y0 + h`.
    pub open spec fn col_empty(&self, y0: int, h: int, x: int) -> bool {
        forall|y: int| y0 <= y < y0 + h ==> #[trigger] self.at(x, y) == FULLY_TRANSPARENT
    }

    /// The image of the given width over `data`; the height is the number of
    /// whole rows.
    pub fn fromWidthData(width: usize, data: Vec<u8>) -> (r: Self)
        requires
            width > 0,
            data@.len() % (width as nat) == 0,
        ensures
            r.width == width,
            r.height == data@.len() / (width as nat),
            r.data@ == data@,
            r.wf(),
    {
        let len = data.len();
        let height = len / width;
        assert(width * height == len) by (nonlinear_arith)
            requires
                width > 0,
                len % width == 0,
                height == len / width,
        ;
        Image { width, height, data }
    }

    /// The fully transparent image of the given size.
    pub fn fromWidthHeight(width: usize, height: usize) -> (r: Self)
        requires
            width * height <= usize::MAX,
        ensures
            r.width == width,
            r.height == height,
            r.wf(),
            forall|i: int| 0 <= i < r.data@.len() ==> r.data@[i] == FULLY_TRANSPARENT,
    {
        let n = width * height;
        let mut data: Vec<u8> = Vec::new();
        let mut i: usize = 0;
        while i < n
            invariant
                i <= n,
                data@.len() == i,
                forall|k: int| 0 <= k < i ==> data@[k] == FULLY_TRANSPARENT,
            decreases n - i,
        {
            data.push(FULLY_TRANSPARENT);
            i = i + 1;
        }
        Image { width, height, data }
    }

    /// The place of pixel `(x, y)` in the pixel array.
    pub fn index(&self, x: usize, y: usize) -> (i: usize)
        requires
            self.wf(),
            x < self.width,
            y < self.height,
        ensures
            i == y * self.width + x,
            i < self.data@.len(),
    {
        proof {
            lemma_pixel_index(self.width as int, self.height as int, x as int, y as int);
        }
        let len = self.data.len();
        assert(y * self.width <= y * self.width + x < len);
        y * self.width + x
    }

    /// Paints the one-pixel border of the rectangle `[[x0, y0], [width,
    /// height]]` with `color`.
    pub fn drawRectangle(&mut self, color: u8, rectangle: Rectangle)
        requires
            old(self).wf(),
            old(self).holds(
                rectangle[0][0] as int,
                rectangle[0][1] as int,
                rectangle[1][0] as int,
                rectangle[1][1] as int,
            ),
        ensures
            final(self).wf(),
            final(self).width == old(self).width,
            final(self).height == old(self).height,
            forall|x: int, y: int|
                0 <= x < old(self).width && 0 <= y < old(self).height ==> #[trigger] final(self).at(
                    x,
                    y,
                ) == if on_border(
                    x,
                    y,
                    rectangle[0][0] as int,
                    rectangle[0][1] as int,
                    rectangle[1][0] as int,
                    rectangle[1][1] as int,
                ) {
                    color
                } else {
                    old(self).at(x, y)
                },
    {
        let x0 = rectangle[0][0];
        let y0 = rectangle[0][1];
        let width = rectangle[1][0];
        let height = rectangle[1][1];
        let ghost before = *self;
        let mut dy: usize = 0;
        while dy < height
            invariant
                dy <= height,
                self.wf(),
                before.wf(),
                self.width == before.width,
                self.height == before.height,
                before.holds(x0 as int, y0 as int, width as int, height as int),
                forall|x: int, y: int|
                    0 <= x < before.width && 0 <= y < before.height ==> #[trigger] self.at(x, y)
                        == if y < y0 + dy && on_border(
                        x,
                        y,
                        x0 as int,
                        y0 as int,
                        width as int,
                        height as int,
                    ) {
                        color
                    } else {
                        before.at(x, y)
                    },
            decreases height - dy,
        {
            let mut dx: usize = 0;
            while dx < width
                invariant
                    dx <= width,
                    dy < height,
                    self.wf(),
                    before.wf(),
                    self.width == before.width,
                    self.height == before.height,
                    before.holds(x0 as int, y0 as int, width as int, height as int),
                    forall|x: int, y: int|
                        0 <= x < before.width && 0 <= y < before.height ==> #[trigger] self.at(
                            x,
                            y,
                        ) == if (y < y0 + dy || (y == y0 + dy && x < x0 + dx)) && on_border(
                            x,
                            y,
                            x0 as int,
                            y0 as int,
                            width as int,
                            height as int,
                        ) {
                            color
                        } else {
                            before.at(x, y)
                        },
                decreases width - dx,
            {
                if dy == 0 || dy == height - 1 || dx == 0 || dx == width - 1 {
                    let i = self.index(x0 + dx, y0 + dy);
                    let ghost prev = *self;
                    self.data[i] = color;
                    proof {
                        assert forall|x: int, y: int|
                            0 <= x < before.width && 0 <= y < before.height implies #[trigger] self.at(
                            x,
                            y,
                        ) == if (y < y0 + dy || (y == y0 + dy && x < x0 + dx + 1)) && on_border(
                            x,
                            y,
                            x0 as int,
                            y0 as int,
                            width as int,
                            height as int,
                        ) {
                            color
                        } else {
                            before.at(x, y)
                        } by {
                            if y * self.width + x == i {
                                lemma_pixel_distinct(
                                    self.width as int,
                                    x,
                                    y,
                                    (x0 + dx) as int,
                                    (y0 + dy) as int,
                                );
                            } else {
                                lemma_pixel_index(self.width as int, self.height as int, x, y);
                                assert(self.at(x, y) == prev.at(x, y));
                            }
                        }
                    }
                }
                dx = dx + 1;
            }
            dy = dy + 1;
        }
    }

    /// Whether row `y` holds no pixel in the columns `x0 .. x0 + width`.
    pub fn isRowEmpty(&self, x0: usize, width: usize, y: usize) -> (b: bool)
        requires
            self.wf(),
            x0 + width <= self.width,
            y < self.height,
        ensures
            b == self.row_empty(x0 as int, width as int, y as int),
    {
        let mut dx: usize = 0;
        while dx < width
            invariant
                dx <= width,
                self.wf(),
                x0 + width <= self.width,
                y < self.height,
                forall|x: int| x0 <= x < x0 + dx ==> #[trigger] self.at(x, y as int) == FULLY_TRANSPARENT,
            decreases width - dx,
        {
            let i = self.index(x0 + dx, y);
            if self.data[i] != FULLY_TRANSPARENT {
                assert(self.at((x0 + dx) as int, y as int) != FULLY_TRANSPARENT);
                return false;
            }
            dx = dx + 1;
        }
        true
    }

    /// The smallest rectangle that encloses every pixel of the given
    /// rectangle that is not transparent, or `None` when there is none.
    pub fn boundingRectangle(&self, rectangle: Rectangle) -> (r: Option<Rectangle>)
        requires
            self.wf(),
            self.holds(
                rectangle[0][0] as int,
                rectangle[0][1] as int,
                rectangle[1][0] as int,
                rectangle[1][1] as int,
            ),
        ensures
            match r {
                None => forall|x: int, y: int|
                    in_rect(
                        x,
                        y,
                        rectangle[0][0] as int,
                        rectangle[0][1] as int,
                        rectangle[1][0] as int,
                        rectangle[1][1] as int,
                    ) ==> #[trigger] self.at(x, y) == FULLY_TRANSPARENT,
                Some(b) => {
                    let (bx, by, bw, bh) = (b[0][0] as int, b[0][1] as int, b[1][0] as int, b[1][1] as int);
                    &&& bw >= 1 && bh >= 1
                    &&& rectangle[0][0] <= bx && bx + bw <= rectangle[0][0] + rectangle[1][0]
                    &&& rectangle[0][1] <= by && by + bh <= rectangle[0][1] + rectangle[1][1]
                    &&& forall|x: int, y: int|
                        in_rect(
                            x,
                            y,
                            rectangle[0][0] as int,
                            rectangle[0][1] as int,
                            rectangle[1][0] as int,
                            rectangle[1][1] as int,
                        ) && #[trigger] self.at(x, y) != FULLY_TRANSPARENT ==> in_rect(
                            x,
                            y,
                            bx,
                            by,
                            bw,
                            bh,
                        )
                    &&& !self.col_empty(by, bh, bx)
                    &&& !self.col_empty(by, bh, bx + bw - 1)
                    &&& !self.row_empty(bx, bw, by)
                    &&& !self.row_empty(bx, bw, by + bh - 1)
                },
            },
    {
        let x0 = rectangle[0][0];
        let y0 = rectangle[0][1];
        let width = rectangle[1][0];
        let height = rectangle[1][1];
        let mut found = false;
        let mut minX: usize = 0;
        let mut maxX: usize = 0;
        let mut minY: usize = 0;
        let mut maxY: usize = 0;
        // rows in which the extreme columns were seen
        let ghost mut rowOfMinX: int = 0;
        let ghost mut rowOfMaxX: int = 0;
        // columns in which the extreme rows were seen
        let ghost mut colOfMinY: int = 0;
        let ghost mut colOfMaxY: int = 0;
        let mut dy: usize = 0;
        while dy < height
            invariant
                dy <= height,
                self.wf(),
                self.holds(x0 as int, y0 as int, width as int, height as int),
                !found ==> forall|x: int, y: int|
                    in_rect(x, y, x0 as int, y0 as int, width as int, dy as int) ==> #[trigger] self.at(
                        x,
                        y,
                    ) == FULLY_TRANSPARENT,
                found ==> {
                    &&& minX <= maxX < width
                    &&& minY <= maxY < dy
                    &&& minY <= rowOfMinX <= maxY
                    &&& minY <= rowOfMaxX <= maxY
                    &&& minX <= colOfMinY <= maxX
                    &&& minX <= colOfMaxY <= maxX
                    &&& self.at(x0 + minX, y0 + rowOfMinX) != FULLY_TRANSPARENT
                    &&& self.at(x0 + maxX, y0 + rowOfMaxX) != FULLY_TRANSPARENT
                    &&& self.at(x0 + colOfMinY, y0 + minY) != FULLY_TRANSPARENT
                    &&& self.at(x0 + colOfMaxY, y0 + maxY) != FULLY_TRANSPARENT
                    &&& forall|x: int, y: int|
                        in_rect(x, y, x0 as int, y0 as int, width as int, dy as int)
                            && #[trigger] self.at(x, y) != FULLY_TRANSPARENT ==> in_rect(
                            x,
                            y,
                            x0 + minX,
                            y0 + minY,
                            maxX + 1 - minX,
                            maxY + 1 - minY,
                        )
                },
            decreases height - dy,
        {
            let mut dx: usize = 0;
            while dx < width
                invariant
                    dx <= width,
                    dy < height,
                    self.wf(),
                    self.holds(x0 as int, y0 as int, width as int, height as int),
                    !found ==> forall|x: int, y: int|
                        in_rect(x, y, x0 as int, y0 as int, width as int, dy as int + 1) && (y < y0
                            + dy || x < x0 + dx) ==> #[trigger] self.at(x, y) == FULLY_TRANSPARENT,
                    found ==> {
                        &&& minX <= maxX < width
                        &&& minY <= maxY <= dy
                        &&& minY <= rowOfMinX <= maxY
                        &&& minY <= rowOfMaxX <= maxY
                        &&& minX <= colOfMinY <= maxX
                        &&& minX <= colOfMaxY <= maxX
                        &&& self.at(x0 + minX, y0 + rowOfMinX) != FULLY_TRANSPARENT
                        &&& self.at(x0 + maxX, y0 + rowOfMaxX) != FULLY_TRANSPARENT
                        &&& self.at(x0 + colOfMinY, y0 + minY) != FULLY_TRANSPARENT
                        &&& self.at(x0 + colOfMaxY, y0 + maxY) != FULLY_TRANSPARENT
                        &&& forall|x: int, y: int|
                            in_rect(x, y, x0 as int, y0 as int, width as int, dy as int + 1) && (y
                                < y0 + dy || x < x0 + dx) && #[trigger] self.at(x, y)
                                != FULLY_TRANSPARENT ==> in_rect(
                                x,
                                y,
                                x0 + minX,
                                y0 + minY,
                                maxX + 1 - minX,
                                maxY + 1 - minY,
                            )
                    },
                decreases width - dx,
            {
                let i = self.index(x0 + dx, y0 + dy);
                if self.data[i] != FULLY_TRANSPARENT {
                    assert(self.at(x0 + dx, y0 + dy) != FULLY_TRANSPARENT);
                    if !found {
                        found = true;
                        minX = dx;
                        maxX = dx;
                        minY = dy;
                        maxY = dy;
                        proof {
                            rowOfMinX = dy as int;
                            rowOfMaxX = dy as int;
                            colOfMinY = dx as int;
                            colOfMaxY = dx as int;
                        }
                    } else {
                        if dx < minX {
                            minX = dx;
                            proof {
                                rowOfMinX = dy as int;
                            }
                        }
                        if dx > maxX {
                            maxX = dx;
                            proof {
                                rowOfMaxX = dy as int;
                            }
                        }
                        if dy > maxY {
                            maxY = dy;
                            proof {
                                colOfMaxY = dx as int;
                            }
                        }
                    }
                }
                dx = dx + 1;
            }
            dy = dy + 1;
        }
        if !found {
            return None;
        }
        proof {
            assert(self.at(x0 + minX, y0 + rowOfMinX) != FULLY_TRANSPARENT);
            assert(self.at(x0 + maxX, y0 + rowOfMaxX) != FULLY_TRANSPARENT);
            assert(self.at(x0 + colOfMinY, y0 + minY) != FULLY_TRANSPARENT);
            assert(self.at(x0 + colOfMaxY, y0 + maxY) != FULLY_TRANSPARENT);
        }
        Some([[x0 + minX, y0 + minY], [maxX + 1 - minX, maxY + 1 - minY]])
    }

    /// Trims the fully transparent rows at the top and at the bottom of the
    /// stripe of width 32 with corner `point` and the given height. Returns
    /// `[start, end]`: the rows `start .. end` are left. When every row is
    /// transparent, `start == end == height`.
    pub fn boundingDyRangeBlockwidth(&mut self, point: Vec2, height: usize) -> (r: [i16; 2])
        requires
            old(self).wf(),
            old(self).holds(point[0] as int, point[1] as int, STRIPE_WIDTH as int, height as int),
            height <= i16::MAX,
        ensures
            *final(self) == *old(self),
            0 <= r[0] <= r[1] <= height,
            forall|dy: int|
                0 <= dy < r[0] ==> old(self).row_empty(
                    point[0] as int,
                    STRIPE_WIDTH as int,
                    #[trigger] (point[1] + dy),
                ),
            forall|dy: int|
                r[1] <= dy < height ==> old(self).row_empty(
                    point[0] as int,
                    STRIPE_WIDTH as int,
                    #[trigger] (point[1] + dy),
                ),
            r[0] < r[1] ==> !old(self).row_empty(
                point[0] as int,
                STRIPE_WIDTH as int,
                point[1] + r[0],
            ) && !old(self).row_empty(point[0] as int, STRIPE_WIDTH as int, point[1] + r[1] - 1),
            r[0] == r[1] ==> r[0] == height,
    {
        let x0 = point[0];
        let y0 = point[1];
        let mut start: usize = 0;
        let mut end: usize = height;
        while start < end
            invariant_except_break
                start <= end,
            invariant
                end == height,
                start <= height,
                self.wf(),
                self.holds(x0 as int, y0 as int, STRIPE_WIDTH as int, height as int),
                forall|dy: int|
                    0 <= dy < start ==> self.row_empty(
                        x0 as int,
                        STRIPE_WIDTH as int,
                        #[trigger] (y0 + dy),
                    ),
            ensures
                start < end ==> !self.row_empty(x0 as int, STRIPE_WIDTH as int, y0 + start),
            decreases end - start,
        {
            if !self.isRowEmpty(x0, STRIPE_WIDTH, y0 + start) {
                break;
            }
            start = start + 1;
        }
        while start < end
            invariant_except_break
                start <= end,
            invariant
                start <= end <= height,
                self.wf(),
                self.holds(x0 as int, y0 as int, STRIPE_WIDTH as int, height as int),
                start < end ==> !self.row_empty(x0 as int, STRIPE_WIDTH as int, y0 + start),
                forall|dy: int|
                    end <= dy < height ==> self.row_empty(
                        x0 as int,
                        STRIPE_WIDTH as int,
                        #[trigger] (y0 + dy),
                    ),
            ensures
                start < end ==> !self.row_empty(x0 as int, STRIPE_WIDTH as int, y0 + end - 1),
            decreases end - start,
        {
            if !self.isRowEmpty(x0, STRIPE_WIDTH, y0 + end - 1) {
                break;
            }
            end = end - 1;
        }
        [start as i16, end as i16]
    }

    /// Copies the pixels of the rectangle of size `dimensions` at `srcPoint`
    /// in `srcImage` to `destPoint`, leaving the destination as it is where
    /// the source is transparent.
    pub fn blitPixelsRectangle(
        &mut self,
        destPoint: Vec2,
        dimensions: Vec2,
        srcImage: &Self,
        srcPoint: Vec2,
    )
        requires
            old(self).wf(),
            srcImage.wf(),
            old(self).holds(
                destPoint[0] as int,
                destPoint[1] as int,
                dimensions[0] as int,
                dimensions[1] as int,
            ),
            srcImage.holds(
                srcPoint[0] as int,
                srcPoint[1] as int,
                dimensions[0] as int,
                dimensions[1] as int,
            ),
        ensures
            final(self).same_outside(
                old(self),
                destPoint[0] as int,
                destPoint[1] as int,
                dimensions[0] as int,
                dimensions[1] as int,
            ),
            forall|dx: int, dy: int|
                0 <= dx < dimensions[0] && 0 <= dy < dimensions[1] ==> #[trigger] final(self).at(
                    destPoint[0] + dx,
                    destPoint[1] + dy,
                ) == if srcImage.at(srcPoint[0] + dx, srcPoint[1] + dy) == FULLY_TRANSPARENT {
                    old(self).at(destPoint[0] + dx, destPoint[1] + dy)
                } else {
                    srcImage.at(srcPoint[0] + dx, srcPoint[1] + dy)
                },
    {
        let ghost before = *self;
        let (dX, dY, w, h, sX, sY) = (
            destPoint[0],
            destPoint[1],
            dimensions[0],
            dimensions[1],
            srcPoint[0],
            srcPoint[1],
        );
        let mut dy: usize = 0;
        while dy < h
            invariant
                dy <= h,
                self.wf(),
                before.wf(),
                srcImage.wf(),
                self.width == before.width,
                self.height == before.height,
                before.holds(dX as int, dY as int, w as int, h as int),
                srcImage.holds(sX as int, sY as int, w as int, h as int),
                forall|x: int, y: int|
                    0 <= x < before.width && 0 <= y < before.height ==> #[trigger] self.at(x, y)
                        == if in_rect(x, y, dX as int, dY as int, w as int, dy as int)
                        && srcImage.at(x - dX + sX, y - dY + sY) != FULLY_TRANSPARENT {
                        srcImage.at(x - dX + sX, y - dY + sY)
                    } else {
                        before.at(x, y)
                    },
            decreases h - dy,
        {
            let mut dx: usize = 0;
            while dx < w
                invariant
                    dx <= w,
                    dy < h,
                    self.wf(),
                    before.wf(),
                    srcImage.wf(),
                    self.width == before.width,
                    self.height == before.height,
                    before.holds(dX as int, dY as int, w as int, h as int),
                    srcImage.holds(sX as int, sY as int, w as int, h as int),
                    forall|x: int, y: int|
                        0 <= x < before.width && 0 <= y < before.height ==> #[trigger] self.at(
                            x,
                            y,
                        ) == if in_rect(x, y, dX as int, dY as int, w as int, dy as int + 1) && (y
                            < dY + dy || x < dX + dx) && srcImage.at(x - dX + sX, y - dY + sY)
                            != FULLY_TRANSPARENT {
                            srcImage.at(x - dX + sX, y - dY + sY)
                        } else {
                            before.at(x, y)
                        },
                decreases w - dx,
            {
                let i = srcImage.index(sX + dx, sY + dy);
                let pixelValue = srcImage.data[i];
                if pixelValue != FULLY_TRANSPARENT {
                    let j = self.index(dX + dx, dY + dy);
                    let ghost prev = *self;
                    self.data[j] = pixelValue;
                    proof {
                        assert forall|x: int, y: int|
                            0 <= x < before.width && 0 <= y < before.height implies #[trigger] self.at(
                            x,
                            y,
                        ) == if in_rect(x, y, dX as int, dY as int, w as int, dy as int + 1) && (y
                            < dY + dy || x < dX + dx + 1) && srcImage.at(x - dX + sX, y - dY + sY)
                            != FULLY_TRANSPARENT {
                            srcImage.at(x - dX + sX, y - dY + sY)
                        } else {
                            before.at(x, y)
                        } by {
                            if y * self.width + x == j {
                                lemma_pixel_distinct(
                                    self.width as int,
                                    x,
                                    y,
                                    (dX + dx) as int,
                                    (dY + dy) as int,
                                );
                            } else {
                                lemma_pixel_index(self.width as int, self.height as int, x, y);
                                assert(self.at(x, y) == prev.at(x, y));
                            }
                        }
                    }
                } else {
                    assert(srcImage.at(sX + dx, sY + dy) == FULLY_TRANSPARENT);
                }
                dx = dx + 1;
            }
            dy = dy + 1;
        }
        proof {
            assert forall|dx: int, dy: int| 0 <= dx < w && 0 <= dy < h implies #[trigger] self.at(
                dX + dx,
                dY + dy,
            ) == if srcImage.at(sX + dx, sY + dy) == FULLY_TRANSPARENT {
                before.at(dX + dx, dY + dy)
            } else {
                srcImage.at(sX + dx, sY + dy)
            } by {
                let (x, y) = (dX + dx, dY + dy);
                assert(in_rect(x, y, dX as int, dY as int, w as int, h as int));
                assert(x - dX + sX == sX + dx && y - dY + sY == sY + dy);
            }
        }
    }
}

} // verus!
