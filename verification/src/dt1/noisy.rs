//! Packing the diamond of an isometric floor tile into a square.

use crate::dt1::SQUARE_TILE_SIZE;
use crate::image::{lemma_pixel_distinct, lemma_pixel_index, Image};
use crate::{Vec2, FULLY_TRANSPARENT};
use vstd::prelude::*;

verus! {

/// The source pixel that goes to column `dx`, step `dy` of the square: the
/// walk starts at the top of the diamond, `80 - 1` columns in, two columns
/// further for every second column of the square and one row lower for
/// every other; from there each step goes one column back, and every second
/// step one row down.
pub open spec fn noisy_source(src: (int, int), dx: int, dy: int) -> (int, int) {
    (src.0 + (SQUARE_TILE_SIZE - 1) + 2 * ((dx + 1) / 2) - dy, src.1 + dx / 2 + dy / 2)
}

/// The pixel of the square that step `dy` of column `dx` fills: the even
/// columns start one row lower than the odd ones.
pub open spec fn noisy_dest(dest: (int, int), dx: int, dy: int) -> (int, int) {
    (dest.0 + dx, dest.1 + 1 - dx % 2 + dy)
}

/// The tile can be drawn: the diamond, 160 by 79, lies in the source; the
/// square with its spare row, 80 by 81, lies in the destination; and no
/// pixel of the diamond goes where the destination holds a pixel.
pub open spec fn noisy_fits(dst: &Image, dest: (int, int), src: &Image, from: (int, int)) -> bool {
    &&& dst.wf()
    &&& src.wf()
    &&& src.holds(from.0, from.1, 2 * SQUARE_TILE_SIZE, SQUARE_TILE_SIZE - 1)
    &&& dst.holds(dest.0, dest.1, SQUARE_TILE_SIZE as int, SQUARE_TILE_SIZE + 1)
    &&& forall|dx: int, dy: int|
        0 <= dx < SQUARE_TILE_SIZE && 0 <= dy < SQUARE_TILE_SIZE && src.at(
            #[trigger] noisy_source(from, dx, dy).0,
            noisy_source(from, dx, dy).1,
        ) != FULLY_TRANSPARENT ==> dst.at(noisy_dest(dest, dx, dy).0, noisy_dest(dest, dx, dy).1)
            == FULLY_TRANSPARENT
}

/// The pixel `(x, y)` of the destination after the tile was drawn, the
/// first `cols` columns of the square and `steps` steps of the next being
/// done.
pub open spec fn noisy_pixel(
    before: &Image,
    dest: (int, int),
    src: &Image,
    from: (int, int),
    cols: int,
    steps: int,
    x: int,
    y: int,
) -> u8 {
    let dx = x - dest.0;
    let dy = y - (dest.1 + 1 - dx % 2);
    let s = noisy_source(from, dx, dy);
    if 0 <= dx < SQUARE_TILE_SIZE && 0 <= dy < SQUARE_TILE_SIZE && (dx < cols || (dx == cols && dy
        < steps)) && src.at(s.0, s.1) != FULLY_TRANSPARENT {
        src.at(s.0, s.1)
    } else {
        before.at(x, y)
    }
}

impl Image {
    /// Whether `drawNoisySquareTile` can draw the tile.
    pub fn canDrawNoisySquareTile(&self, destPoint: Vec2, srcImage: &Self, srcPoint: Vec2) -> (r:
        bool)
        ensures
            r == noisy_fits(
                self,
                (destPoint[0] as int, destPoint[1] as int),
                srcImage,
                (srcPoint[0] as int, srcPoint[1] as int),
            ),
    {
        let ghost dest = (destPoint[0] as int, destPoint[1] as int);
        let ghost from = (srcPoint[0] as int, srcPoint[1] as int);
        let slen = srcImage.data.len();
        let dlen = self.data.len();
        let sarea = srcImage.width.checked_mul(srcImage.height);
        let darea = self.width.checked_mul(self.height);
        if sarea != Some(slen) || darea != Some(dlen) {
            return false;
        }
        if srcPoint[0] > srcImage.width || srcImage.width - srcPoint[0] < 2 * SQUARE_TILE_SIZE
            || srcPoint[1] > srcImage.height || srcImage.height - srcPoint[1] < SQUARE_TILE_SIZE
            - 1 {
            return false;
        }
        if destPoint[0] > self.width || self.width - destPoint[0] < SQUARE_TILE_SIZE
            || destPoint[1] > self.height || self.height - destPoint[1] < SQUARE_TILE_SIZE + 1 {
            return false;
        }
        let mut dx: usize = 0;
        while dx < SQUARE_TILE_SIZE
            invariant
                dx <= SQUARE_TILE_SIZE,
                dest == (destPoint[0] as int, destPoint[1] as int),
                from == (srcPoint[0] as int, srcPoint[1] as int),
                self.wf(),
                srcImage.wf(),
                srcImage.holds(from.0, from.1, 2 * SQUARE_TILE_SIZE, SQUARE_TILE_SIZE - 1),
                self.holds(dest.0, dest.1, SQUARE_TILE_SIZE as int, SQUARE_TILE_SIZE + 1),
                forall|x: int, y: int|
                    0 <= x < dx && 0 <= y < SQUARE_TILE_SIZE && srcImage.at(
                        #[trigger] noisy_source(from, x, y).0,
                        noisy_source(from, x, y).1,
                    ) != FULLY_TRANSPARENT ==> self.at(
                        noisy_dest(dest, x, y).0,
                        noisy_dest(dest, x, y).1,
                    ) == FULLY_TRANSPARENT,
            decreases SQUARE_TILE_SIZE - dx,
        {
            let mut dy: usize = 0;
            while dy < SQUARE_TILE_SIZE
                invariant
                    dx < SQUARE_TILE_SIZE,
                    dy <= SQUARE_TILE_SIZE,
                    dest == (destPoint[0] as int, destPoint[1] as int),
                    from == (srcPoint[0] as int, srcPoint[1] as int),
                    self.wf(),
                    srcImage.wf(),
                    srcImage.holds(from.0, from.1, 2 * SQUARE_TILE_SIZE, SQUARE_TILE_SIZE - 1),
                    self.holds(dest.0, dest.1, SQUARE_TILE_SIZE as int, SQUARE_TILE_SIZE + 1),
                    forall|x: int, y: int|
                        0 <= x <= dx && 0 <= y < SQUARE_TILE_SIZE && (x < dx || y < dy)
                            && srcImage.at(
                            #[trigger] noisy_source(from, x, y).0,
                            noisy_source(from, x, y).1,
                        ) != FULLY_TRANSPARENT ==> self.at(
                            noisy_dest(dest, x, y).0,
                            noisy_dest(dest, x, y).1,
                        ) == FULLY_TRANSPARENT,
                decreases SQUARE_TILE_SIZE - dy,
            {
                let sx = srcPoint[0] + (SQUARE_TILE_SIZE - 1) + 2 * ((dx + 1) / 2) - dy;
                let sy = srcPoint[1] + dx / 2 + dy / 2;
                let tx = destPoint[0] + dx;
                let ty = destPoint[1] + 1 - dx % 2 + dy;
                let i = srcImage.index(sx, sy);
                let j = self.index(tx, ty);
                assert(noisy_source(from, dx as int, dy as int) == (sx as int, sy as int));
                assert(noisy_dest(dest, dx as int, dy as int) == (tx as int, ty as int));
                if srcImage.data[i] != FULLY_TRANSPARENT && self.data[j] != FULLY_TRANSPARENT {
                    assert(srcImage.at(
                        noisy_source(from, dx as int, dy as int).0,
                        noisy_source(from, dx as int, dy as int).1,
                    ) != FULLY_TRANSPARENT);
                    assert(self.at(
                        noisy_dest(dest, dx as int, dy as int).0,
                        noisy_dest(dest, dx as int, dy as int).1,
                    ) != FULLY_TRANSPARENT);
                    return false;
                }
                dy = dy + 1;
            }
            dx = dx + 1;
        }
        true
    }

    /// Draws the diamond of the isometric tile at `srcPoint` of `srcImage`
    /// as a square at `destPoint`, column by column. Transparent pixels of
    /// the diamond leave the destination as it is.
    pub fn drawNoisySquareTile(&mut self, destPoint: Vec2, srcImage: &Self, srcPoint: Vec2)
        requires
            noisy_fits(
                old(self),
                (destPoint[0] as int, destPoint[1] as int),
                srcImage,
                (srcPoint[0] as int, srcPoint[1] as int),
            ),
        ensures
            final(self).wf(),
            final(self).width == old(self).width,
            final(self).height == old(self).height,
            forall|x: int, y: int|
                0 <= x < old(self).width && 0 <= y < old(self).height ==> #[trigger] final(self).at(x, y) == noisy_pixel(
                    old(self),
                    (destPoint[0] as int, destPoint[1] as int),
                    srcImage,
                    (srcPoint[0] as int, srcPoint[1] as int),
                    SQUARE_TILE_SIZE as int,
                    0,
                    x,
                    y,
                ),
    {
        let ghost before = *self;
        let ghost dest = (destPoint[0] as int, destPoint[1] as int);
        let ghost from = (srcPoint[0] as int, srcPoint[1] as int);
        let mut dx: usize = 0;
        while dx < SQUARE_TILE_SIZE
            invariant
                dx <= SQUARE_TILE_SIZE,
                dest == (destPoint[0] as int, destPoint[1] as int),
                from == (srcPoint[0] as int, srcPoint[1] as int),
                noisy_fits(&before, dest, srcImage, from),
                self.wf(),
                self.width == before.width,
                self.height == before.height,
                forall|x: int, y: int|
                    0 <= x < before.width && 0 <= y < before.height ==> #[trigger] self.at(x, y)
                        == noisy_pixel(&before, dest, srcImage, from, dx as int, 0, x, y),
            decreases SQUARE_TILE_SIZE - dx,
        {
            let mut dy: usize = 0;
            while dy < SQUARE_TILE_SIZE
                invariant
                    dx < SQUARE_TILE_SIZE,
                    dy <= SQUARE_TILE_SIZE,
                    dest == (destPoint[0] as int, destPoint[1] as int),
                    from == (srcPoint[0] as int, srcPoint[1] as int),
                    noisy_fits(&before, dest, srcImage, from),
                    self.wf(),
                    self.width == before.width,
                    self.height == before.height,
                    forall|x: int, y: int|
                        0 <= x < before.width && 0 <= y < before.height ==> #[trigger] self.at(
                            x,
                            y,
                        ) == noisy_pixel(&before, dest, srcImage, from, dx as int, dy as int, x, y),
                decreases SQUARE_TILE_SIZE - dy,
            {
                let sx = srcPoint[0] + (SQUARE_TILE_SIZE - 1) + 2 * ((dx + 1) / 2) - dy;
                let sy = srcPoint[1] + dx / 2 + dy / 2;
                let tx = destPoint[0] + dx;
                let ty = destPoint[1] + 1 - dx % 2 + dy;
                let i = srcImage.index(sx, sy);
                let pixelValue = srcImage.data[i];
                assert(noisy_source(from, dx as int, dy as int) == (sx as int, sy as int));
                if pixelValue != FULLY_TRANSPARENT {
                    let j = self.index(tx, ty);
                    let ghost prev = *self;
                    self.data[j] = pixelValue;
                    proof {
                        assert forall|x: int, y: int|
                            0 <= x < before.width && 0 <= y < before.height implies #[trigger] self.at(
                            x,
                            y,
                        ) == noisy_pixel(
                            &before,
                            dest,
                            srcImage,
                            from,
                            dx as int,
                            dy + 1,
                            x,
                            y,
                        ) by {
                            if y * self.width + x == j {
                                lemma_pixel_distinct(self.width as int, x, y, tx as int, ty as int);
                            } else {
                                lemma_pixel_index(self.width as int, self.height as int, x, y);
                                assert(self.at(x, y) == prev.at(x, y));
                            }
                        }
                    }
                }
                dy = dy + 1;
            }
            dx = dx + 1;
        }
    }
}

} // verus!
