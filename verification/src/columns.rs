//! Packing tiles of one width and varying heights into vertical columns.

use crate::image::Image;
use vstd::prelude::*;

verus! {

/// The packing state as plain numbers.
pub struct Columns {
    /// Height at which a column is full.
    pub full: nat,
    /// Number of columns that were closed because a tile did not fit.
    pub overflown: nat,
    /// Height used in the column that is being filled.
    pub last: nat,
}

impl Columns {
    /// The column being filled is no higher than a full column.
    pub open spec fn wf(self) -> bool {
        self.last <= self.full
    }

    /// The empty packing with columns of height `full`.
    pub open spec fn fresh(full: nat) -> Columns {
        Columns { full, overflown: 0, last: 0 }
    }

    /// `(last + h - 1) / full`: how many columns a tile of height `h` closes.
    pub open spec fn quotient(self, h: nat) -> int {
        (self.last + h - 1) / (self.full as int)
    }

    /// `(last + h - 1) mod full`.
    pub open spec fn remainder(self, h: nat) -> int {
        (self.last + h - 1) % (self.full as int)
    }

    /// What pushing a tile of height `h` returns: zero when the tile fits
    /// under the last one, else `h` less the remainder.
    pub open spec fn overflow(self, h: nat) -> int {
        if self.quotient(h) == 0 {
            0
        } else {
            h - self.remainder(h)
        }
    }

    /// The state after a tile of height `h` was pushed.
    pub open spec fn push(self, h: nat) -> Columns {
        if self.quotient(h) == 0 {
            Columns { last: self.last + h, ..self }
        } else {
            Columns { overflown: (self.overflown + self.quotient(h)) as nat, last: h, ..self }
        }
    }

    /// The state after the first `k` of the tiles `hs` were pushed.
    pub open spec fn after(self, hs: Seq<usize>, k: nat) -> Columns
        decreases k,
    {
        if k == 0 {
            self
        } else {
            self.after(hs, (k - 1) as nat).push(hs[k - 1] as nat)
        }
    }

    /// The column that a tile of height `h` lands in when it is pushed: the
    /// next one when it overflows, else the one being filled.
    pub open spec fn column(self, h: nat) -> nat {
        if self.overflow(h) != 0 {
            self.push(h).overflown
        } else {
            self.overflown
        }
    }

    /// The row at which a tile of height `h` starts when it is pushed: the top
    /// of the column when it overflows, else the fill line.
    pub open spec fn row(self, h: nat) -> nat {
        if self.overflow(h) != 0 {
            0
        } else {
            self.last
        }
    }

    /// Top-left corner that a tile of height `h` gets when it is pushed.
    pub open spec fn place(self, tile_width: nat, h: nat) -> (nat, nat) {
        (self.column(h) * tile_width, self.row(h))
    }

    /// Width and height of the area that the columns cover.
    pub open spec fn dimensions(self, tile_width: nat) -> (nat, nat) {
        ((self.overflown + 1) * tile_width, self.full)
    }

    /// Every one of `hs` is a height that a column of this packing can hold.
    pub open spec fn admits(self, hs: Seq<usize>) -> bool {
        forall|i: int| 0 <= i < hs.len() ==> 1 <= #[trigger] hs[i] <= self.full
    }
}

/// A push of a tile that fits a column closes at most one column and keeps
/// the state well formed.
pub proof fn lemma_push(c: Columns, h: nat)
    requires
        c.wf(),
        h <= c.full,
        c.last + h >= 1,
    ensures
        c.push(h).wf(),
        c.push(h).full == c.full,
        c.quotient(h) == 0 <==> c.last + h <= c.full,
        c.quotient(h) == 0 || c.quotient(h) == 1,
        c.overflow(h) == 0 <==> c.last + h <= c.full,
        c.last + h > c.full ==> c.overflow(h) == c.full + 1 - c.last,
        c.overflown <= c.push(h).overflown <= c.overflown + 1,
{
    let d = c.last + h - 1;
    let f = c.full as int;
    assert(0 <= d < 2 * f);
    if d < f {
        assert(d / f == 0 && d % f == d) by (nonlinear_arith)
            requires
                0 <= d < f,
        ;
    } else {
        assert(d / f == 1 && d % f == d - f) by (nonlinear_arith)
            requires
                f <= d < 2 * f,
        ;
    }
}

/// Pushing tiles keeps the state well formed and never lowers the number of
/// closed columns.
pub proof fn lemma_after(c: Columns, hs: Seq<usize>, j: nat, k: nat)
    requires
        c.wf(),
        c.admits(hs),
        j <= k <= hs.len(),
    ensures
        c.after(hs, k).wf(),
        c.after(hs, k).full == c.full,
        c.after(hs, j).overflown <= c.after(hs, k).overflown,
        c.after(hs, k).overflown <= c.overflown + k,
    decreases k,
{
    if k > 0 {
        lemma_after(c, hs, if j < k {
            j
        } else {
            (k - 1) as nat
        }, (k - 1) as nat);
        lemma_push(c.after(hs, (k - 1) as nat), hs[k - 1] as nat);
    }
}

/// A tile placed earlier lies in an earlier column than the state's current
/// one, or in the current one and above its fill line.
proof fn lemma_place_behind(c: Columns, hs: Seq<usize>, j: nat, k: nat)
    requires
        c.wf(),
        c.admits(hs),
        j < k <= hs.len(),
    ensures
        ({
            let col = c.after(hs, j).column(hs[j as int] as nat);
            let row = c.after(hs, j).row(hs[j as int] as nat);
            let s = c.after(hs, k);
            col < s.overflown || (col == s.overflown && row + hs[j as int] <= s.last)
        }),
    decreases k,
{
    let before = c.after(hs, (k - 1) as nat);
    let h = hs[k - 1] as nat;
    lemma_after(c, hs, j, (k - 1) as nat);
    lemma_push(before, h);
    if j < k - 1 {
        lemma_place_behind(c, hs, j, (k - 1) as nat);
    }
}

/// Layout fits: when tiles that each fit a column are placed one after the
/// other, every tile lies inside the area that the final state reports.
pub proof fn lemma_layout_inside(full: nat, tw: nat, hs: Seq<usize>, k: int)
    requires
        Columns::fresh(full).admits(hs),
        0 <= k < hs.len(),
    ensures
        ({
            let c = Columns::fresh(full);
            let (w, h) = c.after(hs, hs.len()).dimensions(tw);
            let (x, y) = c.after(hs, k as nat).place(tw, hs[k] as nat);
            x + tw <= w && y + hs[k] <= h
        }),
{
    let c = Columns::fresh(full);
    let s = c.after(hs, k as nat);
    lemma_after(c, hs, k as nat, k as nat);
    lemma_after(c, hs, (k + 1) as nat, hs.len());
    lemma_push(s, hs[k] as nat);
    let end = c.after(hs, hs.len());
    let col = s.column(hs[k] as nat);
    assert(s.push(hs[k] as nat) == c.after(hs, (k + 1) as nat));
    assert(col * tw + tw <= (end.overflown + 1) * tw) by (nonlinear_arith)
        requires
            col <= end.overflown,
    ;
}

/// Layout fits: two different tiles of one run never overlap. The earlier one
/// lies in a column further left, or in the same column and wholly above.
pub proof fn lemma_layout_disjoint(full: nat, tw: nat, hs: Seq<usize>, j: int, k: int)
    requires
        Columns::fresh(full).admits(hs),
        0 <= j < k < hs.len(),
    ensures
        ({
            let c = Columns::fresh(full);
            let (xj, yj) = c.after(hs, j as nat).place(tw, hs[j] as nat);
            let (xk, yk) = c.after(hs, k as nat).place(tw, hs[k] as nat);
            xj + tw <= xk || (xj == xk && yj + hs[j] <= yk)
        }),
{
    let c = Columns::fresh(full);
    let s = c.after(hs, k as nat);
    let h = hs[k] as nat;
    lemma_after(c, hs, k as nat, k as nat);
    lemma_push(s, h);
    lemma_place_behind(c, hs, j as nat, k as nat);
    let colj = c.after(hs, j as nat).column(hs[j] as nat);
    let colk = s.column(h);
    if colj < colk {
        assert(colj * tw + tw <= colk * tw) by (nonlinear_arith)
            requires
                colj < colk,
        ;
    }
}

/// Columns of tiles: the height of a full column, the number of columns
/// closed so far, and the height used in the column being filled.
#[derive(Debug, Clone, Copy)]
pub struct TileColumns {
    pub fullColumnHeight: usize,
    pub numOverflownColumns: usize,
    pub lastColumnHeight: usize,
}

impl View for TileColumns {
    type V = Columns;

    open spec fn view(&self) -> Columns {
        Columns {
            full: self.fullColumnHeight as nat,
            overflown: self.numOverflownColumns as nat,
            last: self.lastColumnHeight as nat,
        }
    }
}

impl Default for TileColumns {
    fn default() -> (r: Self)
        ensures
            r@ == Columns::fresh(0),
    {
        TileColumns { fullColumnHeight: 0, numOverflownColumns: 0, lastColumnHeight: 0 }
    }
}

impl TileColumns {
    /// Adds a tile under the last one, or on top of the next column when it
    /// does not fit. Returns zero in the first case; in the second the
    /// height that the closed column lacked, plus one.
    pub fn pushTile(&mut self, tileHeight: usize) -> (r: usize)
        requires
            old(self)@.wf(),
            tileHeight <= old(self).fullColumnHeight,
            1 <= old(self).lastColumnHeight + tileHeight <= usize::MAX,
            old(self).numOverflownColumns < usize::MAX,
        ensures
            final(self)@ == old(self)@.push(tileHeight as nat),
            r == old(self)@.overflow(tileHeight as nat),
            final(self)@.wf(),
    {
        proof {
            lemma_push(self@, tileHeight as nat);
        }
        self.lastColumnHeight = self.lastColumnHeight + tileHeight;
        let dividend = self.lastColumnHeight - 1;
        let quotient = dividend / self.fullColumnHeight;
        let remainder = dividend % self.fullColumnHeight;
        if quotient == 0 {
            return 0;
        }
        self.numOverflownColumns = self.numOverflownColumns + quotient;
        self.lastColumnHeight = tileHeight;
        tileHeight - remainder
    }

    /// Width and height of the area that the columns cover, for tiles of
    /// width `tileWidth`.
    pub fn dimensions(&self, tileWidth: usize) -> (r: [usize; 2])
        requires
            self.numOverflownColumns < usize::MAX,
            (self.numOverflownColumns + 1) * tileWidth <= usize::MAX,
        ensures
            (r[0] as nat, r[1] as nat) == self@.dimensions(tileWidth as nat),
    {
        [(self.numOverflownColumns + 1) * tileWidth, self.fullColumnHeight]
    }
}

/// Hands out, tile by tile, the top-left corner of each tile in an image
/// whose height is the height of a column.
pub struct TilesIterator {
    pub tilewidth: usize,
    pub tileColumns: TileColumns,
}

impl TilesIterator {
    /// The width of every tile.
    pub open spec fn tile_width(&self) -> nat {
        self.tilewidth as nat
    }

    /// An iterator over an empty packing whose columns are as high as
    /// `image`.
    pub fn new(tilewidth: usize, image: &Image) -> (r: Self)
        ensures
            r.tile_width() == tilewidth,
            r.tileColumns@ == Columns::fresh(image.height as nat),
    {
        TilesIterator {
            tilewidth,
            tileColumns: TileColumns {
                fullColumnHeight: image.height,
                numOverflownColumns: 0,
                lastColumnHeight: 0,
            },
        }
    }

    /// Places the next tile and returns its top-left corner `[x, y]`.
    pub fn next(&mut self, tileHeight: usize) -> (r: [usize; 2])
        requires
            old(self).tileColumns@.wf(),
            tileHeight <= old(self).tileColumns.fullColumnHeight,
            1 <= old(self).tileColumns.lastColumnHeight + tileHeight <= usize::MAX,
            (old(self).tileColumns.numOverflownColumns + 1) * old(self).tile_width() <= usize::MAX,
            old(self).tileColumns.numOverflownColumns < usize::MAX,
        ensures
            final(self).tile_width() == old(self).tile_width(),
            final(self).tileColumns@ == old(self).tileColumns@.push(tileHeight as nat),
            final(self).tileColumns@.wf(),
            (r[0] as nat, r[1] as nat) == old(self).tileColumns@.place(
                old(self).tile_width(),
                tileHeight as nat,
            ),
    {
        let tileColumns = self.tileColumns;
        proof {
            lemma_push(tileColumns@, tileHeight as nat);
            let n = tileColumns.numOverflownColumns as int;
            let tw = self.tilewidth as int;
            assert(n * tw <= (n + 1) * tw) by (nonlinear_arith)
                requires
                    n >= 0,
                    tw >= 0,
            ;
        }
        if self.tileColumns.pushTile(tileHeight) != 0 {
            [self.tileColumns.numOverflownColumns * self.tilewidth, 0]
        } else {
            [tileColumns.numOverflownColumns * self.tilewidth, tileColumns.lastColumnHeight]
        }
    }
}

} // verus!
