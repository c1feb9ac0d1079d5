//! Marking the edges of the floor of a map with their coordinates.

use crate::ds1::cell::{cellIsOccupied, with_tile_id};
use crate::ds1::{
    MAIN_INDEX_MASK, MAIN_INDEX_MAX, MAIN_INDEX_OFFSET, PROP1_MASK, SUB_INDEX_MASK,
    SUB_INDEX_OFFSET,
};
use vstd::prelude::*;

verus! {

/// The cell `(x, y)` of a layer of `w` by `h` cells counts as floor: it is
/// occupied and is neither the first nor the last cell of the layer.
pub open spec fn is_floor(layer: Seq<u32>, w: int, h: int, x: int, y: int) -> bool {
    &&& 0 <= x < w
    &&& 0 <= y < h
    &&& (layer[y * w + x] & PROP1_MASK) != 0
    &&& !(x == 0 && y == 0)
    &&& !(x == w - 1 && y == h - 1)
}

/// The cell is the topmost or the lowest floor cell of its column.
pub open spec fn ends_column(layer: Seq<u32>, w: int, h: int, x: int, y: int) -> bool {
    &&& is_floor(layer, w, h, x, y)
    &&& (forall|above: int| 0 <= above < y ==> !is_floor(layer, w, h, x, above)) || (forall|
        below: int,
    | y < below < h ==> !is_floor(layer, w, h, x, below))
}

/// The cell is the leftmost or the rightmost floor cell of its row.
pub open spec fn ends_row(layer: Seq<u32>, w: int, h: int, x: int, y: int) -> bool {
    &&& is_floor(layer, w, h, x, y)
    &&& (forall|left: int| 0 <= left < x ==> !is_floor(layer, w, h, left, y)) || (forall|right: int|
        x < right < w ==> !is_floor(layer, w, h, right, y))
}

/// The cell with the main index `mainIndex` and the sub index `sub`, of
/// which the bits that leave the word are lost.
pub open spec fn ruled_with(cell: u32, mainIndex: u32, sub: u32) -> u32 {
    (cell & !(MAIN_INDEX_MASK | SUB_INDEX_MASK)) | (mainIndex << MAIN_INDEX_OFFSET) | (sub
        << SUB_INDEX_OFFSET)
}

/// What the rule makes of the cell `(x, y)`: a cell that ends its column
/// but not its row gets its column for its sub index, a cell that ends its
/// row but not its column gets its row; every other cell stays.
pub open spec fn ruled_cell(layer: Seq<u32>, w: int, h: int, mainIndex: u32, x: int, y: int) -> u32 {
    let cell = layer[y * w + x];
    if ends_column(layer, w, h, x, y) && !ends_row(layer, w, h, x, y) {
        ruled_with(cell, mainIndex, x as u32)
    } else if !ends_column(layer, w, h, x, y) && ends_row(layer, w, h, x, y) {
        ruled_with(cell, mainIndex, y as u32)
    } else {
        cell
    }
}

/// The least and the greatest `y` of the floor cells of column `x` among
/// the rows below `rows`, or `None` when there is none.
fn columnEnds(layer: &Vec<u32>, w: usize, h: usize, x: usize) -> (r: Option<(usize, usize)>)
    requires
        layer@.len() == w * h,
        x < w,
    ensures
        match r {
            None => forall|y: int| 0 <= y < h ==> !is_floor(layer@, w as int, h as int, x as int, y),
            Some((lo, hi)) => {
                &&& lo <= hi < h
                &&& is_floor(layer@, w as int, h as int, x as int, lo as int)
                &&& is_floor(layer@, w as int, h as int, x as int, hi as int)
                &&& forall|y: int| 0 <= y < lo ==> !is_floor(layer@, w as int, h as int, x as int, y)
                &&& forall|y: int| hi < y < h ==> !is_floor(layer@, w as int, h as int, x as int, y)
            },
        },
{
    let mut found: Option<(usize, usize)> = None;
    let mut y: usize = 0;
    while y < h
        invariant
            y <= h,
            layer@.len() == w * h,
            x < w,
            match found {
                None => forall|k: int| 0 <= k < y ==> !is_floor(layer@, w as int, h as int, x as int, k),
                Some((lo, hi)) => {
                    &&& lo <= hi < y
                    &&& is_floor(layer@, w as int, h as int, x as int, lo as int)
                    &&& is_floor(layer@, w as int, h as int, x as int, hi as int)
                    &&& forall|k: int|
                        0 <= k < lo ==> !is_floor(layer@, w as int, h as int, x as int, k)
                    &&& forall|k: int|
                        hi < k < y ==> !is_floor(layer@, w as int, h as int, x as int, k)
                },
            },
        decreases h - y,
    {
        if isFloor(layer, w, h, x, y) {
            found = match found {
                None => Some((y, y)),
                Some((lo, _)) => Some((lo, y)),
            };
        }
        y = y + 1;
    }
    found
}

/// The least and the greatest `x` of the floor cells of row `y`, or `None`
/// when there is none.
fn rowEnds(layer: &Vec<u32>, w: usize, h: usize, y: usize) -> (r: Option<(usize, usize)>)
    requires
        layer@.len() == w * h,
        y < h,
    ensures
        match r {
            None => forall|x: int| 0 <= x < w ==> !is_floor(layer@, w as int, h as int, x, y as int),
            Some((lo, hi)) => {
                &&& lo <= hi < w
                &&& is_floor(layer@, w as int, h as int, lo as int, y as int)
                &&& is_floor(layer@, w as int, h as int, hi as int, y as int)
                &&& forall|x: int| 0 <= x < lo ==> !is_floor(layer@, w as int, h as int, x, y as int)
                &&& forall|x: int| hi < x < w ==> !is_floor(layer@, w as int, h as int, x, y as int)
            },
        },
{
    let mut found: Option<(usize, usize)> = None;
    let mut x: usize = 0;
    while x < w
        invariant
            x <= w,
            layer@.len() == w * h,
            y < h,
            match found {
                None => forall|k: int| 0 <= k < x ==> !is_floor(layer@, w as int, h as int, k, y as int),
                Some((lo, hi)) => {
                    &&& lo <= hi < x
                    &&& is_floor(layer@, w as int, h as int, lo as int, y as int)
                    &&& is_floor(layer@, w as int, h as int, hi as int, y as int)
                    &&& forall|k: int|
                        0 <= k < lo ==> !is_floor(layer@, w as int, h as int, k, y as int)
                    &&& forall|k: int|
                        hi < k < x ==> !is_floor(layer@, w as int, h as int, k, y as int)
                },
            },
        decreases w - x,
    {
        if isFloor(layer, w, h, x, y) {
            found = match found {
                None => Some((x, x)),
                Some((lo, _)) => Some((lo, x)),
            };
        }
        x = x + 1;
    }
    found
}

/// Whether the cell `(x, y)` counts as floor.
pub fn isFloor(layer: &Vec<u32>, w: usize, h: usize, x: usize, y: usize) -> (r: bool)
    requires
        layer@.len() == w * h,
        x < w,
        y < h,
    ensures
        r == is_floor(layer@, w as int, h as int, x as int, y as int),
{
    proof {
        crate::image::lemma_pixel_index(w as int, h as int, x as int, y as int);
    }
    let n = layer.len();
    cellIsOccupied(layer[y * w + x]) && !(x == 0 && y == 0) && !(x == w - 1 && y == h - 1)
}

/// Gives the cells at the edges of the floor the main index `mainIndex`
/// and, for their sub index, the coordinate along which the edge runs: the
/// column for a cell that ends its column but not its row, the row for a
/// cell that ends its row but not its column. The layer has `w` by `h`
/// cells, row by row.
pub fn ruleFloor(layer: &Vec<u32>, w: usize, h: usize, mainIndex: u32) -> (r: Vec<u32>)
    requires
        layer@.len() == w * h,
        w <= u32::MAX,
        h <= u32::MAX,
        mainIndex <= MAIN_INDEX_MAX,
    ensures
        r@.len() == layer@.len(),
        forall|x: int, y: int|
            0 <= x < w && 0 <= y < h ==> #[trigger] r@[y * w + x] == ruled_cell(
                layer@,
                w as int,
                h as int,
                mainIndex,
                x,
                y,
            ),
{
    let n = layer.len();
    let mut columns: Vec<Option<(usize, usize)>> = Vec::new();
    let mut x: usize = 0;
    while x < w
        invariant
            x <= w,
            layer@.len() == w * h,
            columns@.len() == x,
            forall|c: int|
                0 <= c < x ==> column_ends_ok(layer@, w as int, h as int, c, #[trigger] columns@[c]),
        decreases w - x,
    {
        let ends = columnEnds(layer, w, h, x);
        columns.push(ends);
        x = x + 1;
    }
    let mut out: Vec<u32> = Vec::new();
    let mut y: usize = 0;
    while y < h
        invariant
            y <= h,
            layer@.len() == w * h == n,
            w <= u32::MAX,
            h <= u32::MAX,
            mainIndex <= MAIN_INDEX_MAX,
            columns@.len() == w,
            forall|c: int|
                0 <= c < w ==> column_ends_ok(layer@, w as int, h as int, c, #[trigger] columns@[c]),
            out@.len() == y * w,
            forall|cx: int, cy: int|
                0 <= cx < w && 0 <= cy < y ==> #[trigger] out@[cy * w + cx] == ruled_cell(
                    layer@,
                    w as int,
                    h as int,
                    mainIndex,
                    cx,
                    cy,
                ),
        decreases h - y,
    {
        let row = rowEnds(layer, w, h, y);
        let ghost before = out@;
        let mut x: usize = 0;
        while x < w
            invariant
                x <= w,
                y < h,
                layer@.len() == w * h == n,
                w <= u32::MAX,
                h <= u32::MAX,
                mainIndex <= MAIN_INDEX_MAX,
                columns@.len() == w,
                forall|c: int|
                0 <= c < w ==> column_ends_ok(layer@, w as int, h as int, c, #[trigger] columns@[c]),
                row_ends_ok(layer@, w as int, h as int, y as int, row),
                before.len() == y * w,
                out@.len() == y * w + x,
                forall|i: int| 0 <= i < before.len() ==> #[trigger] out@[i] == before[i],
                forall|cx: int|
                    0 <= cx < x ==> #[trigger] out@[y * w + cx] == ruled_cell(
                        layer@,
                        w as int,
                        h as int,
                        mainIndex,
                        cx,
                        y as int,
                    ),
            decreases w - x,
        {
            proof {
                crate::image::lemma_pixel_index(w as int, h as int, x as int, y as int);
            }
            let cell = layer[y * w + x];
            let endsColumn = match columns[x] {
                None => false,
                Some((lo, hi)) => y == lo || y == hi,
            };
            let endsRow = match row {
                None => false,
                Some((lo, hi)) => x == lo || x == hi,
            };
            proof {
                assert(column_ends_ok(layer@, w as int, h as int, x as int, columns@[x as int]));
                assert(endsColumn == ends_column(layer@, w as int, h as int, x as int, y as int));
                assert(endsRow == ends_row(layer@, w as int, h as int, x as int, y as int));
            }
            let ruled = if endsColumn && !endsRow {
                ruleCell(cell, mainIndex, x as u32)
            } else if !endsColumn && endsRow {
                ruleCell(cell, mainIndex, y as u32)
            } else {
                cell
            };
            out.push(ruled);
            x = x + 1;
        }
        proof {
            assert((y + 1) * w == y * w + w) by (nonlinear_arith);
            assert forall|cx: int, cy: int| 0 <= cx < w && 0 <= cy < y + 1 implies #[trigger] out@[cy
                * w + cx] == ruled_cell(layer@, w as int, h as int, mainIndex, cx, cy) by {
                if cy < y {
                    crate::image::lemma_pixel_index(w as int, y as int, cx, cy);
                    assert(w * y == y * w) by (nonlinear_arith);
                    assert(out@[cy * w + cx] == before[cy * w + cx]);
                }
            }
        }
        y = y + 1;
    }
    assert(h * w == w * h) by (nonlinear_arith);
    out
}

/// What `columnEnds` says of column `x`.
pub open spec fn column_ends_ok(
    layer: Seq<u32>,
    w: int,
    h: int,
    x: int,
    ends: Option<(usize, usize)>,
) -> bool {
    match ends {
        None => forall|y: int| 0 <= y < h ==> !is_floor(layer, w, h, x, y),
        Some((lo, hi)) => {
            &&& lo <= hi < h
            &&& is_floor(layer, w, h, x, lo as int)
            &&& is_floor(layer, w, h, x, hi as int)
            &&& forall|y: int| 0 <= y < lo ==> !is_floor(layer, w, h, x, y)
            &&& forall|y: int| hi < y < h ==> !is_floor(layer, w, h, x, y)
        },
    }
}

/// What `rowEnds` says of row `y`.
pub open spec fn row_ends_ok(
    layer: Seq<u32>,
    w: int,
    h: int,
    y: int,
    ends: Option<(usize, usize)>,
) -> bool {
    match ends {
        None => forall|x: int| 0 <= x < w ==> !is_floor(layer, w, h, x, y),
        Some((lo, hi)) => {
            &&& lo <= hi < w
            &&& is_floor(layer, w, h, lo as int, y)
            &&& is_floor(layer, w, h, hi as int, y)
            &&& forall|x: int| 0 <= x < lo ==> !is_floor(layer, w, h, x, y)
            &&& forall|x: int| hi < x < w ==> !is_floor(layer, w, h, x, y)
        },
    }
}

/// The cell with the main index `mainIndex` and the sub index `sub`, of
/// which the bits that leave the word are lost.
pub fn ruleCell(cell: u32, mainIndex: u32, sub: u32) -> (r: u32)
    requires
        mainIndex <= MAIN_INDEX_MAX,
    ensures
        r == ruled_with(cell, mainIndex, sub),
        sub <= 0xFF ==> r == with_tile_id(cell, mainIndex, sub),
{
    (cell & !(MAIN_INDEX_MASK | SUB_INDEX_MASK)) | (mainIndex << MAIN_INDEX_OFFSET) | (sub
        << SUB_INDEX_OFFSET)
}

} // verus!
