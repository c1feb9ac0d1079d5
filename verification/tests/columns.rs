use d2sw_tiled_project::{Image, TileColumns, TilesIterator};

#[test]
fn push_tile_fills_then_overflows() {
    let mut c = TileColumns { fullColumnHeight: 32, numOverflownColumns: 0, lastColumnHeight: 0 };
    assert_eq!(c.pushTile(16), 0);
    assert_eq!(c.pushTile(16), 0);
    assert_eq!(c.lastColumnHeight, 32);
    assert_eq!(c.pushTile(32), 1);
    assert_eq!(c.numOverflownColumns, 1);
    assert_eq!(c.lastColumnHeight, 32);
    assert_eq!(c.dimensions(32), [64, 32]);
}

#[test]
fn iterator_places_tiles_in_columns() {
    let image = Image::fromWidthHeight(64, 48);
    let mut it = TilesIterator::new(32, &image);
    assert_eq!(it.next(16), [0, 0]);
    assert_eq!(it.next(32), [0, 16]);
    assert_eq!(it.next(16), [32, 0]);
    assert_eq!(it.next(16), [32, 16]);
}

#[test]
fn push_returns_what_the_closed_column_lacked_and_one() {
    let mut c = TileColumns { fullColumnHeight: 80, numOverflownColumns: 2, lastColumnHeight: 50 };
    // 50 + 40 - 1 = 89 = 1 * 80 + 9
    assert_eq!(c.pushTile(40), 40 - 9);
    assert_eq!((c.numOverflownColumns, c.lastColumnHeight), (3, 40));
    assert_eq!(c.pushTile(40), 0);
    assert_eq!((c.numOverflownColumns, c.lastColumnHeight), (3, 80));
    assert_eq!(c.dimensions(160), [640, 80]);
}

#[test]
fn tiles_of_a_layout_lie_inside_and_apart() {
    let heights = [16usize, 32, 48, 16, 16, 64, 32, 16, 48, 48, 16];
    let image = Image::fromWidthHeight(1, 64);
    let mut it = TilesIterator::new(10, &image);
    let places: Vec<[usize; 2]> = heights.iter().map(|&h| it.next(h)).collect();
    let [width, height] = it.tileColumns.dimensions(10);
    for (k, p) in places.iter().enumerate() {
        assert!(p[0] + 10 <= width && p[1] + heights[k] <= height);
        for j in 0..k {
            let q = places[j];
            assert!(q[0] + 10 <= p[0] || (q[0] == p[0] && q[1] + heights[j] <= p[1]));
        }
    }
    assert_eq!(places[2], [10, 0]);
    assert_eq!(places[3], [10, 48]);
    assert_eq!(places[4], [20, 0]);
    assert_eq!(places[5], [30, 0]);
}

#[test]
fn tile_without_height_changes_nothing() {
    let mut c = TileColumns { fullColumnHeight: 32, numOverflownColumns: 1, lastColumnHeight: 32 };
    assert_eq!(c.pushTile(0), 0);
    assert_eq!((c.numOverflownColumns, c.lastColumnHeight), (1, 32));
}
