use d2sw_tiled_project::choice::{chooseTileColumns, isBetter, nextPowerOfTwo};
use d2sw_tiled_project::TileColumns;

#[test]
fn three_tiles_in_columns_of_32() {
    // the candidates have columns of 32, 48 and 64; each needs a square of
    // 64, and of the two widest the first is chosen
    let chosen = chooseTileColumns(&vec![16, 16, 32], 32, 32, 16);
    assert_eq!(chosen.dimensions(32), [64, 32]);
    assert_eq!(
        (chosen.fullColumnHeight, chosen.numOverflownColumns, chosen.lastColumnHeight),
        (32, 1, 32)
    );
}

#[test]
fn higher_columns_win_where_the_square_is_smaller() {
    // nine tiles of 16: columns of 16 need nine columns of width 32, a
    // square of 512; columns of 48, 64 and 80 need a square of 128, and of
    // the widest two, with three columns, those of 48 come first
    let chosen = chooseTileColumns(&vec![16; 9], 32, 16, 16);
    assert_eq!(chosen.dimensions(32), [96, 48]);
    let none = chooseTileColumns(&vec![], 32, 16, 16);
    assert_eq!(none.dimensions(32), [32, 16]);
}

#[test]
fn smaller_square_first_then_wider() {
    let c = |full, over| TileColumns { fullColumnHeight: full, numOverflownColumns: over, lastColumnHeight: 0 };
    assert!(isBetter(&c(64, 0), &c(65, 0), 32));
    assert!(!isBetter(&c(65, 0), &c(64, 0), 32));
    assert!(isBetter(&c(32, 1), &c(64, 0), 32));
    assert!(!isBetter(&c(64, 0), &c(32, 1), 32));
    assert!(!isBetter(&c(32, 1), &c(48, 1), 32));
}

#[test]
fn powers_of_two() {
    assert_eq!([0, 1, 2, 3, 4, 5, 64, 65, 1000].map(nextPowerOfTwo), [1, 1, 2, 4, 4, 8, 64, 128, 1024]);
}
