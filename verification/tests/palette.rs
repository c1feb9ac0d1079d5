use d2sw_tiled_project::palette::{
    buildInversePalette, checkInversePalette, inversePalette, nearestEntry, rgbaToIndexed,
    swapRedBlue,
};
use d2sw_tiled_project::vectors::DotExt;

fn at(r: usize, g: usize, b: usize) -> usize {
    (r << 16) | (g << 8) | b
}

#[test]
fn table_of_black_and_white() {
    let palette = [0, 0, 0, 255, 255, 255];
    let (table, best) = buildInversePalette(&palette, 77);
    assert_eq!(table.len(), 1 << 24);
    assert_eq!(table[at(0, 0, 0)], 0);
    assert_eq!(best[at(0, 0, 0)], 0);
    assert_eq!(table[at(255, 255, 255)], 1);
    // 127 is nearer to 0 than to 255, 128 is nearer to 255
    assert_eq!(table[at(127, 127, 127)], 0);
    assert_eq!(best[at(127, 127, 127)], 3 * 127 * 127);
    assert_eq!(table[at(128, 128, 128)], 1);
    assert_eq!(best[at(128, 128, 128)], 3 * 127 * 127);
    assert_eq!(table[at(255, 0, 0)], 0);
    assert_eq!(best[at(255, 0, 0)], 255 * 255);
    assert_eq!(table[at(255, 255, 0)], 1);
    assert_eq!(best[at(10, 20, 30)], 100 + 400 + 900);
    for color in [[0, 0, 0], [128, 128, 128], [1, 200, 77], [255, 0, 255]] {
        assert!(checkInversePalette(&palette, &table, &best, color, 77));
    }
    let mut wrong = table.clone();
    wrong[at(1, 200, 77)] ^= 1;
    assert!(!checkInversePalette(&palette, &wrong, &best, [1, 200, 77], 77));
}

#[test]
fn of_two_entries_equally_near_the_earlier_is_taken() {
    let palette = [2, 0, 0, 0, 0, 0, 1, 1, 0];
    let (table, best) = buildInversePalette(&palette, 0);
    assert_eq!(table[at(1, 0, 0)], 0);
    assert_eq!(best[at(1, 0, 0)], 1);
    assert_eq!(table[at(0, 0, 0)], 1);
    assert_eq!(table[at(1, 1, 0)], 2);
    assert_eq!(table[at(2, 1, 0)], 0);
    assert_eq!(nearestEntry(&palette, [1, 0, 0], 9), (0, 1));
    assert_eq!(nearestEntry(&palette, [0, 1, 0], 9), (1, 1));
    assert_eq!(nearestEntry(&palette, [255, 255, 255], 9), (2, 2 * 254 * 254 + 255 * 255));
    assert_eq!(nearestEntry(&[], [1, 2, 3], 9), (9, i32::MAX));
}

#[test]
fn table_stands_the_test_on_a_random_color() {
    let (table, agrees) = inversePalette(&[10, 20, 30]);
    assert!(agrees);
    assert!(table.iter().all(|&entry| entry == 0));
}

#[test]
fn red_and_blue_are_swapped() {
    let mut palette = vec![1, 2, 3, 4, 5, 6];
    swapRedBlue(&mut palette);
    assert_eq!(palette, vec![3, 2, 1, 6, 5, 4]);
    swapRedBlue(&mut palette);
    assert_eq!(palette, vec![1, 2, 3, 4, 5, 6]);
}

#[test]
fn square_of_the_length() {
    assert_eq!([3, -4].lengthSquared(), 25);
    assert_eq!([1, 2, 3].lengthSquared(), 14);
    assert_eq!([1, -2, 3, -4].lengthSquared(), 30);
}

#[test]
fn colors_become_indices() {
    let palette = [255, 255, 255, 0, 0, 0, 200, 0, 0];
    let (table, _) = buildInversePalette(&palette, 0);
    let rgba = [
        250, 250, 250, 255, // nearest to entry 0, which is taken: black
        3, 2, 1, 16, // entry 1
        3, 2, 1, 15, // transparent
        190, 5, 5, 200, // entry 2
    ];
    assert_eq!(rgbaToIndexed(&rgba, &table), vec![172, 1, 0, 2]);
    assert_eq!(rgbaToIndexed(&[], &table), vec![]);
}
