use d2sw_tiled_project::Image;

fn picture(width: usize, height: usize, pixels: &[(usize, usize, u8)]) -> Image {
    let mut image = Image::fromWidthHeight(width, height);
    for &(x, y, v) in pixels {
        image.data[y * width + x] = v;
    }
    image
}

#[test]
fn image_from_width_and_data() {
    let image = Image::fromWidthData(3, vec![1, 2, 3, 4, 5, 6]);
    assert_eq!((image.width, image.height), (3, 2));
    assert_eq!(image.data, vec![1, 2, 3, 4, 5, 6]);
    assert_eq!(image.index(2, 1), 5);
    let blank = Image::fromWidthHeight(4, 3);
    assert_eq!(blank.data, vec![0; 12]);
}

#[test]
fn blit_copies_only_what_is_not_transparent() {
    let src = picture(4, 3, &[(1, 1, 7), (2, 1, 8), (3, 2, 9)]);
    let mut dst = Image::fromWidthData(5, vec![1; 20]);
    dst.data[2 * 5 + 1] = 0;
    dst.blitPixelsRectangle([1, 1], [3, 2], &src, [1, 1]);
    let mut expected = vec![1u8; 20];
    expected[1 * 5 + 1] = 7;
    expected[1 * 5 + 2] = 8;
    expected[2 * 5 + 1] = 0; // transparent in both
    expected[2 * 5 + 3] = 9;
    assert_eq!(dst.data, expected);
}

#[test]
fn blit_of_nothing_changes_nothing() {
    let src = picture(4, 3, &[(1, 1, 7)]);
    let mut dst = Image::fromWidthData(5, vec![3; 20]);
    dst.blitPixelsRectangle([5, 4], [0, 0], &src, [4, 3]);
    assert_eq!(dst.data, vec![3; 20]);
}

#[test]
fn rectangle_is_drawn_as_a_border() {
    let mut image = Image::fromWidthHeight(6, 5);
    image.drawRectangle(9, [[1, 1], [4, 3]]);
    let expected = vec![
        0, 0, 0, 0, 0, 0,
        0, 9, 9, 9, 9, 0,
        0, 9, 0, 0, 9, 0,
        0, 9, 9, 9, 9, 0,
        0, 0, 0, 0, 0, 0,
    ];
    assert_eq!(image.data, expected);
    let mut thin = Image::fromWidthHeight(3, 4);
    thin.drawRectangle(5, [[1, 0], [1, 4]]);
    assert_eq!(thin.data, vec![0, 5, 0, 0, 5, 0, 0, 5, 0, 0, 5, 0]);
    thin.drawRectangle(6, [[0, 0], [0, 0]]);
    assert_eq!(thin.data, vec![0, 5, 0, 0, 5, 0, 0, 5, 0, 0, 5, 0]);
}

#[test]
fn bounding_rectangle_encloses_the_pixels() {
    let image = picture(8, 6, &[(2, 1, 1), (5, 3, 1), (3, 4, 1), (7, 5, 1)]);
    assert_eq!(image.boundingRectangle([[0, 0], [7, 5]]), Some([[2, 1], [4, 4]]));
    assert_eq!(image.boundingRectangle([[0, 0], [8, 6]]), Some([[2, 1], [6, 5]]));
    assert_eq!(image.boundingRectangle([[3, 2], [3, 2]]), Some([[5, 3], [1, 1]]));
    assert_eq!(image.boundingRectangle([[0, 0], [2, 6]]), None);
    assert_eq!(image.boundingRectangle([[3, 3], [0, 0]]), None);
    assert!(image.isRowEmpty(0, 8, 0));
    assert!(!image.isRowEmpty(0, 8, 1));
    assert!(image.isRowEmpty(3, 5, 1));
}

#[test]
fn empty_rows_of_a_stripe_are_trimmed() {
    let mut image = picture(40, 8, &[(4, 2, 1), (35, 5, 1), (0, 6, 1), (39, 7, 1)]);
    assert_eq!(image.boundingDyRangeBlockwidth([4, 0], 8), [2, 6]);
    assert_eq!(image.boundingDyRangeBlockwidth([4, 2], 4), [0, 4]);
    assert_eq!(image.boundingDyRangeBlockwidth([4, 3], 2), [2, 2]);
    assert_eq!(image.boundingDyRangeBlockwidth([5, 0], 8), [5, 6]);
    assert_eq!(image.boundingDyRangeBlockwidth([8, 0], 5), [5, 5]);
    assert_eq!(image.boundingDyRangeBlockwidth([0, 0], 0), [0, 0]);
}

fn diamond() -> Image {
    // the 160 by 79 diamond of a floor tile, every pixel with a value of its own
    let mut src = Image::fromWidthHeight(160, 79);
    for dx in 0..80usize {
        for dy in 0..80usize {
            let x = 79 + 2 * ((dx + 1) / 2) - dy;
            let y = dx / 2 + dy / 2;
            src.data[y * 160 + x] = (1 + (dx * 80 + dy) % 255) as u8;
        }
    }
    src
}

#[test]
fn diamond_is_packed_into_a_square() {
    let src = diamond();
    let mut dst = Image::fromWidthHeight(82, 83);
    assert!(dst.canDrawNoisySquareTile([1, 1], &src, [0, 0]));
    dst.drawNoisySquareTile([1, 1], &src, [0, 0]);
    for dx in 0..80usize {
        for dy in 0..80usize {
            let y = 1 + 1 - dx % 2 + dy;
            assert_eq!(dst.data[y * 82 + 1 + dx], (1 + (dx * 80 + dy) % 255) as u8);
        }
    }
    // the frame and the spare pixels stay as they were
    let painted = dst.data.iter().filter(|&&p| p != 0).count();
    assert_eq!(painted, 80 * 80);
    assert_eq!(dst.data[1 * 82 + 1], 0);
    assert_eq!(dst.data[81 * 82 + 2], 0);
}

#[test]
fn square_walks_the_diamond_column_by_column() {
    let mut src = Image::fromWidthHeight(160, 79);
    src.data[0 * 160 + 79] = 1; // the top of the diamond
    src.data[0 * 160 + 78] = 2; // one step on
    src.data[1 * 160 + 77] = 3; // two steps on
    src.data[0 * 160 + 81] = 4; // the start of the second column
    src.data[1 * 160 + 81] = 5; // the start of the third
    let mut dst = Image::fromWidthHeight(80, 81);
    dst.drawNoisySquareTile([0, 0], &src, [0, 0]);
    assert_eq!(dst.data[1 * 80], 1);
    assert_eq!(dst.data[2 * 80], 2);
    assert_eq!(dst.data[3 * 80], 3);
    assert_eq!(dst.data[0 * 80 + 1], 4);
    assert_eq!(dst.data[1 * 80 + 2], 5);
    assert_eq!(dst.data.iter().filter(|&&p| p != 0).count(), 5);
}

#[test]
fn square_is_not_drawn_over_pixels() {
    let src = diamond();
    let mut dst = Image::fromWidthHeight(80, 81);
    assert!(dst.canDrawNoisySquareTile([0, 0], &src, [0, 0]));
    dst.data[5 * 80 + 5] = 1;
    assert!(!dst.canDrawNoisySquareTile([0, 0], &src, [0, 0]));
    let narrow = Image::fromWidthHeight(79, 90);
    assert!(!narrow.canDrawNoisySquareTile([0, 0], &src, [0, 0]));
    let wide = Image::fromWidthHeight(90, 90);
    assert!(!wide.canDrawNoisySquareTile([0, 0], &src, [1, 0]));
    assert!(wide.canDrawNoisySquareTile([10, 9], &src, [0, 0]));
    assert!(!wide.canDrawNoisySquareTile([10, 10], &src, [0, 0]));
}
