use d2sw_tiled_project::cursor::ReadError;
use d2sw_tiled_project::dt1::tiles::{keptRows, moveTile, shifted, tileAtlas, tileHeights};
use d2sw_tiled_project::dt1::{Block, Tile};
use d2sw_tiled_project::choice::chooseTileColumns;
use d2sw_tiled_project::Image;

fn block(x: i16, y: i16) -> Block {
    Block { x, y, gridX: 0, gridY: 0, format: [1, 0], length: 256, fileOffset: 0 }
}

fn tile(orientation: i32, blocks: Vec<Block>) -> Tile {
    Tile {
        direction: 3,
        roofHeight: 0,
        materialFlags: [0; 2],
        height: -1,
        width: 160,
        orientation,
        mainIndex: 1,
        subIndex: 2,
        rarityOrFrameIndex: 0,
        unknown: [0; 4],
        subtileFlags: [0; 25],
        blockHeadersPointer: 0,
        blocksDataLength: 0,
        usuallyZeros: [0; 4],
        blocks,
    }
}

fn fill(image: &mut Image, x0: usize, y0: usize, w: usize, h: usize, value: u8) {
    for y in y0..y0 + h {
        for x in x0..x0 + w {
            image.data[y * image.width + x] = value;
        }
    }
}

fn count(image: &Image, value: u8) -> usize {
    image.data.iter().filter(|&&p| p == value).count()
}

#[test]
fn blocks_of_a_floor_tile_are_copied_to_their_places() {
    let tiles = vec![tile(0, vec![block(0, 0), block(32, 16)])];
    let mut src = Image::fromWidthHeight(32, 32);
    fill(&mut src, 0, 0, 32, 16, 1);
    fill(&mut src, 0, 16, 32, 16, 2);
    let before = src.data.clone();
    let (into, image) = tileAtlas(&tiles, &mut src, false).unwrap();
    assert_eq!(src.data, before);
    assert_eq!(into.len(), 1);
    assert_eq!(into[0].height, 32);
    assert_eq!(into[0].blocks, vec![block(0, 0), block(32, 16)]);
    assert_eq!(into[0].mainIndex, 1);
    assert_eq!((image.width, image.height), (160, 32));
    assert_eq!(image.data.len(), 160 * 32);
    for y in 0..32 {
        for x in 0..160 {
            let want = if x < 32 && y < 16 {
                1
            } else if (32..64).contains(&x) && y >= 16 {
                2
            } else {
                0
            };
            assert_eq!(image.data[y * 160 + x], want, "at {x}, {y}");
        }
    }
}

#[test]
fn tile_without_blocks_is_left_out_of_the_atlas() {
    let tiles = vec![tile(0, vec![]), tile(0, vec![block(64, 0)]), tile(3, vec![])];
    let mut src = Image::fromWidthHeight(32, 16);
    fill(&mut src, 0, 0, 32, 16, 9);
    let (into, image) = tileAtlas(&tiles, &mut src, false).unwrap();
    assert_eq!(into.len(), 1);
    assert_eq!(into[0].height, 16);
    assert_eq!((image.width, image.height), (160, 16));
    assert_eq!(count(&image, 9), 32 * 16);
    assert_eq!(image.data[64], 9);
    assert_eq!(image.data[63], 0);
    assert_eq!(image.data[96], 0);
}

#[test]
fn zealous_packing_trims_the_empty_rows() {
    let tiles = vec![tile(3, vec![block(0, -32)])];
    let mut src = Image::fromWidthHeight(32, 32);
    fill(&mut src, 0, 10, 32, 10, 7);
    // all rows of the slot
    let (into, image) = tileAtlas(&tiles, &mut src, false).unwrap();
    assert_eq!(into[0].height, 32);
    assert_eq!(into[0].blocks[0].y, 0);
    assert_eq!((image.width, image.height), (160, 32));
    assert_eq!(count(&image, 7), 320);
    assert_eq!(image.data[10 * 160], 7);
    assert_eq!(image.data[9 * 160], 0);
    assert_eq!(image.data[19 * 160 + 31], 7);
    assert_eq!(image.data[20 * 160], 0);
    // the rows that hold a pixel
    let (into, image) = tileAtlas(&tiles, &mut src, true).unwrap();
    assert_eq!(into[0].height, 16);
    assert_eq!(into[0].blocks[0].y, -10);
    assert_eq!((image.width, image.height), (160, 16));
    assert_eq!(count(&image, 7), 320);
    assert_eq!(image.data[0], 7);
    assert_eq!(image.data[9 * 160 + 31], 7);
    assert_eq!(image.data[9 * 160 + 32], 0);
    assert_eq!(image.data[10 * 160], 0);
}

#[test]
fn zealous_packing_keeps_the_rows_between_the_blocks() {
    let tiles = vec![tile(3, vec![block(0, 0), block(32, 40)])];
    let mut src = Image::fromWidthHeight(32, 64);
    fill(&mut src, 0, 30, 32, 2, 1);
    fill(&mut src, 0, 32, 32, 5, 2);
    let (into, image) = tileAtlas(&tiles, &mut src, true).unwrap();
    // rows 30 .. 32 of the first block, rows 40 .. 45 of the second
    assert_eq!(into[0].height, 16);
    assert_eq!(into[0].blocks[0].y, -30);
    assert_eq!(into[0].blocks[1].y, 10);
    assert_eq!((image.width, image.height), (160, 16));
    assert_eq!(count(&image, 1), 64);
    assert_eq!(count(&image, 2), 160);
    assert_eq!(image.data[0], 1);
    assert_eq!(image.data[160 + 31], 1);
    assert_eq!(image.data[10 * 160 + 32], 2);
    assert_eq!(image.data[14 * 160 + 63], 2);
    assert_eq!(image.data[15 * 160 + 32], 0);
}

#[test]
fn tiles_get_the_columns_chosen_for_their_heights() {
    let tiles = vec![tile(3, vec![block(0, 0)]), tile(0, vec![block(16, 0)])];
    let mut src = Image::fromWidthHeight(32, 48);
    fill(&mut src, 0, 0, 32, 32, 1);
    fill(&mut src, 0, 32, 32, 16, 2);
    let (into, image) = tileAtlas(&tiles, &mut src, false).unwrap();
    assert_eq!((into[0].height, into[1].height), (32, 16));
    assert_eq!(tileHeights(&into), (vec![32, 16], 32));
    let columns = chooseTileColumns(&vec![32, 16], 160, 32, 16);
    assert_eq!([image.width, image.height], columns.dimensions(160));
    assert_eq!((image.width, image.height), (160, 48));
    assert_eq!(count(&image, 1), 32 * 32);
    assert_eq!(count(&image, 2), 32 * 16);
    assert_eq!(image.data[31 * 160 + 31], 1);
    assert_eq!(image.data[32 * 160 + 16], 2);
    assert_eq!(image.data[47 * 160 + 47], 2);
    assert_eq!(image.data[32 * 160 + 15], 0);
}

#[test]
fn blocks_of_a_second_column_are_found_in_the_source() {
    let tiles = vec![tile(0, vec![block(0, 0), block(32, 0), block(64, 0)])];
    let mut src = Image::fromWidthHeight(64, 32);
    fill(&mut src, 0, 0, 32, 16, 1);
    fill(&mut src, 0, 16, 32, 16, 2);
    fill(&mut src, 32, 0, 32, 16, 3);
    let (into, image) = tileAtlas(&tiles, &mut src, false).unwrap();
    assert_eq!(into[0].height, 16);
    assert_eq!((image.width, image.height), (160, 16));
    assert_eq!(image.data[0], 1);
    assert_eq!(image.data[32], 2);
    assert_eq!(image.data[64], 3);
    assert_eq!(image.data[96], 0);
    assert_eq!(count(&image, 3), 512);
}

#[test]
fn atlas_of_blocks_that_lacks_a_slot_is_refused() {
    let tiles = vec![tile(0, vec![block(0, 0), block(32, 0), block(64, 0)])];
    // two slots only
    let mut src = Image::fromWidthHeight(32, 32);
    assert_eq!(tileAtlas(&tiles, &mut src, false).err(), Some(ReadError::MalformedStructure));
    // narrower than a block
    let mut src = Image::fromWidthHeight(31, 64);
    assert_eq!(tileAtlas(&tiles, &mut src, false).err(), Some(ReadError::MalformedStructure));
    // lower than a block
    let mut src = Image::fromWidthHeight(96, 15);
    assert_eq!(tileAtlas(&tiles, &mut src, true).err(), Some(ReadError::MalformedStructure));
    let mut src = Image::fromWidthHeight(96, 16);
    assert!(tileAtlas(&tiles, &mut src, false).is_ok());
}

#[test]
fn block_beside_the_atlas_of_tiles_is_refused() {
    let mut src = Image::fromWidthHeight(32, 16);
    fill(&mut src, 0, 0, 32, 16, 1);
    let left = vec![tile(0, vec![block(-1, 0)])];
    assert_eq!(tileAtlas(&left, &mut src, false).err(), Some(ReadError::MalformedStructure));
    let right = vec![tile(0, vec![block(129, 0)])];
    assert_eq!(tileAtlas(&right, &mut src, false).err(), Some(ReadError::MalformedStructure));
    let inside = vec![tile(0, vec![block(128, 0)])];
    let (_, image) = tileAtlas(&inside, &mut src, false).unwrap();
    assert_eq!(image.data[127], 0);
    assert_eq!(image.data[128], 1);
    assert_eq!(image.data[159], 1);
}

#[test]
fn tile_of_empty_blocks_is_refused_by_the_zealous_packing() {
    let tiles = vec![tile(0, vec![block(0, 0)])];
    let mut src = Image::fromWidthHeight(32, 16);
    assert_eq!(tileAtlas(&tiles, &mut src, true).err(), Some(ReadError::MalformedStructure));
    let (into, image) = tileAtlas(&tiles, &mut src, false).unwrap();
    assert_eq!(into[0].height, 16);
    assert_eq!(count(&image, 0), 160 * 16);
}

#[test]
fn no_tiles_give_an_empty_atlas() {
    let mut src = Image::fromWidthHeight(32, 16);
    let (into, image) = tileAtlas(&[], &mut src, false).unwrap();
    assert!(into.is_empty());
    assert_eq!(image.data.len(), image.width * image.height);
    assert_eq!(count(&image, 0), image.data.len());
}

#[test]
fn kept_rows_are_those_between_the_first_and_the_last_pixel() {
    let mut src = Image::fromWidthHeight(64, 40);
    src.data[(5 + 3) * 64 + 32] = 1;
    src.data[(5 + 20) * 64 + 63] = 1;
    // a pixel beside the stripe does not count
    src.data[(5 + 1) * 64 + 31] = 1;
    assert_eq!(keptRows(&mut src, [32, 5], 32, true), [3, 21]);
    assert_eq!(keptRows(&mut src, [32, 5], 32, false), [0, 32]);
    assert_eq!(keptRows(&mut src, [32, 5], 16, true), [3, 4]);
    assert_eq!(keptRows(&mut src, [32, 9], 16, true), [16, 16]);
    assert_eq!(keptRows(&mut src, [0, 0], 32, true), [6, 7]);
}

#[test]
fn moved_tile_counts_its_blocks_from_its_first_row() {
    let t = tile(3, vec![block(0, -40), block(32, 8)]);
    let moved = moveTile(&t, -40, 33).unwrap();
    assert_eq!(moved.height, 80);
    assert_eq!(moved.blocks, vec![block(0, 0), block(32, 48)]);
    assert_eq!(moved.orientation, 3);
    assert_eq!(moved.width, 160);
    assert_eq!(moveTile(&t, 0, 0).err(), Some(ReadError::MalformedStructure));
    assert_eq!(moveTile(&t, 5, 4).err(), Some(ReadError::MalformedStructure));
    let far = tile(3, vec![block(0, 32767)]);
    assert_eq!(moveTile(&far, -1, 0).err(), Some(ReadError::MalformedStructure));
    assert_eq!(moveTile(&far, 0, 16).unwrap().blocks[0].y, 32767);
}

#[test]
fn shifted_place_stays_inside_the_limit() {
    assert_eq!(shifted(10, -3, 5, 12), Some(7));
    assert_eq!(shifted(10, -3, 6, 12), None);
    assert_eq!(shifted(2, -3, 1, 12), None);
    assert_eq!(shifted(3, -3, 1, 12), Some(0));
    assert_eq!(shifted(0, 4, 8, 12), Some(4));
    assert_eq!(shifted(0, 5, 8, 12), None);
    assert_eq!(shifted(13, -1, 0, 12), Some(12));
    assert_eq!(shifted(0, 0, 13, 12), None);
    assert_eq!(shifted(usize::MAX, 1, 0, usize::MAX), None);
    assert_eq!(shifted(usize::MAX, i32::MIN, 0, usize::MAX), Some(usize::MAX - (1 << 31)));
}

#[test]
fn heights_below_zero_count_as_zero() {
    let mut high = tile(0, vec![]);
    high.height = 48;
    let mut low = tile(0, vec![]);
    low.height = 16;
    assert_eq!(tileHeights(&vec![tile(0, vec![]), low.clone(), high, low]), (vec![0, 16, 48, 16], 48));
    assert_eq!(tileHeights(&vec![tile(3, vec![])]), (vec![0], 0));
    assert_eq!(tileHeights(&vec![]), (vec![], 0));
}
