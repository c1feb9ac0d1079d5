use d2sw_tiled_project::cursor::ReadError;
use d2sw_tiled_project::dt1::draw::{DrawDestination, DrawFn};
use d2sw_tiled_project::dt1::encode::{encodeRowRLE, writeBlockDataIsometric, writeBlockDataRLE};
use d2sw_tiled_project::dt1::{Block, Error, Metadata, Tile, VersionMismatchError, NBPIX, XJUMP};
use d2sw_tiled_project::Image;

fn le32(out: &mut Vec<u8>, v: i32) {
    out.extend_from_slice(&v.to_le_bytes());
}

fn le16(out: &mut Vec<u8>, v: i16) {
    out.extend_from_slice(&v.to_le_bytes());
}

/// One tile with one block of the given format at (0, 0), and its payload.
fn container(orientation: i32, format: [u8; 2], payload: &[u8]) -> Vec<u8> {
    let mut b = Vec::new();
    le32(&mut b, 7);
    le32(&mut b, 6);
    b.extend_from_slice(&[0u8; 260]);
    le32(&mut b, 1);
    le32(&mut b, 276);
    // tile header
    le32(&mut b, 3); // direction
    le16(&mut b, -2); // roofHeight
    b.extend_from_slice(&[9, 1]); // materialFlags
    le32(&mut b, -16); // height
    le32(&mut b, 160); // width
    b.extend_from_slice(&[0u8; 4]);
    le32(&mut b, orientation);
    le32(&mut b, 11); // mainIndex
    le32(&mut b, 12); // subIndex
    le32(&mut b, 13); // rarityOrFrameIndex
    b.extend_from_slice(&[1, 2, 3, 4]); // unknown
    b.extend_from_slice(&[7u8; 25]); // subtileFlags
    b.extend_from_slice(&[0u8; 7]);
    le32(&mut b, 372); // blockHeadersPointer
    le32(&mut b, 20 + payload.len() as i32); // blocksDataLength
    le32(&mut b, 1); // numBlocks
    b.extend_from_slice(&[0u8; 4]);
    b.extend_from_slice(&[5, 6, 7, 8]); // usuallyZeros
    b.extend_from_slice(&[0u8; 4]);
    assert_eq!(b.len(), 372);
    // block header
    le16(&mut b, 0);
    le16(&mut b, 0);
    b.extend_from_slice(&[0u8; 2]);
    b.push(2); // gridX
    b.push(3); // gridY
    b.extend_from_slice(&format);
    le32(&mut b, payload.len() as i32);
    b.extend_from_slice(&[0u8; 2]);
    le32(&mut b, 20);
    assert_eq!(b.len(), 392);
    b.extend_from_slice(payload);
    b
}

fn counting_payload() -> Vec<u8> {
    (0..256usize).map(|i| (i % 255 + 1) as u8).collect()
}

#[test]
fn minimal_container_parses() {
    let payload = counting_payload();
    let bytes = container(0, [1, 0], &payload);
    let m = Metadata::new(&bytes).unwrap();
    assert_eq!(m.fileHeader.version, [7, 6]);
    assert_eq!(m.fileHeader.tileHeadersPointer, 276);
    assert_eq!(m.tiles.len(), 1);
    let t = &m.tiles[0];
    assert_eq!(t.direction, 3);
    assert_eq!(t.roofHeight, -2);
    assert_eq!(t.materialFlags, [9, 1]);
    assert_eq!(t.height, -16);
    assert_eq!(t.width, 160);
    assert_eq!(t.orientation, 0);
    assert_eq!((t.mainIndex, t.subIndex, t.rarityOrFrameIndex), (11, 12, 13));
    assert_eq!(t.unknown, [1, 2, 3, 4]);
    assert_eq!(t.subtileFlags, [7u8; 25]);
    assert_eq!(t.blockHeadersPointer, 372);
    assert_eq!(t.blocksDataLength, 276);
    assert_eq!(t.usuallyZeros, [5, 6, 7, 8]);
    assert_eq!(
        t.blocks,
        vec![Block { x: 0, y: 0, gridX: 2, gridY: 3, format: [1, 0], length: 256, fileOffset: 20 }]
    );
    assert_eq!(t.blockHeight(), 16);
    assert_eq!(t.blocks[0].drawFn(), DrawFn::Isometric);
}

#[test]
fn minimal_container_decodes_into_the_diamond() {
    let payload = counting_payload();
    let bytes = container(0, [1, 0], &payload);
    let m = Metadata::new(&bytes).unwrap();
    let image = Image::fromDT1(&m.tiles, &bytes).unwrap();
    assert_eq!((image.width, image.height), (32, 16));
    // row 0 holds the first four bytes from column 14 on
    assert_eq!(&image.data[14..18], &[1, 2, 3, 4]);
    assert!(image.data[0..14].iter().all(|&p| p == 0));
    assert!(image.data[18..32].iter().all(|&p| p == 0));
    // row 7 holds 32 bytes, those after the 112 of the rows above
    let row7: Vec<u8> = (113..=144).map(|v| v as u8).collect();
    assert_eq!(&image.data[7 * 32..8 * 32], &row7[..]);
    // row 15 is not part of the block
    assert!(image.data[15 * 32..].iter().all(|&p| p == 0));
}

#[test]
fn minimal_container_is_written_back_byte_for_byte() {
    // the payload as it counts: 1, 2, ... 255, 0
    let payload: Vec<u8> = (1..=256usize).map(|i| (i % 256) as u8).collect();
    let bytes = container(0, [1, 0], &payload);
    let m = Metadata::new(&bytes).unwrap();
    let bodies = vec![payload.clone()];
    assert_eq!(m.writeWithBlockData(&bodies).unwrap(), bytes);
}

#[test]
fn container_is_written_back_with_its_own_payloads() {
    for payload in [counting_payload(), vec![0u8; 256], vec![]] {
        let bytes = container(0, [1, 0], &payload);
        let m = Metadata::new(&bytes).unwrap();
        assert_eq!(m.writeWithBlockDataFromDT1(&bytes).unwrap(), bytes);
    }
    let bytes = container(0, [1, 0], &counting_payload());
    let m = Metadata::new(&bytes).unwrap();
    assert_eq!(m.writeWithBlockDataFromDT1(&bytes[..600]), Err(ReadError::MalformedStructure));
}

#[test]
fn container_is_written_back_from_its_atlas() {
    let payload = counting_payload();
    let bytes = container(0, [1, 0], &payload);
    let m = Metadata::new(&bytes).unwrap();
    // the atlas of tiles: the only tile at (0, 0), its block at (0, 0)
    let mut atlas = Image::fromWidthHeight(160, 16);
    atlas.drawBlockIsometric(0, 0, &payload).unwrap();
    let written = m.writeWithBlockDataFromTileImage(&atlas).unwrap();
    assert_eq!(written, bytes);
    assert_eq!(Metadata::new(&written).unwrap(), m);
}

#[test]
fn written_container_has_fresh_pointers() {
    let payload = counting_payload();
    let bytes = container(0, [1, 0], &payload);
    let mut m = Metadata::new(&bytes).unwrap();
    m.tiles[0].blockHeadersPointer = 1;
    m.tiles[0].blocksDataLength = 2;
    m.tiles[0].blocks[0].length = 3;
    m.tiles[0].blocks[0].fileOffset = 4;
    let mut atlas = Image::fromWidthHeight(160, 16);
    atlas.drawBlockIsometric(0, 0, &payload).unwrap();
    assert_eq!(m.writeWithBlockDataFromTileImage(&atlas).unwrap(), bytes);
}

#[test]
fn run_length_container_round_trips_through_the_atlas() {
    // rows of a wall block: one run, an empty row, two runs, then empty rows
    let mut payload = vec![3, 4, 0xAA, 0xBB, 0xCC, 0xDD, 0, 0, 0, 0, 0, 2, 1, 2, 5, 1, 9, 0, 0];
    for _ in 3..32 {
        payload.extend_from_slice(&[0, 0]);
    }
    let bytes = container(3, [1, 16], &payload);
    let m = Metadata::new(&bytes).unwrap();
    assert_eq!(m.tiles[0].blockHeight(), 32);
    assert_eq!(m.tiles[0].blocks[0].drawFn(), DrawFn::RLE);
    let blocks = Image::fromDT1(&m.tiles, &bytes).unwrap();
    assert_eq!((blocks.width, blocks.height), (32, 32));
    assert_eq!(&blocks.data[3..7], &[0xAA, 0xBB, 0xCC, 0xDD]);
    assert_eq!(&blocks.data[64..72], &[1, 2, 0, 0, 0, 0, 0, 9]);
    let mut atlas = Image::fromWidthHeight(160, 32);
    atlas.blitPixelsRectangle([0, 0], [32, 32], &blocks, [0, 0]);
    assert_eq!(m.writeWithBlockDataFromTileImage(&atlas).unwrap(), bytes);
}

#[test]
fn wrong_version_is_reported_with_the_version() {
    let mut bytes = container(0, [1, 0], &counting_payload());
    bytes[4] = 5;
    assert_eq!(
        Metadata::new(&bytes),
        Err(Error::VersionMismatch(VersionMismatchError { version: [7, 5] }))
    );
}

#[test]
fn truncated_container_is_reported() {
    let bytes = container(0, [1, 0], &counting_payload());
    assert_eq!(Metadata::new(&bytes[..4]), Err(Error::TruncatedInput));
    assert_eq!(Metadata::new(&bytes[..270]), Err(Error::TruncatedInput));
    assert_eq!(Metadata::new(&bytes[..300]), Err(Error::TruncatedInput));
    assert_eq!(Metadata::new(&bytes[..380]), Err(Error::TruncatedInput));
    assert_eq!(Metadata::new(&bytes[..bytes.len() - 1]), Err(Error::TruncatedInput));
}

#[test]
fn malformed_container_is_reported() {
    let good = container(0, [1, 0], &counting_payload());
    // a byte in the run of 260 zeros
    let mut bytes = good.clone();
    bytes[100] = 1;
    assert_eq!(Metadata::new(&bytes), Err(Error::MalformedStructure));
    // the pointer to the tile headers
    let mut bytes = good.clone();
    bytes[272] = 21;
    assert_eq!(Metadata::new(&bytes), Err(Error::MalformedStructure));
    // a zero run of the tile header
    let mut bytes = good.clone();
    bytes[276 + 16] = 1;
    assert_eq!(Metadata::new(&bytes), Err(Error::MalformedStructure));
    // the pointer to the block headers
    let mut bytes = good.clone();
    bytes[276 + 72] = 0;
    assert_eq!(Metadata::new(&bytes), Err(Error::MalformedStructure));
    // a zero run of the block header
    let mut bytes = good.clone();
    bytes[372 + 4] = 1;
    assert_eq!(Metadata::new(&bytes), Err(Error::MalformedStructure));
    // bytes after the last payload
    let mut bytes = good.clone();
    bytes.push(0);
    assert_eq!(Metadata::new(&bytes), Err(Error::MalformedStructure));
    // a negative number of tiles
    let mut bytes = good.clone();
    bytes[271] = 0x80;
    assert_eq!(Metadata::new(&bytes), Err(Error::MalformedStructure));
}

#[test]
fn isometric_block_needs_256_opaque_bytes() {
    let mut image = Image::fromWidthHeight(32, 16);
    let mut payload = counting_payload();
    assert_eq!(image.drawBlockIsometric(0, 0, &payload[..255]), Err(ReadError::MalformedStructure));
    payload[255] = 0;
    assert_eq!(image.drawBlockIsometric(0, 0, &payload), Err(ReadError::MalformedStructure));
    assert!(image.data.iter().all(|&p| p == 0));
    // no room for the block
    let payload = counting_payload();
    assert_eq!(image.drawBlockIsometric(1, 0, &payload), Ok(()));
    let mut image = Image::fromWidthHeight(32, 14);
    assert_eq!(image.drawBlockIsometric(0, 0, &payload), Err(ReadError::MalformedStructure));
    assert!(image.data.iter().all(|&p| p == 0));
}

#[test]
fn isometric_rows_follow_the_tables() {
    let payload = counting_payload();
    let mut image = Image::fromWidthHeight(64, 20);
    image.drawBlockIsometric(5, 2, &payload).unwrap();
    let mut next = 0;
    for dy in 0..15 {
        for x in 0..64 {
            let pixel = image.data[(2 + dy) * 64 + x];
            if x >= 5 + XJUMP[dy] && x < 5 + XJUMP[dy] + NBPIX[dy] {
                assert_eq!(pixel, payload[next]);
                next += 1;
            } else {
                assert_eq!(pixel, 0);
            }
        }
    }
    assert_eq!(next, 256);
}

#[test]
fn run_length_one_row() {
    let mut image = Image::fromWidthHeight(32, 4);
    image.drawBlockRLE(0, 0, &[0x03, 0x04, 0xAA, 0xBB, 0xCC, 0xDD, 0x00, 0x00]).unwrap();
    let mut expected = vec![0u8; 32 * 4];
    expected[3..7].copy_from_slice(&[0xAA, 0xBB, 0xCC, 0xDD]);
    assert_eq!(image.data, expected);
}

#[test]
fn run_length_pair_of_zeros_starts_the_next_row() {
    let mut image = Image::fromWidthHeight(32, 4);
    image
        .drawBlockRLE(2, 1, &[0x03, 0x04, 0xAA, 0xBB, 0xCC, 0xDD, 0x00, 0x00, 0x01, 0x01, 0xEE, 0, 0])
        .unwrap();
    let mut expected = vec![0u8; 32 * 4];
    expected[32 + 5..32 + 9].copy_from_slice(&[0xAA, 0xBB, 0xCC, 0xDD]);
    expected[64 + 3] = 0xEE;
    assert_eq!(image.data, expected);
}

#[test]
fn run_length_payload_that_cannot_be_drawn_changes_nothing() {
    let mut image = Image::fromWidthHeight(8, 2);
    // the run is cut short
    assert_eq!(image.drawBlockRLE(0, 0, &[1, 3, 7, 7]), Err(ReadError::MalformedStructure));
    // half a pair
    assert_eq!(image.drawBlockRLE(0, 0, &[1, 1, 7, 0]), Err(ReadError::MalformedStructure));
    // a transparent pixel in a run
    assert_eq!(image.drawBlockRLE(0, 0, &[1, 2, 7, 0, 0, 0]), Err(ReadError::MalformedStructure));
    // the run leaves the image
    assert_eq!(image.drawBlockRLE(0, 1, &[7, 2, 7, 7]), Err(ReadError::MalformedStructure));
    assert!(image.data.iter().all(|&p| p == 0));
    assert_eq!(image.drawBlockRLE(0, 1, &[6, 2, 7, 7]), Ok(()));
    assert_eq!(&image.data[14..], &[7, 7]);
}

#[test]
fn row_with_a_transparent_gap_is_encoded() {
    let mut out = Vec::new();
    encodeRowRLE(&mut out, &[0, 0, 0, 5, 6, 0, 0, 7], 0);
    assert_eq!(out, vec![0x03, 0x02, 0x05, 0x06, 0x02, 0x01, 0x07, 0x00, 0x00]);
}

#[test]
fn rows_are_encoded_run_by_run() {
    let mut out = vec![0xFF];
    encodeRowRLE(&mut out, &[], 0);
    assert_eq!(out, vec![0xFF, 0, 0]);
    let mut out = Vec::new();
    encodeRowRLE(&mut out, &[0, 0, 0], 0);
    assert_eq!(out, vec![0, 0]);
    let mut out = Vec::new();
    encodeRowRLE(&mut out, &[1, 2, 3], 4);
    assert_eq!(out, vec![4, 3, 1, 2, 3, 0, 0]);
    let mut out = Vec::new();
    encodeRowRLE(&mut out, &[1, 0, 2], 0);
    assert_eq!(out, vec![0, 1, 1, 1, 1, 2, 0, 0]);
}

#[test]
fn decoding_then_encoding_gives_the_payload_back() {
    let payload = counting_payload();
    let mut image = Image::fromWidthHeight(40, 20);
    image.drawBlockIsometric(3, 4, &payload).unwrap();
    let mut out = Vec::new();
    writeBlockDataIsometric(&mut out, [3, 4], &image);
    assert_eq!(out, payload);

    // the same pixels as a run-length block with the outline of the diamond
    let mut rle = Vec::new();
    writeBlockDataRLE(&mut rle, [3, 4], 15, &image);
    let mut again = Image::fromWidthHeight(40, 20);
    again.drawBlockRLE(3, 4, &rle).unwrap();
    assert_eq!(again.data, image.data);
    let mut twice = Vec::new();
    writeBlockDataRLE(&mut twice, [3, 4], 15, &again);
    assert_eq!(twice, rle);
    // row 0: fourteen columns skipped, four pixels
    assert_eq!(&rle[..8], &[14, 4, 1, 2, 3, 4, 0, 0]);
}

#[test]
fn tile_without_blocks_cannot_be_written() {
    let m = Metadata {
        fileHeader: d2sw_tiled_project::dt1::FileHeader { version: [7, 6], tileHeadersPointer: 276 },
        tiles: vec![Tile {
            direction: 0,
            roofHeight: 0,
            materialFlags: [0; 2],
            height: 0,
            width: 0,
            orientation: 0,
            mainIndex: 0,
            subIndex: 0,
            rarityOrFrameIndex: 0,
            unknown: [0; 4],
            subtileFlags: [0; 25],
            blockHeadersPointer: 0,
            blocksDataLength: 0,
            usuallyZeros: [0; 4],
            blocks: vec![],
        }],
    };
    let atlas = Image::fromWidthHeight(160, 80);
    assert_eq!(m.writeWithBlockDataFromTileImage(&atlas), Err(ReadError::MalformedStructure));
    // written as it stands, it reads back
    let bytes = m.writeWithBlockData(&vec![vec![]]).unwrap();
    assert_eq!(bytes.len(), 276 + 96);
    let mut read = m.clone();
    read.tiles[0].blockHeadersPointer = 372;
    let mut fixed = bytes.clone();
    fixed[276 + 72..276 + 76].copy_from_slice(&372i32.to_le_bytes());
    assert_eq!(Metadata::new(&fixed), Ok(read));
    assert_eq!(Metadata::new(&bytes), Err(Error::MalformedStructure));
}

#[test]
fn block_outside_the_atlas_cannot_be_written() {
    let payload = counting_payload();
    let bytes = container(0, [1, 0], &payload);
    let mut m = Metadata::new(&bytes).unwrap();
    let atlas = Image::fromWidthHeight(160, 16);
    m.tiles[0].blocks[0].x = -1;
    assert_eq!(m.writeWithBlockDataFromTileImage(&atlas), Err(ReadError::MalformedStructure));
    m.tiles[0].blocks[0].x = 129;
    assert_eq!(m.writeWithBlockDataFromTileImage(&atlas), Err(ReadError::MalformedStructure));
    m.tiles[0].blocks[0].x = 128;
    assert!(m.writeWithBlockDataFromTileImage(&atlas).is_ok());
    m.tiles[0].blocks[0].format = [9, 9];
    assert_eq!(m.writeWithBlockDataFromTileImage(&atlas), Err(ReadError::MalformedStructure));
    m.tiles[0].blocks[0].format = [1, 16];
    assert_eq!(m.writeWithBlockDataFromTileImage(&atlas), Err(ReadError::MalformedStructure));
    let atlas = Image::fromWidthHeight(160, 15);
    m.tiles[0].blocks[0].format = [1, 0];
    assert_eq!(m.writeWithBlockDataFromTileImage(&atlas), Err(ReadError::MalformedStructure));
}

#[test]
fn decoder_is_chosen_by_the_tag() {
    let payload = counting_payload();
    let mut a = Image::fromWidthHeight(32, 16);
    DrawFn::Isometric.draw(&mut a, 0, 0, &payload).unwrap();
    let mut b = Image::fromWidthHeight(32, 16);
    b.drawBlockIsometric(0, 0, &payload).unwrap();
    assert_eq!(a.data, b.data);
    let mut c = Image::fromWidthHeight(32, 16);
    DrawFn::RLE.draw(&mut c, 0, 0, &[1, 1, 9, 0, 0]).unwrap();
    assert_eq!(c.data[1], 9);
    assert_eq!(c.width(), 32);
}
