use d2sw_tiled_project::cursor::ReadError;
use d2sw_tiled_project::ds1::cell::{
    cellIsOccupied, cellMainIndex, cellProp1, cellSubIndex, forceTileID, setCellTileID,
};
use d2sw_tiled_project::ds1::rule::{isFloor, ruleCell, ruleFloor};
use d2sw_tiled_project::ds1::RootStruct;
use d2sw_tiled_project::dt1::raw::{drawBlockIsometric, drawBlockNormal, writeRun};
use d2sw_tiled_project::ext::{
    CopyExt, DivRemExt, LenConst_Ext, MinAssign_MaxAssign_Ext, VecExt,
};
use d2sw_tiled_project::frame::{
    parseLengthLine, readFrame, writeFrame, writeLengthLine, FrameError,
};

#[test]
fn payload_that_counts_is_drawn_into_the_buffer() {
    // 1, 2, ... 255, 0
    let payload: Vec<u8> = (1..=256usize).map(|i| (i % 256) as u8).collect();
    let mut buffer = vec![98u8; 256 * 256];
    drawBlockIsometric(&mut buffer, 0, 0, &payload).unwrap();
    assert_eq!(&buffer[14..18], &[1, 2, 3, 4]);
    assert_eq!(&buffer[13..14], &[98]);
    assert_eq!(&buffer[18..19], &[98]);
    let row7: Vec<u8> = (113..=144).map(|v| v as u8).collect();
    assert_eq!(&buffer[7 * 256..7 * 256 + 32], &row7[..]);
    // the last row ends with the byte 0
    assert_eq!(&buffer[14 * 256 + 14..14 * 256 + 18], &[253, 254, 255, 0]);
    // every byte of the payload but the one that is 98 shows
    assert_eq!(buffer.iter().filter(|&&p| p != 98).count(), 255);
}

#[test]
fn block_is_drawn_at_its_place_in_the_buffer() {
    let payload = vec![7u8; 256];
    let mut buffer = vec![0u8; 256 * 32];
    drawBlockIsometric(&mut buffer, 32, 16, &payload).unwrap();
    assert_eq!(&buffer[16 * 256 + 32 + 13..16 * 256 + 32 + 19], &[0, 7, 7, 7, 7, 0]);
    assert_eq!(&buffer[23 * 256 + 31..23 * 256 + 65], &{
        let mut row = vec![7u8; 34];
        row[0] = 0;
        row[33] = 0;
        row
    }[..]);
    // no room below row 17
    let mut small = vec![0u8; 256 * 32];
    assert_eq!(drawBlockIsometric(&mut small, 0, 18, &payload), Err(ReadError::MalformedStructure));
    assert_eq!(drawBlockIsometric(&mut small, 0, 0, &payload[1..]), Err(ReadError::MalformedStructure));
    assert!(small.iter().all(|&p| p == 0));
}

#[test]
fn run_length_row_is_drawn_into_the_buffer() {
    let mut buffer = vec![98u8; 256 * 4];
    drawBlockNormal(&mut buffer, 0, 0, &[0x03, 0x04, 0xAA, 0xBB, 0xCC, 0xDD, 0x00, 0x00]).unwrap();
    let mut expected = vec![98u8; 256 * 4];
    expected[3..7].copy_from_slice(&[0xAA, 0xBB, 0xCC, 0xDD]);
    assert_eq!(buffer, expected);
    // the pair of zeros went on to row 1: what follows is drawn there
    drawBlockNormal(&mut buffer, 8, 2, &[0, 0, 2, 1, 0, 0, 0]).unwrap();
    expected[3 * 256 + 10] = 0;
    assert_eq!(buffer, expected);
    assert_eq!(drawBlockNormal(&mut buffer, 0, 3, &[255, 2, 1, 1]), Err(ReadError::MalformedStructure));
    assert_eq!(drawBlockNormal(&mut buffer, 0, 3, &[1]), Err(ReadError::MalformedStructure));
    assert_eq!(buffer, expected);
    let mut bytes = vec![1, 2, 3, 4, 5];
    writeRun(&mut bytes, 1, &[9, 8]);
    assert_eq!(bytes, vec![1, 9, 8, 4, 5]);
}

#[test]
fn length_line_is_parsed() {
    assert_eq!(parseLengthLine(b"123\npayload"), Ok((4, 123)));
    assert_eq!(parseLengthLine(b"0\r\n"), Ok((3, 0)));
    assert_eq!(parseLengthLine(b"007\r\r\nrest\n"), Ok((6, 7)));
    assert_eq!(parseLengthLine(b"18446744073709551615\n"), Ok((21, u64::MAX)));
}

#[test]
fn length_line_that_gives_no_length_is_an_error() {
    for line in [
        &b""[..],
        b"123",
        b"\n",
        b"\r\n",
        b"12a\n",
        b"+12\n",
        b" 12\n",
        b"12 \n",
        b"1\r2\n",
        b"18446744073709551616\n",
        b"99999999999999999999999\n",
    ] {
        assert_eq!(parseLengthLine(line), Err(FrameError {}), "{:?}", line);
    }
}

#[test]
fn length_line_that_was_written_is_read() {
    for size in [0u64, 7, 10, 99, 100, 12345, u64::MAX] {
        let mut out = vec![b'x'];
        writeLengthLine(&mut out, size);
        assert_eq!(out, format!("x{}\n", size).into_bytes());
        out.extend_from_slice(b"123\n");
        assert_eq!(parseLengthLine(&out[1..]), Ok((out.len() - 5, size)));
    }
}

#[test]
fn cells_name_their_tile() {
    let cell = 0xFFFF_FFFFu32;
    assert_eq!(cellProp1(cell), 0xFF);
    assert_eq!(cellSubIndex(cell), 0xFF);
    assert_eq!(cellMainIndex(cell), 0x3F);
    let set = setCellTileID(cell, 5, 9);
    assert_eq!(set, 0xFC5F_09FF);
    assert_eq!((cellMainIndex(set), cellSubIndex(set), cellProp1(set)), (5, 9, 0xFF));
    assert_eq!(setCellTileID(0, 0x3F, 0xFF), 0x03F0_FF00);
    assert!(cellIsOccupied(0x0000_0001));
    assert!(cellIsOccupied(0xFFFF_FF80));
    assert!(!cellIsOccupied(0xFFFF_FF00));
}

#[test]
fn occupied_cells_of_a_layer_get_the_tile() {
    let mut layer = vec![0x0000_0000, 0x0000_0001, 0x0123_4500, 0x0123_4580];
    forceTileID(&mut layer, 2, 3);
    // bits 16 to 19 and 26 to 31 are not part of the tile
    assert_eq!(layer, vec![0x0000_0000, 0x0020_0301, 0x0123_4500, 0x0023_0380]);
}

#[test]
fn floors_lie_between_the_walls_and_the_shadows() {
    let mut m = RootStruct {
        version: 18,
        xMax: 0,
        yMax: 0,
        actIndex: 0,
        tagType: 1,
        files: vec![],
        unknown: None,
        numWallLayers: 2,
        numFloors: 2,
        layers: vec![vec![0]; 8],
        objects: None,
        groups: None,
        paths: None,
    };
    assert_eq!(m.floorLayers(), Some((4, 6)));
    m.tagType = 0;
    assert_eq!(m.floorLayers(), Some((4, 7)));
    m.numWallLayers = 4;
    assert_eq!(m.floorLayers(), None);
    m.numWallLayers = -1;
    assert_eq!(m.floorLayers(), None);
}

#[test]
fn least_and_greatest_are_kept() {
    let mut low = 5i16;
    low.minAssign(7);
    assert_eq!(low, 5);
    low.minAssign(-3);
    assert_eq!(low, -3);
    let mut high = i32::MIN;
    high.maxAssign(4);
    high.maxAssign(-9);
    assert_eq!(high, 4);
    let mut n = 3usize;
    n.maxAssign(8);
    n.minAssign(6);
    assert_eq!(n, 6);
}

#[test]
fn quotient_and_remainder() {
    assert_eq!(17usize.div_rem(5), [3, 2]);
    assert_eq!(160u32.div_rem(32), [5, 0]);
}

#[test]
fn value_is_handed_on() {
    let mut seen = 0;
    let v = 42i32.also(|&x| seen = x + 1);
    assert_eq!((v, seen), (42, 43));
}

#[test]
fn vectors_of_a_length() {
    let mut v = <Vec<u8> as VecExt>::withLen(5);
    assert_eq!(v, vec![0; 5]);
    v[3] = 9;
    v.setLen(4);
    assert_eq!(v, vec![0, 0, 0, 9]);
    v.setLen(4);
    assert_eq!(v.len(), 4);
}

#[test]
fn length_of_an_array_and_default_value() {
    assert_eq!(<[usize; 2] as LenConst_Ext>::LEN, 2);
    assert_eq!(<[u8; 25] as LenConst_Ext>::LEN, 25);
    assert_eq!(d2sw_tiled_project::default::<i32>(), 0);
    assert_eq!(d2sw_tiled_project::default::<Option<u8>>(), None);
}

#[test]
fn frames_follow_one_another() {
    let mut stream = Vec::new();
    writeFrame(&mut stream, b"first");
    writeFrame(&mut stream, b"");
    writeFrame(&mut stream, b"3\nthird");
    stream.extend_from_slice(b"the rest");
    assert_eq!(stream, b"5\nfirst0\n7\n3\nthirdthe rest");
    let (payload, rest) = readFrame(&stream).unwrap();
    assert_eq!(payload, b"first");
    let (payload, rest) = readFrame(rest).unwrap();
    assert_eq!(payload, b"");
    let (payload, rest) = readFrame(rest).unwrap();
    assert_eq!(payload, b"3\nthird");
    assert_eq!(rest, b"the rest");
    assert_eq!(readFrame(rest), Err(FrameError {}));
    assert_eq!(readFrame(b"4\nabc"), Err(FrameError {}));
    assert_eq!(readFrame(b"3\r\nabc").unwrap(), (&b"abc"[..], &b""[..]));
}

#[test]
fn edges_of_the_floor_are_ruled() {
    // a floor of 5 by 4 cells; 1 marks an occupied cell
    let layer: Vec<u32> = vec![
        1, 0, 1, 0, 0, //
        0, 1, 1, 1, 0, //
        0, 1, 1, 1, 0, //
        0, 0, 1, 0, 1, //
    ];
    assert!(!isFloor(&layer, 5, 4, 0, 0)); // the first cell does not count
    assert!(!isFloor(&layer, 5, 4, 4, 3)); // nor does the last
    assert!(isFloor(&layer, 5, 4, 2, 0));
    let ruled = ruleFloor(&layer, 5, 4, 3);
    let main = 3 << 20;
    // (2, 1) is inside its column (rows 0 to 3) and inside its row: it stays
    assert_eq!(ruled[1 * 5 + 2], 1);
    // (1, 1) is the top of its column and the left of its row: it stays
    assert_eq!(ruled[1 * 5 + 1], 1);
    // (2, 0) is the top of its column and alone in its row: it stays
    assert_eq!(ruled[2], 1);
    // (2, 3) is the bottom of its column and alone in its row: it stays
    assert_eq!(ruled[3 * 5 + 2], 1);
    // every cell of this floor ends both or neither
    assert_eq!(ruled, layer);
    // a floor where edges run along one direction only
    let layer: Vec<u32> = vec![
        0, 1, 1, 1, 0, //
        0, 1, 1, 1, 0, //
        0, 1, 1, 1, 0, //
    ];
    let ruled = ruleFloor(&layer, 5, 3, 3);
    let expected: Vec<u32> = vec![
        0, 1, 1 | main | 2 << 8, 1, 0, // the top of column 2, inside its row: column 2
        0, 1 | main | 1 << 8, 1, 1 | main | 1 << 8, 0, // the ends of row 1, inside their columns: row 1
        0, 1, 1 | main | 2 << 8, 1, 0, //
    ];
    assert_eq!(ruled, expected);
    assert_eq!(ruleCell(0xFFFF_FFFF, 0, 0), 0xFC0F_00FF);
    assert_eq!(ruleCell(0, 1, 0x1FF), 0x0011_FF00);
}
