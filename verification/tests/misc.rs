use d2sw_tiled_project::cursor::{
    write_all, write_i16, write_i32, write_u8, Cursor, ReadError, ReadExt, WriteExt,
};
use d2sw_tiled_project::ext::UsizeExt;
use d2sw_tiled_project::vectors::Vec2Ext;
use d2sw_tiled_project::{log2, BLACK, FULLY_TRANSPARENT, PAL_LEN, RGBCUBE_VOLUME};

#[test]
fn integers_are_little_endian() {
    let bytes = [0x78, 0x56, 0x34, 0x12, 0xFE, 0xFF, 0x05, 0xFF, 0xFF, 0xFF, 0xFF];
    let mut cursor = Cursor::new(&bytes);
    assert_eq!(cursor.read_i32(), Ok(0x1234_5678));
    assert_eq!(cursor.read_i16(), Ok(-2));
    assert_eq!(cursor.read_u8(), Ok(5));
    assert_eq!(cursor.remaining(), 4);
    assert_eq!(cursor.read_i32(), Ok(-1));
    assert_eq!(cursor.position(), 11);
    assert_eq!(cursor.read_u8(), Err(ReadError::TruncatedInput));
    assert_eq!(cursor.read_i16(), Err(ReadError::TruncatedInput));
    assert_eq!(cursor.read_i32(), Err(ReadError::TruncatedInput));
    assert_eq!(cursor.position(), 11);
}

#[test]
fn word_is_read() {
    let bytes = [0xEF, 0xBE, 0xAD, 0xDE, 1];
    let mut cursor = Cursor::new(&bytes);
    assert_eq!(cursor.read_u32(), Ok(0xDEAD_BEEF));
    assert_eq!(cursor.read_u32(), Err(ReadError::TruncatedInput));
    assert_eq!(cursor.position(), 4);
}

#[test]
fn words_are_read_in_a_row() {
    let bytes = [1, 0, 0, 0, 0, 1, 0, 0, 0xFF, 0xFF, 0xFF, 0xFF, 9];
    let mut cursor = Cursor::new(&bytes);
    assert_eq!(cursor.read_u32s(4), Err(ReadError::TruncatedInput));
    assert_eq!(cursor.read_u32s(3), Ok(vec![1, 256, u32::MAX]));
    assert_eq!(cursor.remaining(), 1);
    assert_eq!(cursor.read_u32s(0), Ok(vec![]));
}

#[test]
fn zeros_are_consumed_and_checked() {
    let bytes = [0, 0, 0, 1, 0];
    let mut cursor = Cursor::new(&bytes);
    assert_eq!(cursor.consumeZeros(3), Ok(()));
    assert_eq!(cursor.position(), 3);
    assert_eq!(cursor.consumeZeros(2), Err(ReadError::MalformedStructure));
    assert_eq!(cursor.position(), 3);
    assert_eq!(cursor.consumeZeros(3), Err(ReadError::TruncatedInput));
    assert_eq!(cursor.consume(1), Ok(()));
    assert_eq!(cursor.consumeZeros(1), Ok(()));
    assert_eq!(cursor.consume(1), Err(ReadError::TruncatedInput));
    assert_eq!(cursor.remaining(), 0);
}

#[test]
fn arrays_are_copied() {
    let bytes = [1, 2, 3, 4, 5];
    let mut cursor = Cursor::new(&bytes);
    assert_eq!(cursor.read_u8_array::<2>(), Ok([1, 2]));
    assert_eq!(cursor.read_u8_array::<4>(), Err(ReadError::TruncatedInput));
    assert_eq!(cursor.read_u8_array::<3>(), Ok([3, 4, 5]));
    assert_eq!(cursor.read_u8_array::<0>(), Ok([]));
}

#[test]
fn writes_mirror_the_reads() {
    let mut out = Vec::new();
    write_i32(&mut out, 0x1234_5678);
    write_i16(&mut out, -2);
    write_u8(&mut out, 5);
    out.writeZeros(3);
    write_all(&mut out, &[7, 8]);
    write_i32(&mut out, -1);
    assert_eq!(out, vec![0x78, 0x56, 0x34, 0x12, 0xFE, 0xFF, 5, 0, 0, 0, 7, 8, 0xFF, 0xFF, 0xFF, 0xFF]);
}

#[test]
fn next_multiple() {
    assert_eq!(0usize.nextMultipleOf(16), 0);
    assert_eq!(1usize.nextMultipleOf(16), 16);
    assert_eq!(16usize.nextMultipleOf(16), 16);
    assert_eq!(47usize.nextMultipleOf(16), 48);
    assert_eq!(7usize.nextMultipleOf(1), 7);
}

#[test]
fn sign_of_an_offset() {
    assert_eq!(160usize.mulSignumOf(1), 160);
    assert_eq!(160usize.mulSignumOf(usize::MAX), 0usize.wrapping_sub(160));
    assert_eq!(0usize.mulSignumOf(usize::MAX), 0);
}

#[test]
fn points_wrap() {
    assert_eq!([3usize, 5].add([10, usize::MAX]), [13, 4]);
    assert_eq!([3usize, 0].neg(), [0usize.wrapping_sub(3), 0]);
    assert_eq!([10usize, 20].add([3usize, 5].neg()), [7, 15]);
    let mut p = [1usize, 2];
    p.addAssign([1, usize::MAX]);
    assert_eq!(p, [2, 1]);
    assert_eq!([7usize, 9].div(2), [3, 4]);
}

#[test]
fn logarithm_and_constants() {
    assert_eq!([1, 2, 3, 4, 255, 256, 8192].map(log2), [0, 1, 1, 2, 7, 8, 13]);
    assert_eq!((PAL_LEN, RGBCUBE_VOLUME), (768, 1 << 24));
    assert_eq!((FULLY_TRANSPARENT, BLACK), (0, 172));
}
