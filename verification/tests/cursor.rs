use classfile::{ByteCursor, DecodeError};

#[test]
fn test_read_limit() {
    let bytes: Vec<u8> = vec![202, 254, 186, 190, 0, 0, 0, 55, 0, 15];
    let mut reader = ByteCursor::new(&bytes);
    let vec = reader.read_limit(4).unwrap();
    assert_eq!(vec, vec![202, 254, 186, 190]);

    let vec = reader.read_limit(4).unwrap();
    assert_eq!(vec, vec![0, 0, 0, 55]);
}

#[test]
fn read_limit_fails_where_too_few_bytes_are_left() {
    let mut reader = ByteCursor::new(&[1, 2]);
    assert_eq!(reader.read_limit(4), Err(DecodeError::UnexpectedEnd));
    assert_eq!(reader.offset(), 0);

    let bytes: Vec<u8> = vec![1, 2, 3, 4, 5];
    let mut reader = ByteCursor::new(&bytes);
    assert_eq!(reader.read_limit(3), Ok(vec![1, 2, 3]));
    assert_eq!(reader.offset(), 3);
    assert_eq!(reader.read_limit(3), Err(DecodeError::UnexpectedEnd));
    assert_eq!(reader.offset(), 3);
    assert_eq!(reader.read_limit(u32::MAX), Err(DecodeError::UnexpectedEnd));
    assert_eq!(reader.offset(), 3);
    assert_eq!(reader.read_limit(2), Ok(vec![4, 5]));
    assert_eq!(reader.offset(), 5);
    assert_eq!(reader.read_limit(1), Err(DecodeError::UnexpectedEnd));
    assert_eq!(reader.read_limit(0), Ok(vec![]));
    assert_eq!(reader.offset(), 5);
}

#[test]
fn read_limit_with_the_largest_limit() {
    let mut reader = ByteCursor::new(&[7, 8, 9]);
    assert_eq!(reader.read_limit(u32::MAX), Err(DecodeError::UnexpectedEnd));
    assert_eq!(reader.remaining(), 3);
    assert_eq!(reader.read_limit(3), Ok(vec![7, 8, 9]));
}

#[test]
fn read_exact_gives_the_next_bytes() {
    let bytes: Vec<u8> = vec![202, 254, 186, 190, 0, 0, 0, 55, 0, 15];
    let mut reader = ByteCursor::new(&bytes);
    assert_eq!(reader.read_exact(4), Ok(vec![202, 254, 186, 190]));
    assert_eq!(reader.read_exact(4), Ok(vec![0, 0, 0, 55]));
    assert_eq!(reader.read_exact(3), Err(DecodeError::UnexpectedEnd));
    assert_eq!(reader.read_exact(2), Ok(vec![0, 15]));
}

#[test]
fn integers_are_read_big_endian() {
    let bytes = [0x7F, 0x12, 0x34, 0xDE, 0xAD, 0xBE, 0xEF, 0x00, 0x01, 0xFF, 0xFF];
    let mut cursor = ByteCursor::new(&bytes);
    assert_eq!(cursor.read_u8(), Ok(0x7F));
    assert_eq!(cursor.read_u16(), Ok(0x1234));
    assert_eq!(cursor.read_u32(), Ok(0xDEAD_BEEF));
    assert_eq!(cursor.read_u16(), Ok(1));
    assert_eq!(cursor.read_u16(), Ok(0xFFFF));
    assert_eq!(cursor.offset(), 11);
    assert_eq!(cursor.remaining(), 0);
}

#[test]
fn u32_takes_the_first_byte_as_the_highest() {
    let mut cursor = ByteCursor::new(&[0x01, 0x00, 0x00, 0x00]);
    assert_eq!(cursor.read_u32(), Ok(16_777_216));
    let mut cursor = ByteCursor::new(&[0x00, 0x01, 0x00, 0x00]);
    assert_eq!(cursor.read_u32(), Ok(65_536));
    let mut cursor = ByteCursor::new(&[0x01, 0x00]);
    assert_eq!(cursor.read_u16(), Ok(256));
}

#[test]
fn reads_advance_the_cursor() {
    let bytes = [1, 2, 3, 4, 5, 6, 7, 8, 9];
    let mut cursor = ByteCursor::new(&bytes);
    assert_eq!(cursor.offset(), 0);
    assert_eq!(cursor.remaining(), 9);
    cursor.read_u8().unwrap();
    assert_eq!(cursor.offset(), 1);
    cursor.read_u16().unwrap();
    assert_eq!(cursor.offset(), 3);
    cursor.read_u32().unwrap();
    assert_eq!(cursor.offset(), 7);
    assert_eq!(cursor.read_exact(2), Ok(vec![8, 9]));
    assert_eq!(cursor.offset(), 9);
    assert_eq!(cursor.remaining(), 0);
}

#[test]
fn short_reads_fail_and_leave_the_cursor() {
    let bytes = [0xAB, 0xCD, 0xEF];
    let mut cursor = ByteCursor::new(&bytes);
    assert_eq!(cursor.read_u32(), Err(DecodeError::UnexpectedEnd));
    assert_eq!(cursor.offset(), 0);
    assert_eq!(cursor.read_exact(4), Err(DecodeError::UnexpectedEnd));
    assert_eq!(cursor.offset(), 0);
    assert_eq!(cursor.read_u16(), Ok(0xABCD));
    assert_eq!(cursor.read_u16(), Err(DecodeError::UnexpectedEnd));
    assert_eq!(cursor.offset(), 2);
    assert_eq!(cursor.read_u8(), Ok(0xEF));
    assert_eq!(cursor.read_u8(), Err(DecodeError::UnexpectedEnd));
    assert_eq!(cursor.read_u16(), Err(DecodeError::UnexpectedEnd));
    assert_eq!(cursor.read_u32(), Err(DecodeError::UnexpectedEnd));
    assert_eq!(cursor.read_exact(1), Err(DecodeError::UnexpectedEnd));
    assert_eq!(cursor.offset(), 3);
}

#[test]
fn reading_nothing_always_succeeds() {
    let mut cursor = ByteCursor::new(&[]);
    assert_eq!(cursor.read_exact(0), Ok(vec![]));
    assert_eq!(cursor.offset(), 0);
    assert_eq!(cursor.read_u8(), Err(DecodeError::UnexpectedEnd));
    assert_eq!(cursor.read_exact(usize::MAX), Err(DecodeError::UnexpectedEnd));
}
