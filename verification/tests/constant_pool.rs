use classfile::{decode_constant_pool, decode_entry, lookup, ByteCursor, CpInfo, DecodeError, Info};

fn reserved() -> CpInfo {
    CpInfo { tag: 0, info: Info::Offset }
}

fn entry(bytes: &[u8]) -> Result<CpInfo, DecodeError> {
    let mut cursor = ByteCursor::new(bytes);
    decode_entry(&mut cursor)
}

#[test]
fn every_assigned_tag_has_its_payload() {
    assert_eq!(
        entry(&[1, 0, 3, 0x61, 0x62, 0x63]),
        Ok(CpInfo { tag: 1, info: Info::Utf8 { length: 3, bytes: vec![0x61, 0x62, 0x63] } })
    );
    assert_eq!(
        entry(&[3, 0x00, 0x00, 0x01, 0x02]),
        Ok(CpInfo { tag: 3, info: Info::Integer { value: 258 } })
    );
    assert_eq!(
        entry(&[4, 0x3F, 0x80, 0x00, 0x00]),
        Ok(CpInfo { tag: 4, info: Info::Float { bits: 0x3F80_0000 } })
    );
    assert_eq!(
        entry(&[5, 0, 0, 0, 1, 0, 0, 0, 2]),
        Ok(CpInfo { tag: 5, info: Info::Long { high_bytes: 1, low_bytes: 2 } })
    );
    assert_eq!(
        entry(&[6, 0x40, 0x09, 0x21, 0xFB, 0x54, 0x44, 0x2D, 0x18]),
        Ok(
            CpInfo {
                tag: 6,
                info: Info::Double { high_bytes: 0x4009_21FB, low_bytes: 0x5444_2D18 },
            }
        )
    );
    assert_eq!(
        entry(&[7, 0x01, 0x00]),
        Ok(CpInfo { tag: 7, info: Info::Class { name_index: 256 } })
    );
    assert_eq!(
        entry(&[8, 0x00, 0x09]),
        Ok(CpInfo { tag: 8, info: Info::String { string_index: 9 } })
    );
    assert_eq!(
        entry(&[9, 0, 1, 0, 2]),
        Ok(CpInfo { tag: 9, info: Info::Fieldref { class_index: 1, name_and_type_index: 2 } })
    );
    assert_eq!(
        entry(&[10, 0, 3, 0, 12]),
        Ok(CpInfo { tag: 10, info: Info::Methodref { class_index: 3, name_and_type_index: 12 } })
    );
    assert_eq!(
        entry(&[11, 0, 5, 0, 6]),
        Ok(
            CpInfo {
                tag: 11,
                info: Info::InterfaceMethodref { class_index: 5, name_and_type_index: 6 },
            }
        )
    );
    assert_eq!(
        entry(&[12, 0, 4, 0, 5]),
        Ok(CpInfo { tag: 12, info: Info::NameAndType { name_index: 4, descriptor_index: 5 } })
    );
}

#[test]
fn utf8_bytes_are_kept_as_they_are() {
    assert_eq!(
        entry(&[1, 0, 4, 0xC0, 0x80, 0xFF, 0xFE, 0x99]),
        Ok(CpInfo { tag: 1, info: Info::Utf8 { length: 4, bytes: vec![0xC0, 0x80, 0xFF, 0xFE] } })
    );
    assert_eq!(
        entry(&[1, 0, 0]),
        Ok(CpInfo { tag: 1, info: Info::Utf8 { length: 0, bytes: vec![] } })
    );
}

#[test]
fn entry_decoding_stops_behind_the_entry() {
    let bytes = [7, 0, 2, 8, 0, 3];
    let mut cursor = ByteCursor::new(&bytes);
    decode_entry(&mut cursor).unwrap();
    assert_eq!(cursor.offset(), 3);
    assert_eq!(
        decode_entry(&mut cursor),
        Ok(CpInfo { tag: 8, info: Info::String { string_index: 3 } })
    );
    assert_eq!(cursor.offset(), 6);
}

#[test]
fn unassigned_tags_are_refused() {
    for tag in [0u8, 2, 13, 14, 15, 16, 17, 18, 19, 20, 100, 255] {
        assert_eq!(
            entry(&[tag, 0, 0, 0, 0, 0, 0, 0, 0]),
            Err(DecodeError::UnsupportedConstantTag(tag, 0))
        );
    }
    let bytes = [7, 0, 1, 2, 0, 0];
    let mut cursor = ByteCursor::new(&bytes);
    decode_entry(&mut cursor).unwrap();
    assert_eq!(decode_entry(&mut cursor), Err(DecodeError::UnsupportedConstantTag(2, 3)));
}

#[test]
fn truncated_entries_end_unexpectedly() {
    assert_eq!(entry(&[]), Err(DecodeError::UnexpectedEnd));
    assert_eq!(entry(&[1]), Err(DecodeError::UnexpectedEnd));
    assert_eq!(entry(&[1, 0]), Err(DecodeError::UnexpectedEnd));
    assert_eq!(entry(&[1, 0, 2, 0x61]), Err(DecodeError::UnexpectedEnd));
    assert_eq!(entry(&[3, 0, 0, 0]), Err(DecodeError::UnexpectedEnd));
    assert_eq!(entry(&[5, 0, 0, 0, 0, 0, 0, 0]), Err(DecodeError::UnexpectedEnd));
    assert_eq!(entry(&[6, 0, 0, 0, 0]), Err(DecodeError::UnexpectedEnd));
    assert_eq!(entry(&[7, 0]), Err(DecodeError::UnexpectedEnd));
    assert_eq!(entry(&[10, 0, 1, 0]), Err(DecodeError::UnexpectedEnd));
    assert_eq!(entry(&[12, 0, 1]), Err(DecodeError::UnexpectedEnd));
}

#[test]
fn long_and_double_take_two_slots() {
    let bytes = [
        5, 0, 0, 0, 0, 0, 0, 0, 42, // slots 1 and 2
        1, 0, 1, 0x78, // slot 3
        6, 0, 0, 0, 0, 0, 0, 0, 0, // slots 4 and 5
        7, 0, 3, // slot 6
    ];
    let mut cursor = ByteCursor::new(&bytes);
    let pool = decode_constant_pool(&mut cursor, 7).unwrap();
    assert_eq!(cursor.remaining(), 0);
    assert_eq!(
        pool,
        vec![
            reserved(),
            CpInfo { tag: 5, info: Info::Long { high_bytes: 0, low_bytes: 42 } },
            reserved(),
            CpInfo { tag: 1, info: Info::Utf8 { length: 1, bytes: vec![0x78] } },
            CpInfo { tag: 6, info: Info::Double { high_bytes: 0, low_bytes: 0 } },
            reserved(),
            CpInfo { tag: 7, info: Info::Class { name_index: 3 } },
        ]
    );
    assert!(lookup(&pool, 1).is_ok());
    assert_eq!(lookup(&pool, 2), Err(DecodeError::InvalidConstantIndex));
    assert_eq!(lookup(&pool, 3), Ok(&pool[3]));
    assert!(lookup(&pool, 4).is_ok());
    assert_eq!(lookup(&pool, 5), Err(DecodeError::InvalidConstantIndex));
    assert_eq!(lookup(&pool, 6), Ok(&pool[6]));
}

#[test]
fn eight_byte_constant_in_the_last_slot() {
    let bytes = [7, 0, 1, 5, 0, 0, 0, 1, 0, 0, 0, 2, 0xAA];
    let mut cursor = ByteCursor::new(&bytes);
    let pool = decode_constant_pool(&mut cursor, 3).unwrap();
    assert_eq!(cursor.offset(), 12);
    assert_eq!(
        pool,
        vec![
            reserved(),
            CpInfo { tag: 7, info: Info::Class { name_index: 1 } },
            CpInfo { tag: 5, info: Info::Long { high_bytes: 1, low_bytes: 2 } },
        ]
    );
    assert_eq!(lookup(&pool, 3), Err(DecodeError::InvalidConstantIndex));
}

#[test]
fn pool_has_as_many_slots_as_declared() {
    let bytes = [7, 0, 1, 7, 0, 2, 7, 0, 3];
    for count in 1u16..=4 {
        let mut cursor = ByteCursor::new(&bytes);
        let pool = decode_constant_pool(&mut cursor, count).unwrap();
        assert_eq!(pool.len(), count as usize);
        assert_eq!(cursor.offset(), 3 * (count as usize - 1));
        assert_eq!(pool[0], reserved());
    }
    let mut cursor = ByteCursor::new(&bytes);
    assert_eq!(decode_constant_pool(&mut cursor, 5), Err(DecodeError::UnexpectedEnd));
}

#[test]
fn declared_count_zero_gives_the_reserved_slot_alone() {
    let bytes = [7, 0, 1];
    let mut cursor = ByteCursor::new(&bytes);
    assert_eq!(decode_constant_pool(&mut cursor, 0), Ok(vec![reserved()]));
    assert_eq!(cursor.offset(), 0);
    let mut cursor = ByteCursor::new(&bytes);
    assert_eq!(decode_constant_pool(&mut cursor, 1), Ok(vec![reserved()]));
    assert_eq!(cursor.offset(), 0);
}

#[test]
fn bad_entry_discards_the_pool() {
    let bytes = [7, 0, 1, 7, 0, 2, 2, 0, 3];
    let mut cursor = ByteCursor::new(&bytes);
    assert_eq!(
        decode_constant_pool(&mut cursor, 4),
        Err(DecodeError::UnsupportedConstantTag(2, 6))
    );
}

#[test]
fn index_zero_is_never_found() {
    let pool = vec![reserved(), CpInfo { tag: 7, info: Info::Class { name_index: 1 } }];
    assert_eq!(lookup(&pool, 0), Err(DecodeError::InvalidConstantIndex));
    let odd = vec![CpInfo { tag: 7, info: Info::Class { name_index: 1 } }];
    assert_eq!(lookup(&odd, 0), Err(DecodeError::InvalidConstantIndex));
    let empty: Vec<CpInfo> = vec![];
    assert_eq!(lookup(&empty, 0), Err(DecodeError::InvalidConstantIndex));
}

#[test]
fn index_beyond_the_pool_is_not_found() {
    let pool = vec![reserved(), CpInfo { tag: 7, info: Info::Class { name_index: 1 } }];
    assert_eq!(lookup(&pool, 1), Ok(&pool[1]));
    assert_eq!(lookup(&pool, 2), Err(DecodeError::InvalidConstantIndex));
    assert_eq!(lookup(&pool, 65535), Err(DecodeError::InvalidConstantIndex));
}

#[test]
fn clones_are_equal() {
    let utf8 = CpInfo { tag: 1, info: Info::Utf8 { length: 2, bytes: vec![0x6f, 0x6b] } };
    assert_eq!(utf8.clone(), utf8);
    let long = CpInfo { tag: 5, info: Info::Long { high_bytes: 7, low_bytes: 9 } };
    assert_eq!(long.clone(), long);
    assert_eq!(Info::Offset.clone(), Info::Offset);
    assert_eq!(
        Info::InterfaceMethodref { class_index: 1, name_and_type_index: 2 }.clone(),
        Info::InterfaceMethodref { class_index: 1, name_and_type_index: 2 }
    );
}
