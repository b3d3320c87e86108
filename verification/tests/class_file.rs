use classfile::{
    decode, AttributeInfo, ClassFile, CpInfo, DecodeError, ExceptionTable, Info, MemberInfo,
    MethodInfo,
};

/// The class file that `javac` writes for an empty class `Test` with a
/// `main` method that only computes on locals.
fn test_class_bytes() -> Vec<u8> {
    let mut b: Vec<u8> = vec![0xCA, 0xFE, 0xBA, 0xBE, 0x00, 0x00, 0x00, 0x37, 0x00, 0x0F];
    b.extend_from_slice(&[0x0A, 0x00, 0x03, 0x00, 0x0C]);
    b.extend_from_slice(&[0x07, 0x00, 0x0D]);
    b.extend_from_slice(&[0x07, 0x00, 0x0E]);
    b.extend_from_slice(&[0x01, 0x00, 0x06]);
    b.extend_from_slice(b"<init>");
    b.extend_from_slice(&[0x01, 0x00, 0x03]);
    b.extend_from_slice(b"()V");
    b.extend_from_slice(&[0x01, 0x00, 0x04]);
    b.extend_from_slice(b"Code");
    b.extend_from_slice(&[0x01, 0x00, 0x0F]);
    b.extend_from_slice(b"LineNumberTable");
    b.extend_from_slice(&[0x01, 0x00, 0x04]);
    b.extend_from_slice(b"main");
    b.extend_from_slice(&[0x01, 0x00, 0x16]);
    b.extend_from_slice(b"([Ljava/lang/String;)V");
    b.extend_from_slice(&[0x01, 0x00, 0x0A]);
    b.extend_from_slice(b"SourceFile");
    b.extend_from_slice(&[0x01, 0x00, 0x09]);
    b.extend_from_slice(b"Test.java");
    b.extend_from_slice(&[0x0C, 0x00, 0x04, 0x00, 0x05]);
    b.extend_from_slice(&[0x01, 0x00, 0x04]);
    b.extend_from_slice(b"Test");
    b.extend_from_slice(&[0x01, 0x00, 0x10]);
    b.extend_from_slice(b"java/lang/Object");
    // access flags, this class, super class, no interfaces, no fields
    b.extend_from_slice(&[0x00, 0x20, 0x00, 0x02, 0x00, 0x03, 0x00, 0x00, 0x00, 0x00]);
    // two methods
    b.extend_from_slice(&[0x00, 0x02]);
    b.extend_from_slice(&[0x00, 0x00, 0x00, 0x04, 0x00, 0x05, 0x00, 0x01]);
    b.extend_from_slice(&[0x00, 0x06, 0x00, 0x00, 0x00, 0x1D]);
    b.extend_from_slice(&init_code());
    b.extend_from_slice(&[0x00, 0x09, 0x00, 0x08, 0x00, 0x09, 0x00, 0x01]);
    b.extend_from_slice(&[0x00, 0x06, 0x00, 0x00, 0x00, 0x2D]);
    b.extend_from_slice(&main_code());
    // one class attribute: SourceFile
    b.extend_from_slice(&[0x00, 0x01, 0x00, 0x0A, 0x00, 0x00, 0x00, 0x02, 0x00, 0x0B]);
    b
}

fn init_code() -> Vec<u8> {
    vec![
        0x00, 0x01, 0x00, 0x01, 0x00, 0x00, 0x00, 0x05, 0x2A, 0xB7, 0x00, 0x01, 0xB1, 0x00, 0x00,
        0x00, 0x01, 0x00, 0x07, 0x00, 0x00, 0x00, 0x06, 0x00, 0x01, 0x00, 0x00, 0x00, 0x02,
    ]
}

fn main_code() -> Vec<u8> {
    vec![
        0x00, 0x02, 0x00, 0x04, 0x00, 0x00, 0x00, 0x09, 0x03, 0x3C, 0x06, 0x3D, 0x1B, 0x1C, 0x60,
        0x3E, 0xB1, 0x00, 0x00, 0x00, 0x01, 0x00, 0x07, 0x00, 0x00, 0x00, 0x12, 0x00, 0x04, 0x00,
        0x00, 0x00, 0x04, 0x00, 0x02, 0x00, 0x05, 0x00, 0x04, 0x00, 0x07, 0x00, 0x08, 0x00, 0x08,
    ]
}

fn test_class_pool() -> Vec<CpInfo> {
    vec![
        CpInfo { tag: 0, info: Info::Offset },
        CpInfo { tag: 10, info: Info::Methodref { class_index: 3, name_and_type_index: 12 } },
        CpInfo { tag: 7, info: Info::Class { name_index: 13 } },
        CpInfo { tag: 7, info: Info::Class { name_index: 14 } },
        CpInfo {
            tag: 1,
            info: Info::Utf8 { length: 6, bytes: vec![0x3c, 0x69, 0x6e, 0x69, 0x74, 0x3e] },
        },
        CpInfo { tag: 1, info: Info::Utf8 { length: 3, bytes: vec![0x28, 0x29, 0x56] } },
        CpInfo { tag: 1, info: Info::Utf8 { length: 4, bytes: vec![0x43, 0x6f, 0x64, 0x65] } },
        CpInfo {
            tag: 1,
            info: Info::Utf8 {
                length: 15,
                bytes: vec![
                    0x4c, 0x69, 0x6e, 0x65, 0x4e, 0x75, 0x6d, 0x62, 0x65, 0x72, 0x54, 0x61, 0x62,
                    0x6c, 0x65,
                ],
            },
        },
        CpInfo { tag: 1, info: Info::Utf8 { length: 4, bytes: vec![0x6d, 0x61, 0x69, 0x6e] } },
        CpInfo {
            tag: 1,
            info: Info::Utf8 {
                length: 0x16,
                bytes: vec![
                    0x28, 0x5b, 0x4c, 0x6a, 0x61, 0x76, 0x61, 0x2f, 0x6c, 0x61, 0x6e, 0x67, 0x2f,
                    0x53, 0x74, 0x72, 0x69, 0x6e, 0x67, 0x3b, 0x29, 0x56,
                ],
            },
        },
        CpInfo {
            tag: 1,
            info: Info::Utf8 {
                length: 0x0a,
                bytes: vec![0x53, 0x6f, 0x75, 0x72, 0x63, 0x65, 0x46, 0x69, 0x6c, 0x65],
            },
        },
        CpInfo {
            tag: 1,
            info: Info::Utf8 {
                length: 0x09,
                bytes: vec![0x54, 0x65, 0x73, 0x74, 0x2e, 0x6a, 0x61, 0x76, 0x61],
            },
        },
        CpInfo { tag: 12, info: Info::NameAndType { name_index: 4, descriptor_index: 5 } },
        CpInfo { tag: 1, info: Info::Utf8 { length: 4, bytes: vec![0x54, 0x65, 0x73, 0x74] } },
        CpInfo {
            tag: 1,
            info: Info::Utf8 {
                length: 0x10,
                bytes: vec![
                    0x6a, 0x61, 0x76, 0x61, 0x2f, 0x6c, 0x61, 0x6e, 0x67, 0x2f, 0x4f, 0x62, 0x6a,
                    0x65, 0x63, 0x74,
                ],
            },
        },
    ]
}

#[test]
fn test_read_from_class() {
    let cp_info_vec = test_class_pool();
    let class_file = ClassFile {
        magic: 3_405_691_582,
        minor_version: 0,
        major_version: 55,
        constant_pool_count: 15,
        cp_info: cp_info_vec.clone(),
        access_flag: 0x20,
        this_class: 0x02,
        super_class: 0x03,
        interfaces_count: 0,
        interfaces: vec![],
        fields_count: 0,
        fields: vec![],
        methods_count: 2,
        methods: vec![
            MethodInfo {
                access_flags: 0x00,
                name_index: 0x0004,
                descriptor_index: 0x0005,
                attributes_count: 0x0001,
                attributes: vec![
                    AttributeInfo::new(&cp_info_vec, 0x0006, 0x0000001D, init_code()).unwrap(),
                ],
            },
            MethodInfo {
                access_flags: 0x09,
                name_index: 0x08,
                descriptor_index: 0x09,
                attributes_count: 0x01,
                attributes: vec![
                    AttributeInfo::new(&cp_info_vec, 0x06, 0x0000002D, main_code()).unwrap(),
                ],
            },
        ],
        attributes_count: 1,
        attributes: vec![
            AttributeInfo::new(&cp_info_vec, 0x000A, 0x00000002, vec![0x00, 0x0B]).unwrap(),
        ],
    };
    assert_eq!(decode(&test_class_bytes()).unwrap(), class_file);
}

#[test]
fn decodes_every_field_of_the_test_class() {
    let class_file = decode(&test_class_bytes()).unwrap();
    assert_eq!(class_file.magic, 0xCAFEBABE);
    assert_eq!(class_file.major_version, 55);
    assert_eq!(class_file.cp_info, test_class_pool());
    assert_eq!(class_file.methods.len(), 2);
    let expected_init = AttributeInfo::Code {
        attribute_name_index: 6,
        attribute_length: 29,
        max_stack: 1,
        max_locals: 1,
        code_length: 5,
        code: vec![0x2A, 0xB7, 0x00, 0x01, 0xB1],
        exception_table_length: 0,
        exception_table: vec![],
        attributes_count: 1,
        attributes: vec![
            AttributeInfo::Other {
                attribute_name_index: 7,
                attribute_length: 6,
                info: vec![0x00, 0x01, 0x00, 0x00, 0x00, 0x02],
            },
        ],
    };
    assert_eq!(class_file.methods[0].attributes, vec![expected_init]);
    assert_eq!(
        class_file.attributes,
        vec![
            AttributeInfo::Other {
                attribute_name_index: 10,
                attribute_length: 2,
                info: vec![0x00, 0x0B],
            },
        ]
    );
}

#[test]
fn decoding_twice_gives_equal_class_files() {
    let first = test_class_bytes();
    let second = first.clone();
    assert_eq!(decode(&first), decode(&second));
}

#[test]
fn every_truncation_of_the_test_class_is_an_unexpected_end() {
    let bytes = test_class_bytes();
    for cut in 0..bytes.len() {
        assert_eq!(decode(&bytes[..cut]), Err(DecodeError::UnexpectedEnd), "cut at {}", cut);
    }
}

#[test]
fn bytes_behind_the_class_file_are_ignored() {
    let mut bytes = test_class_bytes();
    let expected = decode(&bytes).unwrap();
    bytes.extend_from_slice(&[0xFF, 0x02, 0x00]);
    assert_eq!(decode(&bytes).unwrap(), expected);
}

/// A class file with the given pool count and pool bytes and nothing else:
/// no interfaces, fields, methods or attributes.
fn bare_class(pool_count: u16, pool: &[u8]) -> Vec<u8> {
    let mut b = vec![0xCA, 0xFE, 0xBA, 0xBE, 0x00, 0x00, 0x00, 0x37];
    b.extend_from_slice(&pool_count.to_be_bytes());
    b.extend_from_slice(pool);
    b.extend_from_slice(&[0x00, 0x21, 0x00, 0x00, 0x00, 0x00]);
    b.extend_from_slice(&[0x00, 0x00, 0x00, 0x00, 0x00, 0x00, 0x00, 0x00]);
    b
}

#[test]
fn pool_of_one_utf8_entry() {
    let bytes = bare_class(2, &[0x01, 0x00, 0x04, 0x6d, 0x61, 0x69, 0x6e]);
    let class_file = decode(&bytes).unwrap();
    assert_eq!(class_file.magic, 0xCAFEBABE);
    assert_eq!(class_file.minor_version, 0);
    assert_eq!(class_file.major_version, 55);
    assert_eq!(class_file.constant_pool_count, 2);
    assert_eq!(class_file.cp_info.len(), 2);
    assert_eq!(class_file.cp_info[0], CpInfo { tag: 0, info: Info::Offset });
    assert_eq!(
        class_file.cp_info[1],
        CpInfo { tag: 1, info: Info::Utf8 { length: 4, bytes: vec![0x6d, 0x61, 0x69, 0x6e] } }
    );
    assert_eq!(class_file.access_flag, 0x21);
    assert!(class_file.fields.is_empty());
    assert!(class_file.methods.is_empty());
    assert!(class_file.attributes.is_empty());
}

#[test]
fn unassigned_tag_is_refused_with_tag_and_offset() {
    let bytes = bare_class(2, &[0x02, 0x00, 0x04, 0x6d, 0x61, 0x69, 0x6e]);
    assert_eq!(decode(&bytes), Err(DecodeError::UnsupportedConstantTag(2, 10)));
    let bytes = bare_class(3, &[0x07, 0x00, 0x01, 0x0D, 0x00]);
    assert_eq!(decode(&bytes), Err(DecodeError::UnsupportedConstantTag(13, 13)));
}

#[test]
fn wrong_sentinel_is_bad_magic() {
    let mut bytes = test_class_bytes();
    bytes[3] = 0xBF;
    assert_eq!(decode(&bytes), Err(DecodeError::BadMagic));
    assert_eq!(decode(&[0x00, 0x00, 0x00, 0x00]), Err(DecodeError::BadMagic));
    assert_eq!(decode(&[0xCA, 0xFE, 0xBA]), Err(DecodeError::UnexpectedEnd));
    assert_eq!(decode(&[]), Err(DecodeError::UnexpectedEnd));
}

#[test]
fn method_with_a_plain_code_attribute() {
    let mut bytes = vec![0xCA, 0xFE, 0xBA, 0xBE, 0x00, 0x00, 0x00, 0x37, 0x00, 0x02];
    bytes.extend_from_slice(&[0x01, 0x00, 0x04]);
    bytes.extend_from_slice(b"Code");
    bytes.extend_from_slice(&[0x00, 0x01, 0x00, 0x00, 0x00, 0x00, 0x00, 0x00, 0x00, 0x00]);
    // one method with one attribute
    bytes.extend_from_slice(&[0x00, 0x01, 0x00, 0x09, 0x00, 0x01, 0x00, 0x01, 0x00, 0x01]);
    bytes.extend_from_slice(&[0x00, 0x01, 0x00, 0x00, 0x00, 0x0F]);
    bytes.extend_from_slice(&[0x00, 0x03, 0x00, 0x02, 0x00, 0x00, 0x00, 0x03]);
    bytes.extend_from_slice(&[0x04, 0x3C, 0xB1]);
    bytes.extend_from_slice(&[0x00, 0x00, 0x00, 0x00]);
    bytes.extend_from_slice(&[0x00, 0x00]);
    let class_file = decode(&bytes).unwrap();
    assert_eq!(class_file.methods_count, 1);
    assert_eq!(
        class_file.methods,
        vec![
            MethodInfo {
                access_flags: 9,
                name_index: 1,
                descriptor_index: 1,
                attributes_count: 1,
                attributes: vec![
                    AttributeInfo::Code {
                        attribute_name_index: 1,
                        attribute_length: 15,
                        max_stack: 3,
                        max_locals: 2,
                        code_length: 3,
                        code: vec![0x04, 0x3C, 0xB1],
                        exception_table_length: 0,
                        exception_table: Vec::<ExceptionTable>::new(),
                        attributes_count: 0,
                        attributes: vec![],
                    },
                ],
            },
        ]
    );
}

#[test]
fn interfaces_and_fields_are_read_in_order() {
    let mut bytes = vec![0xCA, 0xFE, 0xBA, 0xBE, 0x00, 0x03, 0x00, 0x34, 0x00, 0x02];
    bytes.extend_from_slice(&[0x01, 0x00, 0x01, 0x78]);
    bytes.extend_from_slice(&[0x06, 0x01, 0x00, 0x05, 0x00, 0x06]);
    bytes.extend_from_slice(&[0x00, 0x02, 0x01, 0x02, 0xFF, 0xFE]);
    // one field with one raw attribute
    bytes.extend_from_slice(&[0x00, 0x01, 0x00, 0x02, 0x00, 0x01, 0x00, 0x01, 0x00, 0x01]);
    bytes.extend_from_slice(&[0x00, 0x01, 0x00, 0x00, 0x00, 0x03, 0x0A, 0x0B, 0x0C]);
    bytes.extend_from_slice(&[0x00, 0x00, 0x00, 0x00]);
    let class_file = decode(&bytes).unwrap();
    assert_eq!(class_file.minor_version, 3);
    assert_eq!(class_file.major_version, 52);
    assert_eq!(class_file.access_flag, 0x0601);
    assert_eq!(class_file.this_class, 5);
    assert_eq!(class_file.super_class, 6);
    assert_eq!(class_file.interfaces_count, 2);
    assert_eq!(class_file.interfaces, vec![0x0102, 0xFFFE]);
    assert_eq!(class_file.fields_count, 1);
    assert_eq!(class_file.fields[0].access_flags, 2);
    assert_eq!(
        class_file.fields[0].attributes,
        vec![
            AttributeInfo::Other {
                attribute_name_index: 1,
                attribute_length: 3,
                info: vec![0x0A, 0x0B, 0x0C],
            },
        ]
    );
    assert_eq!(class_file.methods_count, 0);
    assert_eq!(class_file.attributes_count, 0);
}

#[test]
fn attribute_error_inside_a_member_ends_the_decoding() {
    let mut bytes = vec![0xCA, 0xFE, 0xBA, 0xBE, 0x00, 0x00, 0x00, 0x37, 0x00, 0x02];
    bytes.extend_from_slice(&[0x07, 0x00, 0x01]);
    bytes.extend_from_slice(&[0x00, 0x01, 0x00, 0x00, 0x00, 0x00, 0x00, 0x00]);
    // one field whose attribute is named by a Class entry
    bytes.extend_from_slice(&[0x00, 0x01, 0x00, 0x02, 0x00, 0x01, 0x00, 0x01, 0x00, 0x01]);
    bytes.extend_from_slice(&[0x00, 0x01, 0x00, 0x00, 0x00, 0x00]);
    bytes.extend_from_slice(&[0x00, 0x00, 0x00, 0x00]);
    assert_eq!(decode(&bytes), Err(DecodeError::InvalidAttributeName));
    // the same attribute named by index 0
    bytes[31] = 0x00;
    bytes[32] = 0x00;
    assert_eq!(decode(&bytes), Err(DecodeError::InvalidConstantIndex));
}

fn put_u16(out: &mut Vec<u8>, value: u16) {
    out.extend_from_slice(&value.to_be_bytes());
}

fn put_u32(out: &mut Vec<u8>, value: u32) {
    out.extend_from_slice(&value.to_be_bytes());
}

fn put_entry(out: &mut Vec<u8>, entry: &CpInfo) {
    if entry.info == Info::Offset {
        return;
    }
    out.push(entry.tag);
    match &entry.info {
        Info::Offset => {}
        Info::Utf8 { length, bytes } => {
            put_u16(out, *length);
            out.extend_from_slice(bytes);
        }
        Info::Integer { value } => put_u32(out, *value),
        Info::Float { bits } => put_u32(out, *bits),
        Info::Long { high_bytes, low_bytes } | Info::Double { high_bytes, low_bytes } => {
            put_u32(out, *high_bytes);
            put_u32(out, *low_bytes);
        }
        Info::Class { name_index } => put_u16(out, *name_index),
        Info::String { string_index } => put_u16(out, *string_index),
        Info::Fieldref { class_index, name_and_type_index }
        | Info::Methodref { class_index, name_and_type_index }
        | Info::InterfaceMethodref { class_index, name_and_type_index } => {
            put_u16(out, *class_index);
            put_u16(out, *name_and_type_index);
        }
        Info::NameAndType { name_index, descriptor_index } => {
            put_u16(out, *name_index);
            put_u16(out, *descriptor_index);
        }
    }
}

fn put_attribute(out: &mut Vec<u8>, attribute: &AttributeInfo) {
    match attribute {
        AttributeInfo::Other { attribute_name_index, attribute_length, info } => {
            put_u16(out, *attribute_name_index);
            put_u32(out, *attribute_length);
            out.extend_from_slice(info);
        }
        AttributeInfo::Code {
            attribute_name_index,
            attribute_length,
            max_stack,
            max_locals,
            code_length,
            code,
            exception_table_length,
            exception_table,
            attributes_count,
            attributes,
        } => {
            put_u16(out, *attribute_name_index);
            put_u32(out, *attribute_length);
            put_u16(out, *max_stack);
            put_u16(out, *max_locals);
            put_u32(out, *code_length);
            out.extend_from_slice(code);
            put_u16(out, *exception_table_length);
            for row in exception_table {
                put_u16(out, row.start_pc);
                put_u16(out, row.end_pc);
                put_u16(out, row.handler_pc);
                put_u16(out, row.catch_type);
            }
            put_u16(out, *attributes_count);
            for nested in attributes {
                put_attribute(out, nested);
            }
        }
    }
}

fn put_members(out: &mut Vec<u8>, count: u16, members: &[MemberInfo]) {
    put_u16(out, count);
    for member in members {
        put_u16(out, member.access_flags);
        put_u16(out, member.name_index);
        put_u16(out, member.descriptor_index);
        put_u16(out, member.attributes_count);
        for attribute in &member.attributes {
            put_attribute(out, attribute);
        }
    }
}

/// The bytes that a decoded class file stands for.
fn encode(class_file: &ClassFile) -> Vec<u8> {
    let mut out = Vec::new();
    put_u32(&mut out, class_file.magic);
    put_u16(&mut out, class_file.minor_version);
    put_u16(&mut out, class_file.major_version);
    put_u16(&mut out, class_file.constant_pool_count);
    for entry in &class_file.cp_info {
        put_entry(&mut out, entry);
    }
    put_u16(&mut out, class_file.access_flag);
    put_u16(&mut out, class_file.this_class);
    put_u16(&mut out, class_file.super_class);
    put_u16(&mut out, class_file.interfaces_count);
    for index in &class_file.interfaces {
        put_u16(&mut out, *index);
    }
    put_members(&mut out, class_file.fields_count, &class_file.fields);
    put_members(&mut out, class_file.methods_count, &class_file.methods);
    put_u16(&mut out, class_file.attributes_count);
    for attribute in &class_file.attributes {
        put_attribute(&mut out, attribute);
    }
    out
}

#[test]
fn decoded_class_file_encodes_to_its_bytes() {
    let bytes = test_class_bytes();
    assert_eq!(encode(&decode(&bytes).unwrap()), bytes);

    let mut longer = bytes.clone();
    longer.extend_from_slice(&[1, 2, 3]);
    assert_eq!(encode(&decode(&longer).unwrap()), bytes);

    let mut wide = vec![0xCA, 0xFE, 0xBA, 0xBE, 0x00, 0x00, 0x00, 0x37, 0x00, 0x05];
    wide.extend_from_slice(&[5, 0, 0, 0, 1, 0, 0, 0, 2]);
    wide.extend_from_slice(&[1, 0, 2, 0x68, 0x69]);
    wide.extend_from_slice(&[6, 9, 9, 9, 9, 8, 8, 8, 8]);
    wide.extend_from_slice(&[0x00, 0x01, 0x00, 0x03, 0x00, 0x00, 0x00, 0x02]);
    wide.extend_from_slice(&[0x00, 0x07, 0x00, 0x08]);
    wide.extend_from_slice(&[0x00, 0x00, 0x00, 0x00]);
    wide.extend_from_slice(&[0x00, 0x01, 0x00, 0x03, 0x00, 0x00, 0x00, 0x01, 0xAB]);
    let class_file = decode(&wide).unwrap();
    assert_eq!(class_file.cp_info.len(), 5);
    assert_eq!(class_file.cp_info[2], CpInfo { tag: 0, info: Info::Offset });
    assert_eq!(class_file.interfaces, vec![7, 8]);
    assert_eq!(encode(&class_file), wide);
}

#[test]
fn encoding_of_a_valid_class_file_decodes_to_it() {
    let class_file = decode(&test_class_bytes()).unwrap();
    assert_eq!(decode(&encode(&class_file)).unwrap(), class_file);
}
