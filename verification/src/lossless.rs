//! Decoding loses nothing: what was parsed encodes to the very bytes it
//! was parsed from.

use vstd::prelude::*;

use crate::attribute::{
    code_name, exception_row, interpret_attribute, lemma_interpret_attribute_wf,
    lemma_parse_attribute_wf, lemma_parse_attributes_wf, parse_attribute, parse_attributes,
    parse_code, utf8_at,
};
use crate::bytes::{has_bytes, lemma_u16_bytes_at, lemma_u32_bytes_at, u16_at, u32_at};
use crate::class_file::{
    lemma_parse_attribute_table_wf, lemma_parse_class_body_wf, lemma_parse_member_table_wf,
    parse_attribute_table, parse_class, parse_class_body, parse_member_table,
};
use crate::constant_pool::{
    lemma_parse_entries_wf, lemma_parse_entry_wf, lemma_parse_pool_wf, parse_entries, parse_entry,
    parse_pool, pool_slots, reserved_slot, CpInfoView, InfoView,
};
use crate::encoding::{
    encode_attribute, encode_attribute_table, encode_attributes, encode_body, encode_class,
    encode_entries, encode_entry, encode_header, encode_indices, encode_linkage, encode_member,
    encode_member_table, encode_members, encode_payload, encode_row, encode_rows,
    lemma_encode_attributes_prepend, lemma_encode_entries_prepend, lemma_encode_entries_reserved,
    lemma_subrange_join,
};
use crate::member::{lemma_parse_member_wf, lemma_parse_members_wf, parse_member, parse_members};

verus! {

/// An entry that was parsed encodes to the bytes it was parsed from.
pub proof fn lemma_encode_parsed_entry(s: Seq<u8>, pos: int)
    requires
        parse_entry(s, pos) is Ok,
    ensures
        encode_entry(parse_entry(s, pos)->Ok_0.0) == s.subrange(
            pos,
            parse_entry(s, pos)->Ok_0.1,
        ),
{
    let (entry, end) = parse_entry(s, pos)->Ok_0;
    lemma_parse_entry_wf(s, pos);
    let body = pos + 1;
    match entry.info {
        InfoView::Offset => {},
        InfoView::Utf8 { .. } => {
            lemma_u16_bytes_at(s, body);
        },
        InfoView::Integer { .. } | InfoView::Float { .. } => {
            lemma_u32_bytes_at(s, body);
        },
        InfoView::Long { .. } | InfoView::Double { .. } => {
            lemma_u32_bytes_at(s, body);
            lemma_u32_bytes_at(s, body + 4);
        },
        InfoView::Class { .. } | InfoView::String { .. } => {
            lemma_u16_bytes_at(s, body);
        },
        _ => {
            lemma_u16_bytes_at(s, body);
            lemma_u16_bytes_at(s, body + 2);
        },
    }
    assert(encode_entry(entry) =~= s.subrange(pos, end));
}

/// Slots that were parsed encode to the bytes they were parsed from.
pub proof fn lemma_encode_parsed_entries(s: Seq<u8>, pos: int, slots: nat)
    requires
        parse_entries(s, pos, slots) is Ok,
        0 <= pos <= s.len(),
    ensures
        encode_entries(parse_entries(s, pos, slots)->Ok_0.0) == s.subrange(
            pos,
            parse_entries(s, pos, slots)->Ok_0.1,
        ),
    decreases slots,
{
    let (entries, end) = parse_entries(s, pos, slots)->Ok_0;
    if slots == 0 {
        assert(s.subrange(pos, pos) =~= Seq::<u8>::empty());
    } else {
        let (entry, next) = parse_entry(s, pos)->Ok_0;
        let wide = entry.info.is_wide() && slots >= 2;
        let left = if wide {
            (slots - 2) as nat
        } else {
            (slots - 1) as nat
        };
        let (rest, rest_end) = parse_entries(s, next, left)->Ok_0;
        assert(rest_end == end);
        assert(0 <= pos <= next <= end <= s.len()) by {
            lemma_parse_entry_wf(s, pos);
            lemma_parse_entries_wf(s, next, left);
        }
        assert(encode_entry(entry) == s.subrange(pos, next)) by {
            lemma_encode_parsed_entry(s, pos);
        }
        assert(encode_entries(rest) == s.subrange(next, end)) by {
            lemma_parse_entry_wf(s, pos);
            lemma_encode_parsed_entries(s, next, left);
        }
        assert(encode_entries(entries) == encode_entry(entry) + encode_entries(rest)) by {
            if wide {
                lemma_encode_entries_reserved(entry, rest);
            } else {
                lemma_encode_entries_prepend(entry, rest);
            }
        }
        lemma_subrange_join(s, pos, next, end);
    }
}

/// A pool that was parsed encodes to the bytes it was parsed from.
pub proof fn lemma_encode_parsed_pool(s: Seq<u8>, pos: int, count: u16)
    requires
        parse_pool(s, pos, count) is Ok,
        0 <= pos <= s.len(),
    ensures
        encode_entries(parse_pool(s, pos, count)->Ok_0.0) == s.subrange(
            pos,
            parse_pool(s, pos, count)->Ok_0.1,
        ),
{
    let left = (pool_slots(count) - 1) as nat;
    lemma_encode_parsed_entries(s, pos, left);
    let entries = parse_entries(s, pos, left)->Ok_0.0;
    lemma_encode_entries_reserved(reserved_slot(), entries);
}

/// Rows that were read from `count` times eight bytes encode to those
/// bytes.
pub proof fn lemma_encode_parsed_rows(s: Seq<u8>, pos: int, count: nat)
    requires
        has_bytes(s, pos, 8 * (count as int)),
    ensures
        encode_rows(Seq::new(count, |i: int| exception_row(s, pos + 8 * i))) == s.subrange(
            pos,
            pos + 8 * count,
        ),
    decreases count,
{
    let rows = Seq::new(count, |i: int| exception_row(s, pos + 8 * i));
    if count == 0 {
        assert(s.subrange(pos, pos) =~= Seq::<u8>::empty());
    } else {
        let before = (count - 1) as nat;
        let at = pos + 8 * before;
        lemma_encode_parsed_rows(s, pos, before);
        assert(rows.drop_last() =~= Seq::new(before, |i: int| exception_row(s, pos + 8 * i)));
        assert(encode_row(rows.last()) == s.subrange(at, at + 8)) by {
            lemma_u16_bytes_at(s, at);
            lemma_u16_bytes_at(s, at + 2);
            lemma_u16_bytes_at(s, at + 4);
            lemma_u16_bytes_at(s, at + 6);
            assert(s.subrange(at, at + 2) + s.subrange(at + 2, at + 4) + s.subrange(
                at + 4,
                at + 6,
            ) + s.subrange(at + 6, at + 8) =~= s.subrange(at, at + 8));
        }
        lemma_subrange_join(s, pos, at, at + 8);
    }
}

/// The payload of an attribute that was given its decoded form encodes to
/// the payload it was made from.
pub proof fn lemma_encode_interpreted_attribute(
    pool: Seq<CpInfoView>,
    attribute_name_index: u16,
    attribute_length: u32,
    info: Seq<u8>,
    depth: nat,
)
    requires
        interpret_attribute(pool, attribute_name_index, attribute_length, info, depth) is Ok,
    ensures
        encode_payload(
            interpret_attribute(pool, attribute_name_index, attribute_length, info, depth)->Ok_0,
        ) == info,
    decreases info.len(), 3nat, 0nat,
{
    if utf8_at(pool, attribute_name_index) == Some(code_name()) {
        lemma_encode_parsed_code(pool, attribute_name_index, attribute_length, info, depth);
    }
}

/// The payload of a `Code` attribute that was taken apart encodes to the
/// payload it was made from.
pub proof fn lemma_encode_parsed_code(
    pool: Seq<CpInfoView>,
    attribute_name_index: u16,
    attribute_length: u32,
    info: Seq<u8>,
    depth: nat,
)
    requires
        parse_code(pool, attribute_name_index, attribute_length, info, depth) is Ok,
    ensures
        encode_payload(
            parse_code(pool, attribute_name_index, attribute_length, info, depth)->Ok_0,
        ) == info,
    decreases info.len(), 2nat, 0nat,
{
    let code_length = u32_at(info, 4);
    let rows_len_at = 8 + code_length;
    let exception_table_length = u16_at(info, rows_len_at);
    let rows_at = rows_len_at + 2;
    let count_at = rows_at + 8 * exception_table_length;
    let attributes_count = u16_at(info, count_at);
    let attributes_at = count_at + 2;
    let end = info.len() as int;
    let (attributes, _) = parse_attributes(
        pool,
        info,
        attributes_at,
        attributes_count as nat,
        depth + 1,
    )->Ok_0;
    let rows = Seq::new(
        exception_table_length as nat,
        |i: int| exception_row(info, rows_at + 8 * i),
    );
    assert(encode_attributes(attributes) == info.subrange(attributes_at, end)) by {
        lemma_encode_parsed_attributes(
            pool,
            info,
            attributes_at,
            attributes_count as nat,
            depth + 1,
        );
    }
    assert(encode_rows(rows) == info.subrange(rows_at, count_at)) by {
        lemma_encode_parsed_rows(info, rows_at, exception_table_length as nat);
    }
    lemma_u16_bytes_at(info, 0);
    lemma_u16_bytes_at(info, 2);
    lemma_u32_bytes_at(info, 4);
    lemma_u16_bytes_at(info, rows_len_at);
    lemma_u16_bytes_at(info, count_at);
    let payload = info.subrange(0, 2) + info.subrange(2, 4) + info.subrange(4, 8) + info.subrange(
        8,
        rows_len_at,
    ) + info.subrange(rows_len_at, rows_at) + info.subrange(rows_at, count_at) + info.subrange(
        count_at,
        attributes_at,
    ) + info.subrange(attributes_at, end);
    assert(payload =~= info);
}

/// An attribute that was parsed encodes to the bytes it was parsed from.
pub proof fn lemma_encode_parsed_attribute(
    pool: Seq<CpInfoView>,
    s: Seq<u8>,
    pos: int,
    depth: nat,
)
    requires
        parse_attribute(pool, s, pos, depth) is Ok,
    ensures
        encode_attribute(parse_attribute(pool, s, pos, depth)->Ok_0.0) == s.subrange(
            pos,
            parse_attribute(pool, s, pos, depth)->Ok_0.1,
        ),
    decreases s.len(), 0nat, 0nat,
{
    let attribute_name_index = u16_at(s, pos);
    let attribute_length = u32_at(s, pos + 2);
    let end = pos + 6 + attribute_length;
    let info = s.subrange(pos + 6, end);
    let attribute = parse_attribute(pool, s, pos, depth)->Ok_0.0;
    assert(attribute.attribute_name_index() == attribute_name_index
        && attribute.attribute_length() == attribute_length) by {
        lemma_interpret_attribute_wf(pool, attribute_name_index, attribute_length, info, depth);
    }
    assert(encode_payload(attribute) == info) by {
        lemma_encode_interpreted_attribute(
            pool,
            attribute_name_index,
            attribute_length,
            info,
            depth,
        );
    }
    lemma_u16_bytes_at(s, pos);
    lemma_u32_bytes_at(s, pos + 2);
    lemma_subrange_join(s, pos, pos + 2, pos + 6);
    lemma_subrange_join(s, pos, pos + 6, end);
}

/// Attributes that were parsed encode to the bytes they were parsed from.
pub proof fn lemma_encode_parsed_attributes(
    pool: Seq<CpInfoView>,
    s: Seq<u8>,
    pos: int,
    count: nat,
    depth: nat,
)
    requires
        parse_attributes(pool, s, pos, count, depth) is Ok,
        0 <= pos <= s.len(),
    ensures
        encode_attributes(parse_attributes(pool, s, pos, count, depth)->Ok_0.0) == s.subrange(
            pos,
            parse_attributes(pool, s, pos, count, depth)->Ok_0.1,
        ),
    decreases s.len(), 1nat, count,
{
    let (attributes, end) = parse_attributes(pool, s, pos, count, depth)->Ok_0;
    if count == 0 {
        assert(s.subrange(pos, pos) =~= Seq::<u8>::empty());
    } else {
        let (first, next) = parse_attribute(pool, s, pos, depth)->Ok_0;
        let rest = parse_attributes(pool, s, next, (count - 1) as nat, depth)->Ok_0.0;
        assert(0 <= pos <= next <= end <= s.len()) by {
            lemma_parse_attribute_wf(pool, s, pos, depth);
            lemma_parse_attributes_wf(pool, s, next, (count - 1) as nat, depth);
        }
        assert(encode_attribute(first) == s.subrange(pos, next)) by {
            lemma_encode_parsed_attribute(pool, s, pos, depth);
        }
        assert(encode_attributes(rest) == s.subrange(next, end)) by {
            lemma_encode_parsed_attributes(pool, s, next, (count - 1) as nat, depth);
        }
        lemma_encode_attributes_prepend(first, rest);
        lemma_subrange_join(s, pos, next, end);
    }
}

/// A member that was parsed encodes to the bytes it was parsed from.
pub proof fn lemma_encode_parsed_member(pool: Seq<CpInfoView>, s: Seq<u8>, pos: int)
    requires
        parse_member(pool, s, pos) is Ok,
    ensures
        encode_member(parse_member(pool, s, pos)->Ok_0.0) == s.subrange(
            pos,
            parse_member(pool, s, pos)->Ok_0.1,
        ),
{
    let (member, end) = parse_member(pool, s, pos)->Ok_0;
    let count = u16_at(s, pos + 6) as nat;
    lemma_parse_attributes_wf(pool, s, pos + 8, count, 0);
    assert(encode_attributes(member.attributes) == s.subrange(pos + 8, end)) by {
        lemma_encode_parsed_attributes(pool, s, pos + 8, count, 0);
    }
    lemma_u16_bytes_at(s, pos);
    lemma_u16_bytes_at(s, pos + 2);
    lemma_u16_bytes_at(s, pos + 4);
    lemma_u16_bytes_at(s, pos + 6);
    assert(s.subrange(pos, pos + 2) + s.subrange(pos + 2, pos + 4) + s.subrange(pos + 4, pos + 6)
        + s.subrange(pos + 6, pos + 8) + s.subrange(pos + 8, end) =~= s.subrange(pos, end));
}

/// Members that were parsed encode to the bytes they were parsed from.
pub proof fn lemma_encode_parsed_members(pool: Seq<CpInfoView>, s: Seq<u8>, pos: int, count: nat)
    requires
        parse_members(pool, s, pos, count) is Ok,
        0 <= pos <= s.len(),
    ensures
        encode_members(parse_members(pool, s, pos, count)->Ok_0.0) == s.subrange(
            pos,
            parse_members(pool, s, pos, count)->Ok_0.1,
        ),
    decreases count,
{
    let (members, end) = parse_members(pool, s, pos, count)->Ok_0;
    if count == 0 {
        assert(s.subrange(pos, pos) =~= Seq::<u8>::empty());
    } else {
        let (first, next) = parse_member(pool, s, pos)->Ok_0;
        let rest = parse_members(pool, s, next, (count - 1) as nat)->Ok_0.0;
        assert(0 <= pos <= next <= end <= s.len()) by {
            lemma_parse_member_wf(pool, s, pos);
            lemma_parse_members_wf(pool, s, next, (count - 1) as nat);
        }
        assert(encode_member(first) == s.subrange(pos, next)) by {
            lemma_encode_parsed_member(pool, s, pos);
        }
        assert(encode_members(rest) == s.subrange(next, end)) by {
            lemma_encode_parsed_members(pool, s, next, (count - 1) as nat);
        }
        assert(members.skip(1) =~= rest);
        lemma_subrange_join(s, pos, next, end);
    }
}

/// Indices that were read from `count` times two bytes encode to those
/// bytes.
pub proof fn lemma_encode_parsed_indices(s: Seq<u8>, pos: int, count: nat)
    requires
        has_bytes(s, pos, 2 * (count as int)),
    ensures
        encode_indices(Seq::new(count, |i: int| u16_at(s, pos + 2 * i))) == s.subrange(
            pos,
            pos + 2 * count,
        ),
    decreases count,
{
    let indices = Seq::new(count, |i: int| u16_at(s, pos + 2 * i));
    if count == 0 {
        assert(s.subrange(pos, pos) =~= Seq::<u8>::empty());
    } else {
        let before = (count - 1) as nat;
        let at = pos + 2 * before;
        lemma_encode_parsed_indices(s, pos, before);
        assert(indices.drop_last() =~= Seq::new(before, |i: int| u16_at(s, pos + 2 * i)));
        lemma_u16_bytes_at(s, at);
        lemma_subrange_join(s, pos, at, at + 2);
    }
}

/// A member list that was parsed encodes to the bytes it was parsed from.
pub proof fn lemma_encode_parsed_member_table(pool: Seq<CpInfoView>, s: Seq<u8>, pos: int)
    requires
        parse_member_table(pool, s, pos) is Ok,
    ensures
        encode_member_table(u16_at(s, pos), parse_member_table(pool, s, pos)->Ok_0.0)
            == s.subrange(pos, parse_member_table(pool, s, pos)->Ok_0.1),
{
    let end = parse_member_table(pool, s, pos)->Ok_0.1;
    lemma_parse_member_table_wf(pool, s, pos);
    lemma_encode_parsed_members(pool, s, pos + 2, u16_at(s, pos) as nat);
    lemma_u16_bytes_at(s, pos);
    lemma_subrange_join(s, pos, pos + 2, end);
}

/// An attribute list that was parsed encodes to the bytes it was parsed
/// from.
pub proof fn lemma_encode_parsed_attribute_table(pool: Seq<CpInfoView>, s: Seq<u8>, pos: int)
    requires
        parse_attribute_table(pool, s, pos) is Ok,
    ensures
        encode_attribute_table(u16_at(s, pos), parse_attribute_table(pool, s, pos)->Ok_0.0)
            == s.subrange(pos, parse_attribute_table(pool, s, pos)->Ok_0.1),
{
    let end = parse_attribute_table(pool, s, pos)->Ok_0.1;
    lemma_parse_attribute_table_wf(pool, s, pos);
    lemma_encode_parsed_attributes(pool, s, pos + 2, u16_at(s, pos) as nat, 0);
    lemma_u16_bytes_at(s, pos);
    lemma_subrange_join(s, pos, pos + 2, end);
}

/// What was parsed behind the constant pool encodes to the bytes it was
/// parsed from.
pub proof fn lemma_encode_parsed_body(s: Seq<u8>, cp_info: Seq<CpInfoView>, pos: int)
    requires
        parse_class_body(s, cp_info, pos) is Ok,
    ensures
        encode_body(parse_class_body(s, cp_info, pos)->Ok_0.0) == s.subrange(
            pos,
            parse_class_body(s, cp_info, pos)->Ok_0.1,
        ),
{
    let (class_file, end) = parse_class_body(s, cp_info, pos)->Ok_0;
    let interfaces_at = pos + 8;
    let fields_at = interfaces_at + 2 * class_file.interfaces_count;
    let (fields, methods_at) = parse_member_table(cp_info, s, fields_at)->Ok_0;
    let (methods, attributes_at) = parse_member_table(cp_info, s, methods_at)->Ok_0;
    assert(0 <= pos && fields_at <= methods_at <= attributes_at <= end <= s.len()) by {
        lemma_parse_member_table_wf(cp_info, s, fields_at);
        lemma_parse_member_table_wf(cp_info, s, methods_at);
        lemma_parse_attribute_table_wf(cp_info, s, attributes_at);
    }
    assert(encode_linkage(class_file) == s.subrange(pos, interfaces_at)) by {
        lemma_u16_bytes_at(s, pos);
        lemma_u16_bytes_at(s, pos + 2);
        lemma_u16_bytes_at(s, pos + 4);
        lemma_u16_bytes_at(s, pos + 6);
        assert(s.subrange(pos, pos + 2) + s.subrange(pos + 2, pos + 4) + s.subrange(
            pos + 4,
            pos + 6,
        ) + s.subrange(pos + 6, pos + 8) =~= s.subrange(pos, pos + 8));
    }
    assert(encode_indices(class_file.interfaces) == s.subrange(interfaces_at, fields_at)) by {
        lemma_encode_parsed_indices(s, interfaces_at, class_file.interfaces_count as nat);
    }
    assert(encode_member_table(class_file.fields_count, class_file.fields) == s.subrange(
        fields_at,
        methods_at,
    )) by {
        lemma_encode_parsed_member_table(cp_info, s, fields_at);
    }
    assert(encode_member_table(class_file.methods_count, class_file.methods) == s.subrange(
        methods_at,
        attributes_at,
    )) by {
        lemma_encode_parsed_member_table(cp_info, s, methods_at);
    }
    assert(encode_attribute_table(class_file.attributes_count, class_file.attributes)
        == s.subrange(attributes_at, end)) by {
        lemma_encode_parsed_attribute_table(cp_info, s, attributes_at);
    }
    lemma_subrange_join(s, pos, interfaces_at, fields_at);
    lemma_subrange_join(s, pos, fields_at, methods_at);
    lemma_subrange_join(s, pos, methods_at, attributes_at);
    lemma_subrange_join(s, pos, attributes_at, end);
}

/// Decoding loses nothing: a class file that was parsed encodes to the
/// bytes it was parsed from, which are the input up to where the class
/// file ends.
pub proof fn lemma_encode_parsed_class(s: Seq<u8>)
    requires
        parse_class(s) is Ok,
    ensures
        encode_class(parse_class(s)->Ok_0.0) == s.take(parse_class(s)->Ok_0.1),
{
    let (class_file, end) = parse_class(s)->Ok_0;
    let count = u16_at(s, 8);
    let (cp_info, pos) = parse_pool(s, 10, count)->Ok_0;
    assert(10 <= pos <= end <= s.len()) by {
        lemma_parse_pool_wf(s, 10, count);
        lemma_parse_class_body_wf(s, cp_info, pos);
    }
    assert(encode_header(class_file) == s.subrange(0, 10)) by {
        lemma_u32_bytes_at(s, 0);
        lemma_u16_bytes_at(s, 4);
        lemma_u16_bytes_at(s, 6);
        lemma_u16_bytes_at(s, 8);
        assert(s.subrange(0, 4) + s.subrange(4, 6) + s.subrange(6, 8) + s.subrange(8, 10)
            =~= s.subrange(0, 10));
    }
    assert(class_file.cp_info == cp_info);
    assert(encode_entries(cp_info) == s.subrange(10, pos)) by {
        lemma_encode_parsed_pool(s, 10, count);
    }
    assert(encode_body(class_file) == s.subrange(pos, end)) by {
        lemma_encode_parsed_body(s, cp_info, pos);
    }
    lemma_subrange_join(s, 0, 10, pos);
    lemma_subrange_join(s, 0, pos, end);
}

} // verus!
