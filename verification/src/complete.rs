//! Decoding refuses nothing that is valid: where the input holds the
//! encoding of a valid structure, that structure is parsed.

use vstd::prelude::*;

use crate::attribute::{
    exception_row, interpret_attribute, lemma_parse_attributes_wf, parse_attribute,
    parse_attributes, parse_code, total_encoded_len, AttributeInfoView, ExceptionTable,
};
use crate::bytes::{
    has_bytes, holds_at, lemma_holds_at, lemma_holds_both, lemma_holds_whole, lemma_u16_at_held,
    lemma_u32_at_held, u16_at, u16_bytes, u32_at, u32_bytes,
};
use crate::class_file::{
    decode_spec, lemma_parse_class_valid, parse_attribute_table, parse_class, parse_class_body,
    parse_member_table, ClassFileView,
};
use crate::constant_pool::{
    entries_wf, lemma_reserved_behind_wide_skip, parse_entries, parse_entry, parse_pool,
    pool_slots, pool_wf, reserved_slot, CpInfoView, InfoView,
};
use crate::encoding::{
    encode_attribute, encode_attribute_table, encode_attributes, encode_attributes_from,
    encode_body, encode_class, encode_entries, encode_entry, encode_header, encode_indices,
    encode_info, encode_linkage, encode_member, encode_member_table, encode_members,
    encode_payload, encode_row, encode_rows, lemma_encode_entries_prepend,
    lemma_encode_entries_reserved,
};
use crate::error::DecodeError;
use crate::lossless::lemma_encode_parsed_class;
use crate::member::{parse_member, parse_members, MemberInfoView};

verus! {

/// Where a sequence holds the encoding of a well-formed entry, that entry
/// is parsed.
pub proof fn lemma_parse_encoded_entry(s: Seq<u8>, pos: int, entry: CpInfoView)
    requires
        entry.wf(),
        !(entry.info is Offset),
        holds_at(s, pos, encode_entry(entry)),
    ensures
        parse_entry(s, pos) == Ok::<(CpInfoView, int), DecodeError>(
            (entry, pos + encode_entry(entry).len()),
        ),
{
    let body = pos + 1;
    let payload = encode_info(entry.info);
    lemma_holds_both(s, pos, seq![entry.tag], payload);
    assert(has_bytes(s, pos, 1) && s[pos] == entry.tag) by {
        lemma_holds_at(s, pos, seq![entry.tag]);
        assert(s.subrange(pos, pos + 1)[0] == s[pos]);
    }
    assert(encode_entry(entry).len() == 1 + payload.len());
    match entry.info {
        InfoView::Offset => {},
        InfoView::Utf8 { length, bytes } => {
            lemma_holds_both(s, body, u16_bytes(length), bytes);
            lemma_u16_at_held(s, body, length);
            lemma_holds_at(s, body + 2, bytes);
        },
        InfoView::Integer { value } => {
            lemma_u32_at_held(s, body, value);
        },
        InfoView::Float { bits } => {
            lemma_u32_at_held(s, body, bits);
        },
        InfoView::Long { high_bytes, low_bytes } | InfoView::Double { high_bytes, low_bytes } => {
            lemma_holds_both(s, body, u32_bytes(high_bytes), u32_bytes(low_bytes));
            lemma_u32_at_held(s, body, high_bytes);
            lemma_u32_at_held(s, body + 4, low_bytes);
        },
        InfoView::Class { name_index } => {
            lemma_u16_at_held(s, body, name_index);
        },
        InfoView::String { string_index } => {
            lemma_u16_at_held(s, body, string_index);
        },
        InfoView::Fieldref { class_index: first, name_and_type_index: second }
        | InfoView::Methodref { class_index: first, name_and_type_index: second }
        | InfoView::InterfaceMethodref { class_index: first, name_and_type_index: second }
        | InfoView::NameAndType { name_index: first, descriptor_index: second } => {
            lemma_holds_both(s, body, u16_bytes(first), u16_bytes(second));
            lemma_u16_at_held(s, body, first);
            lemma_u16_at_held(s, body + 2, second);
        },
    }
}

/// Well-formed slots start with an entry, behind which stand well-formed
/// slots again: directly, or behind the reserved slot of an eight-byte
/// constant.
pub proof fn lemma_entries_wf_rest(entries: Seq<CpInfoView>)
    requires
        entries_wf(entries),
        entries.len() > 0,
    ensures
        !(entries[0].info is Offset),
        entries[0].wf(),
        entries[0].info.is_wide() && entries.len() >= 2 ==> entries_wf(entries.skip(2))
            && entries == seq![entries[0], reserved_slot()] + entries.skip(2),
        !(entries[0].info.is_wide() && entries.len() >= 2) ==> entries_wf(entries.skip(1))
            && entries == seq![entries[0]] + entries.skip(1),
{
    let first = entries[0];
    if first.info.is_wide() && entries.len() >= 2 {
        let rest = entries.skip(2);
        assert(entries[1].info is Offset && entries[1].wf());
        assert(entries =~= seq![first, reserved_slot()] + rest);
        if rest.len() > 0 {
            assert(rest[0] == entries[2]);
            assert(!entries[1].info.is_wide());
        }
        lemma_reserved_behind_wide_skip(entries, 2);
    } else {
        let rest = entries.skip(1);
        assert(entries =~= seq![first] + rest);
        if rest.len() > 0 {
            assert(rest[0] == entries[1]);
        }
        lemma_reserved_behind_wide_skip(entries, 1);
    }
}

/// Where a sequence holds the encoding of well-formed slots, those slots
/// are parsed.
pub proof fn lemma_parse_encoded_entries(s: Seq<u8>, pos: int, entries: Seq<CpInfoView>)
    requires
        entries_wf(entries),
        holds_at(s, pos, encode_entries(entries)),
    ensures
        parse_entries(s, pos, entries.len()) == Ok::<(Seq<CpInfoView>, int), DecodeError>(
            (entries, pos + encode_entries(entries).len()),
        ),
    decreases entries.len(),
{
    let slots = entries.len();
    if slots > 0 {
        let first = entries[0];
        let next = pos + encode_entry(first).len();
        let wide = first.info.is_wide() && slots >= 2;
        let rest = if wide {
            entries.skip(2)
        } else {
            entries.skip(1)
        };
        lemma_entries_wf_rest(entries);
        assert(encode_entries(entries) == encode_entry(first) + encode_entries(rest)) by {
            if wide {
                lemma_encode_entries_reserved(first, rest);
            } else {
                lemma_encode_entries_prepend(first, rest);
            }
        }
        assert(holds_at(s, pos, encode_entry(first)) && holds_at(s, next, encode_entries(rest)))
            by {
            lemma_holds_both(s, pos, encode_entry(first), encode_entries(rest));
        }
        assert(parse_entry(s, pos) == Ok::<(CpInfoView, int), DecodeError>((first, next))) by {
            lemma_parse_encoded_entry(s, pos, first);
        }
        assert(parse_entries(s, next, rest.len()) == Ok::<(Seq<CpInfoView>, int), DecodeError>(
            (rest, next + encode_entries(rest).len()),
        )) by {
            lemma_parse_encoded_entries(s, next, rest);
        }
    } else {
        assert(entries =~= Seq::<CpInfoView>::empty());
    }
}

/// Where a sequence holds the encoding of a well-formed pool, that pool is
/// parsed.
pub proof fn lemma_parse_encoded_pool(s: Seq<u8>, pos: int, count: u16, pool: Seq<CpInfoView>)
    requires
        pool_wf(pool),
        pool.len() == pool_slots(count),
        holds_at(s, pos, encode_entries(pool)),
    ensures
        parse_pool(s, pos, count) == Ok::<(Seq<CpInfoView>, int), DecodeError>(
            (pool, pos + encode_entries(pool).len()),
        ),
{
    let entries = pool.skip(1);
    assert(pool =~= seq![reserved_slot()] + entries);
    lemma_encode_entries_reserved(reserved_slot(), entries);
    assert(entries_wf(entries)) by {
        if entries.len() > 0 {
            assert(entries[0] == pool[1]);
        }
        lemma_reserved_behind_wide_skip(pool, 1);
    }
    lemma_parse_encoded_entries(s, pos, entries);
}

/// Every row of an exception table takes eight bytes.
pub proof fn lemma_encode_rows_len(rows: Seq<ExceptionTable>)
    ensures
        encode_rows(rows).len() == 8 * rows.len(),
    decreases rows.len(),
{
    if rows.len() > 0 {
        lemma_encode_rows_len(rows.drop_last());
    }
}

/// Where a sequence holds the encoding of a row, that row is read.
pub proof fn lemma_parse_encoded_row(s: Seq<u8>, pos: int, row: ExceptionTable)
    requires
        holds_at(s, pos, encode_row(row)),
    ensures
        has_bytes(s, pos, 8),
        exception_row(s, pos) == row,
{
    let start = u16_bytes(row.start_pc);
    let end = u16_bytes(row.end_pc);
    let handler = u16_bytes(row.handler_pc);
    let catch = u16_bytes(row.catch_type);
    lemma_holds_both(s, pos, start + end + handler, catch);
    lemma_holds_both(s, pos, start + end, handler);
    lemma_holds_both(s, pos, start, end);
    lemma_u16_at_held(s, pos, row.start_pc);
    lemma_u16_at_held(s, pos + 2, row.end_pc);
    lemma_u16_at_held(s, pos + 4, row.handler_pc);
    lemma_u16_at_held(s, pos + 6, row.catch_type);
}

/// Where a sequence holds the encoding of an exception table, the rows of
/// that table are read.
pub proof fn lemma_parse_encoded_rows(s: Seq<u8>, pos: int, rows: Seq<ExceptionTable>)
    requires
        holds_at(s, pos, encode_rows(rows)),
    ensures
        has_bytes(s, pos, 8 * (rows.len() as int)),
        Seq::new(rows.len(), |i: int| exception_row(s, pos + 8 * i)) == rows,
    decreases rows.len(),
{
    let read = Seq::new(rows.len(), |i: int| exception_row(s, pos + 8 * i));
    lemma_encode_rows_len(rows);
    lemma_holds_at(s, pos, encode_rows(rows));
    if rows.len() > 0 {
        let before = rows.drop_last();
        let at = pos + 8 * before.len();
        lemma_encode_rows_len(before);
        lemma_holds_both(s, pos, encode_rows(before), encode_row(rows.last()));
        lemma_parse_encoded_rows(s, pos, before);
        lemma_parse_encoded_row(s, at, rows.last());
        let read_before = Seq::new(before.len(), |i: int| exception_row(s, pos + 8 * i));
        assert forall|i: int| 0 <= i < rows.len() implies read[i] == rows[i] by {
            if i < before.len() {
                assert(read_before[i] == before[i]);
            }
        }
    }
    assert(read =~= rows);
}

/// Where a sequence holds the fields of a `Code` attribute one behind the
/// other, they are read from it, each from its offset.
pub proof fn lemma_code_fields_held(info: Seq<u8>, attribute: AttributeInfoView)
    requires
        attribute is Code,
        attribute->code_length == attribute->code.len(),
        attribute->exception_table_length == attribute->exception_table.len(),
        info == encode_payload(attribute),
    ensures
        ({
            let rows_at = 8 + attribute->code_length + 2;
            let count_at = rows_at + 8 * attribute->exception_table_length;
            &&& has_bytes(info, 0, 8)
            &&& u16_at(info, 0) == attribute->max_stack
            &&& u16_at(info, 2) == attribute->max_locals
            &&& u32_at(info, 4) == attribute->code_length
            &&& has_bytes(info, 8, attribute->code_length + 2)
            &&& info.subrange(8, 8 + attribute->code_length) == attribute->code
            &&& u16_at(info, 8 + attribute->code_length) == attribute->exception_table_length
            &&& has_bytes(info, rows_at, 8 * attribute->exception_table_length + 2)
            &&& holds_at(info, rows_at, encode_rows(attribute->exception_table))
            &&& u16_at(info, count_at) == attribute->attributes_count
            &&& holds_at(info, count_at + 2, encode_attributes_from(attribute->attributes, 0))
            &&& info.len() == count_at + 2 + encode_attributes_from(attribute->attributes, 0).len()
        }),
{
    let stack = u16_bytes(attribute->max_stack);
    let locals = u16_bytes(attribute->max_locals);
    let length = u32_bytes(attribute->code_length);
    let code = attribute->code;
    let rows_len = u16_bytes(attribute->exception_table_length);
    let rows = encode_rows(attribute->exception_table);
    let count = u16_bytes(attribute->attributes_count);
    let nested = encode_attributes_from(attribute->attributes, 0);
    let rows_at = 8 + attribute->code_length + 2;
    let count_at = rows_at + 8 * attribute->exception_table_length;
    lemma_encode_rows_len(attribute->exception_table);
    lemma_holds_whole(info);
    lemma_holds_both(info, 0, stack + locals + length + code + rows_len + rows + count, nested);
    lemma_holds_both(info, 0, stack + locals + length + code + rows_len + rows, count);
    lemma_holds_both(info, 0, stack + locals + length + code + rows_len, rows);
    lemma_holds_both(info, 0, stack + locals + length + code, rows_len);
    lemma_holds_both(info, 0, stack + locals + length, code);
    lemma_holds_both(info, 0, stack + locals, length);
    lemma_holds_both(info, 0, stack, locals);
    lemma_u16_at_held(info, 0, attribute->max_stack);
    lemma_u16_at_held(info, 2, attribute->max_locals);
    lemma_u32_at_held(info, 4, attribute->code_length);
    lemma_holds_at(info, 8, code);
    lemma_u16_at_held(info, 8 + attribute->code_length, attribute->exception_table_length);
    lemma_holds_at(info, rows_at, rows);
    lemma_u16_at_held(info, count_at, attribute->attributes_count);
    lemma_holds_at(info, count_at + 2, nested);
}

/// Where the payload of a `Code` attribute is the encoding of a
/// well-formed attribute that fits, that attribute is what the payload is
/// taken apart into, and the payload has the length that the attribute
/// declares.
pub proof fn lemma_parse_encoded_code(
    pool: Seq<CpInfoView>,
    attribute: AttributeInfoView,
    depth: nat,
)
    requires
        attribute is Code,
        attribute.wf(),
        attribute.fits(pool, depth),
    ensures
        parse_code(
            pool,
            attribute.attribute_name_index(),
            attribute.attribute_length(),
            encode_payload(attribute),
            depth,
        ) == Ok::<AttributeInfoView, DecodeError>(attribute),
        encode_payload(attribute).len() == attribute.attribute_length(),
    decreases attribute, 0nat,
{
    let info = encode_payload(attribute);
    let attributes = attribute->attributes;
    let rows_at = 8 + attribute->code_length + 2;
    let count_at = rows_at + 8 * attribute->exception_table_length;
    let attributes_at = count_at + 2;
    lemma_code_fields_held(info, attribute);
    assert(Seq::new(
        attribute->exception_table_length as nat,
        |i: int| exception_row(info, rows_at + 8 * i),
    ) == attribute->exception_table) by {
        lemma_parse_encoded_rows(info, rows_at, attribute->exception_table);
    }
    assert(parse_attributes(pool, info, attributes_at, attributes.len(), depth + 1) == Ok::<
        (Seq<AttributeInfoView>, int),
        DecodeError,
    >((attributes, info.len() as int))) by {
        lemma_parse_encoded_attributes_from(pool, info, attributes_at, attributes, 0, depth + 1);
        assert(attributes.skip(0) =~= attributes);
    }
    assert(info.len() == attributes_at + total_encoded_len(attributes)) by {
        lemma_parse_attributes_wf(pool, info, attributes_at, attributes.len(), depth + 1);
    }
}

/// Where the payload of an attribute is the encoding of a well-formed
/// attribute that fits, that attribute is the payload's decoded form, and
/// the payload has the length that the attribute declares.
pub proof fn lemma_interpret_encoded(
    pool: Seq<CpInfoView>,
    attribute: AttributeInfoView,
    depth: nat,
)
    requires
        attribute.wf(),
        attribute.fits(pool, depth),
    ensures
        interpret_attribute(
            pool,
            attribute.attribute_name_index(),
            attribute.attribute_length(),
            encode_payload(attribute),
            depth,
        ) == Ok::<AttributeInfoView, DecodeError>(attribute),
        encode_payload(attribute).len() == attribute.attribute_length(),
    decreases attribute, 1nat,
{
    if attribute is Code {
        lemma_parse_encoded_code(pool, attribute, depth);
    }
}

/// An attribute is parsed where its name index and its length are read
/// and the payload behind them has that length and the attribute as its
/// decoded form.
pub proof fn lemma_parse_attribute_from_parts(
    pool: Seq<CpInfoView>,
    s: Seq<u8>,
    pos: int,
    depth: nat,
    attribute: AttributeInfoView,
    payload: Seq<u8>,
)
    requires
        has_bytes(s, pos, 6),
        has_bytes(s, pos + 6, payload.len() as int),
        s.subrange(pos + 6, pos + 6 + payload.len()) == payload,
        u32_at(s, pos + 2) == payload.len(),
        interpret_attribute(pool, u16_at(s, pos), u32_at(s, pos + 2), payload, depth) == Ok::<
            AttributeInfoView,
            DecodeError,
        >(attribute),
    ensures
        parse_attribute(pool, s, pos, depth) == Ok::<(AttributeInfoView, int), DecodeError>(
            (attribute, pos + 6 + payload.len()),
        ),
{
}

/// Where a sequence holds the encoding of an attribute, it holds the
/// attribute's name index, its declared length and its payload, in this
/// order.
pub proof fn lemma_attribute_parts_held(s: Seq<u8>, pos: int, attribute: AttributeInfoView)
    requires
        holds_at(s, pos, encode_attribute(attribute)),
    ensures
        has_bytes(s, pos, 6),
        u16_at(s, pos) == attribute.attribute_name_index(),
        u32_at(s, pos + 2) == attribute.attribute_length(),
        holds_at(s, pos + 6, encode_payload(attribute)),
        encode_attribute(attribute).len() == 6 + encode_payload(attribute).len(),
{
    let name = u16_bytes(attribute.attribute_name_index());
    let length = u32_bytes(attribute.attribute_length());
    lemma_holds_both(s, pos, name + length, encode_payload(attribute));
    lemma_holds_both(s, pos, name, length);
    lemma_u16_at_held(s, pos, attribute.attribute_name_index());
    lemma_u32_at_held(s, pos + 2, attribute.attribute_length());
}

/// Where a sequence holds the encoding of a well-formed attribute that
/// fits, that attribute is parsed.
pub proof fn lemma_parse_encoded_attribute(
    pool: Seq<CpInfoView>,
    s: Seq<u8>,
    pos: int,
    attribute: AttributeInfoView,
    depth: nat,
)
    requires
        attribute.wf(),
        attribute.fits(pool, depth),
        holds_at(s, pos, encode_attribute(attribute)),
    ensures
        parse_attribute(pool, s, pos, depth) == Ok::<(AttributeInfoView, int), DecodeError>(
            (attribute, pos + encode_attribute(attribute).len()),
        ),
    decreases attribute, 2nat,
{
    let payload = encode_payload(attribute);
    lemma_interpret_encoded(pool, attribute, depth);
    lemma_attribute_parts_held(s, pos, attribute);
    lemma_holds_at(s, pos + 6, payload);
    lemma_parse_attribute_from_parts(pool, s, pos, depth, attribute, payload);
}

/// Where a sequence holds the encoding of the attributes of a list from
/// index `from` on, all well formed and fitting, those attributes are
/// parsed.
pub proof fn lemma_parse_encoded_attributes_from(
    pool: Seq<CpInfoView>,
    s: Seq<u8>,
    pos: int,
    attributes: Seq<AttributeInfoView>,
    from: nat,
    depth: nat,
)
    requires
        from <= attributes.len(),
        forall|i: int| from <= i < attributes.len() ==> (#[trigger] attributes[i]).wf(),
        forall|i: int|
            from <= i < attributes.len() ==> (#[trigger] attributes[i]).fits(pool, depth),
        holds_at(s, pos, encode_attributes_from(attributes, from)),
    ensures
        parse_attributes(pool, s, pos, (attributes.len() - from) as nat, depth) == Ok::<
            (Seq<AttributeInfoView>, int),
            DecodeError,
        >((attributes.skip(from as int), pos + encode_attributes_from(attributes, from).len())),
    decreases attributes, attributes.len() - from,
{
    if from < attributes.len() {
        let first = attributes[from as int];
        let next = pos + encode_attribute(first).len();
        let rest = encode_attributes_from(attributes, from + 1);
        lemma_holds_both(s, pos, encode_attribute(first), rest);
        assert(parse_attribute(pool, s, pos, depth) == Ok::<(AttributeInfoView, int), DecodeError>(
            (first, next),
        )) by {
            lemma_parse_encoded_attribute(pool, s, pos, first, depth);
        }
        lemma_parse_encoded_attributes_from(pool, s, next, attributes, from + 1, depth);
        assert(seq![first] + attributes.skip(from as int + 1) =~= attributes.skip(from as int));
    } else {
        assert(attributes.skip(from as int) =~= Seq::<AttributeInfoView>::empty());
    }
}

/// Where a sequence holds the encoding of a list of attributes, all well
/// formed and fitting, those attributes are parsed.
pub proof fn lemma_parse_encoded_attributes(
    pool: Seq<CpInfoView>,
    s: Seq<u8>,
    pos: int,
    attributes: Seq<AttributeInfoView>,
    depth: nat,
)
    requires
        forall|i: int| 0 <= i < attributes.len() ==> (#[trigger] attributes[i]).wf(),
        forall|i: int| 0 <= i < attributes.len() ==> (#[trigger] attributes[i]).fits(pool, depth),
        holds_at(s, pos, encode_attributes(attributes)),
    ensures
        parse_attributes(pool, s, pos, attributes.len(), depth) == Ok::<
            (Seq<AttributeInfoView>, int),
            DecodeError,
        >((attributes, pos + encode_attributes(attributes).len())),
{
    lemma_parse_encoded_attributes_from(pool, s, pos, attributes, 0, depth);
    assert(attributes.skip(0) =~= attributes);
}

/// Where a sequence holds the encoding of a member, it holds the member's
/// four fixed fields and its attributes, in this order.
pub proof fn lemma_member_parts_held(s: Seq<u8>, pos: int, member: MemberInfoView)
    requires
        holds_at(s, pos, encode_member(member)),
    ensures
        has_bytes(s, pos, 8),
        u16_at(s, pos) == member.access_flags,
        u16_at(s, pos + 2) == member.name_index,
        u16_at(s, pos + 4) == member.descriptor_index,
        u16_at(s, pos + 6) == member.attributes_count,
        holds_at(s, pos + 8, encode_attributes(member.attributes)),
        encode_member(member).len() == 8 + encode_attributes(member.attributes).len(),
{
    let access = u16_bytes(member.access_flags);
    let name = u16_bytes(member.name_index);
    let descriptor = u16_bytes(member.descriptor_index);
    let count = u16_bytes(member.attributes_count);
    lemma_holds_both(
        s,
        pos,
        access + name + descriptor + count,
        encode_attributes(member.attributes),
    );
    lemma_holds_both(s, pos, access + name + descriptor, count);
    lemma_holds_both(s, pos, access + name, descriptor);
    lemma_holds_both(s, pos, access, name);
    lemma_u16_at_held(s, pos, member.access_flags);
    lemma_u16_at_held(s, pos + 2, member.name_index);
    lemma_u16_at_held(s, pos + 4, member.descriptor_index);
    lemma_u16_at_held(s, pos + 6, member.attributes_count);
}

/// Where a sequence holds the encoding of a well-formed member whose
/// attributes fit, that member is parsed.
pub proof fn lemma_parse_encoded_member(
    pool: Seq<CpInfoView>,
    s: Seq<u8>,
    pos: int,
    member: MemberInfoView,
)
    requires
        member.wf(),
        member.fits(pool),
        holds_at(s, pos, encode_member(member)),
    ensures
        parse_member(pool, s, pos) == Ok::<(MemberInfoView, int), DecodeError>(
            (member, pos + encode_member(member).len()),
        ),
{
    lemma_member_parts_held(s, pos, member);
    lemma_parse_encoded_attributes(pool, s, pos + 8, member.attributes, 0);
}

/// Where a sequence holds the encoding of a list of well-formed members
/// whose attributes fit, those members are parsed.
pub proof fn lemma_parse_encoded_members(
    pool: Seq<CpInfoView>,
    s: Seq<u8>,
    pos: int,
    members: Seq<MemberInfoView>,
)
    requires
        forall|i: int| 0 <= i < members.len() ==> (#[trigger] members[i]).wf(),
        forall|i: int| 0 <= i < members.len() ==> (#[trigger] members[i]).fits(pool),
        holds_at(s, pos, encode_members(members)),
    ensures
        parse_members(pool, s, pos, members.len()) == Ok::<
            (Seq<MemberInfoView>, int),
            DecodeError,
        >((members, pos + encode_members(members).len())),
    decreases members.len(),
{
    if members.len() > 0 {
        let first = members[0];
        let rest = members.skip(1);
        let next = pos + encode_member(first).len();
        lemma_holds_both(s, pos, encode_member(first), encode_members(rest));
        assert(parse_member(pool, s, pos) == Ok::<(MemberInfoView, int), DecodeError>(
            (first, next),
        )) by {
            lemma_parse_encoded_member(pool, s, pos, first);
        }
        assert forall|i: int| 0 <= i < rest.len() implies (#[trigger] rest[i]).wf() && rest[i].fits(
            pool,
        ) by {
            assert(rest[i] == members[i + 1]);
        }
        lemma_parse_encoded_members(pool, s, next, rest);
        assert(seq![first] + rest =~= members);
    } else {
        assert(members =~= Seq::<MemberInfoView>::empty());
    }
}

/// Every index of a list of indices takes two bytes.
pub proof fn lemma_encode_indices_len(indices: Seq<u16>)
    ensures
        encode_indices(indices).len() == 2 * indices.len(),
    decreases indices.len(),
{
    if indices.len() > 0 {
        lemma_encode_indices_len(indices.drop_last());
    }
}

/// Where a sequence holds the encoding of a list of indices, those indices
/// are read.
pub proof fn lemma_parse_encoded_indices(s: Seq<u8>, pos: int, indices: Seq<u16>)
    requires
        holds_at(s, pos, encode_indices(indices)),
    ensures
        has_bytes(s, pos, 2 * (indices.len() as int)),
        Seq::new(indices.len(), |i: int| u16_at(s, pos + 2 * i)) == indices,
    decreases indices.len(),
{
    let read = Seq::new(indices.len(), |i: int| u16_at(s, pos + 2 * i));
    lemma_encode_indices_len(indices);
    lemma_holds_at(s, pos, encode_indices(indices));
    if indices.len() > 0 {
        let before = indices.drop_last();
        let at = pos + 2 * before.len();
        lemma_encode_indices_len(before);
        lemma_holds_both(s, pos, encode_indices(before), u16_bytes(indices.last()));
        lemma_parse_encoded_indices(s, pos, before);
        lemma_u16_at_held(s, at, indices.last());
        let read_before = Seq::new(before.len(), |i: int| u16_at(s, pos + 2 * i));
        assert forall|i: int| 0 <= i < indices.len() implies read[i] == indices[i] by {
            if i < before.len() {
                assert(read_before[i] == before[i]);
            }
        }
    }
    assert(read =~= indices);
}

/// Where a sequence holds the encoding of a member list whose count counts
/// its members, all well formed and with fitting attributes, that list is
/// parsed.
pub proof fn lemma_parse_encoded_member_table(
    pool: Seq<CpInfoView>,
    s: Seq<u8>,
    pos: int,
    count: u16,
    members: Seq<MemberInfoView>,
)
    requires
        count == members.len(),
        forall|i: int| 0 <= i < members.len() ==> (#[trigger] members[i]).wf(),
        forall|i: int| 0 <= i < members.len() ==> (#[trigger] members[i]).fits(pool),
        holds_at(s, pos, encode_member_table(count, members)),
    ensures
        u16_at(s, pos) == count,
        parse_member_table(pool, s, pos) == Ok::<(Seq<MemberInfoView>, int), DecodeError>(
            (members, pos + encode_member_table(count, members).len()),
        ),
{
    lemma_holds_both(s, pos, u16_bytes(count), encode_members(members));
    lemma_u16_at_held(s, pos, count);
    lemma_parse_encoded_members(pool, s, pos + 2, members);
}

/// Where a sequence holds the encoding of an attribute list whose count
/// counts its attributes, all well formed and fitting, that list is
/// parsed.
pub proof fn lemma_parse_encoded_attribute_table(
    pool: Seq<CpInfoView>,
    s: Seq<u8>,
    pos: int,
    count: u16,
    attributes: Seq<AttributeInfoView>,
)
    requires
        count == attributes.len(),
        forall|i: int| 0 <= i < attributes.len() ==> (#[trigger] attributes[i]).wf(),
        forall|i: int| 0 <= i < attributes.len() ==> (#[trigger] attributes[i]).fits(pool, 0),
        holds_at(s, pos, encode_attribute_table(count, attributes)),
    ensures
        u16_at(s, pos) == count,
        parse_attribute_table(pool, s, pos) == Ok::<(Seq<AttributeInfoView>, int), DecodeError>(
            (attributes, pos + encode_attribute_table(count, attributes).len()),
        ),
{
    lemma_holds_both(s, pos, u16_bytes(count), encode_attributes(attributes));
    lemma_u16_at_held(s, pos, count);
    lemma_parse_encoded_attributes(pool, s, pos + 2, attributes, 0);
}

/// Where a sequence holds the encoding of what follows the constant pool,
/// it holds the four fields behind the pool and the four lists, in this
/// order.
pub proof fn lemma_body_parts_held(s: Seq<u8>, pos: int, class_file: ClassFileView)
    requires
        holds_at(s, pos, encode_body(class_file)),
        class_file.interfaces_count == class_file.interfaces.len(),
    ensures
        ({
            let fields = encode_member_table(class_file.fields_count, class_file.fields);
            let methods = encode_member_table(class_file.methods_count, class_file.methods);
            let attributes = encode_attribute_table(
                class_file.attributes_count,
                class_file.attributes,
            );
            let fields_at = pos + 8 + 2 * class_file.interfaces_count;
            let methods_at = fields_at + fields.len();
            let attributes_at = methods_at + methods.len();
            &&& has_bytes(s, pos, 8)
            &&& u16_at(s, pos) == class_file.access_flag
            &&& u16_at(s, pos + 2) == class_file.this_class
            &&& u16_at(s, pos + 4) == class_file.super_class
            &&& u16_at(s, pos + 6) == class_file.interfaces_count
            &&& holds_at(s, pos + 8, encode_indices(class_file.interfaces))
            &&& holds_at(s, fields_at, fields)
            &&& holds_at(s, methods_at, methods)
            &&& holds_at(s, attributes_at, attributes)
            &&& encode_body(class_file).len() == attributes_at + attributes.len() - pos
        }),
{
    let access = u16_bytes(class_file.access_flag);
    let this = u16_bytes(class_file.this_class);
    let parent = u16_bytes(class_file.super_class);
    let count = u16_bytes(class_file.interfaces_count);
    let linkage = encode_linkage(class_file);
    let interfaces = encode_indices(class_file.interfaces);
    let fields = encode_member_table(class_file.fields_count, class_file.fields);
    let methods = encode_member_table(class_file.methods_count, class_file.methods);
    let attributes = encode_attribute_table(class_file.attributes_count, class_file.attributes);
    lemma_encode_indices_len(class_file.interfaces);
    lemma_holds_both(s, pos, linkage + interfaces + fields + methods, attributes);
    lemma_holds_both(s, pos, linkage + interfaces + fields, methods);
    lemma_holds_both(s, pos, linkage + interfaces, fields);
    lemma_holds_both(s, pos, linkage, interfaces);
    lemma_holds_both(s, pos, access + this + parent, count);
    lemma_holds_both(s, pos, access + this, parent);
    lemma_holds_both(s, pos, access, this);
    lemma_u16_at_held(s, pos, class_file.access_flag);
    lemma_u16_at_held(s, pos + 2, class_file.this_class);
    lemma_u16_at_held(s, pos + 4, class_file.super_class);
    lemma_u16_at_held(s, pos + 6, class_file.interfaces_count);
}

/// Where a sequence holds, behind a header and a constant pool, the
/// encoding of what follows the constant pool in a valid class file with
/// that header and that pool, that class file is parsed.
pub proof fn lemma_parse_encoded_body(s: Seq<u8>, pos: int, class_file: ClassFileView)
    requires
        class_file.valid(),
        u32_at(s, 0) == class_file.magic,
        u16_at(s, 4) == class_file.minor_version,
        u16_at(s, 6) == class_file.major_version,
        u16_at(s, 8) == class_file.constant_pool_count,
        holds_at(s, pos, encode_body(class_file)),
    ensures
        parse_class_body(s, class_file.cp_info, pos) == Ok::<(ClassFileView, int), DecodeError>(
            (class_file, pos + encode_body(class_file).len()),
        ),
{
    let pool = class_file.cp_info;
    let fields = encode_member_table(class_file.fields_count, class_file.fields);
    let methods = encode_member_table(class_file.methods_count, class_file.methods);
    let fields_at = pos + 8 + 2 * class_file.interfaces_count;
    let methods_at = fields_at + fields.len();
    let attributes_at = methods_at + methods.len();
    lemma_body_parts_held(s, pos, class_file);
    lemma_parse_encoded_indices(s, pos + 8, class_file.interfaces);
    lemma_parse_encoded_member_table(
        pool,
        s,
        fields_at,
        class_file.fields_count,
        class_file.fields,
    );
    lemma_parse_encoded_member_table(
        pool,
        s,
        methods_at,
        class_file.methods_count,
        class_file.methods,
    );
    lemma_parse_encoded_attribute_table(
        pool,
        s,
        attributes_at,
        class_file.attributes_count,
        class_file.attributes,
    );
}

/// Where a sequence holds the encoding of a class file, it holds the
/// header, the constant pool and what follows the pool, in this order.
pub proof fn lemma_class_parts_held(s: Seq<u8>, class_file: ClassFileView)
    requires
        holds_at(s, 0, encode_class(class_file)),
    ensures
        has_bytes(s, 0, 10),
        u32_at(s, 0) == class_file.magic,
        u16_at(s, 4) == class_file.minor_version,
        u16_at(s, 6) == class_file.major_version,
        u16_at(s, 8) == class_file.constant_pool_count,
        holds_at(s, 10, encode_entries(class_file.cp_info)),
        holds_at(
            s,
            10 + (encode_entries(class_file.cp_info).len() as int),
            encode_body(class_file),
        ),
        encode_class(class_file).len() == 10 + encode_entries(class_file.cp_info).len()
            + encode_body(class_file).len(),
{
    let magic = u32_bytes(class_file.magic);
    let minor = u16_bytes(class_file.minor_version);
    let major = u16_bytes(class_file.major_version);
    let count = u16_bytes(class_file.constant_pool_count);
    let header = encode_header(class_file);
    let pool = encode_entries(class_file.cp_info);
    lemma_holds_both(s, 0, header + pool, encode_body(class_file));
    lemma_holds_both(s, 0, header, pool);
    lemma_holds_both(s, 0, magic + minor + major, count);
    lemma_holds_both(s, 0, magic + minor, major);
    lemma_holds_both(s, 0, magic, minor);
    lemma_u32_at_held(s, 0, class_file.magic);
    lemma_u16_at_held(s, 4, class_file.minor_version);
    lemma_u16_at_held(s, 6, class_file.major_version);
    lemma_u16_at_held(s, 8, class_file.constant_pool_count);
}

/// Where a sequence starts with the encoding of a valid class file, that
/// class file is parsed.
pub proof fn lemma_parse_encoded_class(s: Seq<u8>, class_file: ClassFileView)
    requires
        class_file.valid(),
        holds_at(s, 0, encode_class(class_file)),
    ensures
        parse_class(s) == Ok::<(ClassFileView, int), DecodeError>(
            (class_file, encode_class(class_file).len() as int),
        ),
{
    let pool = class_file.cp_info;
    let pos = 10 + (encode_entries(pool).len() as int);
    lemma_class_parts_held(s, class_file);
    lemma_parse_encoded_pool(s, 10, class_file.constant_pool_count, pool);
    lemma_parse_encoded_body(s, pos, class_file);
}

/// Decoding gives a class file exactly where that class file is valid and
/// the input starts with its encoding.
pub proof fn lemma_decode_exactly(s: Seq<u8>, class_file: ClassFileView)
    ensures
        decode_spec(s) == Ok::<ClassFileView, DecodeError>(class_file) <==> class_file.valid()
            && encode_class(class_file).is_prefix_of(s),
{
    let encoded = encode_class(class_file);
    lemma_holds_at(s, 0, encoded);
    if decode_spec(s) == Ok::<ClassFileView, DecodeError>(class_file) {
        lemma_parse_class_valid(s);
        lemma_encode_parsed_class(s);
        assert(encoded.is_prefix_of(s));
    }
    if class_file.valid() && encoded.is_prefix_of(s) {
        assert(s.subrange(0, encoded.len() as int) =~= encoded);
        lemma_parse_encoded_class(s, class_file);
    }
}

} // verus!
