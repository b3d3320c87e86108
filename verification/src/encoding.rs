//! The encoding of a class file, as a mathematical function from the
//! decoded structure to bytes. Nothing here is executable: the functions
//! say which bytes a structure stands for.

use vstd::prelude::*;

use crate::attribute::{AttributeInfoView, ExceptionTable};
use crate::bytes::{u16_bytes, u32_bytes};
use crate::class_file::ClassFileView;
use crate::constant_pool::{reserved_slot, CpInfoView, InfoView};
use crate::member::MemberInfoView;

verus! {

/// The bytes of a constant's payload.
pub open spec fn encode_info(info: InfoView) -> Seq<u8> {
    match info {
        InfoView::Offset => Seq::empty(),
        InfoView::Utf8 { length, bytes } => u16_bytes(length) + bytes,
        InfoView::Integer { value } => u32_bytes(value),
        InfoView::Float { bits } => u32_bytes(bits),
        InfoView::Long { high_bytes, low_bytes } => u32_bytes(high_bytes) + u32_bytes(low_bytes),
        InfoView::Double { high_bytes, low_bytes } => u32_bytes(high_bytes) + u32_bytes(low_bytes),
        InfoView::Class { name_index } => u16_bytes(name_index),
        InfoView::String { string_index } => u16_bytes(string_index),
        InfoView::Fieldref { class_index, name_and_type_index } => u16_bytes(class_index)
            + u16_bytes(name_and_type_index),
        InfoView::Methodref { class_index, name_and_type_index } => u16_bytes(class_index)
            + u16_bytes(name_and_type_index),
        InfoView::InterfaceMethodref { class_index, name_and_type_index } => u16_bytes(class_index)
            + u16_bytes(name_and_type_index),
        InfoView::NameAndType { name_index, descriptor_index } => u16_bytes(name_index)
            + u16_bytes(descriptor_index),
    }
}

/// The bytes of one slot of the constant pool: the tag and the payload. A
/// reserved slot has no bytes.
pub open spec fn encode_entry(entry: CpInfoView) -> Seq<u8> {
    if entry.info is Offset {
        Seq::empty()
    } else {
        seq![entry.tag] + encode_info(entry.info)
    }
}

/// The bytes of the slots of a constant pool, one behind the other.
pub open spec fn encode_entries(entries: Seq<CpInfoView>) -> Seq<u8>
    decreases entries.len(),
{
    if entries.len() == 0 {
        Seq::empty()
    } else {
        encode_entry(entries[0]) + encode_entries(entries.skip(1))
    }
}

/// The bytes of one row of an exception table.
pub open spec fn encode_row(row: ExceptionTable) -> Seq<u8> {
    u16_bytes(row.start_pc) + u16_bytes(row.end_pc) + u16_bytes(row.handler_pc) + u16_bytes(
        row.catch_type,
    )
}

/// The bytes of the rows of an exception table, one behind the other.
pub open spec fn encode_rows(rows: Seq<ExceptionTable>) -> Seq<u8>
    decreases rows.len(),
{
    if rows.len() == 0 {
        Seq::empty()
    } else {
        encode_rows(rows.drop_last()) + encode_row(rows.last())
    }
}

/// The bytes of an attribute's payload. The payload of a `Code` attribute
/// is made of its fields in their order.
pub open spec fn encode_payload(attribute: AttributeInfoView) -> Seq<u8>
    decreases attribute, 0nat,
{
    match attribute {
        AttributeInfoView::Other { info, .. } => info,
        AttributeInfoView::Code {
            max_stack,
            max_locals,
            code_length,
            code,
            exception_table_length,
            exception_table,
            attributes_count,
            attributes,
            ..
        } => u16_bytes(max_stack) + u16_bytes(max_locals) + u32_bytes(code_length) + code
            + u16_bytes(exception_table_length) + encode_rows(exception_table) + u16_bytes(
            attributes_count,
        ) + encode_attributes_from(attributes, 0),
    }
}

/// The bytes of an attribute: name index, declared length, and the payload.
pub open spec fn encode_attribute(attribute: AttributeInfoView) -> Seq<u8>
    decreases attribute, 1nat,
{
    u16_bytes(attribute.attribute_name_index()) + u32_bytes(attribute.attribute_length())
        + encode_payload(attribute)
}

/// The bytes of the attributes of `attributes` from index `from` on, one
/// behind the other.
pub open spec fn encode_attributes_from(attributes: Seq<AttributeInfoView>, from: nat) -> Seq<u8>
    decreases attributes, attributes.len() - from,
{
    if from >= attributes.len() {
        Seq::empty()
    } else {
        encode_attribute(attributes[from as int]) + encode_attributes_from(attributes, from + 1)
    }
}

/// The bytes of the attributes of `attributes`, one behind the other.
pub open spec fn encode_attributes(attributes: Seq<AttributeInfoView>) -> Seq<u8> {
    encode_attributes_from(attributes, 0)
}

/// The bytes of a field or a method: its four fixed fields, then its
/// attributes.
pub open spec fn encode_member(member: MemberInfoView) -> Seq<u8> {
    u16_bytes(member.access_flags) + u16_bytes(member.name_index) + u16_bytes(
        member.descriptor_index,
    ) + u16_bytes(member.attributes_count) + encode_attributes(member.attributes)
}

/// The bytes of the members of `members`, one behind the other.
pub open spec fn encode_members(members: Seq<MemberInfoView>) -> Seq<u8>
    decreases members.len(),
{
    if members.len() == 0 {
        Seq::empty()
    } else {
        encode_member(members[0]) + encode_members(members.skip(1))
    }
}

/// The bytes of a list of two-byte indices.
pub open spec fn encode_indices(indices: Seq<u16>) -> Seq<u8>
    decreases indices.len(),
{
    if indices.len() == 0 {
        Seq::empty()
    } else {
        encode_indices(indices.drop_last()) + u16_bytes(indices.last())
    }
}

/// The bytes of a member list: the count, then the members.
pub open spec fn encode_member_table(count: u16, members: Seq<MemberInfoView>) -> Seq<u8> {
    u16_bytes(count) + encode_members(members)
}

/// The bytes of an attribute list: the count, then the attributes.
pub open spec fn encode_attribute_table(count: u16, attributes: Seq<AttributeInfoView>) -> Seq<
    u8,
> {
    u16_bytes(count) + encode_attributes(attributes)
}

/// The bytes of a class file's header: sentinel, versions and constant-pool
/// count.
pub open spec fn encode_header(class_file: ClassFileView) -> Seq<u8> {
    u32_bytes(class_file.magic) + u16_bytes(class_file.minor_version) + u16_bytes(
        class_file.major_version,
    ) + u16_bytes(class_file.constant_pool_count)
}

/// The bytes of the four fields behind the constant pool: access flags,
/// this-class index, super-class index and interface count.
pub open spec fn encode_linkage(class_file: ClassFileView) -> Seq<u8> {
    u16_bytes(class_file.access_flag) + u16_bytes(class_file.this_class) + u16_bytes(
        class_file.super_class,
    ) + u16_bytes(class_file.interfaces_count)
}

/// The bytes of what follows the constant pool.
pub open spec fn encode_body(class_file: ClassFileView) -> Seq<u8> {
    encode_linkage(class_file) + encode_indices(class_file.interfaces) + encode_member_table(
        class_file.fields_count,
        class_file.fields,
    ) + encode_member_table(class_file.methods_count, class_file.methods)
        + encode_attribute_table(class_file.attributes_count, class_file.attributes)
}

/// The bytes of a class file: the header, the constant pool, and what
/// follows the constant pool.
pub open spec fn encode_class(class_file: ClassFileView) -> Seq<u8> {
    encode_header(class_file) + encode_entries(class_file.cp_info) + encode_body(class_file)
}

/// Two neighbouring stretches of a sequence make up the stretch from the
/// start of the first to the end of the second.
pub proof fn lemma_subrange_join<A>(s: Seq<A>, from: int, mid: int, to: int)
    requires
        0 <= from <= mid <= to <= s.len(),
    ensures
        s.subrange(from, mid) + s.subrange(mid, to) == s.subrange(from, to),
{
    assert(s.subrange(from, mid) + s.subrange(mid, to) =~= s.subrange(from, to));
}

/// The bytes of a list of slots are those of its first slot and those of
/// the rest.
pub proof fn lemma_encode_entries_prepend(first: CpInfoView, rest: Seq<CpInfoView>)
    ensures
        encode_entries(seq![first] + rest) == encode_entry(first) + encode_entries(rest),
{
    assert((seq![first] + rest).skip(1) =~= rest);
}

/// A reserved slot adds nothing to the bytes of a list of slots.
pub proof fn lemma_encode_entries_reserved(first: CpInfoView, rest: Seq<CpInfoView>)
    ensures
        encode_entries(seq![first, reserved_slot()] + rest) == encode_entry(first)
            + encode_entries(rest),
        encode_entries(seq![reserved_slot()] + rest) == encode_entries(rest),
{
    lemma_encode_entries_prepend(reserved_slot(), rest);
    assert(Seq::<u8>::empty() + encode_entries(rest) =~= encode_entries(rest));
    assert(seq![first, reserved_slot()] + rest =~= seq![first] + (seq![reserved_slot()] + rest));
    lemma_encode_entries_prepend(first, seq![reserved_slot()] + rest);
}

/// Leaving out the first attribute of a list shifts the indices by one.
pub proof fn lemma_encode_attributes_shift(
    first: AttributeInfoView,
    rest: Seq<AttributeInfoView>,
    from: nat,
)
    ensures
        encode_attributes_from(seq![first] + rest, from + 1) == encode_attributes_from(rest, from),
    decreases rest.len() - from,
{
    let all = seq![first] + rest;
    if from < rest.len() {
        assert(all[from as int + 1] == rest[from as int]);
        lemma_encode_attributes_shift(first, rest, from + 1);
    }
}

/// The bytes of a list of attributes are those of its first attribute and
/// those of the rest.
pub proof fn lemma_encode_attributes_prepend(
    first: AttributeInfoView,
    rest: Seq<AttributeInfoView>,
)
    ensures
        encode_attributes(seq![first] + rest) == encode_attribute(first) + encode_attributes(rest),
{
    lemma_encode_attributes_shift(first, rest, 0);
    assert((seq![first] + rest)[0] == first);
}

} // verus!
