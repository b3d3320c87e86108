//! The class file as a whole, and the decoder's entry point.

use vstd::prelude::*;

use crate::attribute::{
    decode_attributes, lemma_parse_attributes_cut, lemma_parse_attributes_wf, parse_attributes,
    AttributeInfo, AttributeInfoView,
};
use crate::bytes::{has_bytes, u16_at, u32_at, ByteCursor};
use crate::constant_pool::{
    decode_constant_pool, lemma_parse_pool_cut, lemma_parse_pool_wf, parse_pool, pool_slots,
    pool_wf, CpInfo, CpInfoView,
};
use crate::error::DecodeError;
use crate::member::{
    decode_members, lemma_parse_members_cut, lemma_parse_members_wf, parse_members, FieldsInfo,
    MemberInfoView, MethodInfo,
};
use crate::model::{cut_result, views, Parsed};

verus! {

/// The four bytes that every class file starts with.
pub const MAGIC: u32 = 0xCAFE_BABE;

/// A decoded class file. Every field holds what was read, the counts
/// included.
#[derive(Debug, PartialEq, Eq)]
pub struct ClassFile {
    pub magic: u32,
    pub minor_version: u16,
    pub major_version: u16,
    pub constant_pool_count: u16,
    pub cp_info: Vec<CpInfo>,
    pub access_flag: u16,
    pub this_class: u16,
    pub super_class: u16,
    pub interfaces_count: u16,
    pub interfaces: Vec<u16>,
    pub fields_count: u16,
    pub fields: Vec<FieldsInfo>,
    pub methods_count: u16,
    pub methods: Vec<MethodInfo>,
    pub attributes_count: u16,
    pub attributes: Vec<AttributeInfo>,
}

/// The mathematical value of a [`ClassFile`].
pub ghost struct ClassFileView {
    pub magic: u32,
    pub minor_version: u16,
    pub major_version: u16,
    pub constant_pool_count: u16,
    pub cp_info: Seq<CpInfoView>,
    pub access_flag: u16,
    pub this_class: u16,
    pub super_class: u16,
    pub interfaces_count: u16,
    pub interfaces: Seq<u16>,
    pub fields_count: u16,
    pub fields: Seq<MemberInfoView>,
    pub methods_count: u16,
    pub methods: Seq<MemberInfoView>,
    pub attributes_count: u16,
    pub attributes: Seq<AttributeInfoView>,
}

impl View for ClassFile {
    type V = ClassFileView;

    open spec fn view(&self) -> ClassFileView {
        ClassFileView {
            magic: self.magic,
            minor_version: self.minor_version,
            major_version: self.major_version,
            constant_pool_count: self.constant_pool_count,
            cp_info: views(self.cp_info@),
            access_flag: self.access_flag,
            this_class: self.this_class,
            super_class: self.super_class,
            interfaces_count: self.interfaces_count,
            interfaces: self.interfaces@,
            fields_count: self.fields_count,
            fields: views(self.fields@),
            methods_count: self.methods_count,
            methods: views(self.methods@),
            attributes_count: self.attributes_count,
            attributes: views(self.attributes@),
        }
    }
}

impl ClassFileView {
    /// Whether the class file is one that decoding can have produced: it
    /// starts with the sentinel, its constant pool is well formed and has
    /// the slots that its declared count calls for, every other count
    /// counts its list, and every attribute's length fields agree with its
    /// contents.
    pub open spec fn wf(self) -> bool {
        &&& self.magic == MAGIC
        &&& self.cp_info.len() == pool_slots(self.constant_pool_count)
        &&& pool_wf(self.cp_info)
        &&& self.interfaces_count == self.interfaces.len()
        &&& self.fields_count == self.fields.len()
        &&& forall|i: int| 0 <= i < self.fields.len() ==> (#[trigger] self.fields[i]).wf()
        &&& self.methods_count == self.methods.len()
        &&& forall|i: int| 0 <= i < self.methods.len() ==> (#[trigger] self.methods[i]).wf()
        &&& self.attributes_count == self.attributes.len()
        &&& forall|i: int| 0 <= i < self.attributes.len() ==> (#[trigger] self.attributes[i]).wf()
    }

    /// Whether the class file is well formed and every attribute in it has
    /// the form that its name calls for under the class file's own
    /// constant pool. These are the class files that decoding gives.
    pub open spec fn valid(self) -> bool {
        &&& self.wf()
        &&& forall|i: int|
            0 <= i < self.fields.len() ==> (#[trigger] self.fields[i]).fits(self.cp_info)
        &&& forall|i: int|
            0 <= i < self.methods.len() ==> (#[trigger] self.methods[i]).fits(self.cp_info)
        &&& forall|i: int|
            0 <= i < self.attributes.len() ==> (#[trigger] self.attributes[i]).fits(
                self.cp_info,
                0,
            )
    }
}

/// The member list encoded at `pos` in `s`: a two-byte count, then that
/// many members.
pub open spec fn parse_member_table(pool: Seq<CpInfoView>, s: Seq<u8>, pos: int) -> Parsed<
    Seq<MemberInfoView>,
> {
    if !has_bytes(s, pos, 2) {
        Err(DecodeError::UnexpectedEnd)
    } else {
        parse_members(pool, s, pos + 2, u16_at(s, pos) as nat)
    }
}

/// The attribute list of a class encoded at `pos` in `s`: a two-byte
/// count, then that many attributes.
pub open spec fn parse_attribute_table(pool: Seq<CpInfoView>, s: Seq<u8>, pos: int) -> Parsed<
    Seq<AttributeInfoView>,
> {
    if !has_bytes(s, pos, 2) {
        Err(DecodeError::UnexpectedEnd)
    } else {
        parse_attributes(pool, s, pos + 2, u16_at(s, pos) as nat, 0)
    }
}

/// What follows the constant pool `cp_info`, which ended at `pos`: access
/// flags, this-class and super-class index and interface count (two bytes
/// each), the interface indices (two bytes each), the fields, the methods
/// and the attributes of the class. Gives the whole class file.
pub open spec fn parse_class_body(s: Seq<u8>, cp_info: Seq<CpInfoView>, pos: int) -> Parsed<
    ClassFileView,
> {
    if !has_bytes(s, pos, 8) {
        Err(DecodeError::UnexpectedEnd)
    } else {
        let interfaces_count = u16_at(s, pos + 6);
        let interfaces_at = pos + 8;
        if !has_bytes(s, interfaces_at, 2 * interfaces_count) {
            Err(DecodeError::UnexpectedEnd)
        } else {
            let interfaces = Seq::new(
                interfaces_count as nat,
                |i: int| u16_at(s, interfaces_at + 2 * i),
            );
            let fields_at = interfaces_at + 2 * interfaces_count;
            match parse_member_table(cp_info, s, fields_at) {
                Err(e) => Err(e),
                Ok((fields, methods_at)) => match parse_member_table(cp_info, s, methods_at) {
                    Err(e) => Err(e),
                    Ok((methods, attributes_at)) => match parse_attribute_table(
                        cp_info,
                        s,
                        attributes_at,
                    ) {
                        Err(e) => Err(e),
                        Ok((attributes, end)) => Ok(
                            (
                                ClassFileView {
                                    magic: u32_at(s, 0),
                                    minor_version: u16_at(s, 4),
                                    major_version: u16_at(s, 6),
                                    constant_pool_count: u16_at(s, 8),
                                    cp_info,
                                    access_flag: u16_at(s, pos),
                                    this_class: u16_at(s, pos + 2),
                                    super_class: u16_at(s, pos + 4),
                                    interfaces_count,
                                    interfaces,
                                    fields_count: u16_at(s, fields_at),
                                    fields,
                                    methods_count: u16_at(s, methods_at),
                                    methods,
                                    attributes_count: u16_at(s, attributes_at),
                                    attributes,
                                },
                                end,
                            ),
                        ),
                    },
                },
            }
        }
    }
}

/// The class file encoded at the start of `s`, with the offset just behind
/// it: the sentinel (four bytes), minor version, major version and
/// constant-pool count (two bytes each), the constant pool, and what
/// [`parse_class_body`] describes.
pub open spec fn parse_class(s: Seq<u8>) -> Parsed<ClassFileView> {
    if !has_bytes(s, 0, 4) {
        Err(DecodeError::UnexpectedEnd)
    } else if u32_at(s, 0) != MAGIC {
        Err(DecodeError::BadMagic)
    } else if !has_bytes(s, 4, 6) {
        Err(DecodeError::UnexpectedEnd)
    } else {
        match parse_pool(s, 10, u16_at(s, 8)) {
            Err(e) => Err(e),
            Ok((cp_info, pos)) => parse_class_body(s, cp_info, pos),
        }
    }
}

/// What decoding `s` gives: the class file encoded at its start, or the
/// first error met on the way. Bytes behind the class file are not looked
/// at.
pub open spec fn decode_spec(s: Seq<u8>) -> Result<ClassFileView, DecodeError> {
    match parse_class(s) {
        Ok((class_file, _)) => Ok(class_file),
        Err(e) => Err(e),
    }
}

/// Reads the interface indices of a class.
fn decode_interfaces(cursor: &mut ByteCursor, count: u16) -> (r: Result<Vec<u16>, DecodeError>)
    ensures
        final(cursor).bytes() == old(cursor).bytes(),
        match r {
            Ok(interfaces) => has_bytes(old(cursor).bytes(), old(cursor).position(), 2 * count)
                && interfaces@ == Seq::new(
                count as nat,
                |i: int| u16_at(old(cursor).bytes(), old(cursor).position() + 2 * i),
            ) && final(cursor).position() == old(cursor).position() + 2 * count,
            Err(e) => !has_bytes(old(cursor).bytes(), old(cursor).position(), 2 * count) && e
                == DecodeError::UnexpectedEnd,
        },
{
    let ghost s = cursor.bytes();
    let ghost start = cursor.position();
    let mut interfaces: Vec<u16> = Vec::new();
    let mut done: u16 = 0;
    proof {
        cursor.lemma_position_in_bounds();
    }
    while done < count
        invariant
            done <= count,
            cursor.bytes() == s,
            s == old(cursor).bytes(),
            start == old(cursor).position(),
            0 <= start,
            cursor.position() == start + 2 * done,
            cursor.position() <= s.len(),
            interfaces@ == Seq::new(done as nat, |i: int| u16_at(s, start + 2 * i)),
        decreases count - done,
    {
        let index = cursor.read_u16()?;
        interfaces.push(index);
        done = done + 1;
        assert(interfaces@ =~= Seq::new(done as nat, |i: int| u16_at(s, start + 2 * i)));
    }
    Ok(interfaces)
}

/// Decodes the class file at the start of `bytes`. The whole structure is
/// read in one pass: the header, the constant pool, the class's own fields,
/// then its interfaces, fields, methods and attributes. The first error met
/// ends the decoding, and nothing of what was read until then is returned.
pub fn decode(bytes: &[u8]) -> (r: Result<ClassFile, DecodeError>)
    ensures
        match r {
            Ok(class_file) => decode_spec(bytes@) == Ok::<ClassFileView, DecodeError>(
                class_file@,
            ) && class_file@.valid(),
            Err(e) => decode_spec(bytes@) == Err::<ClassFileView, DecodeError>(e),
        },
{
    proof {
        if decode_spec(bytes@) is Ok {
            lemma_decode_valid(bytes@);
        }
    }
    let mut cursor = ByteCursor::new(bytes);
    let magic = cursor.read_u32()?;
    if magic != MAGIC {
        return Err(DecodeError::BadMagic);
    }
    let minor_version = cursor.read_u16()?;
    let major_version = cursor.read_u16()?;
    let constant_pool_count = cursor.read_u16()?;
    let cp_info = decode_constant_pool(&mut cursor, constant_pool_count)?;
    let access_flag = cursor.read_u16()?;
    let this_class = cursor.read_u16()?;
    let super_class = cursor.read_u16()?;
    let interfaces_count = cursor.read_u16()?;
    let interfaces = decode_interfaces(&mut cursor, interfaces_count)?;
    let fields_count = cursor.read_u16()?;
    let fields = decode_members(&cp_info, &mut cursor, fields_count)?;
    let methods_count = cursor.read_u16()?;
    let methods = decode_members(&cp_info, &mut cursor, methods_count)?;
    let attributes_count = cursor.read_u16()?;
    let attributes = decode_attributes(&cp_info, &mut cursor, attributes_count, 0)?;
    Ok(
        ClassFile {
            magic,
            minor_version,
            major_version,
            constant_pool_count,
            cp_info,
            access_flag,
            this_class,
            super_class,
            interfaces_count,
            interfaces,
            fields_count,
            fields,
            methods_count,
            methods,
            attributes_count,
            attributes,
        },
    )
}

/// A member list that was parsed holds as many members as its count
/// says, each well formed, and ends behind where it starts.
pub proof fn lemma_parse_member_table_wf(pool: Seq<CpInfoView>, s: Seq<u8>, pos: int)
    requires
        parse_member_table(pool, s, pos) is Ok,
    ensures
        ({
            let (members, end) = parse_member_table(pool, s, pos)->Ok_0;
            &&& members.len() == u16_at(s, pos)
            &&& forall|i: int| 0 <= i < members.len() ==> (#[trigger] members[i]).wf()
            &&& forall|i: int| 0 <= i < members.len() ==> (#[trigger] members[i]).fits(pool)
            &&& 0 <= pos && pos + 2 <= end <= s.len()
        }),
{
    lemma_parse_members_wf(pool, s, pos + 2, u16_at(s, pos) as nat);
}

/// An attribute list that was parsed holds as many attributes as its
/// count says, each well formed, and ends behind where it starts.
pub proof fn lemma_parse_attribute_table_wf(pool: Seq<CpInfoView>, s: Seq<u8>, pos: int)
    requires
        parse_attribute_table(pool, s, pos) is Ok,
    ensures
        ({
            let (attributes, end) = parse_attribute_table(pool, s, pos)->Ok_0;
            &&& attributes.len() == u16_at(s, pos)
            &&& forall|i: int| 0 <= i < attributes.len() ==> (#[trigger] attributes[i]).wf()
            &&& forall|i: int|
                0 <= i < attributes.len() ==> (#[trigger] attributes[i]).fits(pool, 0)
            &&& 0 <= pos && pos + 2 <= end <= s.len()
        }),
{
    lemma_parse_attributes_wf(pool, s, pos + 2, u16_at(s, pos) as nat, 0);
}

/// Parsing a member list from the first `cut` bytes of `s` gives what
/// parsing it from `s` gives, unless those bytes end before the list does.
pub proof fn lemma_parse_member_table_cut(pool: Seq<CpInfoView>, s: Seq<u8>, cut: int, pos: int)
    requires
        0 <= pos <= cut <= s.len(),
    ensures
        cut_result(
            parse_member_table(pool, s, pos),
            parse_member_table(pool, s.take(cut), pos),
            cut,
        ),
{
    if parse_member_table(pool, s, pos) is Ok {
        lemma_parse_member_table_wf(pool, s, pos);
    }
    if pos + 2 <= cut {
        lemma_parse_members_cut(pool, s, cut, pos + 2, u16_at(s, pos) as nat);
    }
}

/// Parsing an attribute list from the first `cut` bytes of `s` gives what
/// parsing it from `s` gives, unless those bytes end before the list does.
pub proof fn lemma_parse_attribute_table_cut(
    pool: Seq<CpInfoView>,
    s: Seq<u8>,
    cut: int,
    pos: int,
)
    requires
        0 <= pos <= cut <= s.len(),
    ensures
        cut_result(
            parse_attribute_table(pool, s, pos),
            parse_attribute_table(pool, s.take(cut), pos),
            cut,
        ),
{
    if parse_attribute_table(pool, s, pos) is Ok {
        lemma_parse_attribute_table_wf(pool, s, pos);
    }
    if pos + 2 <= cut {
        lemma_parse_attributes_cut(pool, s, cut, pos + 2, u16_at(s, pos) as nat, 0);
    }
}

/// What was parsed behind the constant pool is valid as far as it goes,
/// and ends behind where it starts.
pub proof fn lemma_parse_class_body_wf(s: Seq<u8>, cp_info: Seq<CpInfoView>, pos: int)
    requires
        parse_class_body(s, cp_info, pos) is Ok,
    ensures
        ({
            let (class_file, end) = parse_class_body(s, cp_info, pos)->Ok_0;
            &&& class_file.cp_info == cp_info
            &&& class_file.magic == u32_at(s, 0)
            &&& class_file.constant_pool_count == u16_at(s, 8)
            &&& class_file.interfaces_count == class_file.interfaces.len()
            &&& class_file.fields_count == class_file.fields.len()
            &&& forall|i: int|
                0 <= i < class_file.fields.len() ==> (#[trigger] class_file.fields[i]).wf()
            &&& class_file.methods_count == class_file.methods.len()
            &&& forall|i: int|
                0 <= i < class_file.methods.len() ==> (#[trigger] class_file.methods[i]).wf()
            &&& class_file.attributes_count == class_file.attributes.len()
            &&& forall|i: int|
                0 <= i < class_file.attributes.len() ==> (#[trigger] class_file.attributes[i]).wf()
            &&& forall|i: int|
                0 <= i < class_file.fields.len() ==> (#[trigger] class_file.fields[i]).fits(cp_info)
            &&& forall|i: int|
                0 <= i < class_file.methods.len() ==> (#[trigger] class_file.methods[i]).fits(
                    cp_info,
                )
            &&& forall|i: int|
                0 <= i < class_file.attributes.len() ==> (#[trigger] class_file.attributes[i]).fits(
                    cp_info,
                    0,
                )
            &&& 0 <= pos && pos + 14 <= end <= s.len()
        }),
{
    let fields_at = pos + 8 + 2 * u16_at(s, pos + 6);
    lemma_parse_member_table_wf(cp_info, s, fields_at);
    let (fields, methods_at) = parse_member_table(cp_info, s, fields_at)->Ok_0;
    lemma_parse_member_table_wf(cp_info, s, methods_at);
    let (methods, attributes_at) = parse_member_table(cp_info, s, methods_at)->Ok_0;
    lemma_parse_attribute_table_wf(cp_info, s, attributes_at);
}

/// Parsing what follows the constant pool from the first `cut` bytes of `s`
/// gives what parsing it from `s` gives, unless those bytes end before the
/// class file does.
pub proof fn lemma_parse_class_body_cut(s: Seq<u8>, cut: int, cp_info: Seq<CpInfoView>, pos: int)
    requires
        10 <= pos <= cut <= s.len(),
    ensures
        cut_result(
            parse_class_body(s, cp_info, pos),
            parse_class_body(s.take(cut), cp_info, pos),
            cut,
        ),
{
    let t = s.take(cut);
    let interfaces_count = u16_at(s, pos + 6);
    let fields_at = pos + 8 + 2 * interfaces_count;
    if has_bytes(s, pos, 8) && has_bytes(s, pos + 8, 2 * interfaces_count) {
        let fields = parse_member_table(cp_info, s, fields_at);
        if fields_at <= cut {
            assert(Seq::new(interfaces_count as nat, |i: int| u16_at(t, pos + 8 + 2 * i))
                =~= Seq::new(interfaces_count as nat, |i: int| u16_at(s, pos + 8 + 2 * i)));
            lemma_parse_member_table_cut(cp_info, s, cut, fields_at);
        }
        if fields is Ok {
            let methods_at = fields->Ok_0.1;
            let methods = parse_member_table(cp_info, s, methods_at);
            lemma_parse_member_table_wf(cp_info, s, fields_at);
            if methods_at <= cut {
                lemma_parse_member_table_cut(cp_info, s, cut, methods_at);
            }
            if methods is Ok {
                let attributes_at = methods->Ok_0.1;
                lemma_parse_member_table_wf(cp_info, s, methods_at);
                if attributes_at <= cut {
                    lemma_parse_attribute_table_cut(cp_info, s, cut, attributes_at);
                }
                if parse_attribute_table(cp_info, s, attributes_at) is Ok {
                    lemma_parse_attribute_table_wf(cp_info, s, attributes_at);
                }
            }
        }
    }
}

/// A class file that was parsed is valid and ends within the input.
pub proof fn lemma_parse_class_valid(s: Seq<u8>)
    requires
        parse_class(s) is Ok,
    ensures
        parse_class(s)->Ok_0.0.valid(),
        24 <= parse_class(s)->Ok_0.1 <= s.len(),
{
    lemma_parse_pool_wf(s, 10, u16_at(s, 8));
    let (cp_info, pos) = parse_pool(s, 10, u16_at(s, 8))->Ok_0;
    lemma_parse_class_body_wf(s, cp_info, pos);
}

/// Decoding the same bytes twice gives two class files of the same value,
/// or twice the same error: whatever two results meet the contract of
/// [`decode`] for equal inputs, they agree.
pub proof fn lemma_decode_deterministic(
    first_bytes: Seq<u8>,
    second_bytes: Seq<u8>,
    first: Result<ClassFile, DecodeError>,
    second: Result<ClassFile, DecodeError>,
)
    requires
        first_bytes == second_bytes,
        match first {
            Ok(class_file) => decode_spec(first_bytes) == Ok::<ClassFileView, DecodeError>(
                class_file@,
            ),
            Err(e) => decode_spec(first_bytes) == Err::<ClassFileView, DecodeError>(e),
        },
        match second {
            Ok(class_file) => decode_spec(second_bytes) == Ok::<ClassFileView, DecodeError>(
                class_file@,
            ),
            Err(e) => decode_spec(second_bytes) == Err::<ClassFileView, DecodeError>(e),
        },
    ensures
        match (first, second) {
            (Ok(a), Ok(b)) => a@ == b@,
            (Err(a), Err(b)) => a == b,
            _ => false,
        },
{
}

/// What decoding gives is valid.
pub proof fn lemma_decode_valid(s: Seq<u8>)
    requires
        decode_spec(s) is Ok,
    ensures
        decode_spec(s)->Ok_0.valid(),
{
    lemma_parse_class_valid(s);
}

/// Parsing a class file from the first `cut` bytes of `s` gives what
/// parsing it from `s` gives, unless those bytes end before the class file
/// does: of an input that holds a class file, every prefix that stops
/// before the end of the class file ends unexpectedly, and every prefix
/// that holds all of the class file holds the same class file.
pub proof fn lemma_parse_class_cut(s: Seq<u8>, cut: int)
    requires
        0 <= cut <= s.len(),
    ensures
        cut_result(parse_class(s), parse_class(s.take(cut)), cut),
{
    if parse_class(s) is Ok {
        lemma_parse_class_valid(s);
    }
    if cut >= 10 {
        let count = u16_at(s, 8);
        lemma_parse_pool_cut(s, cut, 10, count);
        if parse_pool(s, 10, count) is Ok {
            let (cp_info, pos) = parse_pool(s, 10, count)->Ok_0;
            lemma_parse_pool_wf(s, 10, count);
            if parse_class_body(s, cp_info, pos) is Ok {
                lemma_parse_class_body_wf(s, cp_info, pos);
            }
            if pos <= cut {
                lemma_parse_class_body_cut(s, cut, cp_info, pos);
            }
        }
    }
}

/// Cutting an input that decodes anywhere before the end of its class file
/// gives an input whose decoding fails with
/// [`DecodeError::UnexpectedEnd`].
pub proof fn lemma_truncation_is_unexpected_end(s: Seq<u8>, cut: int)
    requires
        parse_class(s) is Ok,
        0 <= cut < parse_class(s)->Ok_0.1,
    ensures
        decode_spec(s.take(cut)) == Err::<ClassFileView, DecodeError>(DecodeError::UnexpectedEnd),
{
    lemma_parse_class_valid(s);
    lemma_parse_class_cut(s, cut);
}

/// Cutting any input anywhere changes what its decoding gives into an
/// unexpected end, or not at all.
pub proof fn lemma_truncation_changes_nothing_else(s: Seq<u8>, cut: int)
    requires
        0 <= cut <= s.len(),
    ensures
        decode_spec(s.take(cut)) == decode_spec(s) || decode_spec(s.take(cut)) == Err::<
            ClassFileView,
            DecodeError,
        >(DecodeError::UnexpectedEnd),
{
    lemma_parse_class_cut(s, cut);
}

} // verus!
