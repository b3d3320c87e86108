//! Attributes: the named, length-delimited blocks attached to a class, a
//! field, a method or another attribute.

use vstd::prelude::*;

use crate::bytes::{has_bytes, u16_at, u32_at, ByteCursor};
use crate::constant_pool::{lookup, lookup_spec, CpInfo, CpInfoView, Info, InfoView};
use crate::error::DecodeError;
use crate::model::{
    cut_result, lemma_prepend_empty, lemma_prepend_twice, lemma_views_push, prepend, views,
    Parsed,
};

verus! {

/// How deeply `Code` attributes may be nested: a `Code` attribute with this
/// many `Code` attributes around it is refused.
pub const MAX_CODE_NESTING: usize = 32;

/// One row of a `Code` attribute's exception table: the handler at
/// `handler_pc` covers the instructions from `start_pc` up to, not
/// including, `end_pc`, for exceptions of the class at pool index
/// `catch_type`, or for all exceptions where that is 0.
#[derive(Clone, Copy, Debug, PartialEq, Eq, Structural)]
pub struct ExceptionTable {
    pub start_pc: u16,
    pub end_pc: u16,
    pub handler_pc: u16,
    pub catch_type: u16,
}

/// A decoded attribute.
#[derive(Debug, PartialEq, Eq)]
pub enum AttributeInfo {
    /// An attribute that is kept as its raw payload.
    Other { attribute_name_index: u16, attribute_length: u32, info: Vec<u8> },
    /// The attribute named `Code`: a method's instructions and what belongs
    /// to them.
    Code {
        attribute_name_index: u16,
        attribute_length: u32,
        max_stack: u16,
        max_locals: u16,
        code_length: u32,
        code: Vec<u8>,
        exception_table_length: u16,
        exception_table: Vec<ExceptionTable>,
        attributes_count: u16,
        attributes: Vec<AttributeInfo>,
    },
}

/// The mathematical value of an [`AttributeInfo`].
pub ghost enum AttributeInfoView {
    Other { attribute_name_index: u16, attribute_length: u32, info: Seq<u8> },
    Code {
        attribute_name_index: u16,
        attribute_length: u32,
        max_stack: u16,
        max_locals: u16,
        code_length: u32,
        code: Seq<u8>,
        exception_table_length: u16,
        exception_table: Seq<ExceptionTable>,
        attributes_count: u16,
        attributes: Seq<AttributeInfoView>,
    },
}

/// The mathematical value of `attribute`.
pub open spec fn attribute_view(attribute: AttributeInfo) -> AttributeInfoView
    decreases attribute,
{
    match attribute {
        AttributeInfo::Other {
            attribute_name_index,
            attribute_length,
            info,
        } => AttributeInfoView::Other { attribute_name_index, attribute_length, info: info@ },
        AttributeInfo::Code {
            attribute_name_index,
            attribute_length,
            max_stack,
            max_locals,
            code_length,
            code,
            exception_table_length,
            exception_table,
            attributes_count,
            attributes,
        } => AttributeInfoView::Code {
            attribute_name_index,
            attribute_length,
            max_stack,
            max_locals,
            code_length,
            code: code@,
            exception_table_length,
            exception_table: exception_table@,
            attributes_count,
            attributes: Seq::new(
                attributes@.len(),
                |i: int|
                    if 0 <= i < attributes@.len() {
                        attribute_view(attributes@[i])
                    } else {
                        arbitrary()
                    },
            ),
        },
    }
}

impl View for AttributeInfo {
    type V = AttributeInfoView;

    open spec fn view(&self) -> AttributeInfoView {
        attribute_view(*self)
    }
}

/// The view of a `Code` attribute holds the views of its nested attributes.
pub proof fn lemma_view_of_code(attribute: AttributeInfo)
    requires
        attribute is Code,
    ensures
        attribute@ is Code,
        attribute@->attributes == views(attribute->attributes@),
{
    assert(attribute@->attributes =~= views(attribute->attributes@));
}

impl AttributeInfoView {
    /// The length that the attribute declares for its payload.
    pub open spec fn attribute_length(self) -> u32 {
        match self {
            AttributeInfoView::Other { attribute_length, .. } => attribute_length,
            AttributeInfoView::Code { attribute_length, .. } => attribute_length,
        }
    }

    /// The number of bytes that the attribute takes in a class file: name
    /// index, length field and payload.
    pub open spec fn encoded_len(self) -> int {
        6 + self.attribute_length()
    }

    /// The index of the attribute's name in the constant pool.
    pub open spec fn attribute_name_index(self) -> u16 {
        match self {
            AttributeInfoView::Other { attribute_name_index, .. } => attribute_name_index,
            AttributeInfoView::Code { attribute_name_index, .. } => attribute_name_index,
        }
    }

    /// Whether the attribute has, at every level, the form that its name
    /// calls for under `pool`, `depth` being the number of `Code`
    /// attributes around it: the name is a `Utf8` entry, it is `Code`
    /// exactly for a `Code` attribute, and no `Code` attribute has
    /// [`MAX_CODE_NESTING`] or more of them around it.
    pub open spec fn fits(self, pool: Seq<CpInfoView>, depth: nat) -> bool
        decreases self,
    {
        match self {
            AttributeInfoView::Other { attribute_name_index, .. } => {
                &&& utf8_at(pool, attribute_name_index) is Some
                &&& utf8_at(pool, attribute_name_index) != Some(code_name())
            },
            AttributeInfoView::Code { attribute_name_index, attributes, .. } => {
                &&& utf8_at(pool, attribute_name_index) == Some(code_name())
                &&& depth < MAX_CODE_NESTING
                &&& forall|i: int|
                    0 <= i < attributes.len() ==> (#[trigger] attributes[i]).fits(pool, depth + 1)
            },
        }
    }

    /// Whether the attribute's length fields agree with its contents, at
    /// every level: a raw payload has the declared length, and a `Code`
    /// attribute's declared length is that of its fixed fields, its
    /// instructions, its exception table and its nested attributes together.
    pub open spec fn wf(self) -> bool
        decreases self,
    {
        match self {
            AttributeInfoView::Other { attribute_length, info, .. } => attribute_length
                == info.len(),
            AttributeInfoView::Code {
                attribute_length,
                code_length,
                code,
                exception_table_length,
                exception_table,
                attributes_count,
                attributes,
                ..
            } => {
                &&& code_length == code.len()
                &&& exception_table_length == exception_table.len()
                &&& attributes_count == attributes.len()
                &&& forall|i: int|
                    0 <= i < attributes.len() ==> (#[trigger] attributes[i]).wf()
                &&& attribute_length == 2 + 2 + 4 + code_length + 2 + 8 * exception_table_length
                    + 2 + total_encoded_len(attributes)
            },
        }
    }
}

/// The bytes of the `Utf8` entry that `index` refers to in `pool`, if it
/// refers to one.
pub open spec fn utf8_at(pool: Seq<CpInfoView>, index: u16) -> Option<Seq<u8>> {
    match lookup_spec(pool, index) {
        Ok(entry) => match entry.info {
            InfoView::Utf8 { bytes, .. } => Some(bytes),
            _ => None,
        },
        Err(_) => None,
    }
}

/// The number of bytes that the attributes of `attributes` take together in
/// a class file.
pub open spec fn total_encoded_len(attributes: Seq<AttributeInfoView>) -> int
    decreases attributes.len(),
{
    if attributes.len() == 0 {
        0
    } else {
        attributes[0].encoded_len() + total_encoded_len(attributes.skip(1))
    }
}

/// The name that marks a `Code` attribute: the bytes of `"Code"`.
pub open spec fn code_name() -> Seq<u8> {
    seq![0x43u8, 0x6fu8, 0x64u8, 0x65u8]
}

/// The exception-table row encoded at `pos` in `s`.
pub open spec fn exception_row(s: Seq<u8>, pos: int) -> ExceptionTable {
    ExceptionTable {
        start_pc: u16_at(s, pos),
        end_pc: u16_at(s, pos + 2),
        handler_pc: u16_at(s, pos + 4),
        catch_type: u16_at(s, pos + 6),
    }
}

/// The `Code` attribute whose payload is `info`, enclosed in `depth` other
/// `Code` attributes. The payload is, in this order: `max_stack` and
/// `max_locals` (two bytes each), the length of the instructions (four
/// bytes), the instructions, the number of exception-table rows (two
/// bytes), the rows (eight bytes each), the number of nested attributes
/// (two bytes) and the nested attributes. It must hold exactly that.
pub open spec fn parse_code(
    pool: Seq<CpInfoView>,
    attribute_name_index: u16,
    attribute_length: u32,
    info: Seq<u8>,
    depth: nat,
) -> Result<AttributeInfoView, DecodeError>
    decreases info.len(), 2nat, 0nat,
{
    if depth >= MAX_CODE_NESTING {
        Err(DecodeError::RecursionLimitExceeded)
    } else if !has_bytes(info, 0, 8) {
        Err(DecodeError::MalformedAttribute)
    } else {
        let max_stack = u16_at(info, 0);
        let max_locals = u16_at(info, 2);
        let code_length = u32_at(info, 4);
        if !has_bytes(info, 8, code_length + 2) {
            Err(DecodeError::MalformedAttribute)
        } else {
            let code = info.subrange(8, 8 + code_length);
            let exception_table_length = u16_at(info, 8 + code_length);
            let rows_at = 8 + code_length + 2;
            if !has_bytes(info, rows_at, 8 * exception_table_length + 2) {
                Err(DecodeError::MalformedAttribute)
            } else {
                let exception_table = Seq::new(
                    exception_table_length as nat,
                    |i: int| exception_row(info, rows_at + 8 * i),
                );
                let attributes_count = u16_at(info, rows_at + 8 * exception_table_length);
                let attributes_at = rows_at + 8 * exception_table_length + 2;
                match parse_attributes(
                    pool,
                    info,
                    attributes_at,
                    attributes_count as nat,
                    depth + 1,
                ) {
                    Err(e) => if e == DecodeError::UnexpectedEnd {
                        Err(DecodeError::MalformedAttribute)
                    } else {
                        Err(e)
                    },
                    Ok((attributes, end)) => if end != info.len() {
                        Err(DecodeError::MalformedAttribute)
                    } else {
                        Ok(
                            AttributeInfoView::Code {
                                attribute_name_index,
                                attribute_length,
                                max_stack,
                                max_locals,
                                code_length,
                                code,
                                exception_table_length,
                                exception_table,
                                attributes_count,
                                attributes,
                            },
                        )
                    },
                }
            }
        }
    }
}

/// The attribute with the given name index, declared length and payload,
/// enclosed in `depth` `Code` attributes. The name index must refer to a
/// `Utf8` entry of `pool` and the payload must have the declared length.
/// Under the name `Code` the payload is taken apart; under any other name
/// it is kept as it is.
pub open spec fn interpret_attribute(
    pool: Seq<CpInfoView>,
    attribute_name_index: u16,
    attribute_length: u32,
    info: Seq<u8>,
    depth: nat,
) -> Result<AttributeInfoView, DecodeError>
    decreases info.len(), 3nat, 0nat,
{
    match lookup_spec(pool, attribute_name_index) {
        Err(e) => Err(e),
        Ok(entry) => match entry.info {
            InfoView::Utf8 { bytes: name, .. } => if info.len() != attribute_length {
                Err(DecodeError::MalformedAttribute)
            } else if name == code_name() {
                parse_code(pool, attribute_name_index, attribute_length, info, depth)
            } else {
                Ok(AttributeInfoView::Other { attribute_name_index, attribute_length, info })
            },
            _ => Err(DecodeError::InvalidAttributeName),
        },
    }
}

/// The attribute encoded at `pos` in `s`, with the offset just behind it:
/// name index (two bytes), payload length (four bytes), payload.
pub open spec fn parse_attribute(pool: Seq<CpInfoView>, s: Seq<u8>, pos: int, depth: nat) -> Parsed<
    AttributeInfoView,
>
    decreases s.len(), 0nat, 0nat,
{
    if !has_bytes(s, pos, 6) {
        Err(DecodeError::UnexpectedEnd)
    } else {
        let attribute_name_index = u16_at(s, pos);
        let attribute_length = u32_at(s, pos + 2);
        if !has_bytes(s, pos + 6, attribute_length as int) {
            Err(DecodeError::UnexpectedEnd)
        } else {
            let info = s.subrange(pos + 6, pos + 6 + attribute_length);
            match interpret_attribute(pool, attribute_name_index, attribute_length, info, depth) {
                Ok(attribute) => Ok((attribute, pos + 6 + attribute_length)),
                Err(e) => Err(e),
            }
        }
    }
}

/// The `count` attributes encoded one behind the other from `pos` on in
/// `s`, with the offset just behind the last.
pub open spec fn parse_attributes(
    pool: Seq<CpInfoView>,
    s: Seq<u8>,
    pos: int,
    count: nat,
    depth: nat,
) -> Parsed<Seq<AttributeInfoView>>
    decreases s.len(), 1nat, count,
{
    if count == 0 {
        Ok((Seq::empty(), pos))
    } else {
        match parse_attribute(pool, s, pos, depth) {
            Err(e) => Err(e),
            Ok((first, next)) => prepend(
                seq![first],
                parse_attributes(pool, s, next, (count - 1) as nat, depth),
            ),
        }
    }
}

/// Whether `name` is the name of the `Code` attribute.
fn is_code_name(name: &Vec<u8>) -> (b: bool)
    ensures
        b == (name@ == code_name()),
{
    let b = name.len() == 4 && name[0] == 0x43 && name[1] == 0x6f && name[2] == 0x64 && name[3]
        == 0x65;
    proof {
        if b {
            assert(name@ =~= code_name());
        }
    }
    b
}

/// Reads one row of an exception table.
fn decode_exception_row(cursor: &mut ByteCursor) -> (r: Result<ExceptionTable, DecodeError>)
    ensures
        final(cursor).bytes() == old(cursor).bytes(),
        match r {
            Ok(row) => has_bytes(old(cursor).bytes(), old(cursor).position(), 8) && row
                == exception_row(old(cursor).bytes(), old(cursor).position())
                && final(cursor).position() == old(cursor).position() + 8,
            Err(e) => !has_bytes(old(cursor).bytes(), old(cursor).position(), 8) && e
                == DecodeError::UnexpectedEnd,
        },
{
    let start_pc = cursor.read_u16()?;
    let end_pc = cursor.read_u16()?;
    let handler_pc = cursor.read_u16()?;
    let catch_type = cursor.read_u16()?;
    Ok(ExceptionTable { start_pc, end_pc, handler_pc, catch_type })
}

/// Takes the payload of a `Code` attribute apart. The payload must hold the
/// attribute's fields and nothing else; `depth` is the number of `Code`
/// attributes around it.
fn decode_code(
    pool: &Vec<CpInfo>,
    attribute_name_index: u16,
    attribute_length: u32,
    info: &Vec<u8>,
    depth: usize,
) -> (r: Result<AttributeInfo, DecodeError>)
    ensures
        match r {
            Ok(attribute) => parse_code(
                views(pool@),
                attribute_name_index,
                attribute_length,
                info@,
                depth as nat,
            ) == Ok::<AttributeInfoView, DecodeError>(attribute@),
            Err(e) => parse_code(
                views(pool@),
                attribute_name_index,
                attribute_length,
                info@,
                depth as nat,
            ) == Err::<AttributeInfoView, DecodeError>(e),
        },
    decreases info@.len(), 2nat, 0nat,
{
    if depth >= MAX_CODE_NESTING {
        return Err(DecodeError::RecursionLimitExceeded);
    }
    let mut cursor = ByteCursor::new(info.as_slice());
    let max_stack = match cursor.read_u16() {
        Ok(value) => value,
        Err(_) => {
            return Err(DecodeError::MalformedAttribute);
        },
    };
    let max_locals = match cursor.read_u16() {
        Ok(value) => value,
        Err(_) => {
            return Err(DecodeError::MalformedAttribute);
        },
    };
    let code_length = match cursor.read_u32() {
        Ok(value) => value,
        Err(_) => {
            return Err(DecodeError::MalformedAttribute);
        },
    };
    let code = match cursor.read_limit(code_length) {
        Ok(bytes) => bytes,
        Err(_) => {
            return Err(DecodeError::MalformedAttribute);
        },
    };
    let exception_table_length = match cursor.read_u16() {
        Ok(value) => value,
        Err(_) => {
            return Err(DecodeError::MalformedAttribute);
        },
    };
    let ghost rows_at = 8 + code_length + 2;
    let mut exception_table: Vec<ExceptionTable> = Vec::new();
    let mut row: u16 = 0;
    while row < exception_table_length
        invariant
            row <= exception_table_length,
            cursor.bytes() == info@,
            cursor.position() == rows_at + 8 * row,
            rows_at == 8 + code_length + 2,
            depth < MAX_CODE_NESTING,
            has_bytes(info@, 0, 8),
            code_length == u32_at(info@, 4),
            has_bytes(info@, 8, code_length + 2),
            exception_table_length == u16_at(info@, 8 + code_length),
            exception_table@ == Seq::new(
                row as nat,
                |i: int| exception_row(info@, rows_at + 8 * i),
            ),
        decreases exception_table_length - row,
    {
        let entry = match decode_exception_row(&mut cursor) {
            Ok(entry) => entry,
            Err(_) => {
                return Err(DecodeError::MalformedAttribute);
            },
        };
        exception_table.push(entry);
        row = row + 1;
        assert(exception_table@ =~= Seq::new(
            row as nat,
            |i: int| exception_row(info@, rows_at + 8 * i),
        ));
    }
    let attributes_count = match cursor.read_u16() {
        Ok(value) => value,
        Err(_) => {
            return Err(DecodeError::MalformedAttribute);
        },
    };
    match decode_attributes(pool, &mut cursor, attributes_count, depth + 1) {
        Err(DecodeError::UnexpectedEnd) => Err(DecodeError::MalformedAttribute),
        Err(e) => Err(e),
        Ok(attributes) => {
            if cursor.remaining() != 0 {
                return Err(DecodeError::MalformedAttribute);
            }
            let attribute = AttributeInfo::Code {
                attribute_name_index,
                attribute_length,
                max_stack,
                max_locals,
                code_length,
                code,
                exception_table_length,
                exception_table,
                attributes_count,
                attributes,
            };
            proof {
                lemma_view_of_code(attribute);
            }
            Ok(attribute)
        },
    }
}

/// Gives an attribute its decoded form, `depth` being the number of `Code`
/// attributes around it.
fn interpret(
    pool: &Vec<CpInfo>,
    attribute_name_index: u16,
    attribute_length: u32,
    info: Vec<u8>,
    depth: usize,
) -> (r: Result<AttributeInfo, DecodeError>)
    ensures
        match r {
            Ok(attribute) => interpret_attribute(
                views(pool@),
                attribute_name_index,
                attribute_length,
                info@,
                depth as nat,
            ) == Ok::<AttributeInfoView, DecodeError>(attribute@),
            Err(e) => interpret_attribute(
                views(pool@),
                attribute_name_index,
                attribute_length,
                info@,
                depth as nat,
            ) == Err::<AttributeInfoView, DecodeError>(e),
        },
    decreases info@.len(), 3nat, 0nat,
{
    let entry = lookup(pool, attribute_name_index)?;
    match &entry.info {
        Info::Utf8 { bytes, .. } => {
            if info.len() != attribute_length as usize {
                Err(DecodeError::MalformedAttribute)
            } else if is_code_name(bytes) {
                decode_code(pool, attribute_name_index, attribute_length, &info, depth)
            } else {
                Ok(AttributeInfo::Other { attribute_name_index, attribute_length, info })
            }
        },
        _ => Err(DecodeError::InvalidAttributeName),
    }
}

/// Reads one attribute: name index, payload length, payload; then gives it
/// its decoded form. `depth` is the number of `Code` attributes around it.
pub fn decode_attribute(pool: &Vec<CpInfo>, cursor: &mut ByteCursor, depth: usize) -> (r: Result<
    AttributeInfo,
    DecodeError,
>)
    ensures
        final(cursor).bytes() == old(cursor).bytes(),
        match r {
            Ok(attribute) => parse_attribute(
                views(pool@),
                old(cursor).bytes(),
                old(cursor).position(),
                depth as nat,
            ) == Ok::<(AttributeInfoView, int), DecodeError>(
                (attribute@, final(cursor).position()),
            ),
            Err(e) => parse_attribute(
                views(pool@),
                old(cursor).bytes(),
                old(cursor).position(),
                depth as nat,
            ) == Err::<(AttributeInfoView, int), DecodeError>(e),
        },
    decreases old(cursor).bytes().len(), 0nat, 0nat,
{
    let attribute_name_index = cursor.read_u16()?;
    let attribute_length = cursor.read_u32()?;
    let info = cursor.read_exact(attribute_length as usize)?;
    interpret(pool, attribute_name_index, attribute_length, info, depth)
}

/// Reads `count` attributes, one behind the other. `depth` is the number
/// of `Code` attributes around them.
pub fn decode_attributes(
    pool: &Vec<CpInfo>,
    cursor: &mut ByteCursor,
    count: u16,
    depth: usize,
) -> (r: Result<Vec<AttributeInfo>, DecodeError>)
    ensures
        final(cursor).bytes() == old(cursor).bytes(),
        match r {
            Ok(attributes) => parse_attributes(
                views(pool@),
                old(cursor).bytes(),
                old(cursor).position(),
                count as nat,
                depth as nat,
            ) == Ok::<(Seq<AttributeInfoView>, int), DecodeError>(
                (views(attributes@), final(cursor).position()),
            ),
            Err(e) => parse_attributes(
                views(pool@),
                old(cursor).bytes(),
                old(cursor).position(),
                count as nat,
                depth as nat,
            ) == Err::<(Seq<AttributeInfoView>, int), DecodeError>(e),
        },
    decreases old(cursor).bytes().len(), 1nat, count,
{
    let ghost s = cursor.bytes();
    let ghost start = cursor.position();
    let mut attributes: Vec<AttributeInfo> = Vec::new();
    let mut done: u16 = 0;
    proof {
        assert(views(attributes@) =~= Seq::<AttributeInfoView>::empty());
        lemma_prepend_empty(parse_attributes(views(pool@), s, start, count as nat, depth as nat));
    }
    while done < count
        invariant
            done <= count,
            cursor.bytes() == s,
            s == old(cursor).bytes(),
            start == old(cursor).position(),
            parse_attributes(views(pool@), s, start, count as nat, depth as nat) == prepend(
                views(attributes@),
                parse_attributes(
                    views(pool@),
                    s,
                    cursor.position(),
                    (count - done) as nat,
                    depth as nat,
                ),
            ),
        decreases count - done,
    {
        let ghost before = views(attributes@);
        let attribute = decode_attribute(pool, cursor, depth)?;
        let ghost first = attribute@;
        attributes.push(attribute);
        done = done + 1;
        proof {
            lemma_views_push(attributes@.drop_last(), attributes@.last());
            assert(attributes@.drop_last().push(attributes@.last()) =~= attributes@);
            assert(views(attributes@) =~= before + seq![first]);
            lemma_prepend_twice(
                before,
                seq![first],
                parse_attributes(
                    views(pool@),
                    s,
                    cursor.position(),
                    (count - done) as nat,
                    depth as nat,
                ),
            );
        }
    }
    proof {
        assert(views(attributes@) + Seq::<AttributeInfoView>::empty() =~= views(attributes@));
    }
    Ok(attributes)
}

impl AttributeInfo {
    /// Gives the attribute with the given name index, declared length and
    /// payload its decoded form. The name index must refer to a `Utf8`
    /// entry of `cp_info`, and `info` must hold `attribute_length` bytes.
    /// Under the name `Code` the payload is taken apart and must hold
    /// exactly the fields of a `Code` attribute; under any other name it
    /// is kept as it is.
    pub fn new(
        cp_info: &Vec<CpInfo>,
        attribute_name_index: u16,
        attribute_length: u32,
        info: Vec<u8>,
    ) -> (r: Result<AttributeInfo, DecodeError>)
        ensures
            match r {
                Ok(attribute) => interpret_attribute(
                    views(cp_info@),
                    attribute_name_index,
                    attribute_length,
                    info@,
                    0,
                ) == Ok::<AttributeInfoView, DecodeError>(attribute@) && attribute@.wf()
                    && attribute@.fits(views(cp_info@), 0),
                Err(e) => interpret_attribute(
                    views(cp_info@),
                    attribute_name_index,
                    attribute_length,
                    info@,
                    0,
                ) == Err::<AttributeInfoView, DecodeError>(e),
            },
    {
        proof {
            if interpret_attribute(
                views(cp_info@),
                attribute_name_index,
                attribute_length,
                info@,
                0,
            ) is Ok {
                lemma_interpret_attribute_wf(
                    views(cp_info@),
                    attribute_name_index,
                    attribute_length,
                    info@,
                    0,
                );
            }
        }
        interpret(cp_info, attribute_name_index, attribute_length, info, 0)
    }
}

/// The encoded length of a list is that of its first attribute and that of
/// the rest.
pub proof fn lemma_total_encoded_len_prepend(
    first: AttributeInfoView,
    rest: Seq<AttributeInfoView>,
)
    ensures
        total_encoded_len(seq![first] + rest) == first.encoded_len() + total_encoded_len(rest),
{
    assert((seq![first] + rest).skip(1) =~= rest);
}

/// An attribute that was given its decoded form is well formed and has the
/// form that its name calls for. For a `Code` attribute the first says
/// that its declared length is
/// `2 + 2 + 4 + code_length + 2 + 8 * exception_table_length + 2` plus the
/// encoded lengths of its nested attributes.
pub proof fn lemma_interpret_attribute_wf(
    pool: Seq<CpInfoView>,
    attribute_name_index: u16,
    attribute_length: u32,
    info: Seq<u8>,
    depth: nat,
)
    requires
        interpret_attribute(pool, attribute_name_index, attribute_length, info, depth) is Ok,
    ensures
        ({
            let attribute = interpret_attribute(
                pool,
                attribute_name_index,
                attribute_length,
                info,
                depth,
            )->Ok_0;
            &&& attribute.wf()
            &&& attribute.fits(pool, depth)
            &&& attribute.attribute_name_index() == attribute_name_index
            &&& attribute.attribute_length() == attribute_length
            &&& attribute_length == info.len()
        }),
    decreases info.len(), 3nat, 0nat,
{
    let name = lookup_spec(pool, attribute_name_index)->Ok_0.info->Utf8_bytes;
    if name == code_name() {
        lemma_parse_code_wf(pool, attribute_name_index, attribute_length, info, depth);
    }
}

/// A `Code` attribute that was taken apart is well formed, and its payload
/// has the length that its fields add up to.
pub proof fn lemma_parse_code_wf(
    pool: Seq<CpInfoView>,
    attribute_name_index: u16,
    attribute_length: u32,
    info: Seq<u8>,
    depth: nat,
)
    requires
        parse_code(pool, attribute_name_index, attribute_length, info, depth) is Ok,
        attribute_length == info.len(),
        utf8_at(pool, attribute_name_index) == Some(code_name()),
    ensures
        ({
            let attribute = parse_code(
                pool,
                attribute_name_index,
                attribute_length,
                info,
                depth,
            )->Ok_0;
            &&& attribute is Code
            &&& attribute.wf()
            &&& attribute.fits(pool, depth)
            &&& attribute.attribute_name_index() == attribute_name_index
            &&& attribute.attribute_length() == attribute_length
        }),
    decreases info.len(), 2nat, 0nat,
{
    let code_length = u32_at(info, 4);
    let exception_table_length = u16_at(info, 8 + code_length);
    let attributes_at = 8 + code_length + 2 + 8 * exception_table_length + 2;
    let attributes_count = u16_at(info, attributes_at - 2);
    lemma_parse_attributes_wf(pool, info, attributes_at, attributes_count as nat, depth + 1);
}

/// An attribute that was parsed is well formed and takes the bytes from
/// where it starts to where it ends.
pub proof fn lemma_parse_attribute_wf(pool: Seq<CpInfoView>, s: Seq<u8>, pos: int, depth: nat)
    requires
        parse_attribute(pool, s, pos, depth) is Ok,
    ensures
        ({
            let (attribute, end) = parse_attribute(pool, s, pos, depth)->Ok_0;
            &&& attribute.wf()
            &&& attribute.fits(pool, depth)
            &&& end == pos + attribute.encoded_len()
            &&& 0 <= pos < end <= s.len()
        }),
    decreases s.len(), 0nat, 0nat,
{
    let attribute_name_index = u16_at(s, pos);
    let attribute_length = u32_at(s, pos + 2);
    let info = s.subrange(pos + 6, pos + 6 + attribute_length);
    lemma_interpret_attribute_wf(pool, attribute_name_index, attribute_length, info, depth);
}

/// Attributes that were parsed are as many as were asked for, each is well
/// formed, and together they take the bytes from where the first starts to
/// where the last ends.
pub proof fn lemma_parse_attributes_wf(
    pool: Seq<CpInfoView>,
    s: Seq<u8>,
    pos: int,
    count: nat,
    depth: nat,
)
    requires
        parse_attributes(pool, s, pos, count, depth) is Ok,
    ensures
        ({
            let (attributes, end) = parse_attributes(pool, s, pos, count, depth)->Ok_0;
            &&& attributes.len() == count
            &&& forall|i: int| 0 <= i < attributes.len() ==> (#[trigger] attributes[i]).wf()
            &&& forall|i: int|
                0 <= i < attributes.len() ==> (#[trigger] attributes[i]).fits(pool, depth)
            &&& end == pos + total_encoded_len(attributes)
            &&& pos <= end
            &&& count > 0 ==> 0 <= pos && end <= s.len()
        }),
    decreases s.len(), 1nat, count,
{
    if count > 0 {
        lemma_parse_attribute_wf(pool, s, pos, depth);
        let (first, next) = parse_attribute(pool, s, pos, depth)->Ok_0;
        lemma_parse_attributes_wf(pool, s, next, (count - 1) as nat, depth);
        let (rest, end) = parse_attributes(pool, s, next, (count - 1) as nat, depth)->Ok_0;
        lemma_total_encoded_len_prepend(first, rest);
    }
}

/// Parsing an attribute from the first `cut` bytes of `s` gives what
/// parsing it from `s` gives, unless those bytes end before the attribute
/// does.
pub proof fn lemma_parse_attribute_cut(
    pool: Seq<CpInfoView>,
    s: Seq<u8>,
    cut: int,
    pos: int,
    depth: nat,
)
    requires
        0 <= pos <= cut <= s.len(),
    ensures
        cut_result(
            parse_attribute(pool, s, pos, depth),
            parse_attribute(pool, s.take(cut), pos, depth),
            cut,
        ),
{
    let t = s.take(cut);
    if pos + 6 <= cut {
        let attribute_length = u32_at(s, pos + 2);
        if pos + 6 + attribute_length <= cut {
            assert(t.subrange(pos + 6, pos + 6 + attribute_length) =~= s.subrange(
                pos + 6,
                pos + 6 + attribute_length,
            ));
        }
    }
}

/// Parsing attributes from the first `cut` bytes of `s` gives what parsing
/// them from `s` gives, unless those bytes end before the attributes do.
pub proof fn lemma_parse_attributes_cut(
    pool: Seq<CpInfoView>,
    s: Seq<u8>,
    cut: int,
    pos: int,
    count: nat,
    depth: nat,
)
    requires
        0 <= pos <= cut <= s.len(),
    ensures
        cut_result(
            parse_attributes(pool, s, pos, count, depth),
            parse_attributes(pool, s.take(cut), pos, count, depth),
            cut,
        ),
    decreases count,
{
    if count > 0 {
        lemma_parse_attribute_cut(pool, s, cut, pos, depth);
        if parse_attribute(pool, s, pos, depth) is Ok {
            lemma_parse_attribute_wf(pool, s, pos, depth);
            let (first, next) = parse_attribute(pool, s, pos, depth)->Ok_0;
            if parse_attributes(pool, s, next, (count - 1) as nat, depth) is Ok {
                lemma_parse_attributes_wf(pool, s, next, (count - 1) as nat, depth);
            }
            if next <= cut {
                lemma_parse_attributes_cut(pool, s, cut, next, (count - 1) as nat, depth);
            }
        }
    }
}

/// An attribute that was parsed from the first `cut` bytes of `s` is parsed
/// from `s` as well.
pub proof fn lemma_parse_attribute_extend(
    pool: Seq<CpInfoView>,
    s: Seq<u8>,
    cut: int,
    pos: int,
    depth: nat,
)
    requires
        0 <= cut <= s.len(),
        parse_attribute(pool, s.take(cut), pos, depth) is Ok,
    ensures
        parse_attribute(pool, s, pos, depth) == parse_attribute(pool, s.take(cut), pos, depth),
{
    let t = s.take(cut);
    let attribute_length = u32_at(t, pos + 2);
    assert(t.subrange(pos + 6, pos + 6 + attribute_length) =~= s.subrange(
        pos + 6,
        pos + 6 + attribute_length,
    ));
}

/// Attributes that were parsed from the first `cut` bytes of `s` are parsed
/// from `s` as well.
pub proof fn lemma_parse_attributes_extend(
    pool: Seq<CpInfoView>,
    s: Seq<u8>,
    cut: int,
    pos: int,
    count: nat,
    depth: nat,
)
    requires
        0 <= cut <= s.len(),
        parse_attributes(pool, s.take(cut), pos, count, depth) is Ok,
    ensures
        parse_attributes(pool, s, pos, count, depth) == parse_attributes(
            pool,
            s.take(cut),
            pos,
            count,
            depth,
        ),
    decreases count,
{
    if count > 0 {
        lemma_parse_attribute_extend(pool, s, cut, pos, depth);
        let (first, next) = parse_attribute(pool, s.take(cut), pos, depth)->Ok_0;
        lemma_parse_attributes_extend(pool, s, cut, next, (count - 1) as nat, depth);
    }
}

/// A payload that is a well-formed `Code` attribute stops being one when
/// bytes are taken from its end or put behind it, the declared length
/// following the payload: the attribute is then malformed.
pub proof fn lemma_code_wrong_length(
    pool: Seq<CpInfoView>,
    attribute_name_index: u16,
    info: Seq<u8>,
    other: Seq<u8>,
    depth: nat,
)
    requires
        interpret_attribute(pool, attribute_name_index, info.len() as u32, info, depth) is Ok,
        interpret_attribute(pool, attribute_name_index, info.len() as u32, info, depth)->Ok_0
            is Code,
        info.len() <= u32::MAX,
        other.len() <= u32::MAX,
        other.len() != info.len(),
        other.len() < info.len() ==> other == info.take(other.len() as int),
        other.len() > info.len() ==> info == other.take(info.len() as int),
    ensures
        interpret_attribute(pool, attribute_name_index, other.len() as u32, other, depth) == Err::<
            AttributeInfoView,
            DecodeError,
        >(DecodeError::MalformedAttribute),
{
    let long = if other.len() < info.len() {
        info
    } else {
        other
    };
    let short = if other.len() < info.len() {
        other
    } else {
        info
    };
    let cut = short.len() as int;
    assert(short == long.take(cut));
    let code_length = u32_at(info, 4);
    let exception_table_length = u16_at(info, 8 + code_length);
    let rows_at = 8 + code_length + 2;
    let attributes_at = rows_at + 8 * exception_table_length + 2;
    let attributes_count = u16_at(info, attributes_at - 2);
    lemma_parse_attributes_wf(pool, info, attributes_at, attributes_count as nat, depth + 1);
    if other.len() < info.len() {
        if attributes_at <= cut {
            assert(other.subrange(8, 8 + code_length) =~= info.subrange(8, 8 + code_length));
            lemma_parse_attributes_cut(
                pool,
                info,
                cut,
                attributes_at,
                attributes_count as nat,
                depth + 1,
            );
        }
    } else {
        assert(other.subrange(8, 8 + code_length) =~= info.subrange(8, 8 + code_length));
        assert(Seq::new(
            exception_table_length as nat,
            |i: int| exception_row(other, rows_at + 8 * i),
        ) =~= Seq::new(
            exception_table_length as nat,
            |i: int| exception_row(info, rows_at + 8 * i),
        ));
        lemma_parse_attributes_extend(
            pool,
            other,
            cut,
            attributes_at,
            attributes_count as nat,
            depth + 1,
        );
    }
}

} // verus!
