//! The constant pool: the table of literals and symbolic references that the
//! rest of a class file points into.

use vstd::prelude::*;
use vstd::slice::slice_to_vec;

use crate::bytes::{has_bytes, u16_at, u32_at, ByteCursor};
use crate::error::DecodeError;
use crate::model::{cut_result, lemma_prepend_twice, lemma_views_push, prepend, views, Parsed};

verus! {

/// The tag of a `Utf8` entry.
pub const TAG_UTF8: u8 = 1;

/// The tag of an `Integer` entry.
pub const TAG_INTEGER: u8 = 3;

/// The tag of a `Float` entry.
pub const TAG_FLOAT: u8 = 4;

/// The tag of a `Long` entry.
pub const TAG_LONG: u8 = 5;

/// The tag of a `Double` entry.
pub const TAG_DOUBLE: u8 = 6;

/// The tag of a `Class` entry.
pub const TAG_CLASS: u8 = 7;

/// The tag of a `String` entry.
pub const TAG_STRING: u8 = 8;

/// The tag of a `Fieldref` entry.
pub const TAG_FIELDREF: u8 = 9;

/// The tag of a `Methodref` entry.
pub const TAG_METHODREF: u8 = 10;

/// The tag of an `InterfaceMethodref` entry.
pub const TAG_INTERFACE_METHODREF: u8 = 11;

/// The tag of a `NameAndType` entry.
pub const TAG_NAME_AND_TYPE: u8 = 12;

/// The tag stored with a reserved slot. No entry in a class file carries it.
pub const TAG_RESERVED: u8 = 0;

/// The payload of a constant-pool entry.
#[derive(Debug, PartialEq, Eq)]
pub enum Info {
    /// A slot that holds no constant: slot 0, and the slot behind a `Long`
    /// or a `Double`.
    Offset,
    /// Modified-UTF-8 bytes, kept as they are.
    Utf8 { length: u16, bytes: Vec<u8> },
    Integer { value: u32 },
    /// The bits of a 32-bit floating-point constant.
    Float { bits: u32 },
    Long { high_bytes: u32, low_bytes: u32 },
    /// The bits of a 64-bit floating-point constant, in two halves.
    Double { high_bytes: u32, low_bytes: u32 },
    Class { name_index: u16 },
    String { string_index: u16 },
    Fieldref { class_index: u16, name_and_type_index: u16 },
    Methodref { class_index: u16, name_and_type_index: u16 },
    InterfaceMethodref { class_index: u16, name_and_type_index: u16 },
    NameAndType { name_index: u16, descriptor_index: u16 },
}

/// The mathematical value of an [`Info`].
pub ghost enum InfoView {
    Offset,
    Utf8 { length: u16, bytes: Seq<u8> },
    Integer { value: u32 },
    Float { bits: u32 },
    Long { high_bytes: u32, low_bytes: u32 },
    Double { high_bytes: u32, low_bytes: u32 },
    Class { name_index: u16 },
    String { string_index: u16 },
    Fieldref { class_index: u16, name_and_type_index: u16 },
    Methodref { class_index: u16, name_and_type_index: u16 },
    InterfaceMethodref { class_index: u16, name_and_type_index: u16 },
    NameAndType { name_index: u16, descriptor_index: u16 },
}

impl View for Info {
    type V = InfoView;

    open spec fn view(&self) -> InfoView {
        match *self {
            Info::Offset => InfoView::Offset,
            Info::Utf8 { length, bytes } => InfoView::Utf8 { length, bytes: bytes@ },
            Info::Integer { value } => InfoView::Integer { value },
            Info::Float { bits } => InfoView::Float { bits },
            Info::Long { high_bytes, low_bytes } => InfoView::Long { high_bytes, low_bytes },
            Info::Double { high_bytes, low_bytes } => InfoView::Double { high_bytes, low_bytes },
            Info::Class { name_index } => InfoView::Class { name_index },
            Info::String { string_index } => InfoView::String { string_index },
            Info::Fieldref { class_index, name_and_type_index } => InfoView::Fieldref {
                class_index,
                name_and_type_index,
            },
            Info::Methodref { class_index, name_and_type_index } => InfoView::Methodref {
                class_index,
                name_and_type_index,
            },
            Info::InterfaceMethodref {
                class_index,
                name_and_type_index,
            } => InfoView::InterfaceMethodref { class_index, name_and_type_index },
            Info::NameAndType { name_index, descriptor_index } => InfoView::NameAndType {
                name_index,
                descriptor_index,
            },
        }
    }
}

impl Clone for Info {
    fn clone(&self) -> (copy: Self)
        ensures
            copy@ == self@,
    {
        match self {
            Info::Offset => Info::Offset,
            Info::Utf8 { length, bytes } => Info::Utf8 {
                length: *length,
                bytes: slice_to_vec(bytes.as_slice()),
            },
            Info::Integer { value } => Info::Integer { value: *value },
            Info::Float { bits } => Info::Float { bits: *bits },
            Info::Long { high_bytes, low_bytes } => Info::Long {
                high_bytes: *high_bytes,
                low_bytes: *low_bytes,
            },
            Info::Double { high_bytes, low_bytes } => Info::Double {
                high_bytes: *high_bytes,
                low_bytes: *low_bytes,
            },
            Info::Class { name_index } => Info::Class { name_index: *name_index },
            Info::String { string_index } => Info::String { string_index: *string_index },
            Info::Fieldref { class_index, name_and_type_index } => Info::Fieldref {
                class_index: *class_index,
                name_and_type_index: *name_and_type_index,
            },
            Info::Methodref { class_index, name_and_type_index } => Info::Methodref {
                class_index: *class_index,
                name_and_type_index: *name_and_type_index,
            },
            Info::InterfaceMethodref { class_index, name_and_type_index } => {
                Info::InterfaceMethodref {
                    class_index: *class_index,
                    name_and_type_index: *name_and_type_index,
                }
            },
            Info::NameAndType { name_index, descriptor_index } => Info::NameAndType {
                name_index: *name_index,
                descriptor_index: *descriptor_index,
            },
        }
    }
}

impl InfoView {
    /// Whether the constant takes two slots of the pool.
    pub open spec fn is_wide(self) -> bool {
        self is Long || self is Double
    }

    /// The tag that introduces this payload in a class file; for a reserved
    /// slot, [`TAG_RESERVED`].
    pub open spec fn tag(self) -> u8 {
        match self {
            InfoView::Offset => TAG_RESERVED,
            InfoView::Utf8 { .. } => TAG_UTF8,
            InfoView::Integer { .. } => TAG_INTEGER,
            InfoView::Float { .. } => TAG_FLOAT,
            InfoView::Long { .. } => TAG_LONG,
            InfoView::Double { .. } => TAG_DOUBLE,
            InfoView::Class { .. } => TAG_CLASS,
            InfoView::String { .. } => TAG_STRING,
            InfoView::Fieldref { .. } => TAG_FIELDREF,
            InfoView::Methodref { .. } => TAG_METHODREF,
            InfoView::InterfaceMethodref { .. } => TAG_INTERFACE_METHODREF,
            InfoView::NameAndType { .. } => TAG_NAME_AND_TYPE,
        }
    }

    /// Whether the payload is consistent in itself: a `Utf8` entry's length
    /// field counts its bytes.
    pub open spec fn wf(self) -> bool {
        self matches InfoView::Utf8 { length, bytes } ==> length == bytes.len()
    }
}

/// One slot of the constant pool: the tag that was read and the payload.
#[derive(Debug, PartialEq, Eq)]
pub struct CpInfo {
    pub tag: u8,
    pub info: Info,
}

/// The mathematical value of a [`CpInfo`].
pub ghost struct CpInfoView {
    pub tag: u8,
    pub info: InfoView,
}

impl View for CpInfo {
    type V = CpInfoView;

    open spec fn view(&self) -> CpInfoView {
        CpInfoView { tag: self.tag, info: self.info@ }
    }
}

impl Clone for CpInfo {
    fn clone(&self) -> (copy: Self)
        ensures
            copy@ == self@,
    {
        CpInfo { tag: self.tag, info: self.info.clone() }
    }
}

impl CpInfoView {
    /// Whether the slot is one that a decoder can have produced: the tag is
    /// the payload's own and the payload is consistent.
    pub open spec fn wf(self) -> bool {
        self.tag == self.info.tag() && self.info.wf()
    }
}

/// The slot that holds no constant.
pub open spec fn reserved_slot() -> CpInfoView {
    CpInfoView { tag: TAG_RESERVED, info: InfoView::Offset }
}

/// The payload behind a tag of fixed payload size, read from `body` on.
pub open spec fn fixed_entry(tag: u8, s: Seq<u8>, body: int) -> InfoView {
    if tag == TAG_INTEGER {
        InfoView::Integer { value: u32_at(s, body) }
    } else if tag == TAG_FLOAT {
        InfoView::Float { bits: u32_at(s, body) }
    } else if tag == TAG_LONG {
        InfoView::Long { high_bytes: u32_at(s, body), low_bytes: u32_at(s, body + 4) }
    } else if tag == TAG_DOUBLE {
        InfoView::Double { high_bytes: u32_at(s, body), low_bytes: u32_at(s, body + 4) }
    } else if tag == TAG_CLASS {
        InfoView::Class { name_index: u16_at(s, body) }
    } else if tag == TAG_STRING {
        InfoView::String { string_index: u16_at(s, body) }
    } else if tag == TAG_FIELDREF {
        InfoView::Fieldref {
            class_index: u16_at(s, body),
            name_and_type_index: u16_at(s, body + 2),
        }
    } else if tag == TAG_METHODREF {
        InfoView::Methodref {
            class_index: u16_at(s, body),
            name_and_type_index: u16_at(s, body + 2),
        }
    } else if tag == TAG_INTERFACE_METHODREF {
        InfoView::InterfaceMethodref {
            class_index: u16_at(s, body),
            name_and_type_index: u16_at(s, body + 2),
        }
    } else {
        InfoView::NameAndType {
            name_index: u16_at(s, body),
            descriptor_index: u16_at(s, body + 2),
        }
    }
}

/// The number of payload bytes behind a tag whose payload has a fixed size;
/// `None` for `Utf8` and for unassigned tags.
pub open spec fn fixed_width(tag: u8) -> Option<int> {
    if tag == TAG_INTEGER || tag == TAG_FLOAT {
        Some(4)
    } else if tag == TAG_LONG || tag == TAG_DOUBLE {
        Some(8)
    } else if tag == TAG_CLASS || tag == TAG_STRING {
        Some(2)
    } else if tag == TAG_FIELDREF || tag == TAG_METHODREF || tag == TAG_INTERFACE_METHODREF || tag
        == TAG_NAME_AND_TYPE {
        Some(4)
    } else {
        None
    }
}

/// The constant-pool entry encoded at `pos` in `s`, with the offset just
/// behind it: a tag byte, then the payload that the tag calls for.
pub open spec fn parse_entry(s: Seq<u8>, pos: int) -> Parsed<CpInfoView> {
    if !has_bytes(s, pos, 1) {
        Err(DecodeError::UnexpectedEnd)
    } else {
        let tag = s[pos];
        let body = pos + 1;
        if tag == TAG_UTF8 {
            if !has_bytes(s, body, 2) {
                Err(DecodeError::UnexpectedEnd)
            } else {
                let length = u16_at(s, body);
                if !has_bytes(s, body + 2, length as int) {
                    Err(DecodeError::UnexpectedEnd)
                } else {
                    let bytes = s.subrange(body + 2, body + 2 + length);
                    let info = InfoView::Utf8 { length, bytes };
                    Ok((CpInfoView { tag, info }, body + 2 + length))
                }
            }
        } else {
            match fixed_width(tag) {
                None => Err(DecodeError::UnsupportedConstantTag(tag, pos as usize)),
                Some(width) => if !has_bytes(s, body, width) {
                    Err(DecodeError::UnexpectedEnd)
                } else {
                    Ok((CpInfoView { tag, info: fixed_entry(tag, s, body) }, body + width))
                },
            }
        }
    }
}

/// The slots filled by the entries encoded from `pos` on, `slots` of them:
/// each entry takes one slot, but a `Long` or a `Double` takes a second,
/// reserved one as long as the table has room for it.
pub open spec fn parse_entries(s: Seq<u8>, pos: int, slots: nat) -> Parsed<Seq<CpInfoView>>
    decreases slots,
{
    if slots == 0 {
        Ok((Seq::empty(), pos))
    } else {
        match parse_entry(s, pos) {
            Err(e) => Err(e),
            Ok((entry, next)) => if entry.info.is_wide() && slots >= 2 {
                prepend(seq![entry, reserved_slot()], parse_entries(s, next, (slots - 2) as nat))
            } else {
                prepend(seq![entry], parse_entries(s, next, (slots - 1) as nat))
            },
        }
    }
}

/// The number of slots of a pool whose declared count is `count`: the count
/// itself, but never less than the one reserved slot at index 0.
pub open spec fn pool_slots(count: u16) -> nat {
    if count == 0 {
        1
    } else {
        count as nat
    }
}

/// The constant pool of declared size `count` whose entries are encoded from
/// `pos` on: the reserved slot 0, then the entries.
pub open spec fn parse_pool(s: Seq<u8>, pos: int, count: u16) -> Parsed<Seq<CpInfoView>> {
    prepend(seq![reserved_slot()], parse_entries(s, pos, (pool_slots(count) - 1) as nat))
}

/// What looking up `index` in `pool` gives: the entry in that slot, unless
/// the index is 0, lies beyond the pool, or names a reserved slot.
pub open spec fn lookup_spec(pool: Seq<CpInfoView>, index: u16) -> Result<
    CpInfoView,
    DecodeError,
> {
    if index == 0 || index >= pool.len() || pool[index as int].info is Offset {
        Err(DecodeError::InvalidConstantIndex)
    } else {
        Ok(pool[index as int])
    }
}

/// Whether each slot of `slots` but the first is reserved exactly where
/// the slot before it holds an eight-byte constant.
pub open spec fn reserved_behind_wide(slots: Seq<CpInfoView>) -> bool {
    forall|i: int, j: int|
        0 <= i && j == i + 1 && j < slots.len() ==> ((#[trigger] slots[j]).info is Offset <==> (
        #[trigger] slots[i]).info.is_wide())
}

/// Slots that are reserved exactly behind eight-byte constants stay so
/// when the first `n` of them are left out.
pub proof fn lemma_reserved_behind_wide_skip(slots: Seq<CpInfoView>, n: int)
    requires
        reserved_behind_wide(slots),
        0 <= n <= slots.len(),
    ensures
        reserved_behind_wide(slots.skip(n)),
{
    let rest = slots.skip(n);
    assert forall|i: int, j: int| 0 <= i && j == i + 1 && j < rest.len() implies (
        (#[trigger] rest[j]).info is Offset <==> (#[trigger] rest[i]).info.is_wide()
    ) by {
        assert(rest[i] == slots[i + n] && rest[j] == slots[j + n]);
    }
}

/// Whether `entries` are slots as they follow slot 0 of a well-formed
/// pool: every slot carries its payload's tag, the first slot is not
/// reserved, and every other slot is reserved exactly where the slot
/// before it holds an eight-byte constant.
pub open spec fn entries_wf(entries: Seq<CpInfoView>) -> bool {
    &&& forall|i: int| 0 <= i < entries.len() ==> (#[trigger] entries[i]).wf()
    &&& entries.len() > 0 ==> !(entries[0].info is Offset)
    &&& reserved_behind_wide(entries)
}

/// Whether `pool` is a table that decoding can have produced: slot 0 is
/// reserved, every slot carries its payload's tag, and every other slot is
/// reserved exactly where the slot before it holds an eight-byte constant.
pub open spec fn pool_wf(pool: Seq<CpInfoView>) -> bool {
    &&& pool.len() >= 1
    &&& pool[0] == reserved_slot()
    &&& forall|i: int| 0 <= i < pool.len() ==> (#[trigger] pool[i]).wf()
    &&& reserved_behind_wide(pool)
}

/// Reads the payload behind a tag of fixed payload size.
fn decode_fixed_entry(cursor: &mut ByteCursor, tag: u8) -> (r: Result<Info, DecodeError>)
    requires
        fixed_width(tag) is Some,
    ensures
        final(cursor).bytes() == old(cursor).bytes(),
        match r {
            Ok(info) => has_bytes(
                old(cursor).bytes(),
                old(cursor).position(),
                fixed_width(tag)->0,
            ) && info@ == fixed_entry(tag, old(cursor).bytes(), old(cursor).position())
                && final(cursor).position() == old(cursor).position() + fixed_width(tag)->0,
            Err(e) => !has_bytes(old(cursor).bytes(), old(cursor).position(), fixed_width(tag)->0)
                && e == DecodeError::UnexpectedEnd,
        },
{
    if tag == TAG_INTEGER {
        let value = cursor.read_u32()?;
        Ok(Info::Integer { value })
    } else if tag == TAG_FLOAT {
        let bits = cursor.read_u32()?;
        Ok(Info::Float { bits })
    } else if tag == TAG_LONG {
        let high_bytes = cursor.read_u32()?;
        let low_bytes = cursor.read_u32()?;
        Ok(Info::Long { high_bytes, low_bytes })
    } else if tag == TAG_DOUBLE {
        let high_bytes = cursor.read_u32()?;
        let low_bytes = cursor.read_u32()?;
        Ok(Info::Double { high_bytes, low_bytes })
    } else if tag == TAG_CLASS {
        let name_index = cursor.read_u16()?;
        Ok(Info::Class { name_index })
    } else if tag == TAG_STRING {
        let string_index = cursor.read_u16()?;
        Ok(Info::String { string_index })
    } else {
        let first = cursor.read_u16()?;
        let second = cursor.read_u16()?;
        if tag == TAG_FIELDREF {
            Ok(Info::Fieldref { class_index: first, name_and_type_index: second })
        } else if tag == TAG_METHODREF {
            Ok(Info::Methodref { class_index: first, name_and_type_index: second })
        } else if tag == TAG_INTERFACE_METHODREF {
            Ok(Info::InterfaceMethodref { class_index: first, name_and_type_index: second })
        } else {
            Ok(Info::NameAndType { name_index: first, descriptor_index: second })
        }
    }
}

/// Reads one constant-pool entry: the tag byte, then the payload that the
/// tag calls for. An unassigned tag is refused with the tag and its offset.
pub fn decode_entry(cursor: &mut ByteCursor) -> (r: Result<CpInfo, DecodeError>)
    ensures
        final(cursor).bytes() == old(cursor).bytes(),
        match r {
            Ok(entry) => parse_entry(old(cursor).bytes(), old(cursor).position()) == Ok::<
                (CpInfoView, int),
                DecodeError,
            >((entry@, final(cursor).position())),
            Err(e) => parse_entry(old(cursor).bytes(), old(cursor).position()) == Err::<
                (CpInfoView, int),
                DecodeError,
            >(e),
        },
{
    let at = cursor.offset();
    let tag = cursor.read_u8()?;
    if tag == TAG_UTF8 {
        let length = cursor.read_u16()?;
        let bytes = cursor.read_limit(length as u32)?;
        Ok(CpInfo { tag, info: Info::Utf8 { length, bytes } })
    } else if tag == TAG_INTEGER || tag == TAG_FLOAT || tag == TAG_LONG || tag == TAG_DOUBLE || tag
        == TAG_CLASS || tag == TAG_STRING || tag == TAG_FIELDREF || tag == TAG_METHODREF || tag
        == TAG_INTERFACE_METHODREF || tag == TAG_NAME_AND_TYPE {
        let info = decode_fixed_entry(cursor, tag)?;
        Ok(CpInfo { tag, info })
    } else {
        Err(DecodeError::UnsupportedConstantTag(tag, at))
    }
}

/// Reads the constant pool of declared size `count`. The table gets
/// `count` slots (one, if `count` is 0): slot 0 is reserved, and so is the
/// slot behind each `Long` and `Double`, so that every entry sits at the
/// index by which the rest of the class file refers to it. The first entry
/// that cannot be read ends the decoding.
pub fn decode_constant_pool(cursor: &mut ByteCursor, count: u16) -> (r: Result<
    Vec<CpInfo>,
    DecodeError,
>)
    ensures
        final(cursor).bytes() == old(cursor).bytes(),
        match r {
            Ok(pool) => parse_pool(old(cursor).bytes(), old(cursor).position(), count) == Ok::<
                (Seq<CpInfoView>, int),
                DecodeError,
            >((views(pool@), final(cursor).position())) && pool@.len() == pool_slots(count)
                && pool_wf(views(pool@)),
            Err(e) => parse_pool(old(cursor).bytes(), old(cursor).position(), count) == Err::<
                (Seq<CpInfoView>, int),
                DecodeError,
            >(e),
        },
{
    let ghost s = cursor.bytes();
    let ghost start = cursor.position();
    proof {
        if parse_pool(s, start, count) is Ok {
            lemma_parse_pool_wf(s, start, count);
        }
    }
    let slots: usize = if count == 0 {
        1
    } else {
        count as usize
    };
    let mut pool: Vec<CpInfo> = Vec::new();
    pool.push(CpInfo { tag: TAG_RESERVED, info: Info::Offset });
    assert(views(pool@) =~= seq![reserved_slot()]);
    while pool.len() < slots
        invariant
            slots == pool_slots(count),
            1 <= pool.len() <= slots,
            cursor.bytes() == s,
            s == old(cursor).bytes(),
            start == old(cursor).position(),
            parse_pool(s, start, count) == prepend(
                views(pool@),
                parse_entries(s, cursor.position(), (slots - pool.len()) as nat),
            ),
        decreases slots - pool.len(),
    {
        let ghost before = views(pool@);
        let ghost left = (slots - pool.len()) as nat;
        let entry = decode_entry(cursor)?;
        let wide: bool = match entry.info {
            Info::Long { .. } => true,
            Info::Double { .. } => true,
            _ => false,
        };
        let ghost entry_view = entry@;
        pool.push(entry);
        proof {
            lemma_views_push(pool@.drop_last(), pool@.last());
            assert(pool@.drop_last().push(pool@.last()) =~= pool@);
        }
        if wide && pool.len() < slots {
            pool.push(CpInfo { tag: TAG_RESERVED, info: Info::Offset });
            proof {
                lemma_views_push(pool@.drop_last(), pool@.last());
                assert(pool@.drop_last().push(pool@.last()) =~= pool@);
                assert(views(pool@) =~= before + seq![entry_view, reserved_slot()]);
                lemma_prepend_twice(
                    before,
                    seq![entry_view, reserved_slot()],
                    parse_entries(s, cursor.position(), (left - 2) as nat),
                );
            }
        } else {
            proof {
                assert(views(pool@) =~= before + seq![entry_view]);
                lemma_prepend_twice(
                    before,
                    seq![entry_view],
                    parse_entries(s, cursor.position(), (left - 1) as nat),
                );
            }
        }
    }
    proof {
        assert(views(pool@) + Seq::<CpInfoView>::empty() =~= views(pool@));
    }
    Ok(pool)
}

/// Looks up the entry that `index` refers to. Index 0, an index beyond the
/// pool and the index of a reserved slot refer to nothing.
pub fn lookup(pool: &Vec<CpInfo>, index: u16) -> (r: Result<&CpInfo, DecodeError>)
    ensures
        match r {
            Ok(entry) => lookup_spec(views(pool@), index) == Ok::<CpInfoView, DecodeError>(entry@)
                && *entry == pool@[index as int],
            Err(e) => lookup_spec(views(pool@), index) == Err::<CpInfoView, DecodeError>(e),
        },
        index == 0 ==> r == Err::<&CpInfo, DecodeError>(DecodeError::InvalidConstantIndex),
{
    if index == 0 || index as usize >= pool.len() {
        return Err(DecodeError::InvalidConstantIndex);
    }
    let entry = &pool[index as usize];
    match entry.info {
        Info::Offset => Err(DecodeError::InvalidConstantIndex),
        _ => Ok(entry),
    }
}

/// Looking up index 0 never gives an entry, whatever the pool holds.
pub proof fn lemma_lookup_zero(pool: Seq<CpInfoView>)
    ensures
        lookup_spec(pool, 0) == Err::<CpInfoView, DecodeError>(DecodeError::InvalidConstantIndex),
{
}

/// In a pool that decoding can have produced, the index behind a `Long` or
/// a `Double` never gives an entry: it names a reserved slot or lies beyond
/// the pool.
pub proof fn lemma_lookup_behind_wide(pool: Seq<CpInfoView>, index: u16)
    requires
        pool_wf(pool),
        index < pool.len(),
        index < u16::MAX,
        pool[index as int].info.is_wide(),
    ensures
        lookup_spec(pool, (index + 1) as u16) == Err::<CpInfoView, DecodeError>(
            DecodeError::InvalidConstantIndex,
        ),
{
}

/// An entry that was parsed carries its payload's tag, its length field
/// counts its bytes, and it ends behind where it starts.
pub proof fn lemma_parse_entry_wf(s: Seq<u8>, pos: int)
    requires
        parse_entry(s, pos) is Ok,
    ensures
        ({
            let (entry, end) = parse_entry(s, pos)->Ok_0;
            &&& entry.wf()
            &&& !(entry.info is Offset)
            &&& 0 <= pos < end <= s.len()
        }),
{
}

/// The slots that were parsed are as many as were asked for and well
/// formed.
pub proof fn lemma_parse_entries_wf(s: Seq<u8>, pos: int, slots: nat)
    requires
        parse_entries(s, pos, slots) is Ok,
    ensures
        ({
            let (entries, end) = parse_entries(s, pos, slots)->Ok_0;
            &&& entries.len() == slots
            &&& pos <= end
            &&& slots > 0 ==> 0 <= pos && end <= s.len()
            &&& entries_wf(entries)
        }),
    decreases slots,
{
    if slots > 0 {
        lemma_parse_entry_wf(s, pos);
        let (entry, next) = parse_entry(s, pos)->Ok_0;
        if entry.info.is_wide() && slots >= 2 {
            lemma_parse_entries_wf(s, next, (slots - 2) as nat);
        } else {
            lemma_parse_entries_wf(s, next, (slots - 1) as nat);
        }
    }
}

/// A pool that was parsed has the slots that its declared count calls for
/// and is well formed.
pub proof fn lemma_parse_pool_wf(s: Seq<u8>, pos: int, count: u16)
    requires
        parse_pool(s, pos, count) is Ok,
    ensures
        ({
            let (pool, end) = parse_pool(s, pos, count)->Ok_0;
            &&& pool.len() == pool_slots(count)
            &&& pool_wf(pool)
            &&& pos <= end
            &&& count > 1 ==> 0 <= pos && end <= s.len()
        }),
{
    lemma_parse_entries_wf(s, pos, (pool_slots(count) - 1) as nat);
}

/// Parsing an entry from the first `cut` bytes of `s` gives what parsing it
/// from `s` gives, unless those bytes end before the entry does.
pub proof fn lemma_parse_entry_cut(s: Seq<u8>, cut: int, pos: int)
    requires
        0 <= pos <= cut <= s.len(),
    ensures
        cut_result(parse_entry(s, pos), parse_entry(s.take(cut), pos), cut),
{
    let t = s.take(cut);
    if pos < cut && s[pos] == TAG_UTF8 && pos + 3 <= cut {
        let length = u16_at(s, pos + 1);
        if pos + 3 + length <= cut {
            assert(t.subrange(pos + 3, pos + 3 + length) =~= s.subrange(
                pos + 3,
                pos + 3 + length,
            ));
        }
    }
}

/// Parsing slots from the first `cut` bytes of `s` gives what parsing them
/// from `s` gives, unless those bytes end before the entries do.
pub proof fn lemma_parse_entries_cut(s: Seq<u8>, cut: int, pos: int, slots: nat)
    requires
        0 <= pos <= cut <= s.len(),
    ensures
        cut_result(parse_entries(s, pos, slots), parse_entries(s.take(cut), pos, slots), cut),
    decreases slots,
{
    if slots > 0 {
        lemma_parse_entry_cut(s, cut, pos);
        if parse_entry(s, pos) is Ok {
            lemma_parse_entry_wf(s, pos);
            let (entry, next) = parse_entry(s, pos)->Ok_0;
            let rest = if entry.info.is_wide() && slots >= 2 {
                (slots - 2) as nat
            } else {
                (slots - 1) as nat
            };
            if parse_entries(s, next, rest) is Ok {
                lemma_parse_entries_wf(s, next, rest);
            }
            if next <= cut {
                lemma_parse_entries_cut(s, cut, next, rest);
            }
        }
    }
}

/// Parsing a pool from the first `cut` bytes of `s` gives what parsing it
/// from `s` gives, unless those bytes end before the pool does.
pub proof fn lemma_parse_pool_cut(s: Seq<u8>, cut: int, pos: int, count: u16)
    requires
        0 <= pos <= cut <= s.len(),
    ensures
        cut_result(parse_pool(s, pos, count), parse_pool(s.take(cut), pos, count), cut),
{
    lemma_parse_entries_cut(s, cut, pos, (pool_slots(count) - 1) as nat);
}

} // verus!
