//! Fields and methods: the two kinds of member of a class, which share one
//! record shape.

use vstd::prelude::*;

use crate::attribute::{
    decode_attributes, lemma_parse_attributes_cut, lemma_parse_attributes_wf, parse_attributes,
    AttributeInfo, AttributeInfoView,
};
use crate::bytes::{has_bytes, u16_at, ByteCursor};
use crate::constant_pool::{CpInfo, CpInfoView};
use crate::error::DecodeError;
use crate::model::{
    cut_result, lemma_prepend_empty, lemma_prepend_twice, lemma_views_push, prepend, views,
    Parsed,
};

verus! {

/// A field or a method. The name and descriptor indices are stored as they
/// were read; nothing is resolved here.
#[derive(Debug, PartialEq, Eq)]
pub struct MemberInfo {
    pub access_flags: u16,
    pub name_index: u16,
    pub descriptor_index: u16,
    pub attributes_count: u16,
    pub attributes: Vec<AttributeInfo>,
}

/// A member in a class's field list.
pub type FieldsInfo = MemberInfo;

/// A member in a class's method list.
pub type MethodInfo = MemberInfo;

/// The mathematical value of a [`MemberInfo`].
pub ghost struct MemberInfoView {
    pub access_flags: u16,
    pub name_index: u16,
    pub descriptor_index: u16,
    pub attributes_count: u16,
    pub attributes: Seq<AttributeInfoView>,
}

impl View for MemberInfo {
    type V = MemberInfoView;

    open spec fn view(&self) -> MemberInfoView {
        MemberInfoView {
            access_flags: self.access_flags,
            name_index: self.name_index,
            descriptor_index: self.descriptor_index,
            attributes_count: self.attributes_count,
            attributes: views(self.attributes@),
        }
    }
}

impl MemberInfoView {
    /// Whether the member's attribute count counts its attributes and each
    /// attribute's length fields agree with its contents.
    pub open spec fn wf(self) -> bool {
        &&& self.attributes_count == self.attributes.len()
        &&& forall|i: int| 0 <= i < self.attributes.len() ==> (#[trigger] self.attributes[i]).wf()
    }

    /// Whether every attribute of the member has the form that its name
    /// calls for under `pool`.
    pub open spec fn fits(self, pool: Seq<CpInfoView>) -> bool {
        forall|i: int|
            0 <= i < self.attributes.len() ==> (#[trigger] self.attributes[i]).fits(pool, 0)
    }
}

/// The member encoded at `pos` in `s`, with the offset just behind it:
/// access flags, name index, descriptor index and attribute count (two
/// bytes each), then the attributes.
pub open spec fn parse_member(pool: Seq<CpInfoView>, s: Seq<u8>, pos: int) -> Parsed<
    MemberInfoView,
> {
    if !has_bytes(s, pos, 8) {
        Err(DecodeError::UnexpectedEnd)
    } else {
        let attributes_count = u16_at(s, pos + 6);
        match parse_attributes(pool, s, pos + 8, attributes_count as nat, 0) {
            Err(e) => Err(e),
            Ok((attributes, end)) => Ok(
                (
                    MemberInfoView {
                        access_flags: u16_at(s, pos),
                        name_index: u16_at(s, pos + 2),
                        descriptor_index: u16_at(s, pos + 4),
                        attributes_count,
                        attributes,
                    },
                    end,
                ),
            ),
        }
    }
}

/// The `count` members encoded one behind the other from `pos` on in `s`,
/// with the offset just behind the last.
pub open spec fn parse_members(pool: Seq<CpInfoView>, s: Seq<u8>, pos: int, count: nat) -> Parsed<
    Seq<MemberInfoView>,
>
    decreases count,
{
    if count == 0 {
        Ok((Seq::empty(), pos))
    } else {
        match parse_member(pool, s, pos) {
            Err(e) => Err(e),
            Ok((first, next)) => prepend(
                seq![first],
                parse_members(pool, s, next, (count - 1) as nat),
            ),
        }
    }
}

/// Reads one field or method.
pub fn decode_member(pool: &Vec<CpInfo>, cursor: &mut ByteCursor) -> (r: Result<
    MemberInfo,
    DecodeError,
>)
    ensures
        final(cursor).bytes() == old(cursor).bytes(),
        match r {
            Ok(member) => parse_member(views(pool@), old(cursor).bytes(), old(cursor).position())
                == Ok::<(MemberInfoView, int), DecodeError>((member@, final(cursor).position())),
            Err(e) => parse_member(views(pool@), old(cursor).bytes(), old(cursor).position())
                == Err::<(MemberInfoView, int), DecodeError>(e),
        },
{
    let access_flags = cursor.read_u16()?;
    let name_index = cursor.read_u16()?;
    let descriptor_index = cursor.read_u16()?;
    let attributes_count = cursor.read_u16()?;
    let attributes = decode_attributes(pool, cursor, attributes_count, 0)?;
    Ok(MemberInfo { access_flags, name_index, descriptor_index, attributes_count, attributes })
}

/// Reads `count` fields or methods, one behind the other.
pub fn decode_members(pool: &Vec<CpInfo>, cursor: &mut ByteCursor, count: u16) -> (r: Result<
    Vec<MemberInfo>,
    DecodeError,
>)
    ensures
        final(cursor).bytes() == old(cursor).bytes(),
        match r {
            Ok(members) => parse_members(
                views(pool@),
                old(cursor).bytes(),
                old(cursor).position(),
                count as nat,
            ) == Ok::<(Seq<MemberInfoView>, int), DecodeError>(
                (views(members@), final(cursor).position()),
            ),
            Err(e) => parse_members(
                views(pool@),
                old(cursor).bytes(),
                old(cursor).position(),
                count as nat,
            ) == Err::<(Seq<MemberInfoView>, int), DecodeError>(e),
        },
{
    let ghost s = cursor.bytes();
    let ghost start = cursor.position();
    let mut members: Vec<MemberInfo> = Vec::new();
    let mut done: u16 = 0;
    proof {
        assert(views(members@) =~= Seq::<MemberInfoView>::empty());
        lemma_prepend_empty(parse_members(views(pool@), s, start, count as nat));
    }
    while done < count
        invariant
            done <= count,
            cursor.bytes() == s,
            s == old(cursor).bytes(),
            start == old(cursor).position(),
            parse_members(views(pool@), s, start, count as nat) == prepend(
                views(members@),
                parse_members(views(pool@), s, cursor.position(), (count - done) as nat),
            ),
        decreases count - done,
    {
        let ghost before = views(members@);
        let member = decode_member(pool, cursor)?;
        let ghost first = member@;
        members.push(member);
        done = done + 1;
        proof {
            lemma_views_push(members@.drop_last(), members@.last());
            assert(members@.drop_last().push(members@.last()) =~= members@);
            assert(views(members@) =~= before + seq![first]);
            lemma_prepend_twice(
                before,
                seq![first],
                parse_members(views(pool@), s, cursor.position(), (count - done) as nat),
            );
        }
    }
    proof {
        assert(views(members@) + Seq::<MemberInfoView>::empty() =~= views(members@));
    }
    Ok(members)
}

/// A member that was parsed is well formed, its attributes have the form
/// that their names call for, and it ends behind where it starts.
pub proof fn lemma_parse_member_wf(pool: Seq<CpInfoView>, s: Seq<u8>, pos: int)
    requires
        parse_member(pool, s, pos) is Ok,
    ensures
        ({
            let (member, end) = parse_member(pool, s, pos)->Ok_0;
            &&& member.wf()
            &&& member.fits(pool)
            &&& 0 <= pos && pos + 8 <= end <= s.len()
        }),
{
    lemma_parse_attributes_wf(pool, s, pos + 8, u16_at(s, pos + 6) as nat, 0);
}

/// Members that were parsed are as many as were asked for, each is well
/// formed, and their attributes have the form that their names call for.
pub proof fn lemma_parse_members_wf(pool: Seq<CpInfoView>, s: Seq<u8>, pos: int, count: nat)
    requires
        parse_members(pool, s, pos, count) is Ok,
        0 <= pos <= s.len(),
    ensures
        ({
            let (members, end) = parse_members(pool, s, pos, count)->Ok_0;
            &&& members.len() == count
            &&& forall|i: int| 0 <= i < members.len() ==> (#[trigger] members[i]).wf()
            &&& forall|i: int| 0 <= i < members.len() ==> (#[trigger] members[i]).fits(pool)
            &&& pos <= end <= s.len()
        }),
    decreases count,
{
    if count > 0 {
        lemma_parse_member_wf(pool, s, pos);
        let (first, next) = parse_member(pool, s, pos)->Ok_0;
        lemma_parse_members_wf(pool, s, next, (count - 1) as nat);
    }
}

/// Parsing a member from the first `cut` bytes of `s` gives what parsing it
/// from `s` gives, unless those bytes end before the member does.
pub proof fn lemma_parse_member_cut(pool: Seq<CpInfoView>, s: Seq<u8>, cut: int, pos: int)
    requires
        0 <= pos <= cut <= s.len(),
    ensures
        cut_result(parse_member(pool, s, pos), parse_member(pool, s.take(cut), pos), cut),
{
    if pos + 8 <= cut {
        let count = u16_at(s, pos + 6) as nat;
        if parse_attributes(pool, s, pos + 8, count, 0) is Ok {
            lemma_parse_attributes_wf(pool, s, pos + 8, count, 0);
        }
        lemma_parse_attributes_cut(pool, s, cut, pos + 8, count, 0);
    } else if parse_member(pool, s, pos) is Ok {
        lemma_parse_member_wf(pool, s, pos);
    }
}

/// Parsing members from the first `cut` bytes of `s` gives what parsing
/// them from `s` gives, unless those bytes end before the members do.
pub proof fn lemma_parse_members_cut(
    pool: Seq<CpInfoView>,
    s: Seq<u8>,
    cut: int,
    pos: int,
    count: nat,
)
    requires
        0 <= pos <= cut <= s.len(),
    ensures
        cut_result(
            parse_members(pool, s, pos, count),
            parse_members(pool, s.take(cut), pos, count),
            cut,
        ),
    decreases count,
{
    if count > 0 {
        lemma_parse_member_cut(pool, s, cut, pos);
        if parse_member(pool, s, pos) is Ok {
            lemma_parse_member_wf(pool, s, pos);
            let (first, next) = parse_member(pool, s, pos)->Ok_0;
            if parse_members(pool, s, next, (count - 1) as nat) is Ok {
                lemma_parse_members_wf(pool, s, next, (count - 1) as nat);
            }
            if next <= cut {
                lemma_parse_members_cut(pool, s, cut, next, (count - 1) as nat);
            }
        }
    }
}

} // verus!
