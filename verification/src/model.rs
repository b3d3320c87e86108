//! Small building blocks shared by the format's specification functions.

use vstd::prelude::*;

use crate::error::DecodeError;

verus! {

/// What a list parser yields: the items and the offset just behind them.
pub type Parsed<T> = Result<(T, int), DecodeError>;

/// The views of the items of `items`, in order.
pub open spec fn views<T: View>(items: Seq<T>) -> Seq<T::V> {
    Seq::new(items.len(), |i: int| items[i]@)
}

/// Puts `head` in front of the items that `tail` parsed, and keeps the
/// error where `tail` failed.
pub open spec fn prepend<A>(head: Seq<A>, tail: Parsed<Seq<A>>) -> Parsed<Seq<A>> {
    match tail {
        Ok((items, end)) => Ok((head + items, end)),
        Err(e) => Err(e),
    }
}

/// Whether `part` is what parsing may give of the first `cut` bytes of an
/// input of which it gives `whole`: the same where `whole` is a success
/// that ends within those bytes, an unexpected end where it is a success
/// that ends behind them, and the same error or an unexpected end where
/// `whole` is an error.
pub open spec fn cut_result<T>(whole: Parsed<T>, part: Parsed<T>, cut: int) -> bool {
    match whole {
        Ok((_, end)) => if end <= cut {
            part == whole
        } else {
            part == Err::<(T, int), DecodeError>(DecodeError::UnexpectedEnd)
        },
        Err(_) => part == whole || part == Err::<(T, int), DecodeError>(
            DecodeError::UnexpectedEnd,
        ),
    }
}

/// Prepending in two steps is prepending the concatenation.
pub proof fn lemma_prepend_twice<A>(first: Seq<A>, second: Seq<A>, tail: Parsed<Seq<A>>)
    ensures
        prepend(first, prepend(second, tail)) == prepend(first + second, tail),
{
    if let Ok((items, end)) = tail {
        assert(first + (second + items) =~= (first + second) + items);
    }
}

/// Prepending nothing changes nothing.
pub proof fn lemma_prepend_empty<A>(tail: Parsed<Seq<A>>)
    ensures
        prepend(Seq::<A>::empty(), tail) == tail,
{
    if let Ok((items, end)) = tail {
        assert(Seq::<A>::empty() + items =~= items);
    }
}

/// Viewing commutes with `push`.
pub proof fn lemma_views_push<T: View>(items: Seq<T>, item: T)
    ensures
        views(items.push(item)) == views(items).push(item@),
{
    assert(views(items.push(item)) =~= views(items).push(item@));
}

} // verus!
