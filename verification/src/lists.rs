//! Lists built item by item: their views and how a fallible run of steps extends them.
use vstd::prelude::*;

use crate::text::Outcome;

verus! {

/// The views of the items of a list, in order.
pub open spec fn views<T: View>(items: Seq<T>) -> Seq<T::V> {
    Seq::new(items.len(), |i: int| items[i]@)
}

/// A list that starts with `done` and goes on with what `rest` yields.
pub open spec fn followed_by<T>(done: Seq<T>, rest: Outcome<Seq<T>>) -> Outcome<Seq<T>> {
    match rest {
        Ok(tail) => Ok(done + tail),
        Err(reason) => Err(reason),
    }
}

pub(crate) proof fn views_push<T: View>(items: Seq<T>, item: T)
    ensures
        views(items.push(item)) == views(items).push(item@),
{
    assert(views(items.push(item)) =~= views(items).push(item@));
}

pub(crate) proof fn followed_by_push<T>(done: Seq<T>, item: T, rest: Outcome<Seq<T>>)
    ensures
        followed_by(done, followed_by(seq![item], rest)) == followed_by(done.push(item), rest),
{
    if let Ok(tail) = rest {
        assert(done + (seq![item] + tail) =~= done.push(item) + tail);
    }
}

pub(crate) proof fn followed_by_nothing<T>(done: Seq<T>, rest: Outcome<Seq<T>>)
    ensures
        followed_by(Seq::empty(), rest) == rest,
        followed_by(done, Ok(Seq::empty())) == Ok::<Seq<T>, Seq<char>>(done),
{
    assert(done + Seq::<T>::empty() =~= done);
    if let Ok(tail) = rest {
        assert(Seq::<T>::empty() + tail =~= tail);
    }
}

} // verus!
