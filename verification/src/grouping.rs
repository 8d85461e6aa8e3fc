//! Groups in sorted sequences, and the first value of each.

use crate::order::{same_elements, sort_by, sorted_by, Rank, Ranking};
use vstd::prelude::*;

verus! {

/// A ranking in which the values of one group stand together.
pub trait Grouping<T>: Ranking<T> {
    spec fn same_group(left: T, right: T) -> bool;

    proof fn groups_are_reflexive(value: T)
        ensures
            Self::same_group(value, value),
    ;

    /// What stands between two values of a group belongs to it.
    proof fn groups_stand_together(first: T, second: T, third: T)
        requires
            Self::rank(first, second) != Rank::After,
            Self::rank(second, third) != Rank::After,
            Self::same_group(first, third),
        ensures
            Self::same_group(first, second),
    ;

    fn alike(left: &T, right: &T) -> (alike: bool)
        ensures
            alike == Self::same_group(*left, *right),
    ;
}

/// A value of the group stands in `firsts`, and not after `value`.
pub open spec fn has_first<T, G: Grouping<T>>(firsts: Seq<T>, value: T) -> bool {
    exists|i: int|
        0 <= i < firsts.len() && G::same_group(#[trigger] firsts[i], value) && G::rank(
            firsts[i],
            value,
        ) != Rank::After
}

/// The values stand in order, each in a group of its own.
pub open spec fn are_apart<T, G: Grouping<T>>(firsts: Seq<T>) -> bool {
    forall|i: int, j: int|
        0 <= i < j < firsts.len() ==> !G::same_group(#[trigger] firsts[i], #[trigger] firsts[j])
            && G::rank(firsts[i], firsts[j]) != Rank::After
}

/// `firsts` holds, in order, one value of each group of `values`, and none of its group stands
/// before it.
pub open spec fn holds_firsts<T, G: Grouping<T>>(firsts: Seq<T>, values: Seq<T>) -> bool {
    &&& are_apart::<T, G>(firsts)
    &&& forall|i: int| 0 <= i < firsts.len() ==> values.contains(#[trigger] firsts[i])
    &&& forall|p: int| 0 <= p < values.len() ==> has_first::<T, G>(firsts, #[trigger] values[p])
}

/// The first values of a sorted sequence, with the next value of it.
proof fn next_value<T, G: Grouping<T>>(all: Seq<T>, here: int, firsts: Seq<T>)
    requires
        sorted_by::<T, G>(all),
        0 <= here < all.len(),
        holds_firsts::<T, G>(firsts, all.take(here)),
    ensures
        firsts.len() > 0 && G::same_group(firsts.last(), all[here]) ==> holds_firsts::<T, G>(
            firsts,
            all.take(here + 1),
        ),
        !(firsts.len() > 0 && G::same_group(firsts.last(), all[here])) ==> holds_firsts::<T, G>(
            firsts.push(all[here]),
            all.take(here + 1),
        ),
{
    let value = all[here];
    let done = all.take(here);
    let next = all.take(here + 1);
    assert(next =~= done.push(value));
    assert forall|i: int| 0 <= i < firsts.len() implies G::rank(#[trigger] firsts[i], value)
        != Rank::After && next.contains(firsts[i]) by {
        assert(done.contains(firsts[i]));
        let p = done.index_of(firsts[i]);
        assert(all[p] == firsts[i]);
        assert(next[p] == firsts[i]);
    }
    if firsts.len() > 0 && G::same_group(firsts.last(), value) {
        assert(firsts[firsts.len() - 1] == firsts.last());
        assert(has_first::<T, G>(firsts, value));
        assert forall|p: int| 0 <= p < next.len() implies has_first::<T, G>(
            firsts,
            #[trigger] next[p],
        ) by {
            if p < here {
                assert(next[p] == done[p]);
            }
        }
    } else {
        let longer = firsts.push(value);
        G::groups_are_reflexive(value);
        G::rank_flip(value, value);
        assert forall|i: int| 0 <= i < firsts.len() implies !G::same_group(
            #[trigger] firsts[i],
            value,
        ) by {
            let last = firsts[firsts.len() - 1];
            if i < firsts.len() - 1 && G::same_group(firsts[i], value) {
                assert(G::rank(last, value) != Rank::After);
                G::groups_stand_together(firsts[i], last, value);
            }
        }
        assert forall|i: int, j: int| 0 <= i < j < longer.len() implies !G::same_group(
            #[trigger] longer[i],
            #[trigger] longer[j],
        ) && G::rank(longer[i], longer[j]) != Rank::After by {
            assert(longer[i] == firsts[i]);
            if j < firsts.len() {
                assert(longer[j] == firsts[j]);
            }
        }
        assert forall|i: int| 0 <= i < longer.len() implies next.contains(#[trigger] longer[i]) by {
            if i < firsts.len() {
                assert(longer[i] == firsts[i]);
            } else {
                assert(next[here] == value);
            }
        }
        assert forall|p: int| 0 <= p < next.len() implies has_first::<T, G>(
            longer,
            #[trigger] next[p],
        ) by {
            if p < here {
                assert(next[p] == done[p]);
                let i = choose|i: int|
                    0 <= i < firsts.len() && G::same_group(#[trigger] firsts[i], done[p])
                        && G::rank(firsts[i], done[p]) != Rank::After;
                assert(longer[i] == firsts[i]);
            } else {
                assert(longer[firsts.len() as int] == value);
            }
        }
    }
}

/// Sorts the values and keeps the first of each group.
pub fn first_of_groups<T, G: Grouping<T>>(values: Vec<T>) -> (firsts: Vec<T>)
    ensures
        holds_firsts::<T, G>(firsts@, values@),
{
    let ghost given = values@;
    let sorted = sort_by::<T, G>(values);
    let ghost all = sorted@;
    let mut firsts: Vec<T> = Vec::new();
    for value in it: sorted
        invariant
            it.seq() == all,
            sorted_by::<T, G>(all),
            holds_firsts::<T, G>(firsts@, all.take(it.index())),
    {
        proof {
            next_value::<T, G>(all, it.index(), firsts@);
        }
        let known = firsts.len() > 0 && G::alike(&firsts[firsts.len() - 1], &value);
        if !known {
            firsts.push(value);
        }
    }
    proof {
        assert(all.take(all.len() as int) =~= all);
        same_elements(all, given);
        assert forall|i: int| 0 <= i < firsts@.len() implies given.contains(
            #[trigger] firsts@[i],
        ) by {
            assert(all.contains(firsts@[i]));
        }
        assert forall|q: int| 0 <= q < given.len() implies has_first::<T, G>(
            firsts@,
            #[trigger] given[q],
        ) by {
            assert(given.contains(given[q]));
            let p = all.index_of(given[q]);
            assert(all[p] == given[q]);
        }
    }
    firsts
}

} // verus!
