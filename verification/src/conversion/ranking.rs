//! Ranked lists: sorted, with no text emitted twice, and no longer than a limit.

use crate::order::Rank;
use crate::views::views;
use vstd::prelude::*;

verus! {

/// A value that emits a text and stands in a total preorder.
pub trait Emission: View + Sized {
    spec fn order(left: Self::V, right: Self::V) -> Rank;

    spec fn emitted(value: Self::V) -> Seq<char>;

    proof fn order_flip(left: Self::V, right: Self::V)
        ensures
            Self::order(left, right) == Self::order(right, left).flip(),
    ;

    proof fn order_transitive(first: Self::V, second: Self::V, third: Self::V)
        requires
            Self::order(first, second) != Rank::After,
            Self::order(second, third) != Rank::After,
        ensures
            Self::order(first, third) != Rank::After,
    ;

    fn compare(&self, other: &Self) -> (rank: Rank)
        ensures
            rank == Self::order(self@, other@),
    ;

    fn emits_same(&self, other: &Self) -> (same: bool)
        ensures
            same == (Self::emitted(self@) == Self::emitted(other@)),
    ;
}

/// The list with `value` after all the values at its start that do not stand after it.
pub open spec fn with_inserted<T: Emission>(list: Seq<T::V>, value: T::V) -> Seq<T::V>
    decreases list.len(),
{
    if list.len() == 0 || T::order(list.last(), value) != Rank::After {
        list.push(value)
    } else {
        with_inserted::<T>(list.drop_last(), value).push(list.last())
    }
}

/// The list in order; values with one rank keep their order.
pub open spec fn in_order<T: Emission>(list: Seq<T::V>) -> Seq<T::V>
    decreases list.len(),
{
    if list.len() == 0 {
        list
    } else {
        with_inserted::<T>(in_order::<T>(list.drop_last()), list.last())
    }
}

/// A value of the list emits this text.
pub open spec fn emits<T: Emission>(list: Seq<T::V>, text: Seq<char>) -> bool {
    exists|i: int| 0 <= i < list.len() && T::emitted(#[trigger] list[i]) == text
}

/// The list without the values that emit the same text as one before them.
pub open spec fn without_repeats<T: Emission>(list: Seq<T::V>) -> Seq<T::V>
    decreases list.len(),
{
    if list.len() == 0 {
        list
    } else {
        let before = without_repeats::<T>(list.drop_last());
        if emits::<T>(before, T::emitted(list.last())) {
            before
        } else {
            before.push(list.last())
        }
    }
}

/// The first values of the list, at most `limit`.
pub open spec fn at_most<A>(list: Seq<A>, limit: nat) -> Seq<A> {
    if list.len() <= limit {
        list
    } else {
        list.take(limit as int)
    }
}

/// The first `limit` values of the list in order and without repeats.
pub open spec fn best_of<T: Emission>(list: Seq<T::V>, limit: nat) -> Seq<T::V> {
    at_most(without_repeats::<T>(in_order::<T>(list)), limit)
}

/// The list has at most `limit` different texts, so that the limit cuts none off.
pub open spec fn is_uncut<T: Emission>(list: Seq<T::V>, limit: nat) -> bool {
    without_repeats::<T>(in_order::<T>(list)).len() <= limit
}

/// No value stands after one that comes later in the list.
pub open spec fn is_ranked<T: Emission>(list: Seq<T::V>) -> bool {
    forall|i: int, j: int|
        0 <= i < j < list.len() ==> T::order(#[trigger] list[i], #[trigger] list[j]) != Rank::After
}

/// No two values emit the same text.
pub open spec fn has_no_repeats<T: Emission>(list: Seq<T::V>) -> bool {
    forall|i: int, j: int|
        0 <= i < j < list.len() ==> T::emitted(#[trigger] list[i]) != T::emitted(
            #[trigger] list[j],
        )
}

/// Puts the value in its place in the list.
fn insert<T: Emission>(list: &mut Vec<T>, value: T)
    ensures
        views(final(list)@) == with_inserted::<T>(views(old(list)@), value@),
{
    let ghost before = views(list@);
    let mut place: usize = list.len();
    assert(before.take(place as int) =~= before);
    assert(before.skip(place as int) =~= Seq::empty());
    assert(with_inserted::<T>(before, value@) =~= with_inserted::<T>(
        before.take(place as int),
        value@,
    ) + before.skip(place as int));
    while place > 0 && list[place - 1].compare(&value) == Rank::After
        invariant
            before == views(list@),
            place <= list@.len(),
            with_inserted::<T>(before, value@) == with_inserted::<T>(
                before.take(place as int),
                value@,
            ) + before.skip(place as int),
        decreases place,
    {
        proof {
            let shorter = before.take(place as int);
            assert(shorter.last() == list@[place - 1]@);
            assert(shorter.drop_last() =~= before.take(place - 1));
            assert(before.skip(place - 1) =~= seq![shorter.last()] + before.skip(place as int));
            assert(with_inserted::<T>(shorter, value@) + before.skip(place as int)
                =~= with_inserted::<T>(before.take(place - 1), value@) + before.skip(place - 1));
        }
        place -= 1;
    }
    proof {
        assert(place > 0 ==> before.take(place as int).last() == list@[place - 1]@);
        assert(with_inserted::<T>(before, value@) =~= before.take(place as int).push(value@)
            + before.skip(place as int));
    }
    list.insert(place, value);
    assert(views(list@) =~= with_inserted::<T>(before, value@));
}

/// Whether a value of the list emits the same text as `value`.
fn is_repeated<T: Emission>(list: &[T], value: &T) -> (repeated: bool)
    ensures
        repeated == emits::<T>(views(list@), T::emitted(value@)),
{
    let ghost all = views(list@);
    let mut i: usize = 0;
    while i < list.len()
        invariant
            all == views(list@),
            i <= list@.len(),
            forall|j: int| 0 <= j < i ==> T::emitted(#[trigger] all[j]) != T::emitted(value@),
        decreases list@.len() - i,
    {
        assert(all[i as int] == list@[i as int]@);
        if list[i].emits_same(value) {
            return true;
        }
        i += 1;
    }
    false
}

/// Sorts the list, keeps the first value of each text, and of these at most `limit`.
pub fn prune<T: Emission>(list: Vec<T>, limit: usize) -> (best: Vec<T>)
    ensures
        views(best@) == best_of::<T>(views(list@), limit as nat),
{
    let ghost given = views(list@);
    let mut sorted: Vec<T> = Vec::new();
    assert(views(sorted@) =~= in_order::<T>(given.take(0)));
    for value in it: list
        invariant
            views(it.seq()) == given,
            views(sorted@) == in_order::<T>(given.take(it.index())),
    {
        proof {
            assert(given.take(it.index() + 1).drop_last() =~= given.take(it.index()));
            assert(given.take(it.index() + 1).last() == value@);
        }
        insert(&mut sorted, value);
    }
    assert(given.take(given.len() as int) =~= given);
    let ghost ranked = views(sorted@);
    let mut best: Vec<T> = Vec::new();
    assert(views(best@) =~= without_repeats::<T>(ranked.take(0)));
    for value in it: sorted
        invariant
            views(it.seq()) == ranked,
            views(best@) == without_repeats::<T>(ranked.take(it.index())),
    {
        proof {
            assert(ranked.take(it.index() + 1).drop_last() =~= ranked.take(it.index()));
            assert(ranked.take(it.index() + 1).last() == value@);
        }
        if !is_repeated(&best, &value) {
            let ghost before = best@;
            best.push(value);
            assert(views(best@) =~= views(before).push(value@));
        }
    }
    assert(ranked.take(ranked.len() as int) =~= ranked);
    let ghost kept = best@;
    best.truncate(limit);
    assert(views(best@) =~= at_most(views(kept), limit as nat));
    best
}

/// Inserting a value keeps a list ranked, adds the value and nothing else, and puts a value
/// first that stands after none.
proof fn insertion<T: Emission>(list: Seq<T::V>, value: T::V)
    requires
        is_ranked::<T>(list),
    ensures
        is_ranked::<T>(with_inserted::<T>(list, value)),
        with_inserted::<T>(list, value).len() == list.len() + 1,
        forall|other: T::V|
            #![trigger with_inserted::<T>(list, value).contains(other)]
            #![trigger list.contains(other)]
            with_inserted::<T>(list, value).contains(other) <==> list.contains(other) || other
                == value,
    decreases list.len(),
{
    let result = with_inserted::<T>(list, value);
    if list.len() == 0 || T::order(list.last(), value) != Rank::After {
        assert forall|i: int| 0 <= i < list.len() implies T::order(#[trigger] list[i], value)
            != Rank::After by {
            if i < list.len() - 1 {
                T::order_transitive(list[i], list.last(), value);
            }
        }
        assert forall|other: T::V| result.contains(other) <==> list.contains(other) || other
            == value by {
            assert(result[list.len() as int] == value);
            if list.contains(other) {
                assert(result[list.index_of(other)] == other);
            }
        }
    } else {
        let shorter = list.drop_last();
        let inner = with_inserted::<T>(shorter, value);
        insertion::<T>(shorter, value);
        T::order_flip(list.last(), value);
        assert forall|i: int| 0 <= i < inner.len() implies T::order(
            #[trigger] inner[i],
            list.last(),
        ) != Rank::After by {
            assert(inner.contains(inner[i]));
            if inner[i] != value {
                let j = shorter.index_of(inner[i]);
                assert(list[j] == inner[i]);
            }
        }
        assert forall|other: T::V| result.contains(other) <==> list.contains(other) || other
            == value by {
            assert(result[inner.len() as int] == list.last());
            if inner.contains(other) {
                assert(result[inner.index_of(other)] == other);
                if shorter.contains(other) {
                    assert(list[shorter.index_of(other)] == other);
                }
            }
            if list.contains(other) {
                let i = list.index_of(other);
                if i < shorter.len() {
                    assert(shorter[i] == other);
                }
            }
        }
    }
}

/// Sorting gives a ranked list of the same values.
proof fn sorting<T: Emission>(list: Seq<T::V>)
    ensures
        is_ranked::<T>(in_order::<T>(list)),
        in_order::<T>(list).len() == list.len(),
        forall|value: T::V|
            #![trigger in_order::<T>(list).contains(value)]
            #![trigger list.contains(value)]
            in_order::<T>(list).contains(value) <==> list.contains(value),
    decreases list.len(),
{
    if list.len() > 0 {
        let shorter = list.drop_last();
        sorting::<T>(shorter);
        insertion::<T>(in_order::<T>(shorter), list.last());
        assert forall|value: T::V| in_order::<T>(list).contains(value) <==> list.contains(value) by {
            assert(list.contains(list.last()));
            if shorter.contains(value) {
                assert(list[shorter.index_of(value)] == value);
            }
            if list.contains(value) && value != list.last() {
                assert(shorter[list.index_of(value)] == value);
            }
        }
    }
}

/// Dropping repeats keeps a list ranked and its first value, and adds nothing. Each text of the
/// list stays, with the first value that emits it.
proof fn dropping_repeats<T: Emission>(list: Seq<T::V>)
    requires
        is_ranked::<T>(list),
    ensures
        is_ranked::<T>(without_repeats::<T>(list)),
        has_no_repeats::<T>(without_repeats::<T>(list)),
        list.len() > 0 ==> without_repeats::<T>(list).len() > 0 && without_repeats::<T>(list)[0]
            == list[0],
        forall|value: T::V| #[trigger]
            without_repeats::<T>(list).contains(value) ==> list.contains(value),
        forall|i: int|
            0 <= i < list.len() ==> emits::<T>(
                without_repeats::<T>(list),
                T::emitted(#[trigger] list[i]),
            ),
        forall|i: int, j: int|
            0 <= i < without_repeats::<T>(list).len() && 0 <= j < list.len() && T::emitted(
                without_repeats::<T>(list)[i],
            ) == T::emitted(list[j]) ==> T::order(
                #[trigger] without_repeats::<T>(list)[i],
                #[trigger] list[j],
            ) != Rank::After,
    decreases list.len(),
{
    if list.len() > 0 {
        let shorter = list.drop_last();
        let before = without_repeats::<T>(shorter);
        let kept = without_repeats::<T>(list);
        let last = list.last();
        dropping_repeats::<T>(shorter);
        assert forall|value: T::V| kept.contains(value) implies list.contains(value) by {
            if before.contains(value) {
                assert(list[shorter.index_of(value)] == value);
            } else {
                assert(value == last);
            }
        }
        assert forall|i: int| 0 <= i < before.len() implies T::order(#[trigger] before[i], last)
            != Rank::After by {
            assert(before.contains(before[i]));
            let j = shorter.index_of(before[i]);
            assert(list[j] == before[i]);
        }
        assert forall|text: Seq<char>| #[trigger] emits::<T>(before, text) implies emits::<T>(
            kept,
            text,
        ) by {
            let i = choose|i: int|
                0 <= i < before.len() && T::emitted(#[trigger] before[i]) == text;
            assert(kept[i] == before[i]);
        }
        assert forall|i: int| 0 <= i < list.len() implies emits::<T>(
            kept,
            T::emitted(#[trigger] list[i]),
        ) by {
            if i < shorter.len() {
                assert(shorter[i] == list[i]);
            } else if !emits::<T>(before, T::emitted(last)) {
                assert(kept[before.len() as int] == last);
            }
        }
        assert forall|i: int, j: int|
            0 <= i < kept.len() && 0 <= j < list.len() && T::emitted(kept[i]) == T::emitted(
                list[j],
            ) implies T::order(#[trigger] kept[i], #[trigger] list[j]) != Rank::After by {
            if i < before.len() {
                assert(kept[i] == before[i]);
                if j < shorter.len() {
                    assert(shorter[j] == list[j]);
                }
            } else if j < shorter.len() {
                assert(emits::<T>(before, T::emitted(shorter[j])));
            } else {
                T::order_flip(last, last);
            }
        }
    }
}

/// The best values of a list stand in order and come from the list. No two of them emit the same
/// text: each is the first in order of those that do. No value of the list stands before the
/// first of them, and no text is missing unless the limit cuts it off.
pub proof fn best_is_ranked<T: Emission>(list: Seq<T::V>, limit: nat)
    ensures
        is_ranked::<T>(best_of::<T>(list, limit)),
        has_no_repeats::<T>(best_of::<T>(list, limit)),
        best_of::<T>(list, limit).len() <= limit,
        forall|value: T::V| #[trigger]
            best_of::<T>(list, limit).contains(value) ==> list.contains(value),
        forall|i: int, j: int|
            0 <= i < best_of::<T>(list, limit).len() && 0 <= j < list.len() && T::emitted(
                best_of::<T>(list, limit)[i],
            ) == T::emitted(list[j]) ==> T::order(
                #[trigger] best_of::<T>(list, limit)[i],
                #[trigger] list[j],
            ) != Rank::After,
        list.len() > 0 && limit > 0 ==> best_of::<T>(list, limit).len() > 0,
        limit > 0 ==> forall|i: int|
            0 <= i < list.len() ==> T::order(best_of::<T>(list, limit)[0], #[trigger] list[i])
                != Rank::After,
        best_of::<T>(list, limit).len() < limit ==> is_uncut::<T>(list, limit),
        is_uncut::<T>(list, limit) ==> forall|i: int|
            0 <= i < list.len() ==> emits::<T>(
                best_of::<T>(list, limit),
                T::emitted(#[trigger] list[i]),
            ),
{
    let sorted = in_order::<T>(list);
    let kept = without_repeats::<T>(sorted);
    let best = best_of::<T>(list, limit);
    sorting::<T>(list);
    dropping_repeats::<T>(sorted);
    assert forall|value: T::V| best.contains(value) implies list.contains(value) by {
        let i = best.index_of(value);
        assert(kept[i] == value);
        assert(kept.contains(value));
    }
    assert forall|i: int, j: int|
        0 <= i < best.len() && 0 <= j < list.len() && T::emitted(best[i]) == T::emitted(
            list[j],
        ) implies T::order(#[trigger] best[i], #[trigger] list[j]) != Rank::After by {
        assert(best[i] == kept[i]);
        assert(list.contains(list[j]));
        assert(sorted.contains(list[j]));
        assert(sorted[sorted.index_of(list[j])] == list[j]);
    }
    assert forall|i: int| is_uncut::<T>(list, limit) && 0 <= i < list.len() implies emits::<T>(
        best,
        T::emitted(#[trigger] list[i]),
    ) by {
        assert(best == kept);
        assert(list.contains(list[i]));
        assert(sorted.contains(list[i]));
        assert(sorted[sorted.index_of(list[i])] == list[i]);
    }
    if limit > 0 {
        assert forall|i: int| 0 <= i < list.len() implies T::order(best[0], #[trigger] list[i])
            != Rank::After by {
            assert(list.contains(list[i]));
            assert(sorted.contains(list[i]));
            let j = sorted.index_of(list[i]);
            assert(best[0] == sorted[0]);
            if j == 0 {
                T::order_flip(sorted[0], sorted[0]);
            }
        }
    }
}

} // verus!
