//! Total preorders over values, and sorting by them.

use vstd::prelude::*;

verus! {

/// How one value stands to another in an order.
#[derive(Clone, Copy, Debug, PartialEq, Eq, Structural)]
pub enum Rank {
    Before,
    Same,
    After,
}

impl Rank {
    /// The rank seen from the other side.
    pub open spec fn flip(self) -> Rank {
        match self {
            Rank::Before => Rank::After,
            Rank::Same => Rank::Same,
            Rank::After => Rank::Before,
        }
    }

    /// This rank, or `next` where this one does not decide.
    pub open spec fn then_by(self, next: Rank) -> Rank {
        match self {
            Rank::Same => next,
            _ => self,
        }
    }
}

/// The order of the integers.
pub open spec fn int_rank(left: int, right: int) -> Rank {
    if left < right {
        Rank::Before
    } else if left == right {
        Rank::Same
    } else {
        Rank::After
    }
}

/// The order of the truth values: `false` comes first.
pub open spec fn bool_rank(left: bool, right: bool) -> Rank {
    if left == right {
        Rank::Same
    } else if right {
        Rank::Before
    } else {
        Rank::After
    }
}

/// The lexicographic order of texts by code point.
pub open spec fn text_rank(left: Seq<char>, right: Seq<char>) -> Rank
    decreases left.len(),
{
    if left.len() == 0 || right.len() == 0 {
        int_rank(left.len() as int, right.len() as int)
    } else if left[0] == right[0] {
        text_rank(left.drop_first(), right.drop_first())
    } else {
        int_rank(left[0] as int, right[0] as int)
    }
}

/// A text stands beside itself, and beside no other text.
pub proof fn text_rank_same(left: Seq<char>, right: Seq<char>)
    ensures
        text_rank(left, right) == Rank::Same <==> left == right,
    decreases left.len(),
{
    if left.len() > 0 && right.len() > 0 {
        text_rank_same(left.drop_first(), right.drop_first());
        if left[0] == right[0] && left.drop_first() == right.drop_first() {
            assert(left =~= seq![left[0]] + left.drop_first());
            assert(right =~= seq![right[0]] + right.drop_first());
        }
    } else if left.len() == right.len() {
        assert(left =~= right);
    }
}

/// Comparing two texts the other way round gives the flipped rank.
pub proof fn text_rank_flip(left: Seq<char>, right: Seq<char>)
    ensures
        text_rank(left, right) == text_rank(right, left).flip(),
    decreases left.len(),
{
    if left.len() > 0 && right.len() > 0 && left[0] == right[0] {
        text_rank_flip(left.drop_first(), right.drop_first());
    }
}

/// The order of texts is transitive.
pub proof fn text_rank_transitive(first: Seq<char>, second: Seq<char>, third: Seq<char>)
    ensures
        text_rank(first, second) == Rank::Before && text_rank(second, third) == Rank::Before
            ==> text_rank(first, third) == Rank::Before,
    decreases first.len(),
{
    if first.len() > 0 && second.len() > 0 && third.len() > 0 {
        text_rank_transitive(first.drop_first(), second.drop_first(), third.drop_first());
    }
}

/// Compares two texts by code point.
pub fn compare_text(left: &str, right: &str) -> (rank: Rank)
    ensures
        rank == text_rank(left@, right@),
{
    let mut left_chars = left.chars();
    let mut right_chars = right.chars();
    loop
        invariant
            text_rank(left@, right@) == text_rank(
                vstd::std_specs::iter::IteratorSpec::remaining(&left_chars),
                vstd::std_specs::iter::IteratorSpec::remaining(&right_chars),
            ),
            vstd::std_specs::iter::IteratorSpec::obeys_prophetic_iter_laws(&left_chars),
            vstd::std_specs::iter::IteratorSpec::obeys_prophetic_iter_laws(&right_chars),
            vstd::std_specs::iter::IteratorSpec::decrease(&left_chars) is Some,
        decreases vstd::std_specs::iter::IteratorSpec::decrease(&left_chars)->0,
    {
        broadcast use vstd::string::next_postcondition;

        match (left_chars.next(), right_chars.next()) {
            (None, None) => {
                return Rank::Same;
            },
            (None, Some(_)) => {
                return Rank::Before;
            },
            (Some(_), None) => {
                return Rank::After;
            },
            (Some(first), Some(second)) => {
                if first < second {
                    return Rank::Before;
                }
                if first > second {
                    return Rank::After;
                }
            },
        }
    }
}

/// The order of three texts, among each other.
pub proof fn text_laws(first: Seq<char>, second: Seq<char>, third: Seq<char>)
    ensures
        text_rank(first, second) == Rank::Same <==> first == second,
        text_rank(second, third) == Rank::Same <==> second == third,
        text_rank(first, third) == Rank::Same <==> first == third,
        text_rank(first, second) == Rank::Before && text_rank(second, third) == Rank::Before
            ==> text_rank(first, third) == Rank::Before,
{
    text_rank_same(first, second);
    text_rank_same(second, third);
    text_rank_same(first, third);
    text_rank_transitive(first, second, third);
}

/// Compares two numbers.
pub fn compare_u64(left: u64, right: u64) -> (rank: Rank)
    ensures
        rank == int_rank(left as int, right as int),
{
    if left < right {
        Rank::Before
    } else if left == right {
        Rank::Same
    } else {
        Rank::After
    }
}

/// Compares two integers.
pub fn compare_i64(left: i64, right: i64) -> (rank: Rank)
    ensures
        rank == int_rank(left as int, right as int),
{
    if left < right {
        Rank::Before
    } else if left == right {
        Rank::Same
    } else {
        Rank::After
    }
}

/// A total preorder on `T`, with a comparison that decides it.
pub trait Ranking<T> {
    spec fn rank(left: T, right: T) -> Rank;

    proof fn rank_flip(left: T, right: T)
        ensures
            Self::rank(left, right) == Self::rank(right, left).flip(),
    ;

    proof fn rank_transitive(first: T, second: T, third: T)
        requires
            Self::rank(first, second) != Rank::After,
            Self::rank(second, third) != Rank::After,
        ensures
            Self::rank(first, third) != Rank::After,
    ;

    fn compare(left: &T, right: &T) -> (rank: Rank)
        ensures
            rank == Self::rank(*left, *right),
    ;
}

/// No value stands after one that comes later in the sequence.
pub open spec fn sorted_by<T, R: Ranking<T>>(values: Seq<T>) -> bool {
    forall|i: int, j: int|
        0 <= i < j < values.len() ==> R::rank(#[trigger] values[i], #[trigger] values[j])
            != Rank::After
}

/// Sequences with the same multiset of values have the same length and hold the same values.
pub proof fn same_elements<T>(left: Seq<T>, right: Seq<T>)
    requires
        left.to_multiset() == right.to_multiset(),
    ensures
        left.len() == right.len(),
        forall|value: T| left.contains(value) <==> right.contains(value),
{
    left.to_multiset_ensures();
    right.to_multiset_ensures();
    assert forall|value: T| left.contains(value) <==> right.contains(value) by {
        vstd::seq_lib::to_multiset_contains(left, value);
        vstd::seq_lib::to_multiset_contains(right, value);
    }
}

/// Every value of `low` may stand before every value of `high`.
spec fn all_below<T, R: Ranking<T>>(low: Seq<T>, high: Seq<T>) -> bool {
    forall|i: int, j: int|
        0 <= i < low.len() && 0 <= j < high.len() ==> R::rank(
            #[trigger] low[i],
            #[trigger] high[j],
        ) != Rank::After
}

/// Turns the sequence round.
fn reversed<T>(values: Vec<T>) -> (result: Vec<T>)
    ensures
        result@ == values@.reverse(),
        result@.to_multiset() == values@.to_multiset(),
{
    broadcast use vstd::seq_lib::group_to_multiset_ensures;

    let ghost all = values@;
    let mut values = values;
    let mut result: Vec<T> = Vec::new();
    while values.len() > 0
        invariant
            values@ == all.take(values@.len() as int),
            values@.len() <= all.len(),
            result@ == all.skip(values@.len() as int).reverse(),
            values@.to_multiset().add(result@.to_multiset()) == all.to_multiset(),
        decreases values@.len(),
    {
        broadcast use vstd::seq_lib::group_to_multiset_ensures;

        let ghost before = values@;
        let ghost done = result@;
        if let Some(last) = values.pop() {
            result.push(last);
            proof {
                assert(before =~= values@.push(last));
                assert(result@ =~= all.skip(values@.len() as int).reverse());
                assert(values@.to_multiset().add(result@.to_multiset())
                    =~= before.to_multiset().add(done.to_multiset()));
            }
        }
    }
    proof {
        assert(values@ =~= Seq::<T>::empty());
        assert(all.skip(0) =~= all);
        assert(values@.to_multiset().add(result@.to_multiset()) =~= result@.to_multiset());
    }
    result
}

/// Merges two sorted sequences into one.
fn merged<T, R: Ranking<T>>(left: Vec<T>, right: Vec<T>) -> (result: Vec<T>)
    requires
        sorted_by::<T, R>(left@),
        sorted_by::<T, R>(right@),
    ensures
        sorted_by::<T, R>(result@),
        result@.to_multiset() == left@.to_multiset().add(right@.to_multiset()),
{
    let ghost total = left@.to_multiset().add(right@.to_multiset());
    let mut left = left;
    let mut right = right;
    // The largest values so far, the largest first.
    let mut tail: Vec<T> = Vec::new();
    proof {
        assert(tail@.to_multiset() =~= vstd::multiset::Multiset::empty()) by {
            tail@.to_multiset_ensures();
        }
        assert(left@.to_multiset().add(right@.to_multiset()).add(tail@.to_multiset()) =~= total);
        assert(tail@.reverse() =~= Seq::<T>::empty());
    }
    while left.len() > 0 || right.len() > 0
        invariant
            sorted_by::<T, R>(left@),
            sorted_by::<T, R>(right@),
            sorted_by::<T, R>(tail@.reverse()),
            all_below::<T, R>(left@, tail@),
            all_below::<T, R>(right@, tail@),
            left@.to_multiset().add(right@.to_multiset()).add(tail@.to_multiset()) == total,
        decreases left@.len() + right@.len(),
    {
        broadcast use vstd::seq_lib::group_to_multiset_ensures;

        let ghost left_before = left@;
        let ghost right_before = right@;
        let ghost tail_before = tail@;
        let take_left = if left.len() == 0 {
            false
        } else if right.len() == 0 {
            true
        } else {
            R::compare(&left[left.len() - 1], &right[right.len() - 1]) == Rank::After
        };
        let taken = if take_left {
            left.pop()
        } else {
            right.pop()
        };
        if let Some(value) = taken {
            proof {
                if take_left {
                    assert(left_before =~= left@.push(value));
                    if right@.len() > 0 {
                        R::rank_flip(left_before.last(), right@.last());
                        assert forall|i: int| 0 <= i < right@.len() implies R::rank(
                            #[trigger] right@[i],
                            value,
                        ) != Rank::After by {
                            if i < right@.len() - 1 {
                                R::rank_transitive(right@[i], right@.last(), value);
                            }
                        }
                    }
                } else {
                    assert(right_before =~= right@.push(value));
                    if left@.len() > 0 {
                        assert forall|i: int| 0 <= i < left@.len() implies R::rank(
                            #[trigger] left@[i],
                            value,
                        ) != Rank::After by {
                            if i < left@.len() - 1 {
                                R::rank_transitive(left@[i], left@.last(), value);
                            }
                        }
                    }
                }
                assert forall|i: int| 0 <= i < left@.len() implies R::rank(
                    #[trigger] left@[i],
                    value,
                ) != Rank::After by {
                    assert(left@[i] == left_before[i]);
                }
                assert forall|i: int| 0 <= i < right@.len() implies R::rank(
                    #[trigger] right@[i],
                    value,
                ) != Rank::After by {
                    assert(right@[i] == right_before[i]);
                }
                assert forall|j: int| 0 <= j < tail_before.len() implies R::rank(
                    value,
                    #[trigger] tail_before[j],
                ) != Rank::After by {
                    if take_left {
                        assert(left_before.last() == value);
                    } else {
                        assert(right_before.last() == value);
                    }
                }
                assert(tail_before.push(value).reverse() =~= seq![value] + tail_before.reverse());
                assert forall|i: int, j: int|
                    0 <= i < j < tail_before.len() + 1 implies R::rank(
                    #[trigger] tail_before.push(value).reverse()[i],
                    #[trigger] tail_before.push(value).reverse()[j],
                ) != Rank::After by {
                    assert(tail_before.push(value).reverse()[j] == tail_before.reverse()[j - 1]);
                    if i > 0 {
                        assert(tail_before.push(value).reverse()[i] == tail_before.reverse()[i
                            - 1]);
                    } else {
                        assert(tail_before.reverse()[j - 1] == tail_before[tail_before.len() - j]);
                    }
                }
                assert(left@.to_multiset().add(right@.to_multiset()).add(
                    tail_before.push(value).to_multiset(),
                ) =~= left_before.to_multiset().add(right_before.to_multiset()).add(
                    tail_before.to_multiset(),
                ));
            }
            tail.push(value);
        }
    }
    proof {
        broadcast use vstd::seq_lib::group_to_multiset_ensures;

        assert(left@ =~= Seq::<T>::empty());
        assert(right@ =~= Seq::<T>::empty());
        assert(left@.to_multiset().add(right@.to_multiset()).add(tail@.to_multiset())
            =~= tail@.to_multiset());
    }
    reversed(tail)
}

/// Sorts the values by the ranking `R`.
pub fn sort_by<T, R: Ranking<T>>(values: Vec<T>) -> (result: Vec<T>)
    ensures
        sorted_by::<T, R>(result@),
        result@.to_multiset() == values@.to_multiset(),
    decreases values@.len(),
{
    let mut values = values;
    if values.len() <= 1 {
        return values;
    }
    let ghost all = values@;
    let middle = values.len() / 2;
    let right = values.split_off(middle);
    proof {
        assert(all =~= values@ + right@);
        vstd::seq_lib::lemma_multiset_commutative(values@, right@);
    }
    let left = sort_by::<T, R>(values);
    let right = sort_by::<T, R>(right);
    merged::<T, R>(left, right)
}

/// A set of values has one strictly sorted sequence.
pub proof fn strictly_sorted_is_unique<V>(
    left: Seq<V>,
    right: Seq<V>,
    precedes: spec_fn(V, V) -> bool,
)
    requires
        forall|i: int, j: int|
            0 <= i < j < left.len() ==> precedes(#[trigger] left[i], #[trigger] left[j]),
        forall|i: int, j: int|
            0 <= i < j < right.len() ==> precedes(#[trigger] right[i], #[trigger] right[j]),
        forall|first: V, second: V| #[trigger]
            precedes(first, second) ==> !precedes(second, first),
        forall|value: V|
            #![trigger left.contains(value)]
            #![trigger right.contains(value)]
            left.contains(value) <==> right.contains(value),
    ensures
        left == right,
    decreases left.len(),
{
    if left.len() == 0 {
        if right.len() > 0 {
            assert(right.contains(right[0]));
        }
        assert(left =~= right);
    } else {
        let last = left.last();
        assert(left.contains(last));
        assert(right.contains(last));
        assert(right.contains(right.last()));
        assert(left.contains(right.last()));
        let i = right.index_of(last);
        let j = left.index_of(right.last());
        assert(right[i] == last && left[j] == right.last());
        if i < right.len() - 1 {
            assert(precedes(right[i], right[right.len() - 1]));
            if j < left.len() - 1 {
                assert(precedes(left[j], left[left.len() - 1]));
            }
            assert(false);
        }
        let shorter_left = left.drop_last();
        let shorter_right = right.drop_last();
        assert forall|value: V|
            #![trigger shorter_left.contains(value)]
            #![trigger shorter_right.contains(value)]
            shorter_left.contains(value) <==> shorter_right.contains(value) by {
            if shorter_left.contains(value) {
                let k = shorter_left.index_of(value);
                assert(left[k] == value);
                assert(left.contains(value));
                assert(precedes(left[k], left[left.len() - 1]));
                let l = right.index_of(value);
                assert(right[l] == value);
                assert(shorter_right[l] == value);
            }
            if shorter_right.contains(value) {
                let k = shorter_right.index_of(value);
                assert(right[k] == value);
                assert(right.contains(value));
                assert(precedes(right[k], right[right.len() - 1]));
                let l = left.index_of(value);
                assert(left[l] == value);
                assert(shorter_left[l] == value);
            }
        }
        strictly_sorted_is_unique(shorter_left, shorter_right, precedes);
        assert(left =~= shorter_left.push(last));
        assert(right =~= shorter_right.push(last));
    }
}

} // verus!
