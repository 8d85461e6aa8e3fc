//! The rows of the dictionaries of one, two and three words.

use crate::mozc::{MozcRow, RowView};
use crate::ngram::fx::Packed;
use crate::ngram::packing::{pair_of, triple_of, unpack_bigram, unpack_trigram};
use crate::ngram::tokens::{TokenKey, TokenView};
use crate::order::{
    int_rank, same_elements, sort_by, sorted_by, strictly_sorted_is_unique, Rank, Ranking,
};
use crate::views::{views, views_push};
use vstd::prelude::*;

verus! {

/// A row whose cost is not known yet, with the count that it follows from.
pub struct CountedRow {
    pub reading: String,
    pub left_id: u16,
    pub right_id: u16,
    pub surface: String,
    pub count: u64,
}

#[verifier::ext_equal]
pub struct CountedRowView {
    pub reading: Seq<char>,
    pub left_id: u16,
    pub right_id: u16,
    pub surface: Seq<char>,
    pub count: nat,
}

impl View for CountedRow {
    type V = CountedRowView;

    open spec fn view(&self) -> CountedRowView {
        CountedRowView {
            reading: self.reading@,
            left_id: self.left_id,
            right_id: self.right_id,
            surface: self.surface@,
            count: self.count as nat,
        }
    }
}

/// The row of a single token.
pub open spec fn token_row(token: TokenView, count: nat) -> CountedRowView {
    CountedRowView {
        reading: token.reading,
        left_id: token.left_id,
        right_id: token.right_id,
        surface: token.surface,
        count,
    }
}

/// The row of a phrase of two: readings and surfaces are put together, the first token gives the
/// left context ID and the last one the right context ID.
pub open spec fn pair_row(vocabulary: Seq<TokenView>, key: u64, count: nat) -> CountedRowView {
    let first = vocabulary[pair_of(key).0 as int];
    let second = vocabulary[pair_of(key).1 as int];
    CountedRowView {
        reading: first.reading + second.reading,
        left_id: first.left_id,
        right_id: second.right_id,
        surface: first.surface + second.surface,
        count,
    }
}

/// The row of a phrase of three.
pub open spec fn triple_row(vocabulary: Seq<TokenView>, key: u128, count: nat) -> CountedRowView {
    let first = vocabulary[triple_of(key).0 as int];
    let second = vocabulary[triple_of(key).1 as int];
    let third = vocabulary[triple_of(key).2 as int];
    CountedRowView {
        reading: first.reading + second.reading + third.reading,
        left_id: first.left_id,
        right_id: third.right_id,
        surface: first.surface + second.surface + third.surface,
        count,
    }
}

/// The rows of the first `length` tokens with at least `min_count`.
pub open spec fn token_rows(
    vocabulary: Seq<TokenView>,
    counts: Seq<u64>,
    min_count: u64,
    length: int,
) -> Seq<CountedRowView>
    decreases length,
{
    if length <= 0 {
        Seq::empty()
    } else {
        let before = token_rows(vocabulary, counts, min_count, length - 1);
        if counts[length - 1] >= min_count {
            before.push(token_row(vocabulary[length - 1], counts[length - 1] as nat))
        } else {
            before
        }
    }
}

/// The rows of the frequent tokens, in the order of the vocabulary.
pub fn unigram_rows(vocabulary: &[TokenKey], counts: &[u64], min_count: u64) -> (rows: Vec<
    CountedRow,
>)
    requires
        vocabulary@.len() <= counts@.len(),
    ensures
        views(rows@) == token_rows(
            views(vocabulary@),
            counts@,
            min_count,
            vocabulary@.len() as int,
        ),
{
    let ghost all = views(vocabulary@);
    let mut rows: Vec<CountedRow> = Vec::new();
    let mut i: usize = 0;
    assert(views(rows@) =~= token_rows(all, counts@, min_count, 0));
    while i < vocabulary.len()
        invariant
            all == views(vocabulary@),
            vocabulary@.len() <= counts@.len(),
            i <= vocabulary@.len(),
            views(rows@) == token_rows(all, counts@, min_count, i as int),
        decreases vocabulary@.len() - i,
    {
        let token = &vocabulary[i];
        assert(all[i as int] == token@);
        if counts[i] >= min_count {
            let row = CountedRow {
                reading: token.reading.clone(),
                left_id: token.left_id,
                right_id: token.right_id,
                surface: token.surface.clone(),
                count: counts[i],
            };
            proof {
                views_push(rows@, row);
            }
            rows.push(row);
        }
        i += 1;
    }
    rows
}

/// The order by key.
pub struct ByKey;

impl<K: Packed> Ranking<(K, u64)> for ByKey {
    open spec fn rank(left: (K, u64), right: (K, u64)) -> Rank {
        int_rank(left.0.number() as int, right.0.number() as int)
    }

    proof fn rank_flip(left: (K, u64), right: (K, u64)) {
    }

    proof fn rank_transitive(first: (K, u64), second: (K, u64), third: (K, u64)) {
    }

    fn compare(left: &(K, u64), right: &(K, u64)) -> (rank: Rank) {
        K::compare_numbers(left.0, right.0)
    }
}

/// The keys of a list are distinct.
pub open spec fn keys_are_distinct<K>(list: Seq<(K, u64)>) -> bool {
    forall|i: int, j: int|
        0 <= i < j < list.len() ==> (#[trigger] list[i]).0 != (#[trigger] list[j]).0
}

/// The list holds, by rising keys, those of the given list with at least `min_count`.
pub open spec fn is_frequent_list<K: Packed>(
    list: Seq<(K, u64)>,
    given: Seq<(K, u64)>,
    min_count: u64,
) -> bool {
    &&& forall|i: int, j: int|
        0 <= i < j < list.len() ==> (#[trigger] list[i]).0.number() < (
        #[trigger] list[j]).0.number()
    &&& forall|i: int|
        0 <= i < list.len() ==> given.contains(#[trigger] list[i]) && list[i].1 >= min_count
    &&& forall|i: int|
        0 <= i < given.len() && (#[trigger] given[i]).1 >= min_count ==> list.contains(given[i])
}

/// The keys with at least `min_count`, by rising keys.
pub fn frequent_keys<K: Packed>(list: &[(K, u64)], min_count: u64) -> (frequent: Vec<(K, u64)>)
    requires
        keys_are_distinct(list@),
    ensures
        is_frequent_list(frequent@, list@, min_count),
{
    let ghost given = list@;
    let mut kept: Vec<(K, u64)> = Vec::new();
    let mut i: usize = 0;
    while i < list.len()
        invariant
            given == list@,
            keys_are_distinct(given),
            i <= list@.len(),
            forall|j: int|
                0 <= j < kept@.len() ==> given.contains(#[trigger] kept@[j]) && kept@[j].1
                    >= min_count,
            forall|j: int|
                0 <= j < i && (#[trigger] given[j]).1 >= min_count ==> kept@.contains(given[j]),
            keys_are_distinct(kept@),
            forall|j: int, k: int|
                0 <= j < kept@.len() && i <= k < given.len() ==> (#[trigger] kept@[j]).0 != (
                #[trigger] given[k]).0,
        decreases list@.len() - i,
    {
        let pair = list[i];
        assert(given.contains(given[i as int]));
        if pair.1 >= min_count {
            let ghost before = kept@;
            kept.push(pair);
            proof {
                assert(kept@[before.len() as int] == pair);
                assert forall|j: int|
                    0 <= j < i + 1 && (#[trigger] given[j]).1 >= min_count implies kept@.contains(
                    given[j],
                ) by {
                    if j < i {
                        assert(before.contains(given[j]));
                        assert(kept@[before.index_of(given[j])] == given[j]);
                    }
                }
            }
        }
        i += 1;
    }
    let ghost unsorted = kept@;
    let sorted = sort_by::<(K, u64), ByKey>(kept);
    proof {
        same_elements(sorted@, unsorted);
        frequent_list_is_sorted(sorted@, unsorted);
        assert forall|j: int| 0 <= j < sorted@.len() implies given.contains(
            #[trigger] sorted@[j],
        ) && sorted@[j].1 >= min_count by {
            assert(sorted@.contains(sorted@[j]));
            let k = unsorted.index_of(sorted@[j]);
            assert(given.contains(unsorted[k]));
        }
        assert forall|j: int|
            0 <= j < given.len() && (#[trigger] given[j]).1 >= min_count implies sorted@.contains(
            given[j],
        ) by {
            assert(unsorted.contains(given[j]));
        }
    }
    sorted
}

/// Distinct keys stay distinct when they are sorted.
proof fn frequent_list_is_sorted<K: Packed>(sorted: Seq<(K, u64)>, unsorted: Seq<(K, u64)>)
    requires
        sorted_by::<(K, u64), ByKey>(sorted),
        sorted.to_multiset() == unsorted.to_multiset(),
        keys_are_distinct(unsorted),
    ensures
        forall|i: int, j: int|
            0 <= i < j < sorted.len() ==> (#[trigger] sorted[i]).0.number() < (
            #[trigger] sorted[j]).0.number(),
{
    same_elements(sorted, unsorted);
    assert(unsorted.no_duplicates());
    unsorted.lemma_multiset_has_no_duplicates();
    sorted.lemma_multiset_has_no_duplicates_conv();
    assert forall|i: int, j: int| 0 <= i < j < sorted.len() implies (
    #[trigger] sorted[i]).0.number() < (#[trigger] sorted[j]).0.number() by {
        assert(<ByKey as Ranking<(K, u64)>>::rank(sorted[i], sorted[j]) != Rank::After);
        if sorted[i].0.number() == sorted[j].0.number() {
            K::numbers_differ(sorted[i].0, sorted[j].0);
            assert(sorted.contains(sorted[i]) && sorted.contains(sorted[j]));
            let p = unsorted.index_of(sorted[i]);
            let q = unsorted.index_of(sorted[j]);
            assert(unsorted[p] == sorted[i] && unsorted[q] == sorted[j]);
            assert(sorted[i] != sorted[j]);
            assert(p == q) by {
                if p < q {
                    assert(unsorted[p].0 != unsorted[q].0);
                } else if q < p {
                    assert(unsorted[q].0 != unsorted[p].0);
                }
            }
        }
    }
}

/// Both tokens of a pair are in the vocabulary.
pub open spec fn pair_within(key: u64, length: nat) -> bool {
    pair_of(key).0 < length && pair_of(key).1 < length
}

/// All tokens of a triple are in the vocabulary.
pub open spec fn triple_within(key: u128, length: nat) -> bool {
    triple_of(key).0 < length && triple_of(key).1 < length && triple_of(key).2 < length
}

/// The rows of pairs.
pub open spec fn pair_rows(vocabulary: Seq<TokenView>, list: Seq<(u64, u64)>) -> Seq<
    CountedRowView,
> {
    Seq::new(list.len(), |i: int| pair_row(vocabulary, list[i].0, list[i].1 as nat))
}

/// The rows of triples.
pub open spec fn triple_rows(vocabulary: Seq<TokenView>, list: Seq<(u128, u64)>) -> Seq<
    CountedRowView,
> {
    Seq::new(list.len(), |i: int| triple_row(vocabulary, list[i].0, list[i].1 as nat))
}

/// Makes the rows of pairs.
pub fn bigram_rows(vocabulary: &[TokenKey], list: &[(u64, u64)]) -> (rows: Vec<CountedRow>)
    requires
        forall|i: int|
            0 <= i < list@.len() ==> pair_within((#[trigger] list@[i]).0, vocabulary@.len()),
    ensures
        views(rows@) == pair_rows(views(vocabulary@), list@),
{
    let ghost all = pair_rows(views(vocabulary@), list@);
    let mut rows: Vec<CountedRow> = Vec::new();
    let mut i: usize = 0;
    assert(views(rows@) =~= all.take(0));
    while i < list.len()
        invariant
            all == pair_rows(views(vocabulary@), list@),
            forall|i: int|
                0 <= i < list@.len() ==> pair_within((#[trigger] list@[i]).0, vocabulary@.len()),
            i <= list@.len(),
            views(rows@) == all.take(i as int),
        decreases list@.len() - i,
    {
        assert(pair_within(list@[i as int].0, vocabulary@.len()));
        let (first, second) = unpack_bigram(list[i].0);
        let first = &vocabulary[first as usize];
        let second = &vocabulary[second as usize];
        let mut reading = first.reading.clone();
        reading.append(second.reading.as_str());
        let mut surface = first.surface.clone();
        surface.append(second.surface.as_str());
        let row = CountedRow {
            reading,
            left_id: first.left_id,
            right_id: second.right_id,
            surface,
            count: list[i].1,
        };
        proof {
            views_push(rows@, row);
            assert(row@ =~= all[i as int]);
            assert(all.take(i + 1) =~= all.take(i as int).push(row@));
        }
        rows.push(row);
        i += 1;
    }
    assert(all.take(i as int) =~= all);
    rows
}

/// Makes the rows of triples.
pub fn trigram_rows(vocabulary: &[TokenKey], list: &[(u128, u64)]) -> (rows: Vec<CountedRow>)
    requires
        forall|i: int|
            0 <= i < list@.len() ==> triple_within((#[trigger] list@[i]).0, vocabulary@.len()),
    ensures
        views(rows@) == triple_rows(views(vocabulary@), list@),
{
    let ghost all = triple_rows(views(vocabulary@), list@);
    let mut rows: Vec<CountedRow> = Vec::new();
    let mut i: usize = 0;
    assert(views(rows@) =~= all.take(0));
    while i < list.len()
        invariant
            all == triple_rows(views(vocabulary@), list@),
            forall|i: int|
                0 <= i < list@.len() ==> triple_within((#[trigger] list@[i]).0, vocabulary@.len()),
            i <= list@.len(),
            views(rows@) == all.take(i as int),
        decreases list@.len() - i,
    {
        assert(triple_within(list@[i as int].0, vocabulary@.len()));
        let (first, second, third) = unpack_trigram(list[i].0);
        let first = &vocabulary[first as usize];
        let second = &vocabulary[second as usize];
        let third = &vocabulary[third as usize];
        let mut reading = first.reading.clone();
        reading.append(second.reading.as_str());
        reading.append(third.reading.as_str());
        let mut surface = first.surface.clone();
        surface.append(second.surface.as_str());
        surface.append(third.surface.as_str());
        let row = CountedRow {
            reading,
            left_id: first.left_id,
            right_id: third.right_id,
            surface,
            count: list[i].1,
        };
        proof {
            views_push(rows@, row);
            assert(row@ =~= all[i as int]);
            assert(all.take(i + 1) =~= all.take(i as int).push(row@));
        }
        rows.push(row);
        i += 1;
    }
    assert(all.take(i as int) =~= all);
    rows
}

/// The cost of a count among `total`: `scaled` stands for the negative logarithm of their ratio,
/// scaled and rounded. Costs stay within the range of Mozc.
pub open spec fn cost_for(count: nat, total: nat, scaled: int) -> int {
    if count == 0 || total == 0 || scaled > 32767 {
        32767
    } else if scaled < 1 {
        1
    } else {
        scaled
    }
}

/// The cost of a count among `total`.
pub fn mozc_cost(count: u64, total: u64, scaled: i64) -> (cost: i32)
    ensures
        cost == cost_for(count as nat, total as nat, scaled as int),
        1 <= cost <= 32767,
{
    if count == 0 || total == 0 || scaled > 32767 {
        32767
    } else if scaled < 1 {
        1
    } else {
        scaled as i32
    }
}

/// A row with its cost.
pub open spec fn priced(row: CountedRowView, total: nat, scaled: int) -> RowView {
    RowView {
        reading: row.reading,
        left_id: row.left_id,
        right_id: row.right_id,
        cost: cost_for(row.count, total, scaled),
        surface: row.surface,
    }
}

/// Gives rows their costs.
pub fn price_rows(rows: Vec<CountedRow>, total: u64, scaled: &[i64]) -> (result: Vec<MozcRow>)
    requires
        rows@.len() == scaled@.len(),
    ensures
        result@.len() == rows@.len(),
        forall|i: int|
            0 <= i < rows@.len() ==> (#[trigger] result@[i])@ == priced(
                rows@[i]@,
                total as nat,
                scaled@[i] as int,
            ),
{
    let ghost given = rows@;
    let mut result: Vec<MozcRow> = Vec::new();
    let mut place: usize = 0;
    for row in it: rows
        invariant
            it.seq() == given,
            given.len() == scaled@.len(),
            place == it.index(),
            result@.len() == it.index(),
            forall|i: int|
                0 <= i < it.index() ==> (#[trigger] result@[i])@ == priced(
                    given[i]@,
                    total as nat,
                    scaled@[i] as int,
                ),
    {
        let cost = mozc_cost(row.count, total, scaled[place]);
        result.push(
            MozcRow {
                reading: row.reading,
                left_id: row.left_id,
                right_id: row.right_id,
                cost,
                surface: row.surface,
            },
        );
        place += 1;
    }
    result
}

/// A count that is scaled to less costs no more.
pub proof fn costs_keep_order(count: nat, other: nat, total: nat, scaled: int, other_scaled: int)
    requires
        count > 0,
        scaled <= other_scaled,
    ensures
        cost_for(count, total, scaled) <= cost_for(other, total, other_scaled),
        1 <= cost_for(count, total, scaled) <= 32767,
{
}

/// The keys with at least `min_count` have one list.
pub proof fn frequent_list_is_unique<K: Packed>(
    first: Seq<(K, u64)>,
    second: Seq<(K, u64)>,
    given: Seq<(K, u64)>,
    min_count: u64,
)
    requires
        is_frequent_list(first, given, min_count),
        is_frequent_list(second, given, min_count),
    ensures
        first == second,
{
    let precedes = |left: (K, u64), right: (K, u64)| left.0.number() < right.0.number();
    assert forall|value: (K, u64)|
        #![trigger first.contains(value)]
        #![trigger second.contains(value)]
        first.contains(value) <==> second.contains(value) by {
        if first.contains(value) {
            let i = first.index_of(value);
            assert(given.contains(first[i]));
            let k = given.index_of(value);
            assert(second.contains(given[k]));
        }
        if second.contains(value) {
            let i = second.index_of(value);
            assert(given.contains(second[i]));
            let k = given.index_of(value);
            assert(first.contains(given[k]));
        }
    }
    strictly_sorted_is_unique(first, second, precedes);
}

} // verus!
