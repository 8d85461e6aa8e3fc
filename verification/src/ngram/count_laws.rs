//! What is counted and how it is priced, said of tokens and their neighbours.

use crate::ngram::corpus::{flat, sentences_in, sequences_in};
use crate::ngram::counts::{occurrences, pairs, triples};
use crate::ngram::id_map::{
    best_fit, exact_id, feature_key, fit, generalized, resolved, IdEntryView, IdMapView,
};
use crate::ngram::options::{option_fault, BuildOptions, PresentFiles};
use crate::ngram::packing::{packed_pair, packed_triple, pairs_round_trip, triples_round_trip};
use crate::ngram::pipeline::{corpus_of, OrderCounts};
use crate::ngram::release::{are_release_rows, ReleaseRows};
use crate::ngram::rows::{
    is_frequent_list, pair_row, pair_rows, priced, token_rows, triple_row, triple_rows,
    CountedRowView,
};
use crate::ngram::scan::{ended_runs, open_ids, runs_in};
use crate::ngram::tokens::TokenView;
use crate::ngram::vocabulary::{all_interned, is_vocabulary, stands_in, InternerView, Vocabulary};
use crate::order::{text_rank, text_rank_same, Rank};
use crate::paths::first_missing;
use crate::text::{split_on, texts};
use crate::views::views;
use vstd::prelude::*;

verus! {

/// How often one number stands before another, among the first `count` numbers of a run.
pub open spec fn stands_before(run: Seq<u32>, first: u32, second: u32, count: int) -> nat
    decreases count,
{
    if count < 2 {
        0
    } else {
        stands_before(run, first, second, count - 1) + if run[count - 2] == first && run[count - 1]
            == second {
            1nat
        } else {
            0nat
        }
    }
}

/// How often three numbers stand one before the other, among the first `count` numbers of a run.
pub open spec fn stand_in_a_row(
    run: Seq<u32>,
    first: u32,
    second: u32,
    third: u32,
    count: int,
) -> nat
    decreases count,
{
    if count < 3 {
        0
    } else {
        stand_in_a_row(run, first, second, third, count - 1) + if run[count - 3] == first
            && run[count - 2] == second && run[count - 1] == third {
            1nat
        } else {
            0nat
        }
    }
}

/// A pair is counted in a run as often as its first number stands right before its second.
pub proof fn pairs_are_neighbours(run: Seq<u32>, first: u32, second: u32)
    ensures
        occurrences(pairs(run), packed_pair(first, second)) == stands_before(
            run,
            first,
            second,
            run.len() as int,
        ),
        pairs(run).len() == if run.len() < 2 {
            0
        } else {
            run.len() - 1
        },
{
    if run.len() >= 2 {
        pairs_up_to(run, first, second, run.len() as int);
        assert(pairs(run).take(run.len() - 1) =~= pairs(run));
    }
}

proof fn pairs_up_to(run: Seq<u32>, first: u32, second: u32, count: int)
    requires
        1 <= count <= run.len(),
        run.len() >= 2,
    ensures
        occurrences(pairs(run).take(count - 1), packed_pair(first, second)) == stands_before(
            run,
            first,
            second,
            count,
        ),
    decreases count,
{
    let list = pairs(run).take(count - 1);
    if count > 1 {
        pairs_up_to(run, first, second, count - 1);
        assert(list.drop_last() =~= pairs(run).take(count - 2));
        assert(list.last() == packed_pair(run[count - 2], run[count - 1]));
        pairs_round_trip(first, second, 0);
        pairs_round_trip(run[count - 2], run[count - 1], 0);
    } else {
        assert(list =~= Seq::<u64>::empty());
    }
}

/// A triple is counted in a run as often as its three numbers stand one right before the other.
pub proof fn triples_are_neighbours(run: Seq<u32>, first: u32, second: u32, third: u32)
    ensures
        occurrences(triples(run), packed_triple(first, second, third)) == stand_in_a_row(
            run,
            first,
            second,
            third,
            run.len() as int,
        ),
        triples(run).len() == if run.len() < 3 {
            0
        } else {
            run.len() - 2
        },
{
    if run.len() >= 3 {
        triples_up_to(run, first, second, third, run.len() as int);
        assert(triples(run).take(run.len() - 2) =~= triples(run));
    }
}

proof fn triples_up_to(run: Seq<u32>, first: u32, second: u32, third: u32, count: int)
    requires
        2 <= count <= run.len(),
        run.len() >= 3,
    ensures
        occurrences(triples(run).take(count - 2), packed_triple(first, second, third))
            == stand_in_a_row(run, first, second, third, count),
    decreases count,
{
    let list = triples(run).take(count - 2);
    if count > 2 {
        triples_up_to(run, first, second, third, count - 1);
        assert(list.drop_last() =~= triples(run).take(count - 3));
        assert(list.last() == packed_triple(run[count - 3], run[count - 2], run[count - 1]));
        triples_round_trip(first, second, third);
        triples_round_trip(run[count - 3], run[count - 2], run[count - 1]);
    } else {
        assert(list =~= Seq::<u128>::empty());
    }
}

/// Packed pairs and triples stand in the order of their numbers, the first one first.
pub proof fn packing_keeps_order(
    first: u32,
    second: u32,
    third: u32,
    other_first: u32,
    other_second: u32,
    other_third: u32,
)
    ensures
        packed_pair(first, second) < packed_pair(other_first, other_second) <==> first < other_first
            || first == other_first && second < other_second,
        packed_triple(first, second, third) < packed_triple(
            other_first,
            other_second,
            other_third,
        ) <==> first < other_first || first == other_first && (second < other_second || second
            == other_second && third < other_third),
{
}

/// The row of a phrase has the readings and the surfaces of its tokens one after the other, the
/// left context of the first and the right context of the last.
pub proof fn phrases_are_put_together(
    vocabulary: Seq<TokenView>,
    first: u32,
    second: u32,
    third: u32,
    count: nat,
)
    requires
        first < vocabulary.len(),
        second < vocabulary.len(),
        third < vocabulary.len(),
    ensures
        ({
            let (a, b, c) = (
                vocabulary[first as int],
                vocabulary[second as int],
                vocabulary[third as int],
            );
            let pair = pair_row(vocabulary, packed_pair(first, second), count);
            let triple = triple_row(vocabulary, packed_triple(first, second, third), count);
            &&& pair.reading == a.reading + b.reading
            &&& pair.surface == a.surface + b.surface
            &&& pair.left_id == a.left_id && pair.right_id == b.right_id && pair.count == count
            &&& triple.reading == a.reading + b.reading + c.reading
            &&& triple.surface == a.surface + b.surface + c.surface
            &&& triple.left_id == a.left_id && triple.right_id == c.right_id && triple.count
                == count
        }),
{
    pairs_round_trip(first, second, 0);
    triples_round_trip(first, second, third);
}

/// A count is priced with what its logarithm comes to, from 1 up to 32767. Where nothing was
/// counted the price is the highest.
pub proof fn prices_stay_in_range(row: CountedRowView, total: nat, scaled: int)
    ensures
        1 <= priced(row, total, scaled).cost <= 32767,
        row.count > 0 && total > 0 && 1 <= scaled <= 32767 ==> priced(row, total, scaled).cost
            == scaled,
        row.count > 0 && total > 0 && scaled < 1 ==> priced(row, total, scaled).cost == 1,
        row.count == 0 || total == 0 || scaled > 32767 ==> priced(row, total, scaled).cost == 32767,
        priced(row, total, scaled).reading == row.reading,
        priced(row, total, scaled).surface == row.surface,
        priced(row, total, scaled).left_id == row.left_id,
        priced(row, total, scaled).right_id == row.right_id,
{
}

proof fn token_rows_hold(
    vocabulary: Seq<TokenView>,
    counts: Seq<u64>,
    min_count: u64,
    length: int,
    row: CountedRowView,
)
    requires
        0 <= length <= vocabulary.len(),
        length <= counts.len(),
    ensures
        token_rows(vocabulary, counts, min_count, length).contains(row) <==> exists|i: int|
            0 <= i < length && counts[i] >= min_count && row == (CountedRowView {
                reading: (#[trigger] vocabulary[i]).reading,
                left_id: vocabulary[i].left_id,
                right_id: vocabulary[i].right_id,
                surface: vocabulary[i].surface,
                count: counts[i] as nat,
            }),
    decreases length,
{
    let all = token_rows(vocabulary, counts, min_count, length);
    if length > 0 {
        let before = token_rows(vocabulary, counts, min_count, length - 1);
        token_rows_hold(vocabulary, counts, min_count, length - 1, row);
        if counts[length - 1] >= min_count {
            assert(all[before.len() as int] == all.last());
            if before.contains(row) {
                assert(all[before.index_of(row)] == row);
            }
            if all.contains(row) {
                let k = all.index_of(row);
                if k < before.len() {
                    assert(before[k] == row);
                } else {
                    assert(vocabulary[length - 1].reading == row.reading);
                }
            }
        }
    } else {
        assert(!all.contains(row));
    }
}

/// The dictionary of single words has a row for each token that comes often enough, with the
/// number of times that it comes, and no others.
pub proof fn frequent_tokens_have_rows(
    rows: ReleaseRows,
    vocabulary: Vocabulary,
    counts: OrderCounts,
    unigram_min_count: u64,
    ngram_min_count: u64,
    row: CountedRowView,
)
    requires
        are_release_rows(rows, vocabulary, counts, unigram_min_count, ngram_min_count),
        vocabulary.tokens@.len() == vocabulary.counts@.len(),
    ensures
        views(rows.unigrams@).contains(row) <==> exists|i: int|
            0 <= i < vocabulary.tokens@.len() && vocabulary.counts@[i] >= unigram_min_count && row
                == (CountedRowView {
                reading: (#[trigger] vocabulary.tokens@[i])@.reading,
                left_id: vocabulary.tokens@[i]@.left_id,
                right_id: vocabulary.tokens@[i]@.right_id,
                surface: vocabulary.tokens@[i]@.surface,
                count: vocabulary.counts@[i] as nat,
            }),
{
    let tokens = views(vocabulary.tokens@);
    token_rows_hold(
        tokens,
        vocabulary.counts@,
        unigram_min_count,
        tokens.len() as int,
        row,
    );
    if views(rows.unigrams@).contains(row) {
        let i = choose|i: int|
            0 <= i < tokens.len() && vocabulary.counts@[i] >= unigram_min_count && row == (
            CountedRowView {
                reading: (#[trigger] tokens[i]).reading,
                left_id: tokens[i].left_id,
                right_id: tokens[i].right_id,
                surface: tokens[i].surface,
                count: vocabulary.counts@[i] as nat,
            });
        assert(tokens[i] == vocabulary.tokens@[i]@);
        assert(row.reading == vocabulary.tokens@[i]@.reading);
    }
    if exists|i: int|
        0 <= i < vocabulary.tokens@.len() && vocabulary.counts@[i] >= unigram_min_count && row == (
        CountedRowView {
            reading: (#[trigger] vocabulary.tokens@[i])@.reading,
            left_id: vocabulary.tokens@[i]@.left_id,
            right_id: vocabulary.tokens@[i]@.right_id,
            surface: vocabulary.tokens@[i]@.surface,
            count: vocabulary.counts@[i] as nat,
        }) {
        let i = choose|i: int|
            0 <= i < vocabulary.tokens@.len() && vocabulary.counts@[i] >= unigram_min_count && row
                == (CountedRowView {
                reading: (#[trigger] vocabulary.tokens@[i])@.reading,
                left_id: vocabulary.tokens@[i]@.left_id,
                right_id: vocabulary.tokens@[i]@.right_id,
                surface: vocabulary.tokens@[i]@.surface,
                count: vocabulary.counts@[i] as nat,
            });
        assert(tokens[i].reading == row.reading);
    }
}

/// The dictionaries of phrases have as many rows as there are pairs and triples that come often
/// enough. Each row has the number of times that its phrase comes, which is often enough, and the
/// rows stand in the order of the numbers of the tokens.
pub proof fn frequent_phrases_have_rows(
    rows: ReleaseRows,
    vocabulary: Vocabulary,
    counts: OrderCounts,
    unigram_min_count: u64,
    ngram_min_count: u64,
) -> (lists: (Seq<(u64, u64)>, Seq<(u128, u64)>))
    requires
        are_release_rows(rows, vocabulary, counts, unigram_min_count, ngram_min_count),
    ensures
        ({
            let tokens = views(vocabulary.tokens@);
            let (twos, threes) = lists;
            &&& rows.bigrams@.len() == twos.len()
            &&& rows.trigrams@.len() == threes.len()
            &&& forall|i: int|
                0 <= i < twos.len() ==> {
                    let (key, count) = #[trigger] twos[i];
                    &&& counts.bigram@.contains(twos[i])
                    &&& count >= ngram_min_count
                    &&& rows.bigrams@[i]@ == pair_row(tokens, key, count as nat)
                }
            &&& forall|i: int|
                0 <= i < threes.len() ==> {
                    let (key, count) = #[trigger] threes[i];
                    &&& counts.trigram@.contains(threes[i])
                    &&& count >= ngram_min_count
                    &&& rows.trigrams@[i]@ == triple_row(tokens, key, count as nat)
                }
            &&& forall|i: int|
                0 <= i < counts.bigram@.len() && (#[trigger] counts.bigram@[i]).1
                    >= ngram_min_count ==> twos.contains(counts.bigram@[i])
            &&& forall|i: int|
                0 <= i < counts.trigram@.len() && (#[trigger] counts.trigram@[i]).1
                    >= ngram_min_count ==> threes.contains(counts.trigram@[i])
            &&& forall|i: int, j: int|
                0 <= i < j < twos.len() ==> (#[trigger] twos[i]).0 < (#[trigger] twos[j]).0
            &&& forall|i: int, j: int|
                0 <= i < j < threes.len() ==> (#[trigger] threes[i]).0 < (#[trigger] threes[j]).0
        }),
{
    let tokens = views(vocabulary.tokens@);
    let twos = choose|list: Seq<(u64, u64)>|
        is_frequent_list(list, counts.bigram@, ngram_min_count) && views(rows.bigrams@)
            == #[trigger] pair_rows(tokens, list);
    let threes = choose|list: Seq<(u128, u64)>|
        is_frequent_list(list, counts.trigram@, ngram_min_count) && views(rows.trigrams@)
            == #[trigger] triple_rows(tokens, list);
    assert(views(rows.bigrams@).len() == twos.len());
    assert(views(rows.trigrams@).len() == threes.len());
    assert forall|i: int| 0 <= i < twos.len() implies {
        let (key, count) = #[trigger] twos[i];
        &&& counts.bigram@.contains(twos[i])
        &&& count >= ngram_min_count
        &&& rows.bigrams@[i]@ == pair_row(tokens, key, count as nat)
    } by {
        assert(views(rows.bigrams@)[i] == pair_rows(tokens, twos)[i]);
    }
    assert forall|i: int| 0 <= i < threes.len() implies {
        let (key, count) = #[trigger] threes[i];
        &&& counts.trigram@.contains(threes[i])
        &&& count >= ngram_min_count
        &&& rows.trigrams@[i]@ == triple_row(tokens, key, count as nat)
    } by {
        assert(views(rows.trigrams@)[i] == triple_rows(tokens, threes)[i]);
    }
    (twos, threes)
}

/// A token is in the vocabulary exactly where it comes often enough; the others have the greatest
/// number of 32 bits. The tokens of the vocabulary stand by reading, then by surface, then by
/// their contexts.
pub proof fn vocabularies_hold_frequent_tokens(
    vocabulary: Vocabulary,
    raw_tokens: Seq<TokenView>,
    raw_counts: Seq<u64>,
    min_count: u64,
    raw_id: int,
    i: int,
    j: int,
)
    requires
        is_vocabulary(vocabulary, raw_tokens, raw_counts, min_count),
        0 <= raw_id < raw_tokens.len(),
        0 <= i < j < vocabulary.tokens@.len(),
    ensures
        vocabulary.raw_to_vocab@[raw_id] != 0xFFFF_FFFF <==> raw_counts[raw_id] >= min_count,
        raw_counts[raw_id] >= min_count ==> {
            let place = vocabulary.raw_to_vocab@[raw_id] as int;
            &&& vocabulary.tokens@[place]@ == raw_tokens[raw_id]
            &&& vocabulary.counts@[place] == raw_counts[raw_id]
        },
        ({
            let left = vocabulary.tokens@[i]@;
            let right = vocabulary.tokens@[j]@;
            &&& text_rank(left.reading, right.reading) != Rank::After
            &&& left.reading == right.reading ==> text_rank(left.surface, right.surface)
                != Rank::After
            &&& left.reading == right.reading && left.surface == right.surface ==> left.left_id
                <= right.left_id
            &&& left.reading == right.reading && left.surface == right.surface && left.left_id
                == right.left_id ==> left.right_id <= right.right_id
        }),
{
    let left = vocabulary.tokens@[i]@;
    let right = vocabulary.tokens@[j]@;
    text_rank_same(left.reading, right.reading);
    text_rank_same(left.surface, right.surface);
    assert(crate::ngram::tokens::token_order(left, right) != Rank::After);
    if raw_counts[raw_id] >= min_count {
        assert(stands_in(vocabulary, raw_tokens, raw_counts, raw_id));
    } else {
        assert(vocabulary.raw_to_vocab@[raw_id] == 0xFFFF_FFFF);
    }
}

/// Tokens that come are known once each, with the number of times that they came.
pub proof fn tokens_are_counted(sequence: Seq<TokenView>)
    ensures
        ({
            let known = all_interned(
                InternerView { tokens: Seq::empty(), counts: Seq::empty() },
                sequence,
            );
            &&& known.tokens.len() == known.counts.len()
            &&& known.tokens.no_duplicates()
            &&& forall|token: TokenView|
                #![trigger known.tokens.contains(token)]
                #![trigger sequence.contains(token)]
                known.tokens.contains(token) <==> sequence.contains(token)
            &&& forall|i: int|
                0 <= i < known.tokens.len() ==> #[trigger] known.counts[i] == occurrences(
                    sequence,
                    known.tokens[i],
                )
        }),
    decreases sequence.len(),
{
    let none = InternerView { tokens: Seq::empty(), counts: Seq::empty() };
    let known = all_interned(none, sequence);
    if sequence.len() > 0 {
        let shorter = sequence.drop_last();
        let token = sequence.last();
        let before = all_interned(none, shorter);
        tokens_are_counted(shorter);
        assert forall|other: TokenView| sequence.contains(other) <==> shorter.contains(other)
            || other == token by {
            assert(sequence[sequence.len() - 1] == token);
            if shorter.contains(other) {
                assert(sequence[shorter.index_of(other)] == other);
            }
            if sequence.contains(other) && other != token {
                assert(shorter[sequence.index_of(other)] == other);
            }
        }
        if before.tokens.contains(token) {
            let place = before.tokens.index_of(token);
            assert forall|i: int| 0 <= i < known.tokens.len() implies #[trigger] known.counts[i]
                == occurrences(sequence, known.tokens[i]) by {
                assert(before.counts[i] == occurrences(shorter, before.tokens[i]));
                if i != place {
                    assert(before.tokens[i] != before.tokens[place]);
                }
            }
        } else {
            assert forall|other: TokenView| known.tokens.contains(other)
                <==> before.tokens.contains(other) || other == token by {
                assert(known.tokens[before.tokens.len() as int] == token);
                if before.tokens.contains(other) {
                    assert(known.tokens[before.tokens.index_of(other)] == other);
                }
                if known.tokens.contains(other) && other != token {
                    assert(before.tokens[known.tokens.index_of(other)] == other);
                }
            }
            assert(!shorter.contains(token));
            absent_is_not_counted(shorter, token);
            assert forall|i: int| 0 <= i < known.tokens.len() implies #[trigger] known.counts[i]
                == occurrences(sequence, known.tokens[i]) by {
                if i < before.tokens.len() {
                    assert(before.counts[i] == occurrences(shorter, before.tokens[i]));
                    assert(before.tokens.contains(before.tokens[i]));
                }
            }
            assert forall|i: int, j: int|
                0 <= i < known.tokens.len() && 0 <= j < known.tokens.len() && i != j implies
                known.tokens[i] != known.tokens[j] by {
                if i < before.tokens.len() {
                    assert(before.tokens.contains(before.tokens[i]));
                }
                if j < before.tokens.len() {
                    assert(before.tokens.contains(before.tokens[j]));
                }
            }
        }
    } else {
        assert(known == none);
    }
}

proof fn absent_is_not_counted<K>(list: Seq<K>, value: K)
    requires
        !list.contains(value),
    ensures
        occurrences(list, value) == 0,
    decreases list.len(),
{
    if list.len() > 0 {
        assert(list.contains(list[list.len() - 1]));
        assert forall|i: int| 0 <= i < list.len() - 1 implies list.drop_last()[i] != value by {
            assert(list.contains(list[i]));
        }
        absent_is_not_counted(list.drop_last(), value);
    }
}

/// A token that is not in the vocabulary, whose number is the greatest of 32 bits, parts the runs,
/// and numbers without such a one are one run.
pub proof fn missing_tokens_part_runs(before: Seq<u32>, behind: Seq<u32>)
    ensures
        runs_in(before.push(0xFFFF_FFFF) + behind) == runs_in(before) + runs_in(behind),
        behind.len() > 0 && (forall|i: int| 0 <= i < behind.len() ==> #[trigger] behind[i]
            != 0xFFFF_FFFF) ==> runs_in(behind) == seq![behind],
        behind.len() == 0 ==> runs_in(behind).len() == 0,
{
    runs_are_parted(before, behind);
    assert(runs_in(before.push(0xFFFF_FFFF) + behind) =~= runs_in(before) + runs_in(behind));
    if behind.len() > 0 && forall|i: int| 0 <= i < behind.len() ==> #[trigger] behind[i]
        != 0xFFFF_FFFF {
        one_run(behind);
        assert(runs_in(behind) =~= seq![behind]);
    }
}

proof fn runs_are_parted(before: Seq<u32>, behind: Seq<u32>)
    ensures
        open_ids(before.push(0xFFFF_FFFF) + behind) == open_ids(behind),
        ended_runs(before.push(0xFFFF_FFFF) + behind) == runs_in(before) + ended_runs(behind),
    decreases behind.len(),
{
    let whole = before.push(0xFFFF_FFFF) + behind;
    if behind.len() == 0 {
        assert(whole =~= before.push(0xFFFF_FFFF));
        assert(whole.drop_last() =~= before);
        assert(ended_runs(whole) =~= runs_in(before) + ended_runs(behind));
    } else {
        runs_are_parted(before, behind.drop_last());
        assert(whole.drop_last() =~= before.push(0xFFFF_FFFF) + behind.drop_last());
        assert(whole.last() == behind.last());
        assert(ended_runs(whole) =~= runs_in(before) + ended_runs(behind));
    }
}

proof fn one_run(ids: Seq<u32>)
    requires
        forall|i: int| 0 <= i < ids.len() ==> #[trigger] ids[i] != 0xFFFF_FFFF,
    ensures
        open_ids(ids) == ids,
        ended_runs(ids).len() == 0,
    decreases ids.len(),
{
    if ids.len() > 0 {
        let shorter = ids.drop_last();
        assert(forall|i: int| 0 <= i < shorter.len() ==> shorter[i] == ids[i]);
        assert(ids[ids.len() - 1] != 0xFFFF_FFFF);
        one_run(shorter);
        assert(shorter.push(ids.last()) =~= ids);
    } else {
        assert(open_ids(ids) =~= ids);
    }
}

proof fn exact_id_is_least(entries: Seq<IdEntryView>, key: Seq<char>)
    ensures
        forall|i: int|
            0 <= i < entries.len() && feature_key((#[trigger] entries[i]).fields) == key
                ==> exact_id(entries, key) is Some && exact_id(entries, key)->0 <= entries[i].id,
        exact_id(entries, key) is Some ==> exists|i: int|
            0 <= i < entries.len() && feature_key((#[trigger] entries[i]).fields) == key
                && entries[i].id == exact_id(entries, key)->0,
    decreases entries.len(),
{
    if entries.len() > 0 {
        let before = entries.drop_last();
        exact_id_is_least(before, key);
        assert forall|i: int|
            0 <= i < entries.len() && feature_key((#[trigger] entries[i]).fields)
                == key implies exact_id(entries, key) is Some && exact_id(entries, key)->0
            <= entries[i].id by {
            if i < before.len() {
                assert(before[i] == entries[i]);
            }
        }
        if exact_id(entries, key) is Some {
            if exact_id(before, key) == exact_id(entries, key) {
                let i = choose|i: int|
                    0 <= i < before.len() && feature_key((#[trigger] before[i]).fields) == key
                        && before[i].id == exact_id(before, key)->0;
                assert(entries[i] == before[i]);
            } else {
                assert(entries[entries.len() - 1] == entries.last());
            }
        }
    }
}

/// An entry of the list of contexts is for a feature with these seven fields, with the separator of
/// units between them.
pub open spec fn is_for(entry: IdEntryView, fields: Seq<Seq<char>>) -> bool {
    crate::text::joined(entry.fields, "\u{1f}"@) == crate::text::joined(fields, "\u{1f}"@)
}

/// The feature with its first `kept` fields, and `*` for the others.
pub open spec fn starred(fields: Seq<Seq<char>>, kept: int) -> Seq<Seq<char>> {
    Seq::new(
        7,
        |i: int|
            if i < kept {
                fields[i]
            } else {
                "*"@
            },
    )
}

/// The word has the least context among the entries for its feature.
pub open spec fn has_least(entries: Seq<IdEntryView>, fields: Seq<Seq<char>>, id: u16) -> bool {
    &&& exists|i: int|
        0 <= i < entries.len() && is_for(#[trigger] entries[i], fields) && entries[i].id == id
    &&& forall|i: int|
        0 <= i < entries.len() && is_for(#[trigger] entries[i], fields) ==> id <= entries[i].id
}

/// No entry is for the feature.
pub open spec fn has_none(entries: Seq<IdEntryView>, fields: Seq<Seq<char>>) -> bool {
    forall|i: int| 0 <= i < entries.len() ==> !is_for(#[trigger] entries[i], fields)
}

proof fn exact_is_literal(entries: Seq<IdEntryView>, fields: Seq<Seq<char>>)
    ensures
        exact_id(entries, feature_key(fields)) is Some ==> has_least(
            entries,
            fields,
            exact_id(entries, feature_key(fields))->0,
        ),
        exact_id(entries, feature_key(fields)) is None <==> has_none(entries, fields),
{
    let key = feature_key(fields);
    exact_id_is_least(entries, key);
    assert forall|i: int| 0 <= i < entries.len() implies (is_for(#[trigger] entries[i], fields)
        <==> feature_key(entries[i].fields) == key) by {}
    if exact_id(entries, key) is Some {
        let i = choose|i: int|
            0 <= i < entries.len() && feature_key((#[trigger] entries[i]).fields) == key
                && entries[i].id == exact_id(entries, key)->0;
        assert(is_for(entries[i], fields));
    }
}

/// A word has the context of its feature: that of an entry for its first seven fields, or else for
/// the first six, four, three, two or one of them with `*` for the rest, the first that there is.
/// Of several the least counts. A word with fewer fields, and an unknown one, has that of a generic
/// noun.
pub proof fn contexts_are_resolved(
    entries: Seq<IdEntryView>,
    generic: u16,
    feature: Seq<char>,
)
    ensures
        ({
            let fields = split_on(feature, ',');
            let id = resolved(entries, generic, feature);
            &&& fields.len() < 7 || fields[0] == "UNK"@ ==> id == generic
            &&& fields.len() >= 7 && fields[0] != "UNK"@ ==> {
                let exact = fields.take(7);
                if !has_none(entries, exact) {
                    has_least(entries, exact, id)
                } else if !has_none(entries, starred(fields, 6)) {
                    has_least(entries, starred(fields, 6), id)
                } else if !has_none(entries, starred(fields, 4)) {
                    has_least(entries, starred(fields, 4), id)
                } else if !has_none(entries, starred(fields, 3)) {
                    has_least(entries, starred(fields, 3), id)
                } else if !has_none(entries, starred(fields, 2)) {
                    has_least(entries, starred(fields, 2), id)
                } else if !has_none(entries, starred(fields, 1)) {
                    has_least(entries, starred(fields, 1), id)
                } else {
                    best_fits(entries, generic, exact, id)
                }
            }
        }),
{
    let fields = split_on(feature, ',');
    exact_is_literal(entries, fields.take(7));
    exact_is_literal(entries, starred(fields, 6));
    exact_is_literal(entries, starred(fields, 4));
    exact_is_literal(entries, starred(fields, 3));
    exact_is_literal(entries, starred(fields, 2));
    exact_is_literal(entries, starred(fields, 1));
    assert(generalized(fields, 6) =~= starred(fields, 6));
    assert(generalized(fields, 4) =~= starred(fields, 4));
    assert(generalized(fields, 3) =~= starred(fields, 3));
    assert(generalized(fields, 2) =~= starred(fields, 2));
    assert(generalized(fields, 1) =~= starred(fields, 1));
    best_fit_is_literal(entries, fields.take(7));
}

/// The entry fits the feature: each of its fields is `*` or the same.
pub open spec fn fits(entry: IdEntryView, feature: Seq<Seq<char>>) -> bool {
    forall|k: int|
        0 <= k < 7 ==> (#[trigger] entry.fields[k] == "*"@ || entry.fields[k] == feature[k])
}

/// How special an entry is: 16 for a first field that is not `*`, and one for each other, among the
/// first `count`.
pub open spec fn speciality(entry: IdEntryView, count: int) -> int
    decreases count,
{
    if count <= 0 {
        0
    } else {
        speciality(entry, count - 1) + if entry.fields[count - 1] == "*"@ {
            0int
        } else if count == 1 {
            16
        } else {
            1
        }
    }
}

/// The context is that of the most special entry that fits, the least one among several, and that
/// of a generic noun where none fits.
pub open spec fn best_fits(
    entries: Seq<IdEntryView>,
    generic: u16,
    feature: Seq<Seq<char>>,
    id: u16,
) -> bool {
    if forall|i: int| 0 <= i < entries.len() ==> !fits(#[trigger] entries[i], feature) {
        id == generic
    } else {
        exists|i: int| #[trigger]
            is_best(entries, feature, i) && entries[i].id == id
    }
}

/// No entry that fits the feature is more special than this one, and none as special has a lesser
/// context.
pub open spec fn is_best(entries: Seq<IdEntryView>, feature: Seq<Seq<char>>, i: int) -> bool {
    &&& 0 <= i < entries.len()
    &&& fits(entries[i], feature)
    &&& forall|j: int|
        0 <= j < entries.len() && fits(#[trigger] entries[j], feature) ==> speciality(entries[j], 7)
            < speciality(entries[i], 7) || speciality(entries[j], 7) == speciality(entries[i], 7)
            && entries[i].id <= entries[j].id
}

proof fn fit_is_literal(entry: IdEntryView, feature: Seq<Seq<char>>, count: int)
    requires
        0 <= count <= 7,
    ensures
        fit(entry.fields, feature, count) is Some <==> forall|k: int|
            0 <= k < count ==> (#[trigger] entry.fields[k] == "*"@ || entry.fields[k]
                == feature[k]),
        fit(entry.fields, feature, count) is Some ==> fit(entry.fields, feature, count)->0
            == speciality(entry, count),
    decreases count,
{
    if count > 0 {
        fit_is_literal(entry, feature, count - 1);
        if fit(entry.fields, feature, count) is None && fit(entry.fields, feature, count - 1)
            is Some {
            assert(!(entry.fields[count - 1] == "*"@ || entry.fields[count - 1]
                == feature[count - 1]));
        }
    }
}

proof fn best_fit_is_literal(entries: Seq<IdEntryView>, feature: Seq<Seq<char>>)
    ensures
        best_fit(entries, feature) is None <==> forall|i: int|
            0 <= i < entries.len() ==> !fits(#[trigger] entries[i], feature),
        best_fit(entries, feature) matches Some((score, id)) ==> exists|i: int| #[trigger]
            is_best(entries, feature, i) && entries[i].id == id && speciality(entries[i], 7)
                == score,
    decreases entries.len(),
{
    if entries.len() > 0 {
        let before = entries.drop_last();
        let last = entries.last();
        best_fit_is_literal(before, feature);
        fit_is_literal(last, feature, 7);
        assert(fit(last.fields, feature, 7) is Some <==> fits(last, feature));
        assert(entries[entries.len() - 1] == last);
        assert(forall|i: int| 0 <= i < before.len() ==> before[i] == entries[i]);
        match best_fit(entries, feature) {
            Some((score, id)) => {
                if best_fit(before, feature) == best_fit(entries, feature) && !(fits(last, feature)
                    && speciality(last, 7) == score && last.id == id) {
                    let i = choose|i: int| #[trigger]
                        is_best(before, feature, i) && before[i].id == id && speciality(
                            before[i],
                            7,
                        ) == score;
                    assert(is_best(entries, feature, i));
                } else {
                    if best_fit(before, feature) is Some {
                        let (lower, other) = best_fit(before, feature)->0;
                        let i = choose|i: int| #[trigger]
                            is_best(before, feature, i) && before[i].id == other && speciality(
                                before[i],
                                7,
                            ) == lower;
                        assert(is_best(before, feature, i));
                    }
                    assert(is_best(entries, feature, entries.len() - 1));
                }
            },
            None => {
                assert(best_fit(before, feature) is None);
            },
        }
    }
}

/// Options are taken where there is an input, all files are there, both thresholds are positive, an
/// n-gram must come at least twice in a file to be found and more often in all of them than it can
/// without being found, the scale is valid and a shard has rows.
pub proof fn options_are_refused(
    options: BuildOptions,
    present: PresentFiles,
    scale_is_valid: bool,
)
    ensures
        option_fault(options, present, scale_is_valid) is None <==> {
            &&& options.inputs@.len() >= 1
            &&& forall|i: int|
                0 <= i < options.inputs@.len() ==> texts(present.inputs@).contains(
                    (#[trigger] options.inputs@[i])@,
                )
            &&& present.vibrato_dictionary && present.mozc_id_def && present.mozc_license
            &&& present.ipadic_copying && present.ipadic_notice
            &&& options.unigram_min_count >= 1 && options.ngram_min_count >= 1
            &&& options.map_min_count >= 2
            &&& options.ngram_min_count > options.inputs@.len() * (options.map_min_count - 1)
            &&& scale_is_valid
            &&& options.entries_per_shard >= 1
        },
{
    let inputs = options.inputs@.len();
    first_missing_is_literal(texts(options.inputs@), texts(present.inputs@), 0);
    if options.map_min_count >= 2 {
        assert(inputs * (options.map_min_count - 1) >= 0) by (nonlinear_arith)
            requires
                inputs >= 0,
                options.map_min_count >= 2,
        ;
    }
    let missing = first_missing(texts(options.inputs@), texts(present.inputs@), 0);
    if missing < inputs {
        assert(texts(options.inputs@)[missing] == options.inputs@[missing]@);
    } else {
        assert forall|i: int| 0 <= i < inputs implies texts(present.inputs@).contains(
            (#[trigger] options.inputs@[i])@,
        ) by {
            assert(texts(options.inputs@)[i] == options.inputs@[i]@);
        }
    }
}

proof fn first_missing_is_literal(paths: Seq<Seq<char>>, present: Seq<Seq<char>>, start: int)
    requires
        0 <= start <= paths.len(),
    ensures
        start <= first_missing(paths, present, start) <= paths.len(),
        forall|i: int|
            start <= i < first_missing(paths, present, start) ==> present.contains(
                #[trigger] paths[i],
            ),
        first_missing(paths, present, start) < paths.len() ==> !present.contains(
            paths[first_missing(paths, present, start)],
        ),
    decreases paths.len() - start,
{
    if start < paths.len() && present.contains(paths[start]) {
        first_missing_is_literal(paths, present, start + 1);
    }
}

/// All counts of tokens together.
pub open spec fn counts_together(counts: Seq<nat>) -> nat
    decreases counts.len(),
{
    if counts.len() == 0 {
        0
    } else {
        counts_together(counts.drop_last()) + counts.last()
    }
}

proof fn one_count_more(counts: Seq<nat>, place: int)
    requires
        0 <= place < counts.len(),
    ensures
        counts_together(counts.update(place, counts[place] + 1)) == counts_together(counts) + 1,
    decreases counts.len(),
{
    let more = counts.update(place, counts[place] + 1);
    if place == counts.len() - 1 {
        assert(more.drop_last() =~= counts.drop_last());
    } else {
        one_count_more(counts.drop_last(), place);
        assert(more.drop_last() =~= counts.drop_last().update(place, counts[place] + 1));
    }
}

proof fn each_token_counts_once(known: InternerView, sequence: Seq<TokenView>)
    requires
        known.tokens.len() == known.counts.len(),
    ensures
        all_interned(known, sequence).tokens.len() == all_interned(known, sequence).counts.len(),
        counts_together(all_interned(known, sequence).counts) == counts_together(known.counts)
            + sequence.len(),
    decreases sequence.len(),
{
    if sequence.len() > 0 {
        each_token_counts_once(known, sequence.drop_last());
        let before = all_interned(known, sequence.drop_last());
        if before.tokens.contains(sequence.last()) {
            one_count_more(before.counts, before.tokens.index_of(sequence.last()));
        } else {
            assert(before.counts.push(1).drop_last() =~= before.counts);
        }
    }
}

/// The total of the words of a corpus is what their counts come to together, and its documents are
/// as many as its files have records.
pub proof fn words_are_all_counted(
    files: Seq<Seq<Seq<char>>>,
    tokenizer: vibrato::Tokenizer,
    ids: IdMapView,
    count: int,
)
    requires
        0 <= count <= files.len(),
    ensures
        ({
            let corpus = corpus_of(files, tokenizer, ids, count);
            &&& corpus.known.tokens.len() == corpus.known.counts.len()
            &&& corpus.valid_tokens == counts_together(corpus.known.counts)
            &&& count > 0 ==> corpus.documents == corpus_of(
                files,
                tokenizer,
                ids,
                count - 1,
            ).documents + files[count - 1].len()
            &&& count == 0 ==> corpus.documents == 0 && corpus.sentences == 0
        }),
    decreases count,
{
    if count > 0 {
        words_are_all_counted(files, tokenizer, ids, count - 1);
        let before = corpus_of(files, tokenizer, ids, count - 1);
        let sequences = sequences_in(sentences_in(files[count - 1]), tokenizer, ids);
        each_token_counts_once(before.known, flat(sequences));
    }
}

} // verus!
