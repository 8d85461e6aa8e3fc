//! What is counted in sequences of tokens, said of the tokens that stand beside each other.

use crate::ngram::count_laws::{
    pairs_are_neighbours, stand_in_a_row, stands_before, triples_are_neighbours,
};
use crate::ngram::counts::{
    file_grams, grams_of, occurrences, occurrences_add, pairs, triples, Bigram, Gram, Trigram,
};
use crate::ngram::exactness::{candidates_in, corpus_counts, counts_in};
use crate::ngram::packing::{packed_pair, packed_triple};
use crate::ngram::scan::{ended_runs, open_ids, runs_in};
use crate::ngram::vocabulary::id_text;
use crate::text::decimal_of;
use vstd::prelude::*;

verus! {

proof fn grams_stay<G: Gram>(runs: Seq<Seq<u32>>, more: Seq<Seq<u32>>, count: int)
    requires
        0 <= count <= runs.len(),
        count <= more.len(),
        forall|i: int| 0 <= i < count ==> runs[i] == more[i],
    ensures
        grams_of::<G>(runs, count) == grams_of::<G>(more, count),
    decreases count,
{
    if count > 0 {
        grams_stay::<G>(runs, more, count - 1);
    }
}

proof fn grams_of_more<G: Gram>(runs: Seq<Seq<u32>>, run: Seq<u32>)
    ensures
        file_grams::<G>(runs.push(run)) == file_grams::<G>(runs) + G::grams(run),
{
    grams_stay::<G>(runs, runs.push(run), runs.len() as int);
}

proof fn open_ids_end(ids: Seq<u32>)
    ensures
        open_ids(ids).len() <= ids.len(),
        open_ids(ids) == ids.skip(ids.len() - open_ids(ids).len()),
        open_ids(ids).len() < ids.len() ==> ids[ids.len() - open_ids(ids).len() - 1] == 0xFFFF_FFFF,
    decreases ids.len(),
{
    if ids.len() > 0 && ids.last() != 0xFFFF_FFFF {
        let shorter = ids.drop_last();
        open_ids_end(shorter);
        assert(open_ids(ids) =~= ids.skip(ids.len() - open_ids(ids).len()));
        let place = ids.len() - open_ids(ids).len() - 1;
        if open_ids(ids).len() < ids.len() {
            assert(shorter[place] == ids[place]);
        }
    } else {
        assert(open_ids(ids) =~= ids.skip(ids.len() as int));
    }
}

proof fn stands_before_longer(run: Seq<u32>, more: Seq<u32>, first: u32, second: u32, count: int)
    requires
        0 <= count <= run.len(),
        count <= more.len(),
        forall|i: int| 0 <= i < count ==> run[i] == more[i],
    ensures
        stands_before(run, first, second, count) == stands_before(more, first, second, count),
    decreases count,
{
    if count >= 2 {
        stands_before_longer(run, more, first, second, count - 1);
    }
}

proof fn stand_in_a_row_longer(
    run: Seq<u32>,
    more: Seq<u32>,
    first: u32,
    second: u32,
    third: u32,
    count: int,
)
    requires
        0 <= count <= run.len(),
        count <= more.len(),
        forall|i: int| 0 <= i < count ==> run[i] == more[i],
    ensures
        stand_in_a_row(run, first, second, third, count) == stand_in_a_row(
            more,
            first,
            second,
            third,
            count,
        ),
    decreases count,
{
    if count >= 3 {
        stand_in_a_row_longer(run, more, first, second, third, count - 1);
    }
}

/// A pair of tokens of the vocabulary is counted in a sequence as often as the one stands right
/// before the other. A token that is not in the vocabulary stands between its neighbours.
pub proof fn sequence_pairs_are_neighbours(ids: Seq<u32>, first: u32, second: u32)
    requires
        first != 0xFFFF_FFFF,
        second != 0xFFFF_FFFF,
    ensures
        occurrences(file_grams::<Bigram>(runs_in(ids)), packed_pair(first, second))
            == stands_before(ids, first, second, ids.len() as int),
{
    let key = packed_pair(first, second);
    pairs_by_run(ids, first, second);
    let open = open_ids(ids);
    let ended = ended_runs(ids);
    if open.len() > 0 {
        grams_of_more::<Bigram>(ended, open);
        occurrences_add(file_grams::<Bigram>(ended), pairs(open), key);
    } else {
        assert(pairs(open) =~= Seq::<u64>::empty());
    }
}

proof fn pairs_by_run(ids: Seq<u32>, first: u32, second: u32)
    requires
        first != 0xFFFF_FFFF,
        second != 0xFFFF_FFFF,
    ensures
        occurrences(file_grams::<Bigram>(ended_runs(ids)), packed_pair(first, second))
            + occurrences(pairs(open_ids(ids)), packed_pair(first, second)) == stands_before(
            ids,
            first,
            second,
            ids.len() as int,
        ),
    decreases ids.len(),
{
    let key = packed_pair(first, second);
    let length = ids.len() as int;
    if length == 0 {
        assert(file_grams::<Bigram>(ended_runs(ids)) =~= Seq::<u64>::empty());
        assert(pairs(open_ids(ids)) =~= Seq::<u64>::empty());
    } else {
        let shorter = ids.drop_last();
        let last = ids.last();
        let open = open_ids(shorter);
        let ended = ended_runs(shorter);
        pairs_by_run(shorter, first, second);
        stands_before_longer(shorter, ids, first, second, length - 1);
        if last == 0xFFFF_FFFF {
            assert(pairs(open_ids(ids)) =~= Seq::<u64>::empty());
            if open.len() > 0 {
                grams_of_more::<Bigram>(ended, open);
                occurrences_add(file_grams::<Bigram>(ended), pairs(open), key);
            } else {
                assert(pairs(open) =~= Seq::<u64>::empty());
            }
        } else {
            let longer = open.push(last);
            open_ids_end(shorter);
            pairs_are_neighbours(open, first, second);
            pairs_are_neighbours(longer, first, second);
            stands_before_longer(open, longer, first, second, open.len() as int);
            if open.len() > 0 {
                assert(open.last() == shorter.last());
                assert(longer[longer.len() - 2] == ids[length - 2]);
            } else if length >= 2 {
                assert(shorter[length - 2] == 0xFFFF_FFFF);
                assert(ids[length - 2] == 0xFFFF_FFFF);
            }
        }
    }
}

/// Three tokens of the vocabulary are counted in a sequence as often as they stand one right before
/// the other. A token that is not in the vocabulary stands between its neighbours.
pub proof fn sequence_triples_are_neighbours(
    ids: Seq<u32>,
    first: u32,
    second: u32,
    third: u32,
)
    requires
        first != 0xFFFF_FFFF,
        second != 0xFFFF_FFFF,
        third != 0xFFFF_FFFF,
    ensures
        occurrences(file_grams::<Trigram>(runs_in(ids)), packed_triple(first, second, third))
            == stand_in_a_row(ids, first, second, third, ids.len() as int),
{
    let key = packed_triple(first, second, third);
    triples_by_run(ids, first, second, third);
    let open = open_ids(ids);
    let ended = ended_runs(ids);
    if open.len() > 0 {
        grams_of_more::<Trigram>(ended, open);
        occurrences_add(file_grams::<Trigram>(ended), triples(open), key);
    } else {
        assert(triples(open) =~= Seq::<u128>::empty());
    }
}

proof fn triples_by_run(ids: Seq<u32>, first: u32, second: u32, third: u32)
    requires
        first != 0xFFFF_FFFF,
        second != 0xFFFF_FFFF,
        third != 0xFFFF_FFFF,
    ensures
        occurrences(file_grams::<Trigram>(ended_runs(ids)), packed_triple(first, second, third))
            + occurrences(triples(open_ids(ids)), packed_triple(first, second, third))
            == stand_in_a_row(ids, first, second, third, ids.len() as int),
    decreases ids.len(),
{
    let key = packed_triple(first, second, third);
    let length = ids.len() as int;
    if length == 0 {
        assert(file_grams::<Trigram>(ended_runs(ids)) =~= Seq::<u128>::empty());
        assert(triples(open_ids(ids)) =~= Seq::<u128>::empty());
    } else {
        let shorter = ids.drop_last();
        let last = ids.last();
        let open = open_ids(shorter);
        let ended = ended_runs(shorter);
        triples_by_run(shorter, first, second, third);
        stand_in_a_row_longer(shorter, ids, first, second, third, length - 1);
        if last == 0xFFFF_FFFF {
            assert(triples(open_ids(ids)) =~= Seq::<u128>::empty());
            if open.len() > 0 {
                grams_of_more::<Trigram>(ended, open);
                occurrences_add(file_grams::<Trigram>(ended), triples(open), key);
            } else {
                assert(triples(open) =~= Seq::<u128>::empty());
            }
        } else {
            let longer = open.push(last);
            open_ids_end(shorter);
            triples_are_neighbours(open, first, second, third);
            triples_are_neighbours(longer, first, second, third);
            stand_in_a_row_longer(open, longer, first, second, third, open.len() as int);
            if open.len() >= 2 {
                assert(longer[longer.len() - 2] == ids[length - 2]);
                assert(longer[longer.len() - 3] == ids[length - 3]);
            } else if open.len() == 1 {
                if length >= 3 {
                    assert(shorter[length - 3] == 0xFFFF_FFFF);
                    assert(ids[length - 3] == 0xFFFF_FFFF);
                }
            } else if length >= 2 {
                assert(shorter[length - 2] == 0xFFFF_FFFF);
                assert(ids[length - 2] == 0xFFFF_FFFF);
            }
        }
    }
}

/// How many pairs of neighbours runs have.
pub open spec fn pair_places(runs: Seq<Seq<u32>>) -> nat
    decreases runs.len(),
{
    if runs.len() == 0 {
        0
    } else {
        pair_places(runs.drop_last()) + if runs.last().len() >= 2 {
            (runs.last().len() - 1) as nat
        } else {
            0
        }
    }
}

/// How many triples of neighbours runs have.
pub open spec fn triple_places(runs: Seq<Seq<u32>>) -> nat
    decreases runs.len(),
{
    if runs.len() == 0 {
        0
    } else {
        triple_places(runs.drop_last()) + if runs.last().len() >= 3 {
            (runs.last().len() - 2) as nat
        } else {
            0
        }
    }
}

proof fn places_are_grams(runs: Seq<Seq<u32>>)
    ensures
        file_grams::<Bigram>(runs).len() == pair_places(runs),
        file_grams::<Trigram>(runs).len() == triple_places(runs),
    decreases runs.len(),
{
    if runs.len() > 0 {
        let shorter = runs.drop_last();
        places_are_grams(shorter);
        grams_of_more::<Bigram>(shorter, runs.last());
        grams_of_more::<Trigram>(shorter, runs.last());
        assert(shorter.push(runs.last()) =~= runs);
    }
}

/// The totals that prices refer to are the numbers of all pairs and of all triples of neighbours in
/// the corpus, whether they come often enough or not.
pub proof fn totals_are_all_neighbours(files: Seq<Seq<Seq<u32>>>, map_min_count: u32)
    ensures
        corpus_counts(files, map_min_count).bigram_total == all_pair_places(
            files,
            files.len() as int,
        ),
        corpus_counts(files, map_min_count).trigram_total == all_triple_places(
            files,
            files.len() as int,
        ),
{
    totals_up_to(files, map_min_count, files.len() as int);
}

/// How many pairs of neighbours the first `count` files have.
pub open spec fn all_pair_places(files: Seq<Seq<Seq<u32>>>, count: int) -> nat
    decreases count,
{
    if count <= 0 {
        0
    } else {
        all_pair_places(files, count - 1) + pair_places(files[count - 1])
    }
}

/// How many triples of neighbours the first `count` files have.
pub open spec fn all_triple_places(files: Seq<Seq<Seq<u32>>>, count: int) -> nat
    decreases count,
{
    if count <= 0 {
        0
    } else {
        all_triple_places(files, count - 1) + triple_places(files[count - 1])
    }
}

proof fn totals_up_to(files: Seq<Seq<Seq<u32>>>, map_min_count: u32, count: int)
    requires
        0 <= count <= files.len(),
    ensures
        ({
            let candidates = candidates_in(files, map_min_count, files.len() as int);
            let counts = counts_in(files, candidates, count);
            &&& counts.bigram_total == all_pair_places(files, count)
            &&& counts.trigram_total == all_triple_places(files, count)
        }),
    decreases count,
{
    if count > 0 {
        totals_up_to(files, map_min_count, count - 1);
        places_are_grams(files[count - 1]);
    }
}

/// A line of token numbers has them in decimal notation with a space between them.
pub proof fn numbers_stand_on_lines(ids: Seq<int>, id: int)
    ensures
        ids.len() > 0 ==> id_text(ids.push(id)) == id_text(ids) + " "@ + decimal_of(id as nat),
        id_text(seq![id]) == decimal_of(id as nat),
{
    reveal_strlit(" ");
    if ids.len() > 0 {
        assert(ids.push(id).drop_last() =~= ids);
        assert(id_text(ids.push(id)) =~= id_text(ids) + " "@ + decimal_of(id as nat));
    }
}

} // verus!
