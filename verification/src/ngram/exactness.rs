//! Counting a whole corpus, and why no frequent n-gram is missed.

use crate::ngram::counts::{
    file_grams, is_repeated, occurrences, uncounted, with_file, with_repeated, Bigram, Candidates,
    CandidatesView, Gram, Recount, RecountView, Trigram,
};
use crate::ngram::scan::run_views;
use vstd::prelude::*;

verus! {

/// The runs of each file.
pub open spec fn file_views(files: Seq<Vec<Vec<u32>>>) -> Seq<Seq<Seq<u32>>> {
    Seq::new(files.len(), |i: int| run_views(files[i]@))
}

/// The candidates of the first `count` files.
pub open spec fn candidates_in(
    files: Seq<Seq<Seq<u32>>>,
    map_min_count: u32,
    count: int,
) -> CandidatesView
    decreases count,
{
    if count <= 0 {
        CandidatesView { bigrams: Set::empty(), trigrams: Set::empty() }
    } else {
        with_repeated(
            candidates_in(files, map_min_count, count - 1),
            files[count - 1],
            map_min_count,
        )
    }
}

/// The counts of candidates in the first `count` files.
pub open spec fn counts_in(
    files: Seq<Seq<Seq<u32>>>,
    candidates: CandidatesView,
    count: int,
) -> RecountView
    decreases count,
{
    if count <= 0 {
        uncounted(candidates)
    } else {
        with_file(counts_in(files, candidates, count - 1), files[count - 1])
    }
}

/// The counts of the candidates of a corpus in the whole corpus.
pub open spec fn corpus_counts(files: Seq<Seq<Seq<u32>>>, map_min_count: u32) -> RecountView {
    counts_in(
        files,
        candidates_in(files, map_min_count, files.len() as int),
        files.len() as int,
    )
}

/// How often an n-gram comes in the first `count` files.
pub open spec fn total_occurrences<G: Gram>(
    files: Seq<Seq<Seq<u32>>>,
    key: G::Key,
    count: int,
) -> nat
    decreases count,
{
    if count <= 0 {
        0
    } else {
        total_occurrences::<G>(files, key, count - 1) + occurrences(
            file_grams::<G>(files[count - 1]),
            key,
        )
    }
}

/// The number of n-grams in the first `count` files.
pub open spec fn total_grams<G: Gram>(files: Seq<Seq<Seq<u32>>>, count: int) -> nat
    decreases count,
{
    if count <= 0 {
        0
    } else {
        total_grams::<G>(files, count - 1) + file_grams::<G>(files[count - 1]).len()
    }
}

/// The totals are the numbers of all n-grams.
proof fn totals_are_sums(files: Seq<Seq<Seq<u32>>>, candidates: CandidatesView, count: int)
    requires
        0 <= count <= files.len(),
    ensures
        counts_in(files, candidates, count).bigram_total == total_grams::<Bigram>(files, count),
        counts_in(files, candidates, count).trigram_total == total_grams::<Trigram>(files, count),
    decreases count,
{
    if count > 0 {
        totals_are_sums(files, candidates, count - 1);
    }
}

proof fn total_grams_grow<G: Gram>(files: Seq<Seq<Seq<u32>>>, count: int, more: int)
    requires
        0 <= count <= more,
    ensures
        total_grams::<G>(files, count) <= total_grams::<G>(files, more),
    decreases more - count,
{
    if count < more {
        total_grams_grow::<G>(files, count, more - 1);
    }
}

/// Finds the candidates of a corpus and counts them in all of it.
pub fn count_corpus(files: &[Vec<Vec<u32>>], map_min_count: u32) -> (recount: Recount)
    requires
        total_grams::<Bigram>(file_views(files@), files@.len() as int) <= u64::MAX,
        total_grams::<Trigram>(file_views(files@), files@.len() as int) <= u64::MAX,
    ensures
        recount.well_formed(),
        recount@ == corpus_counts(file_views(files@), map_min_count),
{
    let ghost all = file_views(files@);
    let mut candidates = Candidates::new();
    let mut i: usize = 0;
    while i < files.len()
        invariant
            all == file_views(files@),
            i <= files@.len(),
            candidates.well_formed(),
            candidates@ == candidates_in(all, map_min_count, i as int),
        decreases files@.len() - i,
    {
        assert(all[i as int] == run_views(files@[i as int]@));
        candidates.discover_file(&files[i], map_min_count);
        i += 1;
    }
    let ghost found = candidates@;
    let mut recount = Recount::new(candidates);
    let mut j: usize = 0;
    while j < files.len()
        invariant
            all == file_views(files@),
            total_grams::<Bigram>(all, files@.len() as int) <= u64::MAX,
            total_grams::<Trigram>(all, files@.len() as int) <= u64::MAX,
            j <= files@.len(),
            recount.well_formed(),
            recount@ == counts_in(all, found, j as int),
        decreases files@.len() - j,
    {
        proof {
            assert(all[j as int] == run_views(files@[j as int]@));
            totals_are_sums(all, found, j + 1);
            total_grams_grow::<Bigram>(all, j + 1, all.len() as int);
            total_grams_grow::<Trigram>(all, j + 1, all.len() as int);
        }
        recount.count_file(&files[j]);
        j += 1;
    }
    recount
}

/// A candidate pair is one that some file repeats.
proof fn bigram_candidates(
    files: Seq<Seq<Seq<u32>>>,
    map_min_count: u32,
    count: int,
    key: u64,
)
    requires
        0 <= count <= files.len(),
    ensures
        candidates_in(files, map_min_count, count).bigrams.contains(key) <==> exists|i: int|
            0 <= i < count && is_repeated(
                file_grams::<Bigram>(#[trigger] files[i]),
                key,
                map_min_count,
            ),
    decreases count,
{
    if count > 0 {
        bigram_candidates(files, map_min_count, count - 1, key);
        if is_repeated(file_grams::<Bigram>(files[count - 1]), key, map_min_count) {
            assert(0 <= count - 1 < count);
        }
    }
}

/// A candidate triple is one that some file repeats.
proof fn trigram_candidates(
    files: Seq<Seq<Seq<u32>>>,
    map_min_count: u32,
    count: int,
    key: u128,
)
    requires
        0 <= count <= files.len(),
    ensures
        candidates_in(files, map_min_count, count).trigrams.contains(key) <==> exists|i: int|
            0 <= i < count && is_repeated(
                file_grams::<Trigram>(#[trigger] files[i]),
                key,
                map_min_count,
            ),
    decreases count,
{
    if count > 0 {
        trigram_candidates(files, map_min_count, count - 1, key);
        if is_repeated(file_grams::<Trigram>(files[count - 1]), key, map_min_count) {
            assert(0 <= count - 1 < count);
        }
    }
}

/// Counts of candidates are their occurrences in all files.
proof fn counts_are_totals(
    files: Seq<Seq<Seq<u32>>>,
    candidates: CandidatesView,
    count: int,
)
    requires
        0 <= count <= files.len(),
    ensures
        forall|key: u64| #[trigger]
            counts_in(files, candidates, count).bigrams.contains_key(key)
                <==> candidates.bigrams.contains(key),
        forall|key: u64|
            candidates.bigrams.contains(key) ==> #[trigger] counts_in(
                files,
                candidates,
                count,
            ).bigrams[key] == total_occurrences::<Bigram>(files, key, count),
        forall|key: u128| #[trigger]
            counts_in(files, candidates, count).trigrams.contains_key(key)
                <==> candidates.trigrams.contains(key),
        forall|key: u128|
            candidates.trigrams.contains(key) ==> #[trigger] counts_in(
                files,
                candidates,
                count,
            ).trigrams[key] == total_occurrences::<Trigram>(files, key, count),
    decreases count,
{
    if count > 0 {
        counts_are_totals(files, candidates, count - 1);
        let before = counts_in(files, candidates, count - 1);
        let after = counts_in(files, candidates, count);
        assert forall|key: u64| candidates.bigrams.contains(key) implies (
        #[trigger] after.bigrams[key]) == total_occurrences::<Bigram>(files, key, count) by {
            assert(before.bigrams.contains_key(key));
        }
        assert forall|key: u128| candidates.trigrams.contains(key) implies (
        #[trigger] after.trigrams[key]) == total_occurrences::<Trigram>(files, key, count) by {
            assert(before.trigrams.contains_key(key));
        }
        assert forall|key: u64| #[trigger] after.bigrams.contains_key(key)
            <==> candidates.bigrams.contains(key) by {
            assert(before.bigrams.contains_key(key) <==> candidates.bigrams.contains(key));
        }
        assert forall|key: u128| #[trigger] after.trigrams.contains_key(key)
            <==> candidates.trigrams.contains(key) by {
            assert(before.trigrams.contains_key(key) <==> candidates.trigrams.contains(key));
        }
    }
}

/// What no file repeats comes at most `map_min_count - 1` times in each.
proof fn unrepeated_is_rare<G: Gram>(
    files: Seq<Seq<Seq<u32>>>,
    key: G::Key,
    map_min_count: u32,
    count: int,
)
    requires
        0 <= count <= files.len(),
        map_min_count > 0,
        forall|i: int|
            0 <= i < count ==> !is_repeated(
                file_grams::<G>(#[trigger] files[i]),
                key,
                map_min_count,
            ),
    ensures
        total_occurrences::<G>(files, key, count) <= count * (map_min_count - 1),
    decreases count,
{
    if count > 0 {
        unrepeated_is_rare::<G>(files, key, map_min_count, count - 1);
        assert(!is_repeated(file_grams::<G>(files[count - 1]), key, map_min_count));
        assert(count * (map_min_count - 1) == (count - 1) * (map_min_count - 1) + (map_min_count
            - 1)) by (nonlinear_arith);
    }
}

/// The threshold for n-grams exceeds what can come in all files without any repeating it.
pub open spec fn discovers_all(files: nat, ngram_min_count: u64, map_min_count: u32) -> bool {
    map_min_count > 0 && ngram_min_count > files * (map_min_count - 1)
}

/// Every pair that comes at least `ngram_min_count` times in the corpus is counted, and every
/// count is the number of times that the pair comes in all files.
pub proof fn frequent_bigrams_are_exact(
    files: Seq<Seq<Seq<u32>>>,
    ngram_min_count: u64,
    map_min_count: u32,
    key: u64,
)
    requires
        discovers_all(files.len(), ngram_min_count, map_min_count),
    ensures
        total_occurrences::<Bigram>(files, key, files.len() as int) >= ngram_min_count
            ==> corpus_counts(files, map_min_count).bigrams.contains_key(key),
        corpus_counts(files, map_min_count).bigrams.contains_key(key) ==> corpus_counts(
            files,
            map_min_count,
        ).bigrams[key] == total_occurrences::<Bigram>(files, key, files.len() as int),
{
    let count = files.len() as int;
    let candidates = candidates_in(files, map_min_count, count);
    bigram_candidates(files, map_min_count, count, key);
    counts_are_totals(files, candidates, count);
    if !candidates.bigrams.contains(key) {
        unrepeated_is_rare::<Bigram>(files, key, map_min_count, count);
    }
}

/// Every triple that comes at least `ngram_min_count` times in the corpus is counted, and every
/// count is the number of times that the triple comes in all files.
pub proof fn frequent_trigrams_are_exact(
    files: Seq<Seq<Seq<u32>>>,
    ngram_min_count: u64,
    map_min_count: u32,
    key: u128,
)
    requires
        discovers_all(files.len(), ngram_min_count, map_min_count),
    ensures
        total_occurrences::<Trigram>(files, key, files.len() as int) >= ngram_min_count
            ==> corpus_counts(files, map_min_count).trigrams.contains_key(key),
        corpus_counts(files, map_min_count).trigrams.contains_key(key) ==> corpus_counts(
            files,
            map_min_count,
        ).trigrams[key] == total_occurrences::<Trigram>(files, key, files.len() as int),
{
    let count = files.len() as int;
    let candidates = candidates_in(files, map_min_count, count);
    trigram_candidates(files, map_min_count, count, key);
    counts_are_totals(files, candidates, count);
    if !candidates.trigrams.contains(key) {
        unrepeated_is_rare::<Trigram>(files, key, map_min_count, count);
    }
}

/// A value that comes in a list stands in it.
proof fn occurring_is_contained<K>(list: Seq<K>, value: K)
    requires
        occurrences(list, value) > 0,
    ensures
        list.contains(value),
    decreases list.len(),
{
    if list.last() == value {
        assert(list[list.len() - 1] == value);
    } else {
        occurring_is_contained(list.drop_last(), value);
        let place = list.drop_last().index_of(value);
        assert(list[place] == value);
    }
}

/// A pair that is counted stands in some file.
pub proof fn counted_bigrams_occur(files: Seq<Seq<Seq<u32>>>, map_min_count: u32, key: u64) -> (
file: int)
    requires
        corpus_counts(files, map_min_count).bigrams.contains_key(key),
    ensures
        0 <= file < files.len(),
        file_grams::<Bigram>(files[file]).contains(key),
{
    let count = files.len() as int;
    bigram_candidates(files, map_min_count, count, key);
    counts_are_totals(files, candidates_in(files, map_min_count, count), count);
    let file = choose|i: int|
        0 <= i < count && is_repeated(
            file_grams::<Bigram>(#[trigger] files[i]),
            key,
            map_min_count,
        );
    occurring_is_contained(file_grams::<Bigram>(files[file]), key);
    file
}

/// A triple that is counted stands in some file.
pub proof fn counted_trigrams_occur(files: Seq<Seq<Seq<u32>>>, map_min_count: u32, key: u128) -> (
file: int)
    requires
        corpus_counts(files, map_min_count).trigrams.contains_key(key),
    ensures
        0 <= file < files.len(),
        file_grams::<Trigram>(files[file]).contains(key),
{
    let count = files.len() as int;
    trigram_candidates(files, map_min_count, count, key);
    counts_are_totals(files, candidates_in(files, map_min_count, count), count);
    let file = choose|i: int|
        0 <= i < count && is_repeated(
            file_grams::<Trigram>(#[trigger] files[i]),
            key,
            map_min_count,
        );
    occurring_is_contained(file_grams::<Trigram>(files[file]), key);
    file
}

} // verus!
