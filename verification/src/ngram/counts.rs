//! Counting pairs and triples of neighbouring tokens.
//!
//! The corpus is a list of files, each a list of runs of vocabulary numbers. Candidates are
//! found file by file, and all of them are then counted in the whole corpus.

use crate::ngram::fx::{count_of, counted, no_counts, set_count, Packed};
use crate::ngram::packing::{pack_bigram, pack_trigram, packed_pair, packed_triple};
use crate::ngram::scan::run_views;
use rustc_hash::FxHashMap;
use vstd::prelude::*;

verus! {

/// How often a value stands in a list.
pub open spec fn occurrences<K>(list: Seq<K>, value: K) -> nat
    decreases list.len(),
{
    if list.len() == 0 {
        0
    } else {
        occurrences(list.drop_last(), value) + if list.last() == value {
            1nat
        } else {
            0nat
        }
    }
}

/// Occurrences in two lists add up.
pub proof fn occurrences_add<K>(first: Seq<K>, second: Seq<K>, value: K)
    ensures
        occurrences(first + second, value) == occurrences(first, value) + occurrences(
            second,
            value,
        ),
    decreases second.len(),
{
    let whole = first + second;
    if second.len() == 0 {
        assert(whole =~= first);
    } else {
        assert(whole.drop_last() =~= first + second.drop_last());
        occurrences_add(first, second.drop_last(), value);
    }
}

/// A value stands in a list at most as often as the list is long.
pub proof fn occurrences_within<K>(list: Seq<K>, value: K)
    ensures
        occurrences(list, value) <= list.len(),
    decreases list.len(),
{
    if list.len() > 0 {
        occurrences_within(list.drop_last(), value);
    }
}

/// N-grams of one length: how they are packed.
pub trait Gram {
    type Key: Packed;

    /// The n-grams of a run, in order.
    spec fn grams(run: Seq<u32>) -> Seq<Self::Key>;

    proof fn fewer_grams(run: Seq<u32>)
        ensures
            Self::grams(run).len() <= run.len(),
    ;

    fn pack_all(run: &[u32]) -> (keys: Vec<Self::Key>)
        ensures
            keys@ == Self::grams(run@),
    ;
}

/// Pairs of neighbours.
pub struct Bigram;

/// The pairs of neighbours of a run.
pub open spec fn pairs(run: Seq<u32>) -> Seq<u64> {
    if run.len() < 2 {
        Seq::empty()
    } else {
        Seq::new((run.len() - 1) as nat, |i: int| packed_pair(run[i], run[i + 1]))
    }
}

impl Gram for Bigram {
    type Key = u64;

    open spec fn grams(run: Seq<u32>) -> Seq<u64> {
        pairs(run)
    }

    proof fn fewer_grams(run: Seq<u32>) {
    }

    fn pack_all(run: &[u32]) -> (keys: Vec<u64>) {
        let length = run.len();
        let mut keys: Vec<u64> = Vec::new();
        let mut i: usize = 1;
        while i < length
            invariant
                length == run@.len(),
                1 <= i,
                i <= length || length == 0,
                length < 2 ==> keys@.len() == 0,
                length >= 2 ==> keys@ == pairs(run@).take(i - 1),
            decreases length - i,
        {
            keys.push(pack_bigram(run[i - 1], run[i]));
            assert(keys@ =~= pairs(run@).take(i as int));
            i += 1;
        }
        assert(keys@ =~= pairs(run@));
        keys
    }
}

/// Triples of neighbours.
pub struct Trigram;

/// The triples of neighbours of a run.
pub open spec fn triples(run: Seq<u32>) -> Seq<u128> {
    if run.len() < 3 {
        Seq::empty()
    } else {
        Seq::new(
            (run.len() - 2) as nat,
            |i: int| packed_triple(run[i], run[i + 1], run[i + 2]),
        )
    }
}

impl Gram for Trigram {
    type Key = u128;

    open spec fn grams(run: Seq<u32>) -> Seq<u128> {
        triples(run)
    }

    proof fn fewer_grams(run: Seq<u32>) {
    }

    fn pack_all(run: &[u32]) -> (keys: Vec<u128>) {
        let length = run.len();
        let mut keys: Vec<u128> = Vec::new();
        let mut i: usize = 2;
        while i < length
            invariant
                length == run@.len(),
                2 <= i,
                i <= length || length < 2,
                length < 3 ==> keys@.len() == 0,
                length >= 3 ==> keys@ == triples(run@).take(i - 2),
            decreases length - i,
        {
            keys.push(pack_trigram(run[i - 2], run[i - 1], run[i]));
            assert(keys@ =~= triples(run@).take(i - 1));
            i += 1;
        }
        assert(keys@ =~= triples(run@));
        keys
    }
}

/// The n-grams of the first `count` runs of a file. None crosses a run.
pub open spec fn grams_of<G: Gram>(runs: Seq<Seq<u32>>, count: int) -> Seq<G::Key>
    decreases count,
{
    if count <= 0 {
        Seq::empty()
    } else {
        grams_of::<G>(runs, count - 1) + G::grams(runs[count - 1])
    }
}

/// All n-grams of a file.
pub open spec fn file_grams<G: Gram>(runs: Seq<Seq<u32>>) -> Seq<G::Key> {
    grams_of::<G>(runs, runs.len() as int)
}

/// The smaller of two numbers.
pub open spec fn least(left: nat, right: nat) -> nat {
    if left < right {
        left
    } else {
        right
    }
}

/// The counts of a list up to a limit, which is one at least.
spec fn limited_counts<K>(counts: Map<K, u64>, list: Seq<K>, limit: u64) -> bool {
    forall|key: K|
        #![trigger counts.contains_key(key)]
        #![trigger occurrences(list, key)]
        {
            &&& counts.contains_key(key) <==> occurrences(list, key) > 0
            &&& counts.contains_key(key) ==> counts[key] == least(
                occurrences(list, key),
                limit as nat,
            )
        }
}

/// Counts a key up to a limit.
fn count_limited<K: Packed>(
    counts: &mut FxHashMap<K, u64>,
    key: K,
    limit: u64,
    Ghost(list): Ghost<Seq<K>>,
)
    requires
        limit > 0,
        limited_counts(old(counts)@, list, limit),
    ensures
        limited_counts(final(counts)@, list.push(key), limit),
{
    let ghost before = counts@;
    proof {
        K::is_key();
    }
    let found = count_of(counts, key);
    match found {
        Some(count) => {
            if count < limit {
                set_count(counts, key, count + 1);
            }
        },
        None => {
            set_count(counts, key, 1);
        },
    }
    proof {
        let longer = list.push(key);
        assert(longer.drop_last() =~= list);
        assert forall|other: K|
            #![trigger counts@.contains_key(other)]
            #![trigger occurrences(longer, other)]
            {
                &&& counts@.contains_key(other) <==> occurrences(longer, other) > 0
                &&& counts@.contains_key(other) ==> counts@[other] == least(
                    occurrences(longer, other),
                    limit as nat,
                )
            } by {
            assert(before.contains_key(other) <==> occurrences(list, other) > 0);
        }
    }
}

/// The counts of the n-grams of a file, up to a limit.
fn count_file<G: Gram>(runs: &[Vec<u32>], limit: u64) -> (counts: FxHashMap<G::Key, u64>)
    requires
        limit > 0,
    ensures
        limited_counts(counts@, file_grams::<G>(run_views(runs@)), limit),
{
    let ghost all = run_views(runs@);
    let mut counts: FxHashMap<G::Key, u64> = no_counts();
    let mut i: usize = 0;
    while i < runs.len()
        invariant
            limit > 0,
            all == run_views(runs@),
            i <= runs@.len(),
            limited_counts(counts@, grams_of::<G>(all, i as int), limit),
        decreases runs@.len() - i,
    {
        let keys = G::pack_all(&runs[i]);
        let ghost before = grams_of::<G>(all, i as int);
        assert(all[i as int] == runs@[i as int]@);
        let mut j: usize = 0;
        assert(before + keys@.take(0) =~= before);
        while j < keys.len()
            invariant
                limit > 0,
                j <= keys@.len(),
                limited_counts(counts@, before + keys@.take(j as int), limit),
            decreases keys@.len() - j,
        {
            count_limited(&mut counts, keys[j], limit, Ghost(before + keys@.take(j as int)));
            assert((before + keys@.take(j as int)).push(keys@[j as int]) =~= before + keys@.take(
                j + 1,
            ));
            j += 1;
        }
        assert(keys@.take(j as int) =~= keys@);
        i += 1;
    }
    counts
}

/// A file in which a key comes at least `map_min_count` times, and once at least.
pub open spec fn is_repeated<K>(list: Seq<K>, key: K, map_min_count: u32) -> bool {
    occurrences(list, key) > 0 && occurrences(list, key) >= map_min_count
}

/// Adds the keys that come often enough to the candidates, with the count zero.
fn add_repeated<K: Packed>(
    candidates: &mut FxHashMap<K, u64>,
    counts: &FxHashMap<K, u64>,
    map_min_count: u32,
)
    ensures
        forall|key: K| #[trigger]
            final(candidates)@.contains_key(key) <==> old(candidates)@.contains_key(key) || (
            counts@.contains_key(key) && counts@[key] >= map_min_count),
        forall|key: K|
            old(candidates)@.contains_key(key) ==> #[trigger] final(candidates)@[key] == old(
                candidates,
            )@[key],
        forall|key: K|
            final(candidates)@.contains_key(key) && !old(candidates)@.contains_key(key)
                ==> #[trigger] final(candidates)@[key] == 0,
{
    proof {
        K::is_key();
    }
    let list = counted(counts);
    let ghost given = candidates@;
    let mut i: usize = 0;
    while i < list.len()
        invariant
            i <= list@.len(),
            forall|j: int|
                0 <= j < list@.len() ==> counts@.contains_key((#[trigger] list@[j]).0)
                    && counts@[list@[j].0] == list@[j].1,
            forall|key: K| #[trigger]
                candidates@.contains_key(key) ==> given.contains_key(key) || (
                counts@.contains_key(key) && counts@[key] >= map_min_count),
            forall|key: K| given.contains_key(key) ==> #[trigger] candidates@.contains_key(key),
            forall|j: int|
                0 <= j < i && (#[trigger] list@[j]).1 >= map_min_count
                    ==> candidates@.contains_key(list@[j].0),
            forall|key: K|
                given.contains_key(key) ==> #[trigger] candidates@[key] == given[key],
            forall|key: K|
                candidates@.contains_key(key) && !given.contains_key(key)
                    ==> #[trigger] candidates@[key] == 0,
        decreases list@.len() - i,
    {
        let (key, count) = list[i];
        assert(list@[i as int] == (key, count));
        proof {
            K::is_key();
        }
        if count >= map_min_count as u64 {
            if count_of(candidates, key).is_none() {
                set_count(candidates, key, 0);
            }
        }
        i += 1;
    }
    assert forall|key: K| #[trigger] candidates@.contains_key(key) <==> given.contains_key(key) || (
    counts@.contains_key(key) && counts@[key] >= map_min_count) by {
        if counts@.contains_key(key) && counts@[key] >= map_min_count {
            assert(list@.contains((key, counts@[key])));
            let j = list@.index_of((key, counts@[key]));
            assert(list@[j] == (key, counts@[key]));
        }
    }
}

/// A list of all keys of a map, each once, is as long as the map is large.
proof fn distinct_keys<K>(list: Seq<(K, u64)>, counts: Map<K, u64>)
    requires
        forall|i: int| 0 <= i < list.len() ==> counts.contains_key((#[trigger] list[i]).0),
        forall|i: int, j: int|
            0 <= i < j < list.len() ==> (#[trigger] list[i]).0 != (#[trigger] list[j]).0,
        forall|key: K| #[trigger]
            counts.contains_key(key) ==> list.contains((key, counts[key])),
    ensures
        list.len() == counts.dom().len(),
{
    let keys = Seq::new(list.len(), |i: int| list[i].0);
    assert(keys.no_duplicates());
    keys.unique_seq_to_set();
    assert forall|key: K| #[trigger] keys.to_set().contains(key) == counts.dom().contains(key) by {
        if keys.contains(key) {
            let i = keys.index_of(key);
            assert(list[i].0 == key);
        }
        if counts.contains_key(key) {
            let i = list.index_of((key, counts[key]));
            assert(list.contains((key, counts[key])));
            assert(keys[i] == key);
        }
    }
    assert(keys.to_set() =~= counts.dom());
}

/// The candidates of both lengths.
pub struct Candidates {
    bigrams: FxHashMap<u64, u64>,
    trigrams: FxHashMap<u128, u64>,
}

/// The candidates of both lengths.
#[verifier::ext_equal]
pub struct CandidatesView {
    pub bigrams: Set<u64>,
    pub trigrams: Set<u128>,
}

impl View for Candidates {
    type V = CandidatesView;

    closed spec fn view(&self) -> CandidatesView {
        CandidatesView { bigrams: self.bigrams@.dom(), trigrams: self.trigrams@.dom() }
    }
}

/// The candidates with the n-grams that a file repeats.
pub open spec fn with_repeated(
    known: CandidatesView,
    runs: Seq<Seq<u32>>,
    map_min_count: u32,
) -> CandidatesView {
    CandidatesView {
        bigrams: Set::new(
            |key: u64|
                known.bigrams.contains(key) || is_repeated(
                    file_grams::<Bigram>(runs),
                    key,
                    map_min_count,
                ),
        ),
        trigrams: Set::new(
            |key: u128|
                known.trigrams.contains(key) || is_repeated(
                    file_grams::<Trigram>(runs),
                    key,
                    map_min_count,
                ),
        ),
    }
}

impl Candidates {
    /// The candidates have not been counted yet.
    pub closed spec fn well_formed(&self) -> bool {
        &&& forall|key: u64| self.bigrams@.contains_key(key) ==> #[trigger] self.bigrams@[key] == 0
        &&& forall|key: u128|
            self.trigrams@.contains_key(key) ==> #[trigger] self.trigrams@[key] == 0
    }

    /// No candidates.
    pub fn new() -> (candidates: Candidates)
        ensures
            candidates.well_formed(),
            candidates@ == (CandidatesView { bigrams: Set::empty(), trigrams: Set::empty() }),
    {
        let candidates = Candidates { bigrams: no_counts(), trigrams: no_counts() };
        assert(candidates@ =~= (CandidatesView { bigrams: Set::empty(), trigrams: Set::empty() }));
        candidates
    }

    /// Adds the n-grams that a file repeats at least `map_min_count` times.
    pub fn discover_file(&mut self, runs: &[Vec<u32>], map_min_count: u32)
        requires
            old(self).well_formed(),
        ensures
            final(self).well_formed(),
            final(self)@ == with_repeated(old(self)@, run_views(runs@), map_min_count),
    {
        let ghost before = *self;
        let limit: u64 = if map_min_count == 0 {
            1
        } else {
            map_min_count as u64
        };
        let pairs_here = count_file::<Bigram>(runs, limit);
        add_repeated(&mut self.bigrams, &pairs_here, map_min_count);
        let triples_here = count_file::<Trigram>(runs, limit);
        add_repeated(&mut self.trigrams, &triples_here, map_min_count);
        proof {
            let views = run_views(runs@);
            let after = with_repeated(before@, views, map_min_count);
            let pair_list = file_grams::<Bigram>(views);
            let triple_list = file_grams::<Trigram>(views);
            assert forall|key: u64| #[trigger] self@.bigrams.contains(key)
                == after.bigrams.contains(key) by {
                assert(pairs_here@.contains_key(key) <==> occurrences(pair_list, key) > 0);
            }
            assert forall|key: u128| #[trigger] self@.trigrams.contains(key)
                == after.trigrams.contains(key) by {
                assert(triples_here@.contains_key(key) <==> occurrences(triple_list, key) > 0);
            }
            assert(self@ =~= after);
        }
    }

    /// The number of candidates of each length.
    pub fn lens(&self) -> (lens: (usize, usize))
        ensures
            lens.0 == self@.bigrams.len(),
            lens.1 == self@.trigrams.len(),
    {
        let pair_list = counted(&self.bigrams);
        let triple_list = counted(&self.trigrams);
        proof {
            distinct_keys(pair_list@, self.bigrams@);
            distinct_keys(triple_list@, self.trigrams@);
        }
        (pair_list.len(), triple_list.len())
    }
}

/// The counts of the candidates, and the numbers of all n-grams.
pub struct Recount {
    bigrams: FxHashMap<u64, u64>,
    trigrams: FxHashMap<u128, u64>,
    bigram_total: u64,
    trigram_total: u64,
}

/// The counts of the candidates, and the numbers of all n-grams.
#[verifier::ext_equal]
pub struct RecountView {
    pub bigrams: Map<u64, nat>,
    pub trigrams: Map<u128, nat>,
    pub bigram_total: nat,
    pub trigram_total: nat,
}

/// The counts as numbers without a limit.
pub open spec fn wide<K>(counts: Map<K, u64>) -> Map<K, nat> {
    counts.map_values(|count: u64| count as nat)
}

impl View for Recount {
    type V = RecountView;

    closed spec fn view(&self) -> RecountView {
        RecountView {
            bigrams: wide(self.bigrams@),
            trigrams: wide(self.trigrams@),
            bigram_total: self.bigram_total as nat,
            trigram_total: self.trigram_total as nat,
        }
    }
}

/// The counts after a list of n-grams: only keys that are counted get more.
pub open spec fn with_list<K>(counts: Map<K, nat>, list: Seq<K>) -> Map<K, nat> {
    Map::new(
        |key: K| counts.contains_key(key),
        |key: K| counts[key] + occurrences(list, key),
    )
}

/// The counts after a file.
pub open spec fn with_file(counts: RecountView, runs: Seq<Seq<u32>>) -> RecountView {
    RecountView {
        bigrams: with_list(counts.bigrams, file_grams::<Bigram>(runs)),
        trigrams: with_list(counts.trigrams, file_grams::<Trigram>(runs)),
        bigram_total: counts.bigram_total + file_grams::<Bigram>(runs).len(),
        trigram_total: counts.trigram_total + file_grams::<Trigram>(runs).len(),
    }
}

fn recount_keys<K: Packed>(counts: &mut FxHashMap<K, u64>, keys: &[K], total: u64)
    requires
        forall|key: K|
            old(counts)@.contains_key(key) ==> #[trigger] old(counts)@[key] <= total,
        total + keys@.len() <= u64::MAX,
    ensures
        wide(final(counts)@) == with_list(wide(old(counts)@), keys@),
        forall|key: K|
            final(counts)@.contains_key(key) ==> #[trigger] final(counts)@[key] <= total
                + keys@.len(),
{
    let ghost given = wide(counts@);
    let mut i: usize = 0;
    assert(wide(counts@) =~= with_list(given, keys@.take(0)));
    while i < keys.len()
        invariant
            i <= keys@.len(),
            total + keys@.len() <= u64::MAX,
            forall|key: K|
                counts@.contains_key(key) ==> #[trigger] counts@[key] <= total + i,
            wide(counts@) == with_list(given, keys@.take(i as int)),
        decreases keys@.len() - i,
    {
        let ghost before = counts@;
        let key = keys[i];
        proof {
            K::is_key();
        }
        if let Some(count) = count_of(counts, key) {
            assert(counts@[key] <= total + i);
            set_count(counts, key, count + 1);
        }
        proof {
            let next = keys@.take(i + 1);
            assert(next.drop_last() =~= keys@.take(i as int));
            assert forall|other: K| counts@.contains_key(other) implies (
            #[trigger] counts@[other]) <= total + i + 1 by {
                assert(before.contains_key(other));
                assert(before[other] <= total + i);
            }
            assert forall|other: K| #[trigger] wide(counts@).contains_key(other) == with_list(
                given,
                next,
            ).contains_key(other) by {
                assert(wide(before).contains_key(other) == with_list(
                    given,
                    keys@.take(i as int),
                ).contains_key(other));
            }
            assert forall|other: K| #[trigger] wide(counts@).contains_key(other) implies wide(
                counts@,
            )[other] == with_list(given, next)[other] by {
                assert(wide(before).contains_key(other));
                assert(wide(before)[other] == with_list(given, keys@.take(i as int))[other]);
            }
            assert(wide(counts@) =~= with_list(given, next));
        }
        i += 1;
    }
    assert(keys@.take(i as int) =~= keys@);
}

/// Counts after two lists are counts after both.
proof fn with_two_lists<K>(counts: Map<K, nat>, first: Seq<K>, second: Seq<K>)
    ensures
        with_list(with_list(counts, first), second) == with_list(counts, first + second),
{
    let one = with_list(with_list(counts, first), second);
    let both = with_list(counts, first + second);
    assert forall|key: K| #[trigger] one.contains_key(key) implies one[key] == both[key] by {
        occurrences_add(first, second, key);
    }
    assert(one =~= both);
}

fn recount_file<G: Gram>(counts: &mut FxHashMap<G::Key, u64>, runs: &[Vec<u32>], total: u64) -> (
    after: u64)
    requires
        forall|key: G::Key|
            old(counts)@.contains_key(key) ==> #[trigger] old(counts)@[key] <= total,
        total + file_grams::<G>(run_views(runs@)).len() <= u64::MAX,
    ensures
        after == total + file_grams::<G>(run_views(runs@)).len(),
        wide(final(counts)@) == with_list(
            wide(old(counts)@),
            file_grams::<G>(run_views(runs@)),
        ),
        forall|key: G::Key|
            final(counts)@.contains_key(key) ==> #[trigger] final(counts)@[key] <= after,
{
    let ghost all = run_views(runs@);
    let ghost given = wide(counts@);
    let mut after: u64 = total;
    let mut i: usize = 0;
    assert(given =~= with_list(given, grams_of::<G>(all, 0)));
    while i < runs.len()
        invariant
            all == run_views(runs@),
            i <= runs@.len(),
            total + file_grams::<G>(all).len() <= u64::MAX,
            after == total + grams_of::<G>(all, i as int).len(),
            wide(counts@) == with_list(given, grams_of::<G>(all, i as int)),
            forall|key: G::Key|
                counts@.contains_key(key) ==> #[trigger] counts@[key] <= after,
        decreases runs@.len() - i,
    {
        let keys = G::pack_all(&runs[i]);
        proof {
            assert(all[i as int] == runs@[i as int]@);
            fewer_grams_before::<G>(all, i + 1, all.len() as int);
            with_two_lists(given, grams_of::<G>(all, i as int), keys@);
        }
        recount_keys(counts, &keys, after);
        after += keys.len() as u64;
        i += 1;
    }
    after
}

proof fn fewer_grams_before<G: Gram>(runs: Seq<Seq<u32>>, count: int, more: int)
    requires
        0 <= count <= more,
    ensures
        grams_of::<G>(runs, count).len() <= grams_of::<G>(runs, more).len(),
    decreases more - count,
{
    if count < more {
        fewer_grams_before::<G>(runs, count, more - 1);
    }
}

impl Recount {
    /// No count exceeds the number of n-grams.
    pub closed spec fn well_formed(&self) -> bool {
        &&& forall|key: u64|
            self.bigrams@.contains_key(key) ==> #[trigger] self.bigrams@[key]
                <= self.bigram_total
        &&& forall|key: u128|
            self.trigrams@.contains_key(key) ==> #[trigger] self.trigrams@[key]
                <= self.trigram_total
    }

    /// Nothing has been counted yet.
    pub fn new(candidates: Candidates) -> (recount: Recount)
        requires
            candidates.well_formed(),
        ensures
            recount.well_formed(),
            recount@ == uncounted(candidates@),
    {
        let recount = Recount {
            bigrams: candidates.bigrams,
            trigrams: candidates.trigrams,
            bigram_total: 0,
            trigram_total: 0,
        };
        assert(recount@ =~= uncounted(candidates@));
        recount
    }

    /// Counts the n-grams of a file.
    pub fn count_file(&mut self, runs: &[Vec<u32>])
        requires
            old(self).well_formed(),
            with_file(old(self)@, run_views(runs@)).bigram_total <= u64::MAX,
            with_file(old(self)@, run_views(runs@)).trigram_total <= u64::MAX,
        ensures
            final(self).well_formed(),
            final(self)@ == with_file(old(self)@, run_views(runs@)),
    {
        self.bigram_total = recount_file::<Bigram>(&mut self.bigrams, runs, self.bigram_total);
        self.trigram_total = recount_file::<Trigram>(&mut self.trigrams, runs, self.trigram_total);
        assert(self@ =~= with_file(old(self)@, run_views(runs@)));
    }

    /// The counts of pairs, in no order.
    pub fn bigram_counts(&self) -> (list: Vec<(u64, u64)>)
        ensures
            lists_counts(list@, self@.bigrams),
    {
        let list = counted(&self.bigrams);
        assert(lists_counts(list@, wide(self.bigrams@)));
        list
    }

    /// The counts of triples, in no order.
    pub fn trigram_counts(&self) -> (list: Vec<(u128, u64)>)
        ensures
            lists_counts(list@, self@.trigrams),
    {
        let list = counted(&self.trigrams);
        assert(lists_counts(list@, wide(self.trigrams@)));
        list
    }

    /// The numbers of all pairs and of all triples.
    pub fn totals(&self) -> (totals: (u64, u64))
        ensures
            totals.0 == self@.bigram_total,
            totals.1 == self@.trigram_total,
    {
        (self.bigram_total, self.trigram_total)
    }
}

/// The list holds each key with its count, once.
pub open spec fn lists_counts<K>(list: Seq<(K, u64)>, counts: Map<K, nat>) -> bool {
    &&& forall|i: int|
        0 <= i < list.len() ==> counts.contains_key((#[trigger] list[i]).0) && counts[list[i].0]
            == list[i].1
    &&& forall|i: int, j: int|
        0 <= i < j < list.len() ==> (#[trigger] list[i]).0 != (#[trigger] list[j]).0
    &&& forall|key: K| #[trigger]
        counts.contains_key(key) ==> list.contains((key, counts[key] as u64))
}

/// Candidates of which none has been counted.
pub open spec fn uncounted(candidates: CandidatesView) -> RecountView {
    RecountView {
        bigrams: Map::new(|key: u64| candidates.bigrams.contains(key), |key: u64| 0),
        trigrams: Map::new(|key: u128| candidates.trigrams.contains(key), |key: u128| 0),
        bigram_total: 0,
        trigram_total: 0,
    }
}

} // verus!
