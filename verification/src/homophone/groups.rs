//! Groups of homophones: readings with several ways of writing them.

use crate::homophone::candidates::{CandidateStats, ReadingCandidates};
use crate::ngram::tokenizer::{contains_kanji, has_kanji};
use crate::order::{
    compare_text, same_elements, sort_by, sorted_by, text_laws, text_rank, text_rank_flip, Rank,
    Ranking,
};
use crate::sorted::SortedMap;
use crate::text::texts;
use vstd::prelude::*;

verus! {

/// One way of writing a reading: how often it comes, and as which lemmas, as which parts of
/// speech and in which sources.
pub struct CandidateSummary {
    pub surface: String,
    pub occurrence_count: u64,
    pub lemmas: Vec<String>,
    pub parts_of_speech: Vec<String>,
    pub source_counts: SortedMap<u64>,
}

/// A reading with the ways of writing it.
pub struct GroupSummary {
    pub group_id: String,
    pub reading: String,
    pub candidate_count: usize,
    pub total_occurrences: u64,
    pub candidates: Vec<CandidateSummary>,
}

/// The summary of a surface.
pub open spec fn is_summary(
    summary: CandidateSummary,
    surface: Seq<char>,
    stats: CandidateStats,
) -> bool {
    &&& summary.surface@ == surface
    &&& summary.occurrence_count == stats.count
    &&& texts(summary.lemmas@) == stats.lemma_counts.spec_keys()
    &&& texts(summary.parts_of_speech@) == stats.pos_counts.spec_keys()
    &&& summary.source_counts == stats.source_counts
}

/// A surface that is taken into a group: it has kanji in it and comes often enough.
pub open spec fn is_kept(map: SortedMap<CandidateStats>, place: int, min_count: u64) -> bool {
    has_kanji(map.spec_keys()[place]) && map.values@[place].count >= min_count
}

/// The places of the surfaces that are taken, among the first `length`.
pub open spec fn kept_places(
    map: SortedMap<CandidateStats>,
    min_count: u64,
    length: int,
) -> Seq<int>
    decreases length,
{
    if length <= 0 {
        Seq::empty()
    } else if is_kept(map, length - 1, min_count) {
        kept_places(map, min_count, length - 1).push(length - 1)
    } else {
        kept_places(map, min_count, length - 1)
    }
}

/// The places of all surfaces that are taken.
pub open spec fn all_kept(map: SortedMap<CandidateStats>, min_count: u64) -> Seq<int> {
    kept_places(map, min_count, map.keys@.len() as int)
}

/// How often the surfaces at these places come.
pub open spec fn count_sum(map: SortedMap<CandidateStats>, places: Seq<int>) -> nat
    decreases places.len(),
{
    if places.len() == 0 {
        0
    } else {
        count_sum(map, places.drop_last()) + map.values@[places.last()].count as nat
    }
}

/// The summaries of the surfaces at these places.
pub open spec fn are_summaries(
    list: Seq<CandidateSummary>,
    map: SortedMap<CandidateStats>,
    places: Seq<int>,
) -> bool {
    &&& list.len() == places.len()
    &&& forall|i: int|
        0 <= i < list.len() ==> is_summary(
            #[trigger] list[i],
            map.spec_keys()[places[i]],
            map.values@[places[i]],
        )
}

/// The group of a reading.
pub open spec fn is_group(group: GroupSummary, entry: ReadingCandidates, min_count: u64) -> bool {
    let places = all_kept(entry.candidates, min_count);
    &&& group.group_id@ == "homophone:"@ + entry.reading@
    &&& group.reading@ == entry.reading@
    &&& group.candidate_count == places.len()
    &&& group.total_occurrences == count_sum(entry.candidates, places)
    &&& are_summaries(group.candidates@, entry.candidates, places)
}

proof fn count_sum_grows(map: SortedMap<CandidateStats>, min_count: u64, length: int, more: int)
    requires
        0 <= length <= more,
    ensures
        count_sum(map, kept_places(map, min_count, length)) <= count_sum(
            map,
            kept_places(map, min_count, more),
        ),
        kept_places(map, min_count, length).len() <= kept_places(map, min_count, more).len(),
    decreases more - length,
{
    if length < more {
        count_sum_grows(map, min_count, length, more - 1);
        let before = kept_places(map, min_count, more - 1);
        if is_kept(map, more - 1, min_count) {
            assert(before.push(more - 1).drop_last() =~= before);
        }
    }
}

/// Takes the surfaces with kanji that come often enough.
fn summarize(map: SortedMap<CandidateStats>, min_count: u64) -> (result: (
    Vec<CandidateSummary>,
    u64,
))
    requires
        map.keys@.len() == map.values@.len(),
        count_sum(map, all_kept(map, min_count)) <= u64::MAX,
    ensures
        are_summaries(result.0@, map, all_kept(map, min_count)),
        result.1 == count_sum(map, all_kept(map, min_count)),
{
    let ghost whole = map;
    let keys = map.keys;
    let length = keys.len();
    let mut list: Vec<CandidateSummary> = Vec::new();
    let mut total: u64 = 0;
    let mut place: usize = 0;
    for stats in it: map.values
        invariant
            it.seq() == whole.values@,
            keys@ == whole.keys@,
            length == keys@.len(),
            length == whole.values@.len(),
            count_sum(whole, kept_places(whole, min_count, length as int)) <= u64::MAX,
            place == it.index(),
            are_summaries(list@, whole, kept_places(whole, min_count, place as int)),
            total == count_sum(whole, kept_places(whole, min_count, place as int)),
    {
        let ghost before = kept_places(whole, min_count, place as int);
        assert(whole.spec_keys()[place as int] == keys@[place as int]@);
        assert(whole.values@[place as int] == stats);
        if contains_kanji(keys[place].as_str()) && stats.count >= min_count {
            proof {
                count_sum_grows(whole, min_count, place + 1, length as int);
                assert(before.push(place as int).drop_last() =~= before);
            }
            total += stats.count;
            list.push(
                CandidateSummary {
                    surface: keys[place].clone(),
                    occurrence_count: stats.count,
                    lemmas: stats.lemma_counts.keys,
                    parts_of_speech: stats.pos_counts.keys,
                    source_counts: stats.source_counts,
                },
            );
        }
        place += 1;
    }
    (list, total)
}

/// The group of a reading, nothing where it has too few surfaces.
pub fn group_of(entry: ReadingCandidates, min_group_size: usize, min_candidate_count: u64) -> (
group: Option<GroupSummary>)
    requires
        entry.candidates.well_formed(),
        count_sum(
            entry.candidates,
            all_kept(entry.candidates, min_candidate_count),
        ) <= u64::MAX,
    ensures
        match group {
            Some(group) => is_group(group, entry, min_candidate_count) && group.candidate_count
                >= min_group_size,
            None => all_kept(entry.candidates, min_candidate_count).len() < min_group_size,
        },
{
    let reading = entry.reading;
    let (candidates, total_occurrences) = summarize(entry.candidates, min_candidate_count);
    if candidates.len() < min_group_size {
        return None;
    }
    let mut group_id = "homophone:".to_owned();
    group_id.append(reading.as_str());
    Some(
        GroupSummary {
            group_id,
            reading,
            candidate_count: candidates.len(),
            total_occurrences,
            candidates,
        },
    )
}

/// The order by reading.
pub struct ByReading;

impl Ranking<GroupSummary> for ByReading {
    open spec fn rank(left: GroupSummary, right: GroupSummary) -> Rank {
        text_rank(left.reading@, right.reading@)
    }

    proof fn rank_flip(left: GroupSummary, right: GroupSummary) {
        text_rank_flip(left.reading@, right.reading@);
    }

    proof fn rank_transitive(first: GroupSummary, second: GroupSummary, third: GroupSummary) {
        text_laws(first.reading@, second.reading@, third.reading@);
    }

    fn compare(left: &GroupSummary, right: &GroupSummary) -> (rank: Rank) {
        compare_text(left.reading.as_str(), right.reading.as_str())
    }
}

/// The group is that of one of the readings, which has enough surfaces.
pub open spec fn comes_from(
    group: GroupSummary,
    counts: Seq<ReadingCandidates>,
    min_group_size: usize,
    min_count: u64,
) -> bool {
    exists|i: int|
        0 <= i < counts.len() && is_group(group, #[trigger] counts[i], min_count)
            && group.candidate_count >= min_group_size
}

/// One of the groups is that of the reading.
pub open spec fn has_group(groups: Seq<GroupSummary>, reading: Seq<char>) -> bool {
    exists|i: int| 0 <= i < groups.len() && (#[trigger] groups[i]).reading@ == reading
}

/// The groups are sorted by reading, and no two have the same.
pub open spec fn are_apart(groups: Seq<GroupSummary>) -> bool {
    forall|i: int, j: int|
        0 <= i < j < groups.len() ==> text_rank(
            (#[trigger] groups[i]).reading@,
            (#[trigger] groups[j]).reading@,
        ) == Rank::Before
}

/// The groups are those of the readings with enough surfaces, by reading.
pub open spec fn are_groups(
    groups: Seq<GroupSummary>,
    counts: Seq<ReadingCandidates>,
    min_group_size: usize,
    min_count: u64,
) -> bool {
    &&& are_apart(groups)
    &&& forall|i: int|
        0 <= i < groups.len() ==> comes_from(
            #[trigger] groups[i],
            counts,
            min_group_size,
            min_count,
        )
    &&& forall|i: int|
        0 <= i < counts.len() && all_kept((#[trigger] counts[i]).candidates, min_count).len()
            >= min_group_size ==> has_group(groups, counts[i].reading@)
}

/// The readings are distinct, and their surfaces are in order and can be summed up.
pub open spec fn can_be_grouped(counts: Seq<ReadingCandidates>, min_count: u64) -> bool {
    &&& forall|i: int|
        0 <= i < counts.len() ==> (#[trigger] counts[i]).candidates.well_formed() && count_sum(
            counts[i].candidates,
            all_kept(counts[i].candidates, min_count),
        ) <= u64::MAX
    &&& forall|i: int, j: int|
        0 <= i < j < counts.len() ==> (#[trigger] counts[i]).reading@ != (
        #[trigger] counts[j]).reading@
}

/// Makes the groups of readings with at least `min_group_size` surfaces that have kanji in them
/// and come at least `min_candidate_count` times.
pub fn build_groups(
    counts: Vec<ReadingCandidates>,
    min_group_size: usize,
    min_candidate_count: u64,
) -> (groups: Vec<GroupSummary>)
    requires
        can_be_grouped(counts@, min_candidate_count),
    ensures
        are_groups(groups@, counts@, min_group_size, min_candidate_count),
{
    let ghost all = counts@;
    let mut list: Vec<GroupSummary> = Vec::new();
    for entry in it: counts
        invariant
            it.seq() == all,
            can_be_grouped(all, min_candidate_count),
            forall|i: int|
                0 <= i < list@.len() ==> comes_from(
                    #[trigger] list@[i],
                    all.take(it.index()),
                    min_group_size,
                    min_candidate_count,
                ),
            forall|i: int|
                0 <= i < it.index() && all_kept(
                    (#[trigger] all[i]).candidates,
                    min_candidate_count,
                ).len() >= min_group_size ==> has_group(list@, all[i].reading@),
            forall|i: int, j: int|
                0 <= i < j < list@.len() ==> (#[trigger] list@[i]).reading@ != (
                #[trigger] list@[j]).reading@,
    {
        let ghost done = it.index();
        let ghost before = list@;
        let ghost next = all.take(done + 1);
        assert(all[done] == entry);
        if let Some(group) = group_of(entry, min_group_size, min_candidate_count) {
            list.push(group);
            proof {
                assert(next[done] == entry);
                assert(comes_from(group, next, min_group_size, min_candidate_count));
                assert forall|i: int| 0 <= i < before.len() implies (
                #[trigger] before[i]).reading@ != group.reading@ by {
                    assert(comes_from(
                        before[i],
                        all.take(done),
                        min_group_size,
                        min_candidate_count,
                    ));
                    let k = choose|k: int|
                        0 <= k < done && is_group(
                            before[i],
                            #[trigger] all.take(done)[k],
                            min_candidate_count,
                        ) && before[i].candidate_count >= min_group_size;
                    assert(all[k].reading@ != all[done].reading@);
                }
                assert(list@[before.len() as int].reading@ == entry.reading@);
            }
        }
        proof {
            assert forall|i: int| 0 <= i < list@.len() implies comes_from(
                #[trigger] list@[i],
                next,
                min_group_size,
                min_candidate_count,
            ) by {
                if i < before.len() {
                    assert(list@[i] == before[i]);
                    let k = choose|k: int|
                        0 <= k < done && is_group(
                            before[i],
                            #[trigger] all.take(done)[k],
                            min_candidate_count,
                        ) && before[i].candidate_count >= min_group_size;
                    assert(next[k] == all.take(done)[k]);
                }
            }
            assert forall|i: int|
                0 <= i < done + 1 && all_kept(
                    (#[trigger] all[i]).candidates,
                    min_candidate_count,
                ).len() >= min_group_size implies has_group(list@, all[i].reading@) by {
                if i < done {
                    assert(has_group(before, all[i].reading@));
                    let k = choose|k: int|
                        0 <= k < before.len() && (#[trigger] before[k]).reading@
                            == all[i].reading@;
                    assert(list@[k] == before[k]);
                }
            }
        }
    }
    proof {
        assert(all.take(all.len() as int) =~= all);
    }
    let ghost unsorted = list@;
    let groups = sort_by::<GroupSummary, ByReading>(list);
    proof {
        sorting_keeps_groups(groups@, unsorted, all, min_group_size, min_candidate_count);
    }
    groups
}

proof fn sorting_keeps_groups(
    groups: Seq<GroupSummary>,
    unsorted: Seq<GroupSummary>,
    counts: Seq<ReadingCandidates>,
    min_group_size: usize,
    min_count: u64,
)
    requires
        sorted_by::<GroupSummary, ByReading>(groups),
        groups.to_multiset() == unsorted.to_multiset(),
        forall|i: int|
            0 <= i < unsorted.len() ==> comes_from(
                #[trigger] unsorted[i],
                counts,
                min_group_size,
                min_count,
            ),
        forall|i: int|
            0 <= i < counts.len() && all_kept((#[trigger] counts[i]).candidates, min_count).len()
                >= min_group_size ==> has_group(unsorted, counts[i].reading@),
        forall|i: int, j: int|
            0 <= i < j < unsorted.len() ==> (#[trigger] unsorted[i]).reading@ != (
            #[trigger] unsorted[j]).reading@,
    ensures
        are_groups(groups, counts, min_group_size, min_count),
{
    same_elements(groups, unsorted);
    assert(unsorted.no_duplicates());
    unsorted.lemma_multiset_has_no_duplicates();
    groups.lemma_multiset_has_no_duplicates_conv();
    assert forall|i: int, j: int| 0 <= i < j < groups.len() implies text_rank(
        (#[trigger] groups[i]).reading@,
        (#[trigger] groups[j]).reading@,
    ) == Rank::Before by {
        assert(ByReading::rank(groups[i], groups[j]) != Rank::After);
        assert(groups.contains(groups[i]) && groups.contains(groups[j]));
        let p = unsorted.index_of(groups[i]);
        let q = unsorted.index_of(groups[j]);
        assert(unsorted[p] == groups[i] && unsorted[q] == groups[j]);
        assert(groups[i] != groups[j]);
        if p < q {
            assert(unsorted[p].reading@ != unsorted[q].reading@);
        } else {
            assert(unsorted[q].reading@ != unsorted[p].reading@);
        }
        text_laws(groups[i].reading@, groups[j].reading@, groups[j].reading@);
    }
    assert forall|i: int| 0 <= i < groups.len() implies comes_from(
        #[trigger] groups[i],
        counts,
        min_group_size,
        min_count,
    ) by {
        assert(groups.contains(groups[i]));
        let p = unsorted.index_of(groups[i]);
        assert(comes_from(unsorted[p], counts, min_group_size, min_count));
    }
    assert forall|i: int|
        0 <= i < counts.len() && all_kept((#[trigger] counts[i]).candidates, min_count).len()
            >= min_group_size implies has_group(groups, counts[i].reading@) by {
        let k = choose|k: int|
            0 <= k < unsorted.len() && (#[trigger] unsorted[k]).reading@ == counts[i].reading@;
        assert(unsorted.contains(unsorted[k]));
        let p = groups.index_of(unsorted[k]);
        assert(groups[p].reading@ == counts[i].reading@);
    }
}

/// Finds the group of a reading.
pub fn find_group(groups: &[GroupSummary], reading: &str) -> (place: Option<usize>)
    requires
        are_apart(groups@),
    ensures
        match place {
            Some(place) => place < groups@.len() && groups@[place as int].reading@ == reading@,
            None => !has_group(groups@, reading@),
        },
{
    let mut low: usize = 0;
    let mut high: usize = groups.len();
    while low < high
        invariant
            are_apart(groups@),
            low <= high <= groups@.len(),
            forall|i: int|
                0 <= i < low ==> text_rank((#[trigger] groups@[i]).reading@, reading@)
                    == Rank::Before,
            forall|i: int|
                high <= i < groups@.len() ==> text_rank(
                    reading@,
                    (#[trigger] groups@[i]).reading@,
                ) == Rank::Before,
        decreases high - low,
    {
        let middle = low + (high - low) / 2;
        let rank = compare_text(groups[middle].reading.as_str(), reading);
        proof {
            let found = groups@[middle as int].reading@;
            text_laws(found, reading@, reading@);
            text_rank_flip(found, reading@);
            assert forall|i: int| 0 <= i < middle && rank == Rank::Before implies text_rank(
                (#[trigger] groups@[i]).reading@,
                reading@,
            ) == Rank::Before by {
                assert(text_rank(groups@[i].reading@, groups@[middle as int].reading@)
                    == Rank::Before);
                text_laws(groups@[i].reading@, found, reading@);
            }
            assert forall|i: int|
                middle < i < groups@.len() && rank == Rank::After implies text_rank(
                reading@,
                (#[trigger] groups@[i]).reading@,
            ) == Rank::Before by {
                assert(text_rank(groups@[middle as int].reading@, groups@[i].reading@)
                    == Rank::Before);
                text_laws(reading@, found, groups@[i].reading@);
            }
        }
        match rank {
            Rank::Before => {
                low = middle + 1;
            },
            Rank::Same => {
                return Some(middle);
            },
            Rank::After => {
                high = middle;
            },
        }
    }
    proof {
        assert forall|i: int| 0 <= i < groups@.len() implies (#[trigger] groups@[i]).reading@
            != reading@ by {
            text_laws(groups@[i].reading@, reading@, groups@[i].reading@);
        }
    }
    None
}

} // verus!
