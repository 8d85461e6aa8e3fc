//! The counts of groups agree with the occurrences of their words.

use crate::homophone::annotation::AnnotatedView;
use crate::homophone::candidates::{
    are_candidates, counts_surface, seen_as, CandidateStats, ObservationView, ReadingCandidates,
};
use crate::homophone::groups::{
    all_kept, are_groups, comes_from, count_sum, is_group, is_summary, kept_places, GroupSummary,
};
use crate::homophone::occurrences::{
    corpus_occurrences, corpus_words, is_selected, lists_surface, observed, record_occurrences,
    record_words, sentence_count, sentence_occurrences, sentence_tokens, RecordView,
};
use crate::ngram::sentences::sentences_of;
use crate::order::{text_rank, text_rank_same, Rank};
use crate::sorted::{strictly_sorted, SortedMap};
use vstd::prelude::*;

verus! {

/// The number of words that are in groups, among those that were seen.
pub open spec fn selected_count(groups: Seq<GroupSummary>, seen: Seq<ObservationView>) -> nat
    decreases seen.len(),
{
    if seen.len() == 0 {
        0
    } else {
        selected_count(groups, seen.drop_last()) + if is_selected(groups, seen.last().token) {
            1nat
        } else {
            0nat
        }
    }
}

/// The sum of the counts of the first `count` groups.
pub open spec fn group_sum(groups: Seq<GroupSummary>, count: int) -> nat
    decreases count,
{
    if count <= 0 {
        0
    } else {
        group_sum(groups, count - 1) + groups[count - 1].total_occurrences as nat
    }
}

/// How often the first `count` surfaces of a list were seen with a reading.
spec fn surface_sum(
    reading: Seq<char>,
    surfaces: Seq<Seq<char>>,
    seen: Seq<ObservationView>,
    count: int,
) -> nat
    decreases count,
{
    if count <= 0 {
        0
    } else {
        surface_sum(reading, surfaces, seen, count - 1) + seen_as(
            seen,
            reading,
            surfaces[count - 1],
        ).len()
    }
}

/// The surfaces of a group.
pub open spec fn surfaces_of(group: GroupSummary) -> Seq<Seq<char>> {
    Seq::new(group.candidates@.len(), |i: int| group.candidates@[i].surface@)
}

/// How often the surfaces of the first `count` groups were seen.
spec fn seen_sum(groups: Seq<GroupSummary>, seen: Seq<ObservationView>, count: int) -> nat
    decreases count,
{
    if count <= 0 {
        0
    } else {
        seen_sum(groups, seen, count - 1) + surface_sum(
            groups[count - 1].reading@,
            surfaces_of(groups[count - 1]),
            seen,
            groups[count - 1].candidates@.len() as int,
        )
    }
}

/// One more word adds one to the surface that it is.
proof fn surface_sum_step(
    reading: Seq<char>,
    surfaces: Seq<Seq<char>>,
    seen: Seq<ObservationView>,
    observation: ObservationView,
    count: int,
)
    requires
        surfaces.no_duplicates(),
        0 <= count <= surfaces.len(),
    ensures
        surface_sum(reading, surfaces, seen.push(observation), count) == surface_sum(
            reading,
            surfaces,
            seen,
            count,
        ) + if reading == observation.token.reading && surfaces.take(count).contains(
            observation.token.surface,
        ) {
            1nat
        } else {
            0nat
        },
    decreases count,
{
    let longer = seen.push(observation);
    let surface = observation.token.surface;
    assert(longer.drop_last() =~= seen);
    if count > 0 {
        surface_sum_step(reading, surfaces, seen, observation, count - 1);
        let shorter = surfaces.take(count - 1);
        assert(surfaces.take(count) =~= shorter.push(surfaces[count - 1]));
        assert(surfaces.take(count)[count - 1] == surfaces[count - 1]);
        if surfaces[count - 1] == surface {
            assert(!shorter.contains(surface)) by {
                if shorter.contains(surface) {
                    let i = shorter.index_of(surface);
                    assert(surfaces[i] == surfaces[count - 1]);
                }
            }
        } else {
            if shorter.contains(surface) {
                let i = shorter.index_of(surface);
                assert(surfaces.take(count)[i] == surface);
            }
            if surfaces.take(count).contains(surface) {
                let i = surfaces.take(count).index_of(surface);
                assert(shorter[i] == surface);
            }
        }
    }
}

/// Distinct surfaces were seen no more often than there were words.
proof fn surface_sum_within(
    reading: Seq<char>,
    surfaces: Seq<Seq<char>>,
    seen: Seq<ObservationView>,
    count: int,
)
    requires
        surfaces.no_duplicates(),
        0 <= count <= surfaces.len(),
    ensures
        surface_sum(reading, surfaces, seen, count) <= seen.len(),
    decreases seen.len(),
{
    if seen.len() == 0 {
        assert(seen =~= Seq::empty());
        surface_sum_empty(reading, surfaces, count);
    } else {
        surface_sum_within(reading, surfaces, seen.drop_last(), count);
        surface_sum_step(reading, surfaces, seen.drop_last(), seen.last(), count);
        assert(seen.drop_last().push(seen.last()) =~= seen);
    }
}

/// A word is in one of the first `count` groups.
spec fn selected_among(groups: Seq<GroupSummary>, token: AnnotatedView, count: int) -> bool {
    is_selected(groups.take(count), token)
}

/// The groups have distinct readings, and each has distinct surfaces.
pub open spec fn are_distinct(groups: Seq<GroupSummary>) -> bool {
    &&& forall|i: int, j: int|
        0 <= i < j < groups.len() ==> (#[trigger] groups[i]).reading@ != (
        #[trigger] groups[j]).reading@
    &&& forall|i: int|
        0 <= i < groups.len() ==> surfaces_of(#[trigger] groups[i]).no_duplicates()
}

/// One more word adds one to the group that it is in.
proof fn seen_sum_step(
    groups: Seq<GroupSummary>,
    seen: Seq<ObservationView>,
    observation: ObservationView,
    count: int,
)
    requires
        are_distinct(groups),
        0 <= count <= groups.len(),
    ensures
        seen_sum(groups, seen.push(observation), count) == seen_sum(groups, seen, count)
            + if selected_among(groups, observation.token, count) {
            1nat
        } else {
            0nat
        },
    decreases count,
{
    let token = observation.token;
    if count > 0 {
        seen_sum_step(groups, seen, observation, count - 1);
        let group = groups[count - 1];
        let length = group.candidates@.len() as int;
        let surfaces = surfaces_of(group);
        surface_sum_step(group.reading@, surfaces, seen, observation, length);
        assert(surfaces.take(length) =~= surfaces);
        surfaces_are_listed(group, token.surface);
        assert(groups.take(count)[count - 1] == group);
        if group.reading@ == token.reading && surfaces.contains(token.surface) {
            assert(!selected_among(groups, token, count - 1)) by {
                assert forall|i: int| 0 <= i < count - 1 implies (#[trigger] groups.take(
                    count - 1,
                )[i]).reading@ != token.reading by {
                    assert(groups.take(count - 1)[i] == groups[i]);
                    assert(groups[i].reading@ != groups[count - 1].reading@);
                }
            }
            assert(selected_among(groups, token, count));
        } else {
            assert(selected_among(groups, token, count) == selected_among(
                groups,
                token,
                count - 1,
            )) by {
                if selected_among(groups, token, count) {
                    let i = choose|i: int|
                        0 <= i < count && (#[trigger] groups.take(count)[i]).reading@
                            == token.reading && lists_surface(
                            groups.take(count)[i].candidates@,
                            token.surface,
                        );
                    assert(groups.take(count)[i] == groups[i]);
                    assert(i != count - 1);
                    assert(groups.take(count - 1)[i] == groups[i]);
                }
                if selected_among(groups, token, count - 1) {
                    let i = choose|i: int|
                        0 <= i < count - 1 && (#[trigger] groups.take(count - 1)[i]).reading@
                            == token.reading && lists_surface(
                            groups.take(count - 1)[i].candidates@,
                            token.surface,
                        );
                    assert(groups.take(count)[i] == groups.take(count - 1)[i]);
                }
            }
        }
    }
}

proof fn surfaces_are_listed(group: GroupSummary, surface: Seq<char>)
    ensures
        surfaces_of(group).contains(surface) == lists_surface(group.candidates@, surface),
{
    if surfaces_of(group).contains(surface) {
        let i = surfaces_of(group).index_of(surface);
        assert(group.candidates@[i].surface@ == surface);
    }
    if lists_surface(group.candidates@, surface) {
        let i = choose|i: int|
            0 <= i < group.candidates@.len() && (#[trigger] group.candidates@[i]).surface@
                == surface;
        assert(surfaces_of(group)[i] == surface);
    }
}

proof fn surface_sum_empty(reading: Seq<char>, surfaces: Seq<Seq<char>>, count: int)
    ensures
        surface_sum(reading, surfaces, Seq::empty(), count) == 0,
    decreases count,
{
    if count > 0 {
        surface_sum_empty(reading, surfaces, count - 1);
    }
}

proof fn seen_sum_empty(groups: Seq<GroupSummary>, count: int)
    ensures
        seen_sum(groups, Seq::empty(), count) == 0,
    decreases count,
{
    if count > 0 {
        seen_sum_empty(groups, count - 1);
        surface_sum_empty(
            groups[count - 1].reading@,
            surfaces_of(groups[count - 1]),
            groups[count - 1].candidates@.len() as int,
        );
    }
}

/// The surfaces of groups were seen as often as words in groups were.
proof fn seen_sum_is_selected(groups: Seq<GroupSummary>, seen: Seq<ObservationView>)
    requires
        are_distinct(groups),
    ensures
        seen_sum(groups, seen, groups.len() as int) == selected_count(groups, seen),
    decreases seen.len(),
{
    if seen.len() == 0 {
        assert(seen =~= Seq::empty());
        seen_sum_empty(groups, groups.len() as int);
    } else {
        seen_sum_is_selected(groups, seen.drop_last());
        seen_sum_step(groups, seen.drop_last(), seen.last(), groups.len() as int);
        assert(seen.drop_last().push(seen.last()) =~= seen);
        assert(groups.take(groups.len() as int) =~= groups);
    }
}

/// The places that are taken rise, and are places of the map.
pub proof fn kept_places_rise(map: SortedMap<CandidateStats>, min_count: u64, length: int)
    ensures
        forall|i: int|
            0 <= i < kept_places(map, min_count, length).len() ==> 0 <= #[trigger] kept_places(
                map,
                min_count,
                length,
            )[i] < length,
        forall|i: int, j: int|
            0 <= i < j < kept_places(map, min_count, length).len() ==> (#[trigger] kept_places(
                map,
                min_count,
                length,
            )[i]) < (#[trigger] kept_places(map, min_count, length)[j]),
    decreases length,
{
    if length > 0 {
        kept_places_rise(map, min_count, length - 1);
        let before = kept_places(map, min_count, length - 1);
        let after = kept_places(map, min_count, length);
        assert forall|i: int| 0 <= i < after.len() implies 0 <= #[trigger] after[i] < length by {
            if i < before.len() {
                assert(after[i] == before[i]);
            }
        }
        assert forall|i: int, j: int| 0 <= i < j < after.len() implies (#[trigger] after[i]) < (
        #[trigger] after[j]) by {
            assert(after[i] == before[i]);
            if j < before.len() {
                assert(after[j] == before[j]);
            }
        }
    }
}

/// The surfaces at the places that are taken.
spec fn kept_surfaces(map: SortedMap<CandidateStats>, min_count: u64) -> Seq<Seq<char>> {
    let places = all_kept(map, min_count);
    Seq::new(places.len(), |i: int| map.spec_keys()[places[i]])
}

proof fn kept_surfaces_are_sorted(map: SortedMap<CandidateStats>, min_count: u64)
    requires
        map.well_formed(),
    ensures
        strictly_sorted(kept_surfaces(map, min_count)),
        kept_surfaces(map, min_count).no_duplicates(),
{
    let places = all_kept(map, min_count);
    let surfaces = kept_surfaces(map, min_count);
    let keys = map.spec_keys();
    kept_places_rise(map, min_count, map.keys@.len() as int);
    assert forall|i: int, j: int| 0 <= i < j < surfaces.len() implies text_rank(
        #[trigger] surfaces[i],
        #[trigger] surfaces[j],
    ) == Rank::Before && surfaces[i] != surfaces[j] by {
        assert(places[i] < places[j]);
        assert(text_rank(keys[places[i]], keys[places[j]]) == Rank::Before);
        text_rank_same(keys[places[i]], keys[places[j]]);
    }
}

/// The counts of surfaces that are taken are how often they were seen.
proof fn kept_counts_are_seen(
    map: SortedMap<CandidateStats>,
    seen: Seq<ObservationView>,
    reading: Seq<char>,
    min_count: u64,
    count: int,
)
    requires
        are_candidates(map, seen, reading),
        0 <= count <= all_kept(map, min_count).len(),
    ensures
        surface_sum(reading, kept_surfaces(map, min_count), seen, count) == count_sum(
            map,
            all_kept(map, min_count).take(count),
        ),
    decreases count,
{
    let places = all_kept(map, min_count);
    if count > 0 {
        kept_counts_are_seen(map, seen, reading, min_count, count - 1);
        kept_places_rise(map, min_count, map.keys@.len() as int);
        assert(places.take(count).drop_last() =~= places.take(count - 1));
        assert(counts_surface(map, seen, reading, places[count - 1]));
    }
}

/// The counts of the surfaces of a reading add up to no more than the number of words.
pub proof fn kept_counts_within(
    map: SortedMap<CandidateStats>,
    seen: Seq<ObservationView>,
    reading: Seq<char>,
    min_count: u64,
)
    requires
        are_candidates(map, seen, reading),
    ensures
        count_sum(map, all_kept(map, min_count)) <= seen.len(),
{
    let places = all_kept(map, min_count);
    let count = places.len() as int;
    kept_surfaces_are_sorted(map, min_count);
    kept_counts_are_seen(map, seen, reading, min_count, count);
    surface_sum_within(reading, kept_surfaces(map, min_count), seen, count);
    assert(places.take(count) =~= places);
}

/// The surfaces of a group are sorted, and none stands twice.
pub proof fn group_surfaces_are_sorted(
    group: GroupSummary,
    entry: ReadingCandidates,
    min_count: u64,
)
    requires
        entry.candidates.well_formed(),
        is_group(group, entry, min_count),
    ensures
        strictly_sorted(surfaces_of(group)),
        surfaces_of(group).no_duplicates(),
{
    group_surfaces_are_kept(group, entry, min_count);
    kept_surfaces_are_sorted(entry.candidates, min_count);
}

proof fn group_surfaces_are_kept(
    group: GroupSummary,
    entry: ReadingCandidates,
    min_count: u64,
)
    requires
        is_group(group, entry, min_count),
    ensures
        surfaces_of(group) == kept_surfaces(entry.candidates, min_count),
{
    let map = entry.candidates;
    let places = all_kept(map, min_count);
    assert forall|i: int| 0 <= i < places.len() implies surfaces_of(group)[i] == kept_surfaces(
        map,
        min_count,
    )[i] by {
        assert(is_summary(
            group.candidates@[i],
            map.spec_keys()[places[i]],
            map.values@[places[i]],
        ));
    }
    assert(surfaces_of(group) =~= kept_surfaces(map, min_count));
}

/// The counts of groups are how often their surfaces were seen.
proof fn group_sum_is_seen(
    groups: Seq<GroupSummary>,
    counts: Seq<ReadingCandidates>,
    seen: Seq<ObservationView>,
    min_group_size: usize,
    min_count: u64,
    count: int,
)
    requires
        are_groups(groups, counts, min_group_size, min_count),
        forall|i: int|
            0 <= i < counts.len() ==> are_candidates(
                (#[trigger] counts[i]).candidates,
                seen,
                counts[i].reading@,
            ),
        0 <= count <= groups.len(),
    ensures
        group_sum(groups, count) == seen_sum(groups, seen, count),
    decreases count,
{
    if count > 0 {
        group_sum_is_seen(groups, counts, seen, min_group_size, min_count, count - 1);
        let group = groups[count - 1];
        assert(comes_from(group, counts, min_group_size, min_count));
        let i = choose|i: int|
            0 <= i < counts.len() && is_group(group, #[trigger] counts[i], min_count)
                && group.candidate_count >= min_group_size;
        let length = group.candidates@.len() as int;
        group_surfaces_are_kept(group, counts[i], min_count);
        kept_counts_are_seen(
            counts[i].candidates,
            seen,
            counts[i].reading@,
            min_count,
            length,
        );
        let places = all_kept(counts[i].candidates, min_count);
        assert(places.take(length) =~= places);
    }
}

/// The groups that are made of what was seen are distinct.
pub proof fn groups_are_distinct(
    groups: Seq<GroupSummary>,
    counts: Seq<ReadingCandidates>,
    min_group_size: usize,
    min_count: u64,
)
    requires
        are_groups(groups, counts, min_group_size, min_count),
        forall|i: int| 0 <= i < counts.len() ==> (#[trigger] counts[i]).candidates.well_formed(),
    ensures
        are_distinct(groups),
{
    assert forall|i: int, j: int| 0 <= i < j < groups.len() implies (
    #[trigger] groups[i]).reading@ != (#[trigger] groups[j]).reading@ by {
        text_rank_same(groups[i].reading@, groups[j].reading@);
    }
    assert forall|i: int| 0 <= i < groups.len() implies surfaces_of(
        #[trigger] groups[i],
    ).no_duplicates() by {
        assert(comes_from(groups[i], counts, min_group_size, min_count));
        let k = choose|k: int|
            0 <= k < counts.len() && is_group(groups[i], #[trigger] counts[k], min_count)
                && groups[i].candidate_count >= min_group_size;
        group_surfaces_are_sorted(groups[i], counts[k], min_count);
    }
}

/// The counts of groups add up to the number of words that are in groups.
pub proof fn groups_count_words(
    groups: Seq<GroupSummary>,
    counts: Seq<ReadingCandidates>,
    seen: Seq<ObservationView>,
    min_group_size: usize,
    min_count: u64,
)
    requires
        are_groups(groups, counts, min_group_size, min_count),
        forall|i: int|
            0 <= i < counts.len() ==> are_candidates(
                (#[trigger] counts[i]).candidates,
                seen,
                counts[i].reading@,
            ),
    ensures
        group_sum(groups, groups.len() as int) == selected_count(groups, seen),
{
    groups_are_distinct(groups, counts, min_group_size, min_count);
    group_sum_is_seen(groups, counts, seen, min_group_size, min_count, groups.len() as int);
    seen_sum_is_selected(groups, seen);
}

proof fn selected_adds(
    groups: Seq<GroupSummary>,
    first: Seq<ObservationView>,
    second: Seq<ObservationView>,
)
    ensures
        selected_count(groups, first + second) == selected_count(groups, first) + selected_count(
            groups,
            second,
        ),
    decreases second.len(),
{
    if second.len() == 0 {
        assert(first + second =~= first);
    } else {
        selected_adds(groups, first, second.drop_last());
        assert((first + second).drop_last() =~= first + second.drop_last());
    }
}

proof fn sentence_has_selected(
    groups: Seq<GroupSummary>,
    record: RecordView,
    index: int,
    tokens: Seq<AnnotatedView>,
    count: int,
)
    requires
        0 <= count <= tokens.len(),
    ensures
        sentence_occurrences(groups, record, index, tokens, count).len() == selected_count(
            groups,
            observed(tokens, record.source).take(count),
        ),
    decreases count,
{
    let words = observed(tokens, record.source);
    if count > 0 {
        sentence_has_selected(groups, record, index, tokens, count - 1);
        assert(words.take(count).drop_last() =~= words.take(count - 1));
        assert(words.take(count).last().token == tokens[count - 1]);
    }
}

proof fn record_has_selected(
    groups: Seq<GroupSummary>,
    record: RecordView,
    tokenizer: vibrato::Tokenizer,
    count: int,
)
    requires
        0 <= count <= sentence_count(record),
    ensures
        record_occurrences(groups, record, tokenizer, count).len() == selected_count(
            groups,
            record_words(record, tokenizer, count),
        ),
    decreases count,
{
    if count > 0 {
        record_has_selected(groups, record, tokenizer, count - 1);
        let tokens = sentence_tokens(sentences_of(record.text)[count - 1], tokenizer);
        let words = observed(tokens, record.source);
        sentence_has_selected(groups, record, count - 1, tokens, tokens.len() as int);
        assert(words.take(tokens.len() as int) =~= words);
        selected_adds(groups, record_words(record, tokenizer, count - 1), words);
    }
}

/// There is an occurrence for each word that is in a group.
pub proof fn occurrences_are_selected_words(
    groups: Seq<GroupSummary>,
    records: Seq<RecordView>,
    tokenizer: vibrato::Tokenizer,
    count: int,
)
    requires
        0 <= count <= records.len(),
    ensures
        corpus_occurrences(groups, records, tokenizer, count).len() == selected_count(
            groups,
            corpus_words(records, tokenizer, count),
        ),
    decreases count,
{
    if count > 0 {
        occurrences_are_selected_words(groups, records, tokenizer, count - 1);
        let record = records[count - 1];
        record_has_selected(groups, record, tokenizer, sentence_count(record) as int);
        selected_adds(
            groups,
            corpus_words(records, tokenizer, count - 1),
            record_words(record, tokenizer, sentence_count(record) as int),
        );
    }
}

proof fn selected_within(groups: Seq<GroupSummary>, seen: Seq<ObservationView>)
    ensures
        selected_count(groups, seen) <= seen.len(),
    decreases seen.len(),
{
    if seen.len() > 0 {
        selected_within(groups, seen.drop_last());
    }
}

/// Counting the occurrences of the words of groups gives the counts of the groups.
pub proof fn recount_agrees(
    groups: Seq<GroupSummary>,
    counts: Seq<ReadingCandidates>,
    records: Seq<RecordView>,
    tokenizer: vibrato::Tokenizer,
    min_group_size: usize,
    min_count: u64,
)
    requires
        are_groups(groups, counts, min_group_size, min_count),
        forall|i: int|
            0 <= i < counts.len() ==> are_candidates(
                (#[trigger] counts[i]).candidates,
                corpus_words(records, tokenizer, records.len() as int),
                counts[i].reading@,
            ),
    ensures
        group_sum(groups, groups.len() as int) == corpus_occurrences(
            groups,
            records,
            tokenizer,
            records.len() as int,
        ).len(),
        group_sum(groups, groups.len() as int) <= corpus_words(
            records,
            tokenizer,
            records.len() as int,
        ).len(),
{
    let seen = corpus_words(records, tokenizer, records.len() as int);
    groups_count_words(groups, counts, seen, min_group_size, min_count);
    occurrences_are_selected_words(groups, records, tokenizer, records.len() as int);
    selected_within(groups, seen);
}

} // verus!
