//! The ways to convert a reading, and that all of them come out where there is room for them.

use crate::conversion::completeness::{
    comes_out, held_comes_out, holds, search_covers, search_repeats_nothing,
};
use crate::conversion::dictionary::{is_dictionary, EntryView};
use crate::conversion::optimality::{
    all_copied, beams_have_places, copies_convert, weight_of, without_last_segment,
};
use crate::conversion::ranking::{
    best_is_ranked, best_of, has_no_repeats, in_order, is_uncut, without_repeats,
};
use crate::conversion::search::{
    advanced, advancing_is_sound, all_extended, beams_after, candidate_of, candidates_of,
    conversions, copied_segment, edges_are_edges, edges_from, entry_segment, extended,
    extension_stands, is_edge, is_step, search_is_sound, segments_convert, sound_beams, spelled,
    stands_at, written, Candidate, ConvertOptions, EdgeView, Hypothesis, HypothesisView,
    SegmentView,
};
use vstd::prelude::*;

verus! {

/// All ways to convert the reading with entries and copied characters.
pub open spec fn segmentations(
    entries: Seq<EntryView>,
    unknown_cost: int,
    reading: Seq<char>,
) -> Set<Seq<SegmentView>> {
    Set::new(
        |segments: Seq<SegmentView>| segments_convert(entries, unknown_cost, segments, reading),
    )
}

/// The sequences of a set, each with one of the values behind it.
spec fn pushed<V>(base: Set<Seq<V>>, values: Seq<V>) -> Set<Seq<V>> {
    Set::new(
        |longer: Seq<V>|
            longer.len() > 0 && values.contains(longer.last()) && base.contains(longer.drop_last()),
    )
}

proof fn pushed_is_finite<V>(base: Set<Seq<V>>, values: Seq<V>)
    requires
        base.finite(),
    ensures
        pushed(base, values).finite(),
    decreases values.len(),
{
    let all = pushed(base, values);
    if values.len() == 0 {
        assert(all =~= Set::empty());
    } else {
        let before = pushed(base, values.drop_last());
        pushed_is_finite(base, values.drop_last());
        let value = values.last();
        let push = |sequence: Seq<V>| sequence.push(value);
        base.lemma_map_finite(push);
        let added = base.map(push);
        assert forall|longer: Seq<V>| all.contains(longer) implies before.union(added).contains(
            longer,
        ) by {
            if longer.last() == value {
                assert(longer =~= push(longer.drop_last()));
            } else {
                let i = values.index_of(longer.last());
                assert(values.drop_last()[i] == longer.last());
            }
        }
        vstd::set_lib::lemma_len_subset(all, before.union(added));
    }
}

/// All ways to convert the first characters of the reading, up to `length` of them.
spec fn early_ways(
    entries: Seq<EntryView>,
    unknown_cost: int,
    reading: Seq<char>,
    length: int,
) -> Set<Seq<SegmentView>> {
    Set::new(
        |segments: Seq<SegmentView>|
            spelled(segments).len() <= length && segments_convert(
                entries,
                unknown_cost,
                segments,
                reading.take(spelled(segments).len() as int),
            ),
    )
}

/// What a segment of a conversion can be.
spec fn all_steps(
    entries: Seq<EntryView>,
    unknown_cost: int,
    reading: Seq<char>,
) -> Seq<SegmentView> {
    Seq::new(entries.len(), |i: int| entry_segment(entries[i])) + all_copied(reading, unknown_cost)
}

proof fn early_ways_are_finite(
    entries: Seq<EntryView>,
    unknown_cost: int,
    reading: Seq<char>,
    length: int,
)
    requires
        is_dictionary(entries),
        0 <= length <= reading.len(),
    ensures
        early_ways(entries, unknown_cost, reading, length).finite(),
    decreases length,
{
    let ways = early_ways(entries, unknown_cost, reading, length);
    let nothing = Set::<Seq<SegmentView>>::empty().insert(Seq::empty());
    if length == 0 {
        assert forall|segments: Seq<SegmentView>| ways.contains(segments) implies nothing.contains(
            segments,
        ) by {
            if segments.len() > 0 {
                let start = without_last_segment(entries, reading, unknown_cost, 0, segments);
            }
            assert(segments =~= Seq::empty());
        }
        vstd::set_lib::lemma_len_subset(ways, nothing);
    } else {
        early_ways_are_finite(entries, unknown_cost, reading, length - 1);
        let before = early_ways(entries, unknown_cost, reading, length - 1);
        let steps = all_steps(entries, unknown_cost, reading);
        pushed_is_finite(before, steps);
        let bound = nothing.union(pushed(before, steps));
        assert forall|segments: Seq<SegmentView>| ways.contains(segments) implies bound.contains(
            segments,
        ) by {
            if segments.len() > 0 {
                let place = spelled(segments).len() as int;
                let start = without_last_segment(entries, reading, unknown_cost, place, segments);
                let last = segments.last();
                step_is_listed(entries, unknown_cost, reading, start, place, last);
                assert(before.contains(segments.drop_last()));
            } else {
                assert(segments =~= Seq::empty());
            }
        }
        vstd::set_lib::lemma_len_subset(ways, bound);
    }
}

proof fn step_is_listed(
    entries: Seq<EntryView>,
    unknown_cost: int,
    reading: Seq<char>,
    start: int,
    end: int,
    segment: SegmentView,
)
    requires
        0 <= start < end <= reading.len(),
        is_step(entries, unknown_cost, segment),
        segment.reading == reading.subrange(start, end),
    ensures
        all_steps(entries, unknown_cost, reading).contains(segment),
{
    let steps = all_steps(entries, unknown_cost, reading);
    if exists|i: int| 0 <= i < entries.len() && segment == entry_segment(#[trigger] entries[i]) {
        let i = choose|i: int|
            0 <= i < entries.len() && segment == entry_segment(#[trigger] entries[i]);
        assert(steps[i] == segment);
    } else {
        let c = choose|c: char| segment == #[trigger] copied_segment(c, unknown_cost);
        assert(segment.reading[0] == reading[start]);
        assert(steps[entries.len() + start] == segment);
    }
}

/// A reading has finitely many ways to convert it.
pub proof fn segmentations_are_finite(
    entries: Seq<EntryView>,
    unknown_cost: int,
    reading: Seq<char>,
)
    requires
        is_dictionary(entries),
    ensures
        segmentations(entries, unknown_cost, reading).finite(),
{
    let length = reading.len() as int;
    early_ways_are_finite(entries, unknown_cost, reading, length);
    let ways = early_ways(entries, unknown_cost, reading, length);
    assert forall|segments: Seq<SegmentView>|
        segmentations(entries, unknown_cost, reading).contains(segments) implies ways.contains(
        segments,
    ) by {
        assert(reading.take(length) =~= reading);
    }
    vstd::set_lib::lemma_len_subset(segmentations(entries, unknown_cost, reading), ways);
}

proof fn spelled_adds(first: Seq<SegmentView>, second: Seq<SegmentView>)
    ensures
        spelled(first + second) == spelled(first) + spelled(second),
    decreases second.len(),
{
    if second.len() == 0 {
        assert(first + second =~= first);
        assert(spelled(first) + spelled(second) =~= spelled(first));
    } else {
        spelled_adds(first, second.drop_last());
        assert((first + second).drop_last() =~= first + second.drop_last());
        assert(spelled(first + second) =~= spelled(first) + spelled(second));
    }
}

/// A reading has no fewer ways to convert it than its start has: what follows can be copied.
proof fn starts_have_fewer(
    entries: Seq<EntryView>,
    unknown_cost: int,
    reading: Seq<char>,
    place: int,
)
    requires
        is_dictionary(entries),
        0 <= place <= reading.len(),
    ensures
        segmentations(entries, unknown_cost, reading.take(place)).len() <= segmentations(
            entries,
            unknown_cost,
            reading,
        ).len(),
{
    let few = segmentations(entries, unknown_cost, reading.take(place));
    let all = segmentations(entries, unknown_cost, reading);
    let rest = reading.skip(place);
    let copied = all_copied(rest, unknown_cost);
    let complete = |segments: Seq<SegmentView>| segments + copied;
    segmentations_are_finite(entries, unknown_cost, reading.take(place));
    segmentations_are_finite(entries, unknown_cost, reading);
    copies_convert(entries, rest, unknown_cost);
    assert forall|first: Seq<SegmentView>, second: Seq<SegmentView>|
        few.contains(first) && few.contains(second) && #[trigger] complete(first)
            == #[trigger] complete(second) implies first == second by {
        assert(first =~= complete(first).take(complete(first).len() - copied.len()));
        assert(second =~= complete(second).take(complete(second).len() - copied.len()));
    }
    vstd::set_lib::lemma_map_size(few, few.map(complete), complete);
    assert forall|longer: Seq<SegmentView>| few.map(complete).contains(
        longer,
    ) implies all.contains(longer) by {
        let segments = choose|segments: Seq<SegmentView>|
            few.contains(segments) && #[trigger] complete(segments) == longer;
        spelled_adds(segments, copied);
        assert(reading.take(place) + rest =~= reading);
        assert forall|i: int| 0 <= i < longer.len() implies is_step(
            entries,
            unknown_cost,
            #[trigger] longer[i],
        ) by {
            if i < segments.len() {
                assert(longer[i] == segments[i]);
            } else {
                assert(longer[i] == copied[i - segments.len()]);
            }
        }
    }
    vstd::set_lib::lemma_len_subset(few.map(complete), all);
}

/// Different ways to convert a reading are no more than all of them.
proof fn ways_within(
    entries: Seq<EntryView>,
    unknown_cost: int,
    reading: Seq<char>,
    ways: Seq<Seq<SegmentView>>,
)
    requires
        is_dictionary(entries),
        ways.no_duplicates(),
        forall|i: int|
            0 <= i < ways.len() ==> segments_convert(
                entries,
                unknown_cost,
                #[trigger] ways[i],
                reading,
            ),
    ensures
        ways.len() <= segmentations(entries, unknown_cost, reading).len(),
{
    let all = segmentations(entries, unknown_cost, reading);
    segmentations_are_finite(entries, unknown_cost, reading);
    ways.unique_seq_to_set();
    assert(ways.to_set().subset_of(all));
    vstd::set_lib::lemma_len_subset(ways.to_set(), all);
}

/// Hypotheses with different texts are no more than the ways to come to their place.
proof fn hypotheses_within(
    entries: Seq<EntryView>,
    unknown_cost: int,
    reading: Seq<char>,
    place: int,
    beam: Seq<HypothesisView>,
)
    requires
        is_dictionary(entries),
        0 <= place <= reading.len(),
        has_no_repeats::<Hypothesis>(beam),
        forall|i: int|
            0 <= i < beam.len() ==> stands_at(
                entries,
                unknown_cost,
                reading,
                place,
                #[trigger] beam[i],
            ),
    ensures
        beam.len() <= segmentations(entries, unknown_cost, reading).len(),
{
    let ways = Seq::new(beam.len(), |i: int| beam[i].segments);
    assert forall|i: int, j: int| 0 <= i < ways.len() && 0 <= j < ways.len() && i != j implies
        ways[i] != ways[j] by {
        assert(stands_at(entries, unknown_cost, reading, place, beam[i]));
        assert(stands_at(entries, unknown_cost, reading, place, beam[j]));
        if i < j {
            assert(beam[i].text != beam[j].text);
        } else {
            assert(beam[j].text != beam[i].text);
        }
    }
    assert forall|i: int| 0 <= i < ways.len() implies segments_convert(
        entries,
        unknown_cost,
        #[trigger] ways[i],
        reading.take(place),
    ) by {
        assert(stands_at(entries, unknown_cost, reading, place, beam[i]));
    }
    ways_within(entries, unknown_cost, reading.take(place), ways);
    starts_have_fewer(entries, unknown_cost, reading, place);
}

/// A beam with room for all ways keeps what a wider one keeps.
proof fn room_is_enough(
    entries: Seq<EntryView>,
    unknown_cost: int,
    reading: Seq<char>,
    place: int,
    pool: Seq<HypothesisView>,
    width: nat,
)
    requires
        is_dictionary(entries),
        0 <= place <= reading.len(),
        segmentations(entries, unknown_cost, reading).len() <= width,
        forall|i: int|
            0 <= i < pool.len() ==> stands_at(
                entries,
                unknown_cost,
                reading,
                place,
                #[trigger] pool[i],
            ),
    ensures
        best_of::<Hypothesis>(pool, width) == best_of::<Hypothesis>(pool, width + 1),
{
    let kept = without_repeats::<Hypothesis>(in_order::<Hypothesis>(pool));
    assert(best_of::<Hypothesis>(pool, kept.len()) == kept);
    best_is_ranked::<Hypothesis>(pool, kept.len());
    assert forall|i: int| 0 <= i < kept.len() implies stands_at(
        entries,
        unknown_cost,
        reading,
        place,
        #[trigger] kept[i],
    ) by {
        assert(kept.contains(kept[i]));
        assert(pool[pool.index_of(kept[i])] == kept[i]);
    }
    hypotheses_within(entries, unknown_cost, reading, place, kept);
}

/// Going along edges, beams with room for all ways keep what wider ones keep.
proof fn advancing_agrees(
    entries: Seq<EntryView>,
    unknown_cost: int,
    reading: Seq<char>,
    start: int,
    beams: Seq<Seq<HypothesisView>>,
    hypotheses: Seq<HypothesisView>,
    edges: Seq<EdgeView>,
    width: nat,
)
    requires
        is_dictionary(entries),
        segmentations(entries, unknown_cost, reading).len() <= width,
        sound_beams(entries, unknown_cost, reading, beams),
        forall|i: int|
            0 <= i < hypotheses.len() ==> stands_at(
                entries,
                unknown_cost,
                reading,
                start,
                #[trigger] hypotheses[i],
            ),
        forall|i: int|
            0 <= i < edges.len() ==> is_edge(
                entries,
                unknown_cost,
                reading,
                start,
                #[trigger] edges[i],
            ),
    ensures
        advanced(beams, hypotheses, edges, width) == advanced(
            beams,
            hypotheses,
            edges,
            width + 1,
        ),
    decreases edges.len(),
{
    if edges.len() > 0 {
        let shorter = edges.drop_last();
        assert(forall|i: int| 0 <= i < shorter.len() ==> shorter[i] == edges[i]);
        advancing_agrees(
            entries,
            unknown_cost,
            reading,
            start,
            beams,
            hypotheses,
            shorter,
            width,
        );
        advancing_is_sound(
            entries,
            unknown_cost,
            reading,
            start,
            beams,
            hypotheses,
            shorter,
            width,
        );
        let before = advanced(beams, hypotheses, shorter, width);
        let edge = edges.last();
        assert(edges[edges.len() - 1] == edge);
        assert(is_edge(entries, unknown_cost, reading, start, edge));
        let pool = before[edge.end] + all_extended(hypotheses, edge.segment);
        assert forall|i: int| 0 <= i < pool.len() implies stands_at(
            entries,
            unknown_cost,
            reading,
            edge.end,
            #[trigger] pool[i],
        ) by {
            if i < before[edge.end].len() {
                assert(pool[i] == before[edge.end][i]);
            } else {
                let k = i - before[edge.end].len();
                assert(pool[i] == extended(hypotheses[k], edge.segment));
                extension_stands(entries, unknown_cost, reading, start, hypotheses[k], edge);
            }
        }
        room_is_enough(entries, unknown_cost, reading, edge.end, pool, width);
    }
}

/// A search with room for all ways keeps what a wider one keeps.
proof fn search_agrees(
    entries: Seq<EntryView>,
    reading: Seq<char>,
    width: nat,
    unknown_cost: int,
    count: int,
)
    requires
        is_dictionary(entries),
        segmentations(entries, unknown_cost, reading).len() <= width,
        0 <= count <= reading.len(),
    ensures
        beams_after(entries, reading, width, unknown_cost, count) == beams_after(
            entries,
            reading,
            width + 1,
            unknown_cost,
            count,
        ),
    decreases count,
{
    if count > 0 {
        let start = count - 1;
        search_agrees(entries, reading, width, unknown_cost, start);
        search_is_sound(entries, reading, width, unknown_cost, start);
        edges_are_edges(entries, unknown_cost, reading, start);
        let before = beams_after(entries, reading, width, unknown_cost, start);
        let cleared = before.update(start, Seq::empty());
        assert forall|place: int, i: int|
            0 <= place < cleared.len() && 0 <= i < cleared[place].len() implies stands_at(
            entries,
            unknown_cost,
            reading,
            place,
            #[trigger] cleared[place][i],
        ) by {
            assert(cleared[place] == before[place]);
        }
        advancing_agrees(
            entries,
            unknown_cost,
            reading,
            start,
            cleared,
            before[start],
            edges_from(entries, reading, start, unknown_cost),
            width,
        );
    }
}

/// Candidates of sound hypotheses with different texts are no more than the ways to convert the
/// reading.
proof fn candidates_within(
    entries: Seq<EntryView>,
    unknown_cost: int,
    reading: Seq<char>,
    last: Seq<HypothesisView>,
)
    requires
        is_dictionary(entries),
        forall|i: int|
            0 <= i < last.len() ==> stands_at(
                entries,
                unknown_cost,
                reading,
                reading.len() as int,
                #[trigger] last[i],
            ),
    ensures
        is_uncut::<Candidate>(
            candidates_of(last),
            segmentations(entries, unknown_cost, reading).len(),
        ),
{
    let length = reading.len() as int;
    let pool = candidates_of(last);
    let kept = without_repeats::<Candidate>(in_order::<Candidate>(pool));
    assert(best_of::<Candidate>(pool, kept.len()) == kept);
    best_is_ranked::<Candidate>(pool, kept.len());
    assert(reading.take(length) =~= reading);
    let ways = Seq::new(kept.len(), |i: int| kept[i].segments);
    assert forall|i: int| 0 <= i < kept.len() implies segments_convert(
        entries,
        unknown_cost,
        #[trigger] ways[i],
        reading,
    ) && kept[i].text == written(ways[i]) by {
        assert(kept.contains(kept[i]));
        let j = pool.index_of(kept[i]);
        assert(pool[j] == candidate_of(last[j]));
        assert(stands_at(entries, unknown_cost, reading, length, last[j]));
    }
    assert forall|i: int, j: int| 0 <= i < ways.len() && 0 <= j < ways.len() && i != j implies
        ways[i] != ways[j] by {
        if i < j {
            assert(kept[i].text != kept[j].text);
        } else {
            assert(kept[j].text != kept[i].text);
        }
    }
    ways_within(entries, unknown_cost, reading, ways);
}

/// Where the beams and the results have room for as many as there are ways to convert the
/// reading, the text of every way is among the results, at the cost of the cheapest way to come
/// to it.
pub proof fn every_text_comes_out(
    entries: Seq<EntryView>,
    reading: Seq<char>,
    options: ConvertOptions,
    segments: Seq<SegmentView>,
)
    requires
        is_dictionary(entries),
        options.unknown_cost > 0,
        segmentations(entries, options.unknown_cost as int, reading).len() <= options.beam_width,
        segmentations(entries, options.unknown_cost as int, reading).len()
            <= options.candidate_limit,
        segments_convert(entries, options.unknown_cost as int, segments, reading),
    ensures
        comes_out(conversions(entries, reading, options), segments),
{
    let width = options.beam_width as nat;
    let unknown_cost = options.unknown_cost as int;
    let length = reading.len() as int;
    assert(reading.take(length) =~= reading);
    assert forall|place: int| 0 <= place < length + 1 implies (#[trigger] beams_after(
        entries,
        reading,
        width + 1,
        unknown_cost,
        place,
    ))[place].len() < width + 1 by {
        search_agrees(entries, reading, width, unknown_cost, place);
        search_is_sound(entries, reading, width, unknown_cost, place);
        search_repeats_nothing(entries, reading, width, unknown_cost, place);
        beams_have_places(entries, reading, width, unknown_cost, place);
        let beam = beams_after(entries, reading, width, unknown_cost, place)[place];
        hypotheses_within(entries, unknown_cost, reading, place, beam);
    }
    if segments.len() > 0 {
        let start = without_last_segment(entries, reading, unknown_cost, length, segments);
    }
    search_covers(entries, reading, width + 1, unknown_cost, length, length, segments);
    search_agrees(entries, reading, width, unknown_cost, length);
    search_is_sound(entries, reading, width, unknown_cost, length);
    let last = beams_after(entries, reading, width, unknown_cost, length)[length];
    assert(holds(last, written(segments), weight_of(segments)));
    candidates_within(entries, unknown_cost, reading, last);
    held_comes_out(entries, reading, options, segments);
}

} // verus!
