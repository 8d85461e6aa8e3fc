//! The first result of a conversion is the best way to convert the reading: none costs less, and
//! none that costs as much copies fewer characters or has fewer segments.

use crate::conversion::dictionary::{
    entries_for, entries_for_members, entry_fault, is_dictionary, EntryView,
};
use crate::conversion::ranking::{best_is_ranked, best_of};
use crate::conversion::search::{
    advanced, all_extended, beams_after, candidate_of, candidate_order, candidates_of, conversions,
    conversions_are_segmentations, convert_error, copied_segment, edges_from, empty_hypothesis,
    entry_edges, entry_segment, extended, hypotheses_describe_segments, hypothesis_order, is_step,
    known_edges, segments_convert, spelled, total_cost, unknown_count, Candidate, ConvertOptions,
    EdgeView, Hypothesis, HypothesisView, SegmentView,
};
use crate::order::Rank;
use vstd::prelude::*;

verus! {

/// By what conversions are ranked before their texts are.
pub struct Weight {
    pub cost: int,
    pub unknowns: nat,
    pub segments: nat,
}

/// The weight of a conversion.
pub open spec fn weight_of(segments: Seq<SegmentView>) -> Weight {
    Weight {
        cost: total_cost(segments),
        unknowns: unknown_count(segments),
        segments: segments.len(),
    }
}

/// The cost is no higher, and where it is the same there are no more copied characters, and where
/// these are as many there are no more segments. A cost at the end of the range of 64 bits says
/// only that it is at least so high: there nothing else counts.
pub open spec fn no_heavier(left: Weight, right: Weight) -> bool {
    ||| left.cost < right.cost
    ||| left.cost == right.cost && {
        ||| right.cost == i64::MAX
        ||| left.unknowns < right.unknowns
        ||| left.unknowns == right.unknowns && left.segments <= right.segments
    }
}

/// The weight of a hypothesis.
pub(crate) open spec fn hypothesis_weight(hypothesis: HypothesisView) -> Weight {
    Weight {
        cost: hypothesis.cost,
        unknowns: hypothesis.unknowns,
        segments: hypothesis.segments.len(),
    }
}

/// The beam holds a hypothesis, and the first of it is no heavier than `weight`.
spec fn reaches(beam: Seq<HypothesisView>, weight: Weight) -> bool {
    beam.len() > 0 && no_heavier(hypothesis_weight(beam[0]), weight)
}

/// Steps of a dictionary cost something or nothing.
pub(crate) proof fn steps_cost(entries: Seq<EntryView>, unknown_cost: int, segment: SegmentView)
    requires
        is_dictionary(entries),
        unknown_cost > 0,
        is_step(entries, unknown_cost, segment),
    ensures
        segment.cost >= 0,
{
    if exists|i: int| 0 <= i < entries.len() && segment == entry_segment(#[trigger] entries[i]) {
        let i = choose|i: int|
            0 <= i < entries.len() && segment == entry_segment(#[trigger] entries[i]);
        assert(entry_fault(entries[i]) is None);
    }
}

/// The cost of a conversion lies in the range of 64 bits and is not negative.
pub(crate) proof fn costs_within(
    entries: Seq<EntryView>,
    unknown_cost: int,
    segments: Seq<SegmentView>,
)
    requires
        is_dictionary(entries),
        unknown_cost > 0,
        forall|i: int|
            0 <= i < segments.len() ==> is_step(entries, unknown_cost, #[trigger] segments[i]),
    ensures
        0 <= total_cost(segments) <= i64::MAX,
    decreases segments.len(),
{
    if segments.len() > 0 {
        let shorter = segments.drop_last();
        assert(forall|i: int| 0 <= i < shorter.len() ==> shorter[i] == segments[i]);
        costs_within(entries, unknown_cost, shorter);
        assert(is_step(entries, unknown_cost, segments[segments.len() - 1]));
        steps_cost(entries, unknown_cost, segments.last());
    }
}

/// One more segment keeps a hypothesis no heavier than other segments with it.
pub(crate) proof fn extending_keeps_weight(
    hypothesis: HypothesisView,
    segments: Seq<SegmentView>,
    segment: SegmentView,
)
    requires
        no_heavier(hypothesis_weight(hypothesis), weight_of(segments)),
        0 <= total_cost(segments) <= i64::MAX,
        segment.cost >= 0,
    ensures
        no_heavier(
            hypothesis_weight(extended(hypothesis, segment)),
            weight_of(segments.push(segment)),
        ),
{
    assert(segments.push(segment).drop_last() =~= segments);
}

/// A beam keeps a hypothesis that is no heavier than any it was given.
proof fn best_reaches(pool: Seq<HypothesisView>, width: nat, i: int)
    requires
        width > 0,
        0 <= i < pool.len(),
    ensures
        reaches(best_of::<Hypothesis>(pool, width), hypothesis_weight(pool[i])),
{
    best_is_ranked::<Hypothesis>(pool, width);
    let best = best_of::<Hypothesis>(pool, width);
    assert(hypothesis_order(best[0], pool[i]) != Rank::After);
}

/// Going along edges makes no beam heavier, and reaches the end of each edge with as little as any
/// hypothesis allows.
proof fn advancing_reaches(
    beams: Seq<Seq<HypothesisView>>,
    hypotheses: Seq<HypothesisView>,
    edges: Seq<EdgeView>,
    width: nat,
)
    requires
        width > 0,
        forall|i: int| 0 <= i < edges.len() ==> 0 <= (#[trigger] edges[i]).end < beams.len(),
    ensures
        advanced(beams, hypotheses, edges, width).len() == beams.len(),
        forall|place: int, weight: Weight|
            0 <= place < beams.len() && #[trigger] reaches(beams[place], weight) ==> reaches(
                advanced(beams, hypotheses, edges, width)[place],
                weight,
            ),
        forall|i: int, j: int|
            0 <= i < edges.len() && 0 <= j < hypotheses.len() ==> reaches(
                advanced(beams, hypotheses, edges, width)[edges[i].end],
                hypothesis_weight(
                    #[trigger] extended(hypotheses[j], (#[trigger] edges[i]).segment),
                ),
            ),
    decreases edges.len(),
{
    if edges.len() > 0 {
        let shorter = edges.drop_last();
        assert forall|i: int| 0 <= i < shorter.len() implies 0 <= (#[trigger] shorter[i]).end
            < beams.len() by {
            assert(shorter[i] == edges[i]);
        }
        advancing_reaches(beams, hypotheses, shorter, width);
        let before = advanced(beams, hypotheses, shorter, width);
        let after = advanced(beams, hypotheses, edges, width);
        let edge = edges.last();
        assert(edges[edges.len() - 1] == edge);
        let added = all_extended(hypotheses, edge.segment);
        let pool = before[edge.end] + added;
        assert forall|place: int, weight: Weight|
            0 <= place < beams.len() && #[trigger] reaches(before[place], weight) implies reaches(
            after[place],
            weight,
        ) by {
            if place == edge.end {
                assert(pool[0] == before[place][0]);
                best_reaches(pool, width, 0);
            }
        }
        assert forall|place: int, weight: Weight|
            0 <= place < beams.len() && #[trigger] reaches(beams[place], weight) implies reaches(
            after[place],
            weight,
        ) by {
            assert(reaches(before[place], weight));
        }
        assert forall|i: int, j: int|
            0 <= i < edges.len() && 0 <= j < hypotheses.len() implies reaches(
            after[edges[i].end],
            hypothesis_weight(
                #[trigger] extended(hypotheses[j], (#[trigger] edges[i]).segment),
            ),
        ) by {
            if i < shorter.len() {
                assert(shorter[i] == edges[i]);
                assert(reaches(
                    before[shorter[i].end],
                    hypothesis_weight(extended(hypotheses[j], shorter[i].segment)),
                ));
            } else {
                let k = before[edge.end].len() + j;
                assert(pool[k] == added[j]);
                best_reaches(pool, width, k as int);
            }
        }
    }
}

/// Every entry whose reading stands between two places gives an edge.
proof fn entries_give_edges(
    entries: Seq<EntryView>,
    reading: Seq<char>,
    start: int,
    end: int,
    limit: int,
    entry: EntryView,
)
    requires
        0 <= start < end <= limit <= reading.len(),
        entries.contains(entry),
        entry.reading == reading.subrange(start, end),
    ensures
        known_edges(entries, reading, start, limit).contains(
            EdgeView { end, segment: entry_segment(entry) },
        ),
    decreases limit,
{
    let edge = EdgeView { end, segment: entry_segment(entry) };
    let before = known_edges(entries, reading, start, limit - 1);
    let found = entries_for(entries, reading.subrange(start, limit));
    let all = known_edges(entries, reading, start, limit);
    if end == limit {
        entries_for_members(entries, reading.subrange(start, limit));
        assert(found.contains(entry));
        let i = found.index_of(entry);
        assert(entry_edges(found, limit)[i] == edge);
        assert(all[before.len() + i] == edge);
    } else {
        entries_give_edges(entries, reading, start, end, limit - 1, entry);
        assert(all[before.index_of(edge)] == edge);
    }
}

/// Every step that follows the reading between two places is an edge.
pub(crate) proof fn steps_are_edges(
    entries: Seq<EntryView>,
    reading: Seq<char>,
    unknown_cost: int,
    start: int,
    end: int,
    segment: SegmentView,
)
    requires
        0 <= start < end <= reading.len(),
        is_step(entries, unknown_cost, segment),
        segment.reading == reading.subrange(start, end),
    ensures
        edges_from(entries, reading, start, unknown_cost).contains(EdgeView { end, segment }),
{
    let known = known_edges(entries, reading, start, reading.len() as int);
    let all = edges_from(entries, reading, start, unknown_cost);
    let edge = EdgeView { end, segment };
    if exists|i: int| 0 <= i < entries.len() && segment == entry_segment(#[trigger] entries[i]) {
        let i = choose|i: int|
            0 <= i < entries.len() && segment == entry_segment(#[trigger] entries[i]);
        assert(entries.contains(entries[i]));
        entries_give_edges(entries, reading, start, end, reading.len() as int, entries[i]);
        assert(all[known.index_of(edge)] == edge);
    } else {
        let c = choose|c: char| segment == #[trigger] copied_segment(c, unknown_cost);
        assert(segment == copied_segment(c, unknown_cost));
        assert(segment.reading.len() == 1);
        assert(segment.reading[0] == reading[start]);
        assert(all[known.len() as int] == edge);
    }
}

/// Edges end behind their start and within the reading.
proof fn edges_end_within(
    entries: Seq<EntryView>,
    reading: Seq<char>,
    start: int,
    end: int,
)
    requires
        0 <= start <= end <= reading.len(),
    ensures
        forall|i: int|
            0 <= i < known_edges(entries, reading, start, end).len() ==> start < (
            #[trigger] known_edges(entries, reading, start, end)[i]).end <= end,
    decreases end - start,
{
    if start < end {
        edges_end_within(entries, reading, start, end - 1);
        let before = known_edges(entries, reading, start, end - 1);
        let all = known_edges(entries, reading, start, end);
        assert forall|i: int| 0 <= i < all.len() implies start < (#[trigger] all[i]).end
            <= end by {
            if i < before.len() {
                assert(all[i] == before[i]);
            }
        }
    }
}

/// All edges that start at a place end within the reading.
pub(crate) proof fn edges_stay_within(
    entries: Seq<EntryView>,
    reading: Seq<char>,
    unknown_cost: int,
    start: int,
)
    requires
        0 <= start < reading.len(),
    ensures
        forall|i: int|
            0 <= i < edges_from(entries, reading, start, unknown_cost).len() ==> 0 <= (
            #[trigger] edges_from(entries, reading, start, unknown_cost)[i]).end
                <= reading.len(),
{
    let known = known_edges(entries, reading, start, reading.len() as int);
    let edges = edges_from(entries, reading, start, unknown_cost);
    edges_end_within(entries, reading, start, reading.len() as int);
    assert forall|i: int| 0 <= i < edges.len() implies 0 <= (#[trigger] edges[i]).end
        <= reading.len() by {
        if i < known.len() {
            assert(edges[i] == known[i]);
        }
    }
}

/// The segments convert the reading up to a place, and the last of them starts before `count`.
pub(crate) open spec fn leads_to(
    entries: Seq<EntryView>,
    reading: Seq<char>,
    unknown_cost: int,
    count: int,
    place: int,
    segments: Seq<SegmentView>,
) -> bool {
    &&& 0 <= place <= reading.len()
    &&& segments_convert(entries, unknown_cost, segments, reading.take(place))
    &&& segments.len() > 0 ==> spelled(segments.drop_last()).len() < count
}

/// All but the last segment convert the reading up to where the last one starts.
pub(crate) proof fn without_last_segment(
    entries: Seq<EntryView>,
    reading: Seq<char>,
    unknown_cost: int,
    place: int,
    segments: Seq<SegmentView>,
) -> (start: int)
    requires
        is_dictionary(entries),
        0 <= place <= reading.len(),
        segments_convert(entries, unknown_cost, segments, reading.take(place)),
        segments.len() > 0,
    ensures
        start == spelled(segments.drop_last()).len(),
        0 <= start < place,
        leads_to(entries, reading, unknown_cost, start, start, segments.drop_last()),
        segments.last().reading == reading.subrange(start, place),
        is_step(entries, unknown_cost, segments.last()),
    decreases segments.len(),
{
    let shorter = segments.drop_last();
    let last = segments.last();
    let start = spelled(shorter).len() as int;
    let spelling = spelled(shorter) + last.reading;
    assert(spelling == reading.take(place));
    assert(is_step(entries, unknown_cost, segments[segments.len() - 1]));
    assert(last.reading.len() > 0) by {
        if exists|i: int| 0 <= i < entries.len() && last == entry_segment(#[trigger] entries[i]) {
            let i = choose|i: int|
                0 <= i < entries.len() && last == entry_segment(#[trigger] entries[i]);
            assert(entries[i].reading.len() > 0);
        }
    }
    assert(spelled(shorter) =~= reading.take(start)) by {
        assert forall|i: int| 0 <= i < start implies spelled(shorter)[i] == reading[i] by {
            assert(spelling[i] == reading.take(place)[i]);
        }
    }
    assert(last.reading =~= reading.subrange(start, place)) by {
        assert forall|i: int| 0 <= i < last.reading.len() implies last.reading[i] == reading[start
            + i] by {
            assert(spelling[start + i] == reading.take(place)[start + i]);
        }
    }
    assert forall|i: int| 0 <= i < shorter.len() implies is_step(
        entries,
        unknown_cost,
        #[trigger] shorter[i],
    ) by {
        assert(shorter[i] == segments[i]);
    }
    if shorter.len() > 0 {
        let earlier = without_last_segment(entries, reading, unknown_cost, start, shorter);
    }
    start
}

/// After `count` places, each later beam reaches what any segments lead to.
proof fn search_reaches(
    entries: Seq<EntryView>,
    reading: Seq<char>,
    width: nat,
    unknown_cost: int,
    count: int,
    place: int,
    segments: Seq<SegmentView>,
)
    requires
        is_dictionary(entries),
        width > 0,
        unknown_cost > 0,
        0 <= count <= place,
        count <= reading.len(),
        leads_to(entries, reading, unknown_cost, count, place, segments),
    ensures
        beams_after(entries, reading, width, unknown_cost, count).len() == reading.len() + 1,
        reaches(
            beams_after(entries, reading, width, unknown_cost, count)[place],
            weight_of(segments),
        ),
    decreases count,
{
    beams_have_places(entries, reading, width, unknown_cost, count);
    if count == 0 {
        assert(segments.len() == 0);
        assert(reading.take(place).len() == 0);
        assert(beams_after(entries, reading, width, unknown_cost, count)[0]
            == seq![empty_hypothesis()]);
    } else {
        let start = count - 1;
        let before = beams_after(entries, reading, width, unknown_cost, start);
        beams_have_places(entries, reading, width, unknown_cost, start);
        let cleared = before.update(start, Seq::empty());
        let edges = edges_from(entries, reading, start, unknown_cost);
        edges_stay_within(entries, reading, unknown_cost, start);
        advancing_reaches(cleared, before[start], edges, width);
        if segments.len() == 0 {
            assert(reading.take(place).len() == 0);
            assert(false);
        }
        let first = without_last_segment(entries, reading, unknown_cost, place, segments);
        if first == start {
            let shorter = segments.drop_last();
            search_reaches(entries, reading, width, unknown_cost, start, start, shorter);
            steps_are_edges(entries, reading, unknown_cost, start, place, segments.last());
            let edge = EdgeView { end: place, segment: segments.last() };
            let i = edges.index_of(edge);
            assert(edges[i] == edge);
            assert(reaches(
                advanced(cleared, before[start], edges, width)[edges[i].end],
                hypothesis_weight(extended(before[start][0], edges[i].segment)),
            ));
            costs_within(entries, unknown_cost, shorter);
            steps_cost(entries, unknown_cost, segments.last());
            extending_keeps_weight(before[start][0], shorter, segments.last());
            assert(shorter.push(segments.last()) =~= segments);
        } else {
            search_reaches(entries, reading, width, unknown_cost, start, place, segments);
            assert(cleared[place] == before[place]);
            assert(reaches(cleared[place], weight_of(segments)));
        }
    }
}

/// There is a beam for each place of the reading, and one behind it.
pub(crate) proof fn beams_have_places(
    entries: Seq<EntryView>,
    reading: Seq<char>,
    width: nat,
    unknown_cost: int,
    count: int,
)
    requires
        0 <= count <= reading.len(),
    ensures
        beams_after(entries, reading, width, unknown_cost, count).len() == reading.len() + 1,
    decreases count,
{
    if count > 0 {
        beams_have_places(entries, reading, width, unknown_cost, count - 1);
        let before = beams_after(entries, reading, width, unknown_cost, count - 1);
        let cleared = before.update(count - 1, Seq::empty());
        let edges = edges_from(entries, reading, count - 1, unknown_cost);
        edges_stay_within(entries, reading, unknown_cost, count - 1);
        advancing_keeps_places(cleared, before[count - 1], edges, width);
    }
}

/// Going along edges keeps the number of beams.
proof fn advancing_keeps_places(
    beams: Seq<Seq<HypothesisView>>,
    hypotheses: Seq<HypothesisView>,
    edges: Seq<EdgeView>,
    width: nat,
)
    requires
        forall|i: int| 0 <= i < edges.len() ==> 0 <= (#[trigger] edges[i]).end < beams.len(),
    ensures
        advanced(beams, hypotheses, edges, width).len() == beams.len(),
    decreases edges.len(),
{
    if edges.len() > 0 {
        assert(edges[edges.len() - 1] == edges.last());
        assert(forall|i: int| 0 <= i < edges.len() - 1 ==> edges.drop_last()[i] == edges[i]);
        advancing_keeps_places(beams, hypotheses, edges.drop_last(), width);
    }
}

/// A valid conversion has a result, and no way to convert the reading with entries and copied
/// characters is better than the first one: none costs less, and of those that cost as much none
/// copies fewer characters, nor has fewer segments where it copies as many.
pub proof fn first_conversion_is_best(
    entries: Seq<EntryView>,
    reading: Seq<char>,
    options: ConvertOptions,
    segments: Seq<SegmentView>,
)
    requires
        is_dictionary(entries),
        0 < options.candidate_limit <= options.beam_width,
        options.unknown_cost > 0,
        segments_convert(entries, options.unknown_cost as int, segments, reading),
    ensures
        conversions(entries, reading, options).len() > 0,
        conversions(entries, reading, options)[0].cost <= total_cost(segments),
        no_heavier(
            weight_of(conversions(entries, reading, options)[0].segments),
            weight_of(segments),
        ),
{
    let width = options.beam_width as nat;
    let unknown_cost = options.unknown_cost as int;
    let length = reading.len() as int;
    assert(reading.take(length) =~= reading);
    if segments.len() > 0 {
        let start = without_last_segment(entries, reading, unknown_cost, length, segments);
    }
    search_reaches(entries, reading, width, unknown_cost, length, length, segments);
    let last = beams_after(entries, reading, width, unknown_cost, length)[length];
    let pool = candidates_of(last);
    assert(pool[0] == candidate_of(last[0]));
    hypotheses_describe_segments(entries, reading, width, unknown_cost, 0);
    best_is_ranked::<Candidate>(pool, options.candidate_limit as nat);
    conversions_are_segmentations(entries, reading, options, 0);
    let first = conversions(entries, reading, options)[0];
    assert(candidate_order(first, pool[0]) != Rank::After);
}

/// The reading, each character copied.
pub open spec fn all_copied(reading: Seq<char>, unknown_cost: int) -> Seq<SegmentView> {
    Seq::new(reading.len(), |i: int| copied_segment(reading[i], unknown_cost))
}

/// Copying each character converts the reading.
pub(crate) proof fn copies_convert(entries: Seq<EntryView>, reading: Seq<char>, unknown_cost: int)
    ensures
        segments_convert(entries, unknown_cost, all_copied(reading, unknown_cost), reading),
    decreases reading.len(),
{
    let segments = all_copied(reading, unknown_cost);
    if reading.len() > 0 {
        let shorter = reading.drop_last();
        copies_convert(entries, shorter, unknown_cost);
        assert(segments.drop_last() =~= all_copied(shorter, unknown_cost));
        assert(reading =~= shorter + seq![reading.last()]);
    } else {
        assert(reading =~= Seq::empty());
    }
    assert forall|i: int| 0 <= i < segments.len() implies is_step(
        entries,
        unknown_cost,
        #[trigger] segments[i],
    ) by {
        assert(segments[i] == copied_segment(reading[i], unknown_cost));
    }
}

/// Every valid conversion has a result, whatever the dictionary holds: unknown characters are
/// copied.
pub proof fn conversions_are_never_empty(
    entries: Seq<EntryView>,
    reading: Seq<char>,
    options: ConvertOptions,
)
    requires
        is_dictionary(entries),
        convert_error(reading, options) is None,
    ensures
        conversions(entries, reading, options).len() > 0,
{
    let unknown_cost = options.unknown_cost as int;
    copies_convert(entries, reading, unknown_cost);
    first_conversion_is_best(entries, reading, options, all_copied(reading, unknown_cost));
}

} // verus!
