//! Where nothing is cut off, every way to convert a reading is among the results, by its text.

use crate::conversion::dictionary::{is_dictionary, EntryView};
use crate::conversion::optimality::{
    beams_have_places, costs_within, edges_stay_within, extending_keeps_weight, hypothesis_weight,
    leads_to, no_heavier, steps_are_edges, steps_cost, weight_of, without_last_segment, Weight,
};
use crate::conversion::ranking::{
    best_is_ranked, best_of, emits, has_no_repeats, is_uncut, Emission,
};
use crate::conversion::search::{
    advanced, all_extended, beams_after, candidate_of, candidate_order, candidates_of, conversions,
    conversions_are_segmentations, edges_from, empty_hypothesis, extended,
    hypotheses_describe_segments, hypothesis_order, segments_convert, total_cost, written,
    Candidate, CandidateView, ConvertOptions, EdgeView, Hypothesis, HypothesisView, SegmentView,
};
use crate::order::Rank;
use vstd::prelude::*;

verus! {

/// The texts of the hypotheses.
spec fn texts_in(beam: Seq<HypothesisView>) -> Seq<Seq<char>> {
    Seq::new(beam.len(), |i: int| beam[i].text)
}

/// A hypothesis of the beam has the text and is no heavier than `weight`.
pub(crate) open spec fn holds(beam: Seq<HypothesisView>, text: Seq<char>, weight: Weight) -> bool {
    exists|i: int|
        0 <= i < beam.len() && (#[trigger] beam[i]).text == text && no_heavier(
            hypothesis_weight(beam[i]),
            weight,
        )
}

/// The beam is full, or it holds the text with no more than `weight`.
pub(crate) open spec fn covers(
    beam: Seq<HypothesisView>,
    width: nat,
    text: Seq<char>,
    weight: Weight,
) -> bool {
    beam.len() >= width || holds(beam, text, weight)
}

/// No beam holds a text twice.
pub(crate) open spec fn no_beam_repeats(beams: Seq<Seq<HypothesisView>>) -> bool {
    forall|place: int|
        0 <= place < beams.len() ==> has_no_repeats::<Hypothesis>(#[trigger] beams[place])
}

/// Different texts that are all in a beam are no more than it holds.
proof fn texts_within(beam: Seq<HypothesisView>, other: Seq<HypothesisView>)
    requires
        has_no_repeats::<Hypothesis>(beam),
        forall|i: int|
            0 <= i < beam.len() ==> emits::<Hypothesis>(other, (#[trigger] beam[i]).text),
    ensures
        beam.len() <= other.len(),
{
    let left = texts_in(beam);
    let right = texts_in(other);
    assert forall|i: int, j: int| 0 <= i < left.len() && 0 <= j < left.len() && i != j implies
        left[i] != left[j] by {
        if i < j {
            assert(beam[i].text != beam[j].text);
        } else {
            assert(beam[j].text != beam[i].text);
        }
    }
    left.unique_seq_to_set();
    right.lemma_cardinality_of_set();
    assert(left.to_set().subset_of(right.to_set())) by {
        assert forall|text: Seq<char>| left.to_set().contains(text) implies right.to_set().contains(
            text,
        ) by {
            let i = left.index_of(text);
            assert(emits::<Hypothesis>(other, beam[i].text));
            let j = choose|j: int| 0 <= j < other.len() && (#[trigger] other[j]).text == text;
            assert(right[j] == text);
        }
    }
    vstd::set_lib::lemma_len_subset(left.to_set(), right.to_set());
}

/// A beam that is not full holds each text it was given, with no more weight.
proof fn best_holds(pool: Seq<HypothesisView>, width: nat, i: int)
    requires
        0 <= i < pool.len(),
        best_of::<Hypothesis>(pool, width).len() < width,
    ensures
        holds(best_of::<Hypothesis>(pool, width), pool[i].text, hypothesis_weight(pool[i])),
{
    let best = best_of::<Hypothesis>(pool, width);
    best_is_ranked::<Hypothesis>(pool, width);
    assert(emits::<Hypothesis>(best, Hypothesis::emitted(pool[i])));
    let j = choose|j: int|
        0 <= j < best.len() && Hypothesis::emitted(#[trigger] best[j]) == pool[i].text;
    assert(hypothesis_order(best[j], pool[i]) != Rank::After);
}

/// A full beam stays full, and one that is not full holds every text it was given.
proof fn best_covers(beam: Seq<HypothesisView>, added: Seq<HypothesisView>, width: nat)
    requires
        has_no_repeats::<Hypothesis>(beam),
    ensures
        forall|text: Seq<char>, weight: Weight| #[trigger]
            covers(beam, width, text, weight) ==> covers(
                best_of::<Hypothesis>(beam + added, width),
                width,
                text,
                weight,
            ),
        forall|i: int|
            0 <= i < added.len() ==> covers(
                best_of::<Hypothesis>(beam + added, width),
                width,
                (#[trigger] added[i]).text,
                hypothesis_weight(added[i]),
            ),
        has_no_repeats::<Hypothesis>(best_of::<Hypothesis>(beam + added, width)),
{
    let pool = beam + added;
    let best = best_of::<Hypothesis>(pool, width);
    best_is_ranked::<Hypothesis>(pool, width);
    if best.len() < width {
        assert forall|i: int| 0 <= i < beam.len() implies emits::<Hypothesis>(
            best,
            (#[trigger] beam[i]).text,
        ) by {
            assert(pool[i] == beam[i]);
        }
        texts_within(beam, best);
        assert forall|text: Seq<char>, weight: Weight| #[trigger]
            covers(beam, width, text, weight) implies covers(best, width, text, weight) by {
            let i = choose|i: int|
                0 <= i < beam.len() && (#[trigger] beam[i]).text == text && no_heavier(
                    hypothesis_weight(beam[i]),
                    weight,
                );
            assert(pool[i] == beam[i]);
            best_holds(pool, width, i);
            let j = choose|j: int|
                0 <= j < best.len() && (#[trigger] best[j]).text == text && no_heavier(
                    hypothesis_weight(best[j]),
                    hypothesis_weight(beam[i]),
                );
            assert(no_heavier(hypothesis_weight(best[j]), weight));
        }
        assert forall|i: int| 0 <= i < added.len() implies covers(
            best,
            width,
            (#[trigger] added[i]).text,
            hypothesis_weight(added[i]),
        ) by {
            assert(pool[beam.len() + i] == added[i]);
            best_holds(pool, width, beam.len() + i);
        }
    }
}

/// Going along edges loses no text and makes none heavier, and brings those of the hypotheses to
/// the ends of the edges, except where a beam is full.
proof fn advancing_covers(
    beams: Seq<Seq<HypothesisView>>,
    hypotheses: Seq<HypothesisView>,
    edges: Seq<EdgeView>,
    width: nat,
)
    requires
        no_beam_repeats(beams),
        forall|i: int| 0 <= i < edges.len() ==> 0 <= (#[trigger] edges[i]).end < beams.len(),
    ensures
        advanced(beams, hypotheses, edges, width).len() == beams.len(),
        no_beam_repeats(advanced(beams, hypotheses, edges, width)),
        forall|place: int, text: Seq<char>, weight: Weight|
            0 <= place < beams.len() && #[trigger] covers(beams[place], width, text, weight)
                ==> covers(
                advanced(beams, hypotheses, edges, width)[place],
                width,
                text,
                weight,
            ),
        forall|i: int, j: int|
            0 <= i < edges.len() && 0 <= j < hypotheses.len() ==> covers(
                advanced(beams, hypotheses, edges, width)[edges[i].end],
                width,
                (#[trigger] extended(hypotheses[j], (#[trigger] edges[i]).segment)).text,
                hypothesis_weight(extended(hypotheses[j], edges[i].segment)),
            ),
    decreases edges.len(),
{
    if edges.len() > 0 {
        let shorter = edges.drop_last();
        assert forall|i: int| 0 <= i < shorter.len() implies 0 <= (#[trigger] shorter[i]).end
            < beams.len() by {
            assert(shorter[i] == edges[i]);
        }
        advancing_covers(beams, hypotheses, shorter, width);
        let before = advanced(beams, hypotheses, shorter, width);
        let after = advanced(beams, hypotheses, edges, width);
        let edge = edges.last();
        assert(edges[edges.len() - 1] == edge);
        let added = all_extended(hypotheses, edge.segment);
        best_covers(before[edge.end], added, width);
        assert forall|place: int, text: Seq<char>, weight: Weight|
            0 <= place < beams.len() && #[trigger] covers(
                before[place],
                width,
                text,
                weight,
            ) implies covers(after[place], width, text, weight) by {
            if place != edge.end {
                assert(after[place] == before[place]);
            }
        }
        assert forall|place: int, text: Seq<char>, weight: Weight|
            0 <= place < beams.len() && #[trigger] covers(
                beams[place],
                width,
                text,
                weight,
            ) implies covers(after[place], width, text, weight) by {
            assert(covers(before[place], width, text, weight));
        }
        assert forall|i: int, j: int|
            0 <= i < edges.len() && 0 <= j < hypotheses.len() implies covers(
            after[edges[i].end],
            width,
            (#[trigger] extended(hypotheses[j], (#[trigger] edges[i]).segment)).text,
            hypothesis_weight(extended(hypotheses[j], edges[i].segment)),
        ) by {
            if i < shorter.len() {
                assert(shorter[i] == edges[i]);
                let moved = extended(hypotheses[j], shorter[i].segment);
                assert(covers(
                    before[shorter[i].end],
                    width,
                    moved.text,
                    hypothesis_weight(moved),
                ));
            } else {
                assert(added[j] == extended(hypotheses[j], edge.segment));
            }
        }
        assert forall|place: int| 0 <= place < after.len() implies has_no_repeats::<Hypothesis>(
            #[trigger] after[place],
        ) by {
            if place != edge.end {
                assert(after[place] == before[place]);
            }
        }
    }
}

/// No beam of the search holds a text twice.
pub(crate) proof fn search_repeats_nothing(
    entries: Seq<EntryView>,
    reading: Seq<char>,
    width: nat,
    unknown_cost: int,
    count: int,
)
    requires
        0 <= count <= reading.len(),
    ensures
        no_beam_repeats(beams_after(entries, reading, width, unknown_cost, count)),
    decreases count,
{
    if count > 0 {
        let start = count - 1;
        search_repeats_nothing(entries, reading, width, unknown_cost, start);
        beams_have_places(entries, reading, width, unknown_cost, start);
        let before = beams_after(entries, reading, width, unknown_cost, start);
        let cleared = before.update(start, Seq::empty());
        edges_stay_within(entries, reading, unknown_cost, start);
        assert forall|place: int| 0 <= place < cleared.len() implies has_no_repeats::<Hypothesis>(
            #[trigger] cleared[place],
        ) by {
            if place != start {
                assert(cleared[place] == before[place]);
            }
        }
        advancing_covers(
            cleared,
            before[start],
            edges_from(entries, reading, start, unknown_cost),
            width,
        );
    }
}

/// None of the first `count` beams was full when its place was left behind.
pub open spec fn none_was_full(
    entries: Seq<EntryView>,
    reading: Seq<char>,
    width: nat,
    unknown_cost: int,
    count: int,
) -> bool {
    forall|place: int|
        0 <= place < count ==> (#[trigger] beams_after(
            entries,
            reading,
            width,
            unknown_cost,
            place,
        ))[place].len() < width
}

/// After `count` places, of which none had a full beam, each later beam is full or holds the
/// texts of all segments that lead to it, with no more weight than theirs.
pub(crate) proof fn search_covers(
    entries: Seq<EntryView>,
    reading: Seq<char>,
    width: nat,
    unknown_cost: int,
    count: int,
    place: int,
    segments: Seq<SegmentView>,
)
    requires
        is_dictionary(entries),
        unknown_cost > 0,
        0 <= count <= place,
        count <= reading.len(),
        none_was_full(entries, reading, width, unknown_cost, count),
        leads_to(entries, reading, unknown_cost, count, place, segments),
    ensures
        covers(
            beams_after(entries, reading, width, unknown_cost, count)[place],
            width,
            written(segments),
            weight_of(segments),
        ),
    decreases count,
{
    beams_have_places(entries, reading, width, unknown_cost, count);
    if count == 0 {
        assert(segments.len() == 0);
        assert(reading.take(place).len() == 0);
        let beam = beams_after(entries, reading, width, unknown_cost, count)[0];
        assert(beam == seq![empty_hypothesis()]);
        assert(beam[0].text == written(segments));
    } else {
        let start = count - 1;
        let before = beams_after(entries, reading, width, unknown_cost, start);
        beams_have_places(entries, reading, width, unknown_cost, start);
        search_repeats_nothing(entries, reading, width, unknown_cost, start);
        let cleared = before.update(start, Seq::empty());
        let edges = edges_from(entries, reading, start, unknown_cost);
        edges_stay_within(entries, reading, unknown_cost, start);
        assert forall|at: int| 0 <= at < cleared.len() implies has_no_repeats::<Hypothesis>(
            #[trigger] cleared[at],
        ) by {
            if at != start {
                assert(cleared[at] == before[at]);
            }
        }
        advancing_covers(cleared, before[start], edges, width);
        if segments.len() == 0 {
            assert(reading.take(place).len() == 0);
            assert(false);
        }
        let first = without_last_segment(entries, reading, unknown_cost, place, segments);
        if first == start {
            let shorter = segments.drop_last();
            search_covers(entries, reading, width, unknown_cost, start, start, shorter);
            assert(before[start].len() < width);
            let j = choose|j: int|
                0 <= j < before[start].len() && (#[trigger] before[start][j]).text == written(
                    shorter,
                ) && no_heavier(hypothesis_weight(before[start][j]), weight_of(shorter));
            steps_are_edges(entries, reading, unknown_cost, start, place, segments.last());
            let edge = EdgeView { end: place, segment: segments.last() };
            let i = edges.index_of(edge);
            assert(edges[i] == edge);
            let moved = extended(before[start][j], edges[i].segment);
            let after = advanced(cleared, before[start], edges, width);
            assert(covers(after[edges[i].end], width, moved.text, hypothesis_weight(moved)));
            costs_within(entries, unknown_cost, shorter);
            steps_cost(entries, unknown_cost, segments.last());
            extending_keeps_weight(before[start][j], shorter, segments.last());
            assert(shorter.push(segments.last()) =~= segments);
            if after[place].len() < width {
                let k = choose|k: int|
                    0 <= k < after[place].len() && (#[trigger] after[place][k]).text == moved.text
                        && no_heavier(
                        hypothesis_weight(after[place][k]),
                        hypothesis_weight(moved),
                    );
                assert(no_heavier(hypothesis_weight(after[place][k]), weight_of(segments)));
            }
        } else {
            search_covers(entries, reading, width, unknown_cost, start, place, segments);
            assert(cleared[place] == before[place]);
            assert(covers(cleared[place], width, written(segments), weight_of(segments)));
        }
    }
}

/// The text of the segments is among the results, and no heavier than they are: it does not cost
/// more, and where it costs as much it copies no more characters, nor has it more segments where
/// it copies as many.
pub open spec fn comes_out(results: Seq<CandidateView>, segments: Seq<SegmentView>) -> bool {
    &&& emits::<Candidate>(results, written(segments))
    &&& forall|i: int|
        0 <= i < results.len() && (#[trigger] results[i]).text == written(segments)
            ==> results[i].cost <= total_cost(segments) && no_heavier(
            weight_of(results[i].segments),
            weight_of(segments),
        )
}

/// What the last beam holds comes out where the limit cuts nothing off.
pub(crate) proof fn held_comes_out(
    entries: Seq<EntryView>,
    reading: Seq<char>,
    options: ConvertOptions,
    segments: Seq<SegmentView>,
)
    requires
        holds(
            beams_after(
                entries,
                reading,
                options.beam_width as nat,
                options.unknown_cost as int,
                reading.len() as int,
            )[reading.len() as int],
            written(segments),
            weight_of(segments),
        ),
        is_uncut::<Candidate>(
            candidates_of(
                beams_after(
                    entries,
                    reading,
                    options.beam_width as nat,
                    options.unknown_cost as int,
                    reading.len() as int,
                )[reading.len() as int],
            ),
            options.candidate_limit as nat,
        ),
    ensures
        comes_out(conversions(entries, reading, options), segments),
{
    let width = options.beam_width as nat;
    let unknown_cost = options.unknown_cost as int;
    let length = reading.len() as int;
    let last = beams_after(entries, reading, width, unknown_cost, length)[length];
    let pool = candidates_of(last);
    let results = conversions(entries, reading, options);
    let i = choose|i: int|
        0 <= i < last.len() && (#[trigger] last[i]).text == written(segments) && no_heavier(
            hypothesis_weight(last[i]),
            weight_of(segments),
        );
    assert(pool[i] == candidate_of(last[i]));
    hypotheses_describe_segments(entries, reading, width, unknown_cost, i);
    best_is_ranked::<Candidate>(pool, options.candidate_limit as nat);
    assert forall|j: int|
        0 <= j < results.len() && (#[trigger] results[j]).text == written(
            segments,
        ) implies results[j].cost <= total_cost(segments) && no_heavier(
        weight_of(results[j].segments),
        weight_of(segments),
    ) by {
        conversions_are_segmentations(entries, reading, options, j);
        assert(candidate_order(results[j], pool[i]) != Rank::After);
    }
}

/// Where no beam was full and fewer results came than were asked for, the text of every way to
/// convert the reading is among the results, at the cost of the cheapest way to come to it.
pub proof fn no_text_is_lost(
    entries: Seq<EntryView>,
    reading: Seq<char>,
    options: ConvertOptions,
    segments: Seq<SegmentView>,
)
    requires
        is_dictionary(entries),
        options.unknown_cost > 0,
        none_was_full(
            entries,
            reading,
            options.beam_width as nat,
            options.unknown_cost as int,
            reading.len() as int + 1,
        ),
        conversions(entries, reading, options).len() < options.candidate_limit,
        segments_convert(entries, options.unknown_cost as int, segments, reading),
    ensures
        comes_out(conversions(entries, reading, options), segments),
{
    let width = options.beam_width as nat;
    let unknown_cost = options.unknown_cost as int;
    let length = reading.len() as int;
    assert(reading.take(length) =~= reading);
    if segments.len() > 0 {
        let start = without_last_segment(entries, reading, unknown_cost, length, segments);
    }
    search_covers(entries, reading, width, unknown_cost, length, length, segments);
    let last = beams_after(entries, reading, width, unknown_cost, length)[length];
    assert(last.len() < width);
    best_is_ranked::<Candidate>(candidates_of(last), options.candidate_limit as nat);
    held_comes_out(entries, reading, options, segments);
}

} // verus!
