//! Which rows JMdict gives and what they cost, said of its entries.

use crate::id_def::{id_on, IdFault};
use crate::jmdict::candidates::{
    candidates_of, entry_candidates, has_katakana, katakana_entries, listed_candidates,
    marker_penalty, markers_penalty, reading_candidates, sense_candidates, OutputView,
};
use crate::jmdict::context::noun_id_from;
use crate::jmdict::document::{RawEntryView, ReadingView, SenseView};
use crate::jmdict::loanword::FilterView;
use crate::jmdict::readings::{
    is_katakana, is_katakana_text, last_vowel, normalized, vowel_of, with_vowels,
};
use crate::jmdict::selection::{
    accepted, are_rows, case_preference, folded_order, has_cheapest, has_preferred_case,
    is_accepted, is_case_table, is_cheapest_table, pair_order,
};
use crate::order::{text_rank, text_rank_same, Rank};
use crate::text::{begins_with, byte_count, lowercase, signed_value};
use vstd::prelude::*;

verus! {

/// A cost within the range of Mozc, from 1 to 32767.
pub open spec fn in_range(cost: int) -> int {
    if cost < 1 {
        1
    } else if cost > 32767 {
        32767
    } else {
        cost
    }
}

proof fn penalty_is_least(markers: Seq<Seq<char>>)
    ensures
        markers_penalty(markers) <= 6000,
        forall|i: int|
            0 <= i < markers.len() ==> markers_penalty(markers) <= marker_penalty(
                #[trigger] markers[i],
            ),
        markers_penalty(markers) == 6000 || exists|i: int|
            0 <= i < markers.len() && marker_penalty(#[trigger] markers[i]) == markers_penalty(
                markers,
            ),
    decreases markers.len(),
{
    if markers.len() > 0 {
        let before = markers.drop_last();
        penalty_is_least(before);
        assert forall|i: int| 0 <= i < markers.len() implies markers_penalty(markers)
            <= marker_penalty(#[trigger] markers[i]) by {
            if i < before.len() {
                assert(before[i] == markers[i]);
            }
        }
        if markers_penalty(markers) != 6000 {
            if markers_penalty(before) == markers_penalty(markers) {
                let i = choose|i: int|
                    0 <= i < before.len() && marker_penalty(#[trigger] before[i])
                        == markers_penalty(before);
                assert(markers[i] == before[i]);
            } else {
                assert(markers[markers.len() - 1] == markers.last());
            }
        }
    }
}

proof fn markers_are_literal(marker: Seq<char>)
    ensures
        marker == "news1"@ || marker == "ichi1"@ || marker == "spec1"@ || marker == "gai1"@
            ==> marker_penalty(marker) == 0,
        marker == "news2"@ || marker == "ichi2"@ || marker == "spec2"@ || marker == "gai2"@
            ==> marker_penalty(marker) == 2000,
        forall|rest: Seq<char>|
            #![trigger "nf"@ + rest]
            marker == "nf"@ + rest ==> marker_penalty(marker) == match signed_value(rest) {
                Some(rank) => if rank < i32::MIN || rank > i32::MAX {
                    6000
                } else if rank <= 1 {
                    0
                } else if rank >= 50 {
                    4900
                } else {
                    100 * (rank - 1)
                },
                None => 6000,
            },
        !(marker == "news1"@ || marker == "ichi1"@ || marker == "spec1"@ || marker == "gai1"@
            || marker == "news2"@ || marker == "ichi2"@ || marker == "spec2"@ || marker
            == "gai2"@) && (forall|rest: Seq<char>|
            #![trigger "nf"@ + rest]
            marker != "nf"@ + rest) ==> marker_penalty(marker) == 6000,
{
    reveal_strlit("news1");
    assert("news1"@.len() == 5 && "news1"@[0] == 'n' && "news1"@[1] == 'e' && "news1"@[2] == 'w'
        && "news1"@[3] == 's' && "news1"@[4] == '1');
    reveal_strlit("ichi1");
    assert("ichi1"@.len() == 5 && "ichi1"@[0] == 'i' && "ichi1"@[1] == 'c' && "ichi1"@[2] == 'h'
        && "ichi1"@[3] == 'i' && "ichi1"@[4] == '1');
    reveal_strlit("spec1");
    assert("spec1"@.len() == 5 && "spec1"@[0] == 's' && "spec1"@[1] == 'p' && "spec1"@[2] == 'e'
        && "spec1"@[3] == 'c' && "spec1"@[4] == '1');
    reveal_strlit("gai1");
    assert("gai1"@.len() == 4 && "gai1"@[0] == 'g' && "gai1"@[1] == 'a' && "gai1"@[2] == 'i'
        && "gai1"@[3] == '1');
    reveal_strlit("news2");
    assert("news2"@.len() == 5 && "news2"@[0] == 'n' && "news2"@[1] == 'e' && "news2"@[2] == 'w'
        && "news2"@[3] == 's' && "news2"@[4] == '2');
    reveal_strlit("ichi2");
    assert("ichi2"@.len() == 5 && "ichi2"@[0] == 'i' && "ichi2"@[1] == 'c' && "ichi2"@[2] == 'h'
        && "ichi2"@[3] == 'i' && "ichi2"@[4] == '2');
    reveal_strlit("spec2");
    assert("spec2"@.len() == 5 && "spec2"@[0] == 's' && "spec2"@[1] == 'p' && "spec2"@[2] == 'e'
        && "spec2"@[3] == 'c' && "spec2"@[4] == '2');
    reveal_strlit("gai2");
    assert("gai2"@.len() == 4 && "gai2"@[0] == 'g' && "gai2"@[1] == 'a' && "gai2"@[2] == 'i'
        && "gai2"@[3] == '2');
    reveal_strlit("nf");
    assert("nf"@.len() == 2 && "nf"@[0] == 'n' && "nf"@[1] == 'f');
    assert forall|rest: Seq<char>|
        #![trigger "nf"@ + rest]
        marker == "nf"@ + rest implies marker_penalty(marker) == match signed_value(rest) {
        Some(rank) => if rank < i32::MIN || rank > i32::MAX {
            6000
        } else if rank <= 1 {
            0
        } else if rank >= 50 {
            4900
        } else {
            100 * (rank - 1)
        },
        None => 6000,
    } by {
        assert(marker[0] == 'n' && marker[1] == 'f');
        assert(marker.skip(2) =~= rest);
        assert(marker.subrange(0, 2) =~= "nf"@);
        assert(begins_with(marker, "nf"@));
    }
    if begins_with(marker, "nf"@) {
        assert(marker =~= "nf"@ + marker.skip(2));
    }
}

/// A reading with one of the first markers has no penalty, one with one of the second at most
/// 2000, one among the first `rank` groups of 500 words 100 for each group before its own, and one
/// without any 6000. The smallest counts.
pub proof fn priorities_lower_costs(markers: Seq<Seq<char>>)
    ensures
        0 <= markers_penalty(markers) <= 6000,
        markers.contains("news1"@) || markers.contains("ichi1"@) || markers.contains("spec1"@)
            || markers.contains("gai1"@) ==> markers_penalty(markers) == 0,
        markers.contains("news2"@) || markers.contains("ichi2"@) || markers.contains("spec2"@)
            || markers.contains("gai2"@) ==> markers_penalty(markers) <= 2000,
        forall|rest: Seq<char>|
            #![trigger "nf"@ + rest]
            markers.contains("nf"@ + rest) && signed_value(rest) is Some && 1 <= signed_value(
                rest,
            )->0 <= 50 ==> markers_penalty(markers) <= 100 * (signed_value(rest)->0 - 1),
        markers_penalty(markers) < 6000 ==> exists|i: int|
            0 <= i < markers.len() && {
                let marker = #[trigger] markers[i];
                ||| markers_penalty(markers) == 0 && (marker == "news1"@ || marker == "ichi1"@
                    || marker == "spec1"@ || marker == "gai1"@)
                ||| markers_penalty(markers) == 2000 && (marker == "news2"@ || marker == "ichi2"@
                    || marker == "spec2"@ || marker == "gai2"@)
                ||| exists|rest: Seq<char>|
                    #![trigger "nf"@ + rest]
                    marker == "nf"@ + rest && signed_value(rest) is Some && markers_penalty(
                        markers,
                    ) == if signed_value(rest)->0 <= 1 {
                        0
                    } else if signed_value(rest)->0 >= 50 {
                        4900
                    } else {
                        100 * (signed_value(rest)->0 - 1)
                    }
            },
{
    penalty_is_least(markers);
    crate::jmdict::candidates::penalty_within(markers);
    assert forall|marker: Seq<char>| #[trigger] markers.contains(marker) implies markers_penalty(
        markers,
    ) <= marker_penalty(marker) by {
        let i = markers.index_of(marker);
        assert(markers[i] == marker);
    }
    markers_are_literal("news1"@);
    markers_are_literal("ichi1"@);
    markers_are_literal("spec1"@);
    markers_are_literal("gai1"@);
    markers_are_literal("news2"@);
    markers_are_literal("ichi2"@);
    markers_are_literal("spec2"@);
    markers_are_literal("gai2"@);
    assert forall|rest: Seq<char>|
        #![trigger "nf"@ + rest]
        markers.contains("nf"@ + rest) && signed_value(rest) is Some && 1 <= signed_value(rest)->0
            <= 50 implies markers_penalty(markers) <= 100 * (signed_value(rest)->0 - 1) by {
        markers_are_literal("nf"@ + rest);
    }
    if markers_penalty(markers) < 6000 {
        let i = choose|i: int|
            0 <= i < markers.len() && marker_penalty(#[trigger] markers[i]) == markers_penalty(
                markers,
            );
        let marker = markers[i];
        markers_are_literal(marker);
        if !(marker == "news1"@ || marker == "ichi1"@ || marker == "spec1"@ || marker == "gai1"@
            || marker == "news2"@ || marker == "ichi2"@ || marker == "spec2"@ || marker
            == "gai2"@) {
            let rest = choose|rest: Seq<char>|
                #![trigger "nf"@ + rest]
                marker == "nf"@ + rest;
            assert(marker == "nf"@ + rest);
        }
    }
}

/// A candidate is one of the surfaces of a list, for the reading, at a cost that rises with its
/// place.
pub open spec fn is_listed(
    candidate: OutputView,
    reading: Seq<char>,
    surfaces: Seq<Seq<char>>,
    cost: int,
) -> bool {
    exists|i: int|
        0 <= i < surfaces.len() && candidate.surface == #[trigger] surfaces[i] && candidate.reading
            == reading && candidate.cost == in_range(cost + i)
}

proof fn listed_are_literal(
    reading: Seq<char>,
    surfaces: Seq<Seq<char>>,
    base: int,
    penalty: int,
    kind: int,
    candidate: OutputView,
)
    ensures
        listed_candidates(reading, surfaces, base, penalty, kind).contains(candidate) <==> is_listed(
            candidate,
            reading,
            surfaces,
            base + penalty + kind,
        ),
{
    let list = listed_candidates(reading, surfaces, base, penalty, kind);
    if list.contains(candidate) {
        let i = list.index_of(candidate);
        assert(candidate.surface == surfaces[i]);
    }
    if is_listed(candidate, reading, surfaces, base + penalty + kind) {
        let i = choose|i: int|
            0 <= i < surfaces.len() && candidate.surface == #[trigger] surfaces[i]
                && candidate.reading == reading && candidate.cost == in_range(
                base + penalty + kind + i,
            );
        assert(list[i] == candidate);
    }
}

proof fn contained_in_sum<A>(first: Seq<A>, second: Seq<A>, value: A)
    ensures
        (first + second).contains(value) <==> first.contains(value) || second.contains(value),
{
    let all = first + second;
    if first.contains(value) {
        assert(all[first.index_of(value)] == value);
    }
    if second.contains(value) {
        assert(all[first.len() + second.index_of(value)] == value);
    }
    if all.contains(value) {
        let i = all.index_of(value);
        if i < first.len() {
            assert(first[i] == value);
        } else {
            assert(second[i - first.len()] == value);
        }
    }
}

/// A sense gives a candidate for a reading: it is not restricted, or restricted to that reading
/// among others, and the candidate is one of its source words, which cost 20 more for each sense
/// before it, or one of its glosses, which cost 500 more than that.
pub open spec fn sense_gives(
    sense: SenseView,
    place: int,
    reading: ReadingView,
    base: int,
    candidate: OutputView,
) -> bool {
    let cost = base + markers_penalty(reading.priorities) + 20 * place;
    &&& (forall|text: Seq<char>| !sense.restrictions.contains(text))
        || sense.restrictions.contains(reading.text)
    &&& is_listed(candidate, normalized(reading.text), sense.sources, cost) || is_listed(
        candidate,
        normalized(reading.text),
        sense.glosses,
        cost + 500,
    )
}

proof fn senses_give(
    entry: RawEntryView,
    reading: ReadingView,
    base: int,
    count: int,
    candidate: OutputView,
)
    requires
        0 <= count <= entry.senses.len(),
    ensures
        sense_candidates(entry, reading, base, count).contains(candidate) <==> exists|s: int|
            0 <= s < count && sense_gives(#[trigger] entry.senses[s], s, reading, base, candidate),
    decreases count,
{
    if count > 0 {
        senses_give(entry, reading, base, count - 1, candidate);
        let before = sense_candidates(entry, reading, base, count - 1);
        let sense = entry.senses[count - 1];
        let shown = normalized(reading.text);
        let penalty = markers_penalty(reading.priorities);
        let sources = listed_candidates(shown, sense.sources, base, penalty, (count - 1) * 20);
        let glosses = listed_candidates(
            shown,
            sense.glosses,
            base,
            penalty,
            500 + (count - 1) * 20,
        );
        contained_in_sum(before, sources, candidate);
        contained_in_sum(before + sources, glosses, candidate);
        listed_are_literal(shown, sense.sources, base, penalty, (count - 1) * 20, candidate);
        listed_are_literal(shown, sense.glosses, base, penalty, 500 + (count - 1) * 20, candidate);
        assert(base + penalty + (500 + (count - 1) * 20) == base + penalty + 20 * (count - 1)
            + 500);
        assert(base + penalty + (count - 1) * 20 == base + penalty + 20 * (count - 1));
        assert((forall|text: Seq<char>| !sense.restrictions.contains(text)) <==> sense.restrictions
            == Set::<Seq<char>>::empty()) by {
            if forall|text: Seq<char>| !sense.restrictions.contains(text) {
                assert(sense.restrictions =~= Set::<Seq<char>>::empty());
            }
        }
        assert(sense_candidates(entry, reading, base, count).contains(candidate) <==> (
        before.contains(candidate) || sense_gives(sense, count - 1, reading, base, candidate)));
    } else {
        assert(!sense_candidates(entry, reading, base, count).contains(candidate));
    }
}

/// An entry gives a candidate for one of its readings: the reading is all katakana, its normal
/// form has at most 256 bytes, and the candidate is one of the source words of the entry or comes
/// from one of its senses.
pub open spec fn entry_gives(
    entry: RawEntryView,
    reading: ReadingView,
    base: int,
    candidate: OutputView,
) -> bool {
    &&& reading.text.len() > 0
    &&& forall|i: int|
        0 <= i < reading.text.len() ==> '\u{30A0}' <= #[trigger] reading.text[i] <= '\u{30FF}'
    &&& byte_count(normalized(reading.text)) <= 256
    &&& is_listed(
        candidate,
        normalized(reading.text),
        entry.entry_sources,
        base + markers_penalty(reading.priorities),
    ) || exists|s: int|
        0 <= s < entry.senses.len() && sense_gives(
            #[trigger] entry.senses[s],
            s,
            reading,
            base,
            candidate,
        )
}

proof fn readings_give(
    entry: RawEntryView,
    base: int,
    count: int,
    candidate: OutputView,
)
    requires
        0 <= count <= entry.readings.len(),
    ensures
        entry_candidates(entry, base, count).contains(candidate) <==> exists|r: int|
            0 <= r < count && entry_gives(entry, #[trigger] entry.readings[r], base, candidate),
    decreases count,
{
    if count > 0 {
        readings_give(entry, base, count - 1, candidate);
        let reading = entry.readings[count - 1];
        let before = entry_candidates(entry, base, count - 1);
        let shown = normalized(reading.text);
        let penalty = markers_penalty(reading.priorities);
        let listed = listed_candidates(shown, entry.entry_sources, base, penalty, 0);
        let senses = sense_candidates(entry, reading, base, entry.senses.len() as int);
        contained_in_sum(before, reading_candidates(entry, reading, base), candidate);
        contained_in_sum(listed, senses, candidate);
        listed_are_literal(shown, entry.entry_sources, base, penalty, 0, candidate);
        senses_give(entry, reading, base, entry.senses.len() as int, candidate);
        assert(is_katakana_text(reading.text) <==> reading.text.len() > 0 && forall|i: int|
            0 <= i < reading.text.len() ==> '\u{30A0}' <= #[trigger] reading.text[i]
                <= '\u{30FF}') by {
            if is_katakana_text(reading.text) {
                assert forall|i: int| 0 <= i < reading.text.len() implies '\u{30A0}'
                    <= #[trigger] reading.text[i] <= '\u{30FF}' by {
                    assert(is_katakana(reading.text[i]));
                }
            }
        }
        assert(reading_candidates(entry, reading, base).contains(candidate) <==> entry_gives(
            entry,
            reading,
            base,
            candidate,
        ));
    } else {
        assert(!entry_candidates(entry, base, count).contains(candidate));
    }
}

/// The candidates of a dictionary are those that its entries give for their readings, and no
/// others.
pub proof fn entries_give_candidates(
    entries: Seq<RawEntryView>,
    base: int,
    count: int,
    candidate: OutputView,
)
    requires
        0 <= count <= entries.len(),
    ensures
        candidates_of(entries, base, count).contains(candidate) <==> exists|e: int, r: int|
            #![trigger entries[e].readings[r]]
            0 <= e < count && 0 <= r < entries[e].readings.len() && entry_gives(
                entries[e],
                entries[e].readings[r],
                base,
                candidate,
            ),
    decreases count,
{
    if count > 0 {
        entries_give_candidates(entries, base, count - 1, candidate);
        let entry = entries[count - 1];
        let before = candidates_of(entries, base, count - 1);
        let added = entry_candidates(entry, base, entry.readings.len() as int);
        contained_in_sum(before, added, candidate);
        readings_give(entry, base, entry.readings.len() as int, candidate);
        if added.contains(candidate) {
            let r = choose|r: int|
                0 <= r < entry.readings.len() && entry_gives(
                    entry,
                    #[trigger] entry.readings[r],
                    base,
                    candidate,
                );
            assert(entry_gives(
                entries[count - 1],
                entries[count - 1].readings[r],
                base,
                candidate,
            ));
        }
        if exists|e: int, r: int|
            #![trigger entries[e].readings[r]]
            0 <= e < count && 0 <= r < entries[e].readings.len() && entry_gives(
                entries[e],
                entries[e].readings[r],
                base,
                candidate,
            ) {
            let (e, r) = choose|e: int, r: int|
                #![trigger entries[e].readings[r]]
                0 <= e < count && 0 <= r < entries[e].readings.len() && entry_gives(
                    entries[e],
                    entries[e].readings[r],
                    base,
                    candidate,
                );
            if e == count - 1 {
                assert(entry_gives(entry, entry.readings[r], base, candidate));
            }
        }
    } else {
        assert(!candidates_of(entries, base, count).contains(candidate));
    }
}

/// Without a filter, each row is a candidate, and none for the same reading and surface costs
/// less. There is a row for each candidate, and none for a reading and a surface twice.
pub proof fn rows_are_cheapest(
    rows: Seq<OutputView>,
    candidates: Seq<OutputView>,
    i: int,
    p: int,
)
    requires
        are_rows(rows, candidates, None),
        0 <= i < rows.len(),
        0 <= p < candidates.len(),
    ensures
        candidates.contains(rows[i]),
        rows[i].reading == candidates[p].reading && rows[i].surface == candidates[p].surface
            ==> rows[i].cost <= candidates[p].cost,
        exists|j: int|
            0 <= j < rows.len() && (#[trigger] rows[j]).reading == candidates[p].reading
                && rows[j].surface == candidates[p].surface,
        forall|j: int|
            i < j < rows.len() ==> {
                let row = #[trigger] rows[j];
                &&& rows[i].reading != row.reading || rows[i].surface != row.surface
                &&& text_rank(rows[i].reading, row.reading) != Rank::After
            },
{
    pairs_are_apart(rows, candidates);
    assert(candidates.contains(rows[i]));
    assert(has_cheapest(rows, candidates[p]));
    let j = choose|j: int|
        0 <= j < rows.len() && (#[trigger] rows[j]).reading == candidates[p].reading
            && rows[j].surface == candidates[p].surface && rows[j].cost <= candidates[p].cost;
    assert(rows[j].reading == candidates[p].reading);
    assert forall|k: int| i < k < rows.len() implies {
        let row = #[trigger] rows[k];
        &&& rows[i].reading != row.reading || rows[i].surface != row.surface
        &&& text_rank(rows[i].reading, row.reading) != Rank::After
    } by {
        assert(pair_order(rows[i], rows[k]) == Rank::Before);
    }
}

proof fn pairs_are_apart(rows: Seq<OutputView>, candidates: Seq<OutputView>)
    requires
        is_cheapest_table(rows, candidates),
    ensures
        forall|i: int, j: int|
            0 <= i < rows.len() && 0 <= j < rows.len() && (#[trigger] rows[i]).reading == (
            #[trigger] rows[j]).reading && rows[i].surface == rows[j].surface ==> i == j,
{
    assert forall|i: int, j: int|
        0 <= i < rows.len() && 0 <= j < rows.len() && (#[trigger] rows[i]).reading == (
        #[trigger] rows[j]).reading && rows[i].surface == rows[j].surface implies i == j by {
        text_rank_same(rows[i].reading, rows[j].reading);
        text_rank_same(rows[i].surface, rows[j].surface);
        if i < j {
            assert(pair_order(rows[i], rows[j]) == Rank::Before);
        } else if j < i {
            text_rank_same(rows[j].reading, rows[i].reading);
            text_rank_same(rows[j].surface, rows[i].surface);
            assert(pair_order(rows[j], rows[i]) == Rank::Before);
        }
    }
}

proof fn accepted_are_literal(
    filter: FilterView,
    candidates: Seq<OutputView>,
    candidate: OutputView,
)
    ensures
        accepted(filter, candidates).contains(candidate) <==> candidates.contains(candidate)
            && crate::jmdict::loanword::rejection(
            filter,
            candidate.reading,
            candidate.surface,
        ) is None,
    decreases candidates.len(),
{
    if candidates.len() > 0 {
        let shorter = candidates.drop_last();
        let last = candidates.last();
        accepted_are_literal(filter, shorter, candidate);
        let before = accepted(filter, shorter);
        let all = accepted(filter, candidates);
        assert(candidates =~= shorter + seq![last]);
        contained_in_sum(shorter, seq![last], candidate);
        assert(seq![last].contains(candidate) <==> candidate == last) by {
            assert(seq![last][0] == last);
        }
        if is_accepted(filter, last) {
            assert(all =~= before + seq![last]);
            contained_in_sum(before, seq![last], candidate);
        }
    } else {
        assert(!accepted(filter, candidates).contains(candidate));
    }
}

/// With a filter, each row is a candidate that the filter accepts. For each candidate that it
/// accepts there is a row with the same reading and, but for case, the same surface, which costs
/// no more; at one cost it has no capitals unless the candidate has. No two rows have one reading
/// and, but for case, one surface.
pub proof fn filtered_rows_are_cheapest(
    rows: Seq<OutputView>,
    candidates: Seq<OutputView>,
    filter: FilterView,
    i: int,
    p: int,
)
    requires
        are_rows(rows, candidates, Some(filter)),
        0 <= i < rows.len(),
        0 <= p < candidates.len(),
        crate::jmdict::loanword::rejection(
            filter,
            candidates[p].reading,
            candidates[p].surface,
        ) is None,
    ensures
        candidates.contains(rows[i]),
        crate::jmdict::loanword::rejection(filter, rows[i].reading, rows[i].surface) is None,
        exists|j: int|
            0 <= j < rows.len() && ({
                let row = #[trigger] rows[j];
                &&& row.reading == candidates[p].reading
                &&& lowercase(row.surface) == lowercase(candidates[p].surface)
                &&& row.cost <= candidates[p].cost
                &&& row.cost == candidates[p].cost && candidates[p].surface == lowercase(
                    candidates[p].surface,
                ) ==> row.surface == lowercase(row.surface)
            }),
        forall|j: int|
            i < j < rows.len() ==> {
                let row = #[trigger] rows[j];
                rows[i].reading != row.reading || lowercase(rows[i].surface) != lowercase(
                    row.surface,
                )
            },
{
    let kept = accepted(filter, candidates);
    let table = choose|table: Seq<OutputView>|
        #![trigger is_case_table(rows, table)]
        is_cheapest_table(table, kept) && is_case_table(rows, table);
    assert(table.contains(rows[i]));
    let k = table.index_of(rows[i]);
    assert(kept.contains(table[k]));
    accepted_are_literal(filter, candidates, rows[i]);
    accepted_are_literal(filter, candidates, candidates[p]);
    assert(candidates.contains(candidates[p]));
    let q = kept.index_of(candidates[p]);
    assert(has_cheapest(table, kept[q]));
    let t = choose|t: int|
        0 <= t < table.len() && (#[trigger] table[t]).reading == kept[q].reading
            && table[t].surface == kept[q].surface && table[t].cost <= kept[q].cost;
    assert(has_preferred_case(rows, table[t]));
    let j = choose|j: int|
        0 <= j < rows.len() && folded_order(#[trigger] rows[j], table[t]) == Rank::Same
            && case_preference(rows[j], table[t]) != Rank::After;
    text_rank_same(rows[j].reading, table[t].reading);
    text_rank_same(lowercase(rows[j].surface), lowercase(table[t].surface));
    assert(rows[j].cost <= candidates[p].cost);
    assert forall|n: int| i < n < rows.len() implies {
        let row = #[trigger] rows[n];
        rows[i].reading != row.reading || lowercase(rows[i].surface) != lowercase(row.surface)
    } by {
        assert(folded_order(rows[i], rows[n]) == Rank::Before);
        text_rank_same(rows[i].reading, rows[n].reading);
        text_rank_same(lowercase(rows[i].surface), lowercase(rows[n].surface));
    }
}

/// The context of an English word is that of the first common noun of the list, as long as no line
/// before it has a fault.
pub proof fn first_common_noun_is_taken(
    lines: Seq<Seq<char>>,
    start: int,
    fallback: Option<u16>,
    line: int,
    id: u16,
    fields: Seq<Seq<char>>,
)
    requires
        0 <= start <= line < lines.len(),
        id_on(lines[line]) == Ok::<Option<(u16, Seq<Seq<char>>)>, IdFault>(Some((id, fields))),
        fields.len() >= 2,
        fields[0] == "名詞"@,
        fields[1] == "一般"@,
        forall|k: int|
            start <= k < line ==> (id_on(#[trigger] lines[k]) matches Ok(found) && (
            found matches Some((_, other)) ==> !(other.len() >= 2 && other[0] == "名詞"@
                && other[1] == "一般"@))),
    ensures
        noun_id_from(lines, start, fallback) == Ok::<u16, Option<(nat, IdFault)>>(id),
    decreases line - start,
{
    if start < line {
        assert(id_on(lines[start]) is Ok);
        match id_on(lines[start]) {
            Ok(Some((other, other_fields))) => {
                if crate::jmdict::context::is_noun(other_fields) && fallback is None {
                    first_common_noun_is_taken(lines, start + 1, Some(other), line, id, fields);
                } else {
                    first_common_noun_is_taken(lines, start + 1, fallback, line, id, fields);
                }
            },
            _ => {
                first_common_noun_is_taken(lines, start + 1, fallback, line, id, fields);
            },
        }
    }
}

/// The hiragana of these five rows end with the vowels あ, い, う, え and お, and no others do.
pub proof fn kana_end_with_vowels(c: char)
    ensures
        vowel_of(c) == Some('あ') <==> "あかがさざただなはばぱまやらわぁゃ"@.contains(c),
        vowel_of(c) == Some('い') <==> "いきぎしじちぢにひびぴみりゐぃ"@.contains(c),
        vowel_of(c) == Some('う') <==> "うくぐすずつづぬふぶぷむゆるゔぅゅ"@.contains(c),
        vowel_of(c) == Some('え') <==> "えけげせぜてでねへべぺめれゑぇ"@.contains(c),
        vowel_of(c) == Some('お') <==> "おこごそぞとどのほぼぽもよろをぉょ"@.contains(c),
        vowel_of(c) matches Some(vowel) ==> vowel == 'あ' || vowel == 'い' || vowel == 'う' || vowel
            == 'え' || vowel == 'お',
{
    row_is_literal(c);
}

proof fn row_is_literal(c: char)
    ensures
        vowel_of(c) == Some('あ') <==> "あかがさざただなはばぱまやらわぁゃ"@.contains(c),
        vowel_of(c) == Some('い') <==> "いきぎしじちぢにひびぴみりゐぃ"@.contains(c),
        vowel_of(c) == Some('う') <==> "うくぐすずつづぬふぶぷむゆるゔぅゅ"@.contains(c),
        vowel_of(c) == Some('え') <==> "えけげせぜてでねへべぺめれゑぇ"@.contains(c),
        vowel_of(c) == Some('お') <==> "おこごそぞとどのほぼぽもよろをぉょ"@.contains(c),
{
    reveal_strlit("あかがさざただなはばぱまやらわぁゃ");
    assert("あかがさざただなはばぱまやらわぁゃ"@.len() == 17 && "あかがさざただなはばぱまやらわぁゃ"@[0] == 'あ'
        && "あかがさざただなはばぱまやらわぁゃ"@[1] == 'か' && "あかがさざただなはばぱまやらわぁゃ"@[2] == 'が'
        && "あかがさざただなはばぱまやらわぁゃ"@[3] == 'さ' && "あかがさざただなはばぱまやらわぁゃ"@[4] == 'ざ'
        && "あかがさざただなはばぱまやらわぁゃ"@[5] == 'た' && "あかがさざただなはばぱまやらわぁゃ"@[6] == 'だ'
        && "あかがさざただなはばぱまやらわぁゃ"@[7] == 'な' && "あかがさざただなはばぱまやらわぁゃ"@[8] == 'は'
        && "あかがさざただなはばぱまやらわぁゃ"@[9] == 'ば' && "あかがさざただなはばぱまやらわぁゃ"@[10] == 'ぱ'
        && "あかがさざただなはばぱまやらわぁゃ"@[11] == 'ま' && "あかがさざただなはばぱまやらわぁゃ"@[12] == 'や'
        && "あかがさざただなはばぱまやらわぁゃ"@[13] == 'ら' && "あかがさざただなはばぱまやらわぁゃ"@[14] == 'わ'
        && "あかがさざただなはばぱまやらわぁゃ"@[15] == 'ぁ' && "あかがさざただなはばぱまやらわぁゃ"@[16] == 'ゃ');
    if "あかがさざただなはばぱまやらわぁゃ"@.contains(c) {
        let i = "あかがさざただなはばぱまやらわぁゃ"@.index_of(c);
        assert("あかがさざただなはばぱまやらわぁゃ"@[i] == c);
    }
    reveal_strlit("いきぎしじちぢにひびぴみりゐぃ");
    assert("いきぎしじちぢにひびぴみりゐぃ"@.len() == 15 && "いきぎしじちぢにひびぴみりゐぃ"@[0] == 'い'
        && "いきぎしじちぢにひびぴみりゐぃ"@[1] == 'き' && "いきぎしじちぢにひびぴみりゐぃ"@[2] == 'ぎ'
        && "いきぎしじちぢにひびぴみりゐぃ"@[3] == 'し' && "いきぎしじちぢにひびぴみりゐぃ"@[4] == 'じ'
        && "いきぎしじちぢにひびぴみりゐぃ"@[5] == 'ち' && "いきぎしじちぢにひびぴみりゐぃ"@[6] == 'ぢ'
        && "いきぎしじちぢにひびぴみりゐぃ"@[7] == 'に' && "いきぎしじちぢにひびぴみりゐぃ"@[8] == 'ひ'
        && "いきぎしじちぢにひびぴみりゐぃ"@[9] == 'び' && "いきぎしじちぢにひびぴみりゐぃ"@[10] == 'ぴ'
        && "いきぎしじちぢにひびぴみりゐぃ"@[11] == 'み' && "いきぎしじちぢにひびぴみりゐぃ"@[12] == 'り'
        && "いきぎしじちぢにひびぴみりゐぃ"@[13] == 'ゐ' && "いきぎしじちぢにひびぴみりゐぃ"@[14] == 'ぃ');
    if "いきぎしじちぢにひびぴみりゐぃ"@.contains(c) {
        let i = "いきぎしじちぢにひびぴみりゐぃ"@.index_of(c);
        assert("いきぎしじちぢにひびぴみりゐぃ"@[i] == c);
    }
    reveal_strlit("うくぐすずつづぬふぶぷむゆるゔぅゅ");
    assert("うくぐすずつづぬふぶぷむゆるゔぅゅ"@.len() == 17 && "うくぐすずつづぬふぶぷむゆるゔぅゅ"@[0] == 'う'
        && "うくぐすずつづぬふぶぷむゆるゔぅゅ"@[1] == 'く' && "うくぐすずつづぬふぶぷむゆるゔぅゅ"@[2] == 'ぐ'
        && "うくぐすずつづぬふぶぷむゆるゔぅゅ"@[3] == 'す' && "うくぐすずつづぬふぶぷむゆるゔぅゅ"@[4] == 'ず'
        && "うくぐすずつづぬふぶぷむゆるゔぅゅ"@[5] == 'つ' && "うくぐすずつづぬふぶぷむゆるゔぅゅ"@[6] == 'づ'
        && "うくぐすずつづぬふぶぷむゆるゔぅゅ"@[7] == 'ぬ' && "うくぐすずつづぬふぶぷむゆるゔぅゅ"@[8] == 'ふ'
        && "うくぐすずつづぬふぶぷむゆるゔぅゅ"@[9] == 'ぶ' && "うくぐすずつづぬふぶぷむゆるゔぅゅ"@[10] == 'ぷ'
        && "うくぐすずつづぬふぶぷむゆるゔぅゅ"@[11] == 'む' && "うくぐすずつづぬふぶぷむゆるゔぅゅ"@[12] == 'ゆ'
        && "うくぐすずつづぬふぶぷむゆるゔぅゅ"@[13] == 'る' && "うくぐすずつづぬふぶぷむゆるゔぅゅ"@[14] == 'ゔ'
        && "うくぐすずつづぬふぶぷむゆるゔぅゅ"@[15] == 'ぅ' && "うくぐすずつづぬふぶぷむゆるゔぅゅ"@[16] == 'ゅ');
    if "うくぐすずつづぬふぶぷむゆるゔぅゅ"@.contains(c) {
        let i = "うくぐすずつづぬふぶぷむゆるゔぅゅ"@.index_of(c);
        assert("うくぐすずつづぬふぶぷむゆるゔぅゅ"@[i] == c);
    }
    reveal_strlit("えけげせぜてでねへべぺめれゑぇ");
    assert("えけげせぜてでねへべぺめれゑぇ"@.len() == 15 && "えけげせぜてでねへべぺめれゑぇ"@[0] == 'え'
        && "えけげせぜてでねへべぺめれゑぇ"@[1] == 'け' && "えけげせぜてでねへべぺめれゑぇ"@[2] == 'げ'
        && "えけげせぜてでねへべぺめれゑぇ"@[3] == 'せ' && "えけげせぜてでねへべぺめれゑぇ"@[4] == 'ぜ'
        && "えけげせぜてでねへべぺめれゑぇ"@[5] == 'て' && "えけげせぜてでねへべぺめれゑぇ"@[6] == 'で'
        && "えけげせぜてでねへべぺめれゑぇ"@[7] == 'ね' && "えけげせぜてでねへべぺめれゑぇ"@[8] == 'へ'
        && "えけげせぜてでねへべぺめれゑぇ"@[9] == 'べ' && "えけげせぜてでねへべぺめれゑぇ"@[10] == 'ぺ'
        && "えけげせぜてでねへべぺめれゑぇ"@[11] == 'め' && "えけげせぜてでねへべぺめれゑぇ"@[12] == 'れ'
        && "えけげせぜてでねへべぺめれゑぇ"@[13] == 'ゑ' && "えけげせぜてでねへべぺめれゑぇ"@[14] == 'ぇ');
    if "えけげせぜてでねへべぺめれゑぇ"@.contains(c) {
        let i = "えけげせぜてでねへべぺめれゑぇ"@.index_of(c);
        assert("えけげせぜてでねへべぺめれゑぇ"@[i] == c);
    }
    reveal_strlit("おこごそぞとどのほぼぽもよろをぉょ");
    assert("おこごそぞとどのほぼぽもよろをぉょ"@.len() == 17 && "おこごそぞとどのほぼぽもよろをぉょ"@[0] == 'お'
        && "おこごそぞとどのほぼぽもよろをぉょ"@[1] == 'こ' && "おこごそぞとどのほぼぽもよろをぉょ"@[2] == 'ご'
        && "おこごそぞとどのほぼぽもよろをぉょ"@[3] == 'そ' && "おこごそぞとどのほぼぽもよろをぉょ"@[4] == 'ぞ'
        && "おこごそぞとどのほぼぽもよろをぉょ"@[5] == 'と' && "おこごそぞとどのほぼぽもよろをぉょ"@[6] == 'ど'
        && "おこごそぞとどのほぼぽもよろをぉょ"@[7] == 'の' && "おこごそぞとどのほぼぽもよろをぉょ"@[8] == 'ほ'
        && "おこごそぞとどのほぼぽもよろをぉょ"@[9] == 'ぼ' && "おこごそぞとどのほぼぽもよろをぉょ"@[10] == 'ぽ'
        && "おこごそぞとどのほぼぽもよろをぉょ"@[11] == 'も' && "おこごそぞとどのほぼぽもよろをぉょ"@[12] == 'よ'
        && "おこごそぞとどのほぼぽもよろをぉょ"@[13] == 'ろ' && "おこごそぞとどのほぼぽもよろをぉょ"@[14] == 'を'
        && "おこごそぞとどのほぼぽもよろをぉょ"@[15] == 'ぉ' && "おこごそぞとどのほぼぽもよろをぉょ"@[16] == 'ょ');
    if "おこごそぞとどのほぼぽもよろをぉょ"@.contains(c) {
        let i = "おこごそぞとどのほぼぽもよろをぉょ"@.index_of(c);
        assert("おこごそぞとどのほぼぽもよろをぉょ"@[i] == c);
    }
}

/// A long vowel mark behind a hiragana that ends with a vowel is written as that vowel, one behind
/// another mark or behind something without a vowel as the last vowel before it, and any other
/// character stays.
pub proof fn marks_repeat_vowels(text: Seq<char>, c: char)
    ensures
        c != 'ー' ==> with_vowels(text.push(c)) == with_vowels(text).push(c),
        text.len() > 0 && vowel_of(text.last()) is Some ==> with_vowels(text.push('ー'))
            == with_vowels(text).push(vowel_of(text.last())->0),
        text.len() > 0 && vowel_of(text.last()) is None ==> last_vowel(text) == last_vowel(
            text.drop_last(),
        ),
        last_vowel(text) matches Some(vowel) ==> with_vowels(text.push('ー')) == with_vowels(
            text,
        ).push(vowel),
        last_vowel(text) is None ==> with_vowels(text.push('ー')) == with_vowels(text),
{
    assert(text.push(c).drop_last() =~= text);
    assert(text.push('ー').drop_last() =~= text);
}

/// Without a common noun the first noun is taken, as long as no line has a fault.
pub proof fn first_noun_is_taken(
    lines: Seq<Seq<char>>,
    start: int,
    line: int,
    id: u16,
    fields: Seq<Seq<char>>,
)
    requires
        0 <= start <= line < lines.len(),
        id_on(lines[line]) == Ok::<Option<(u16, Seq<Seq<char>>)>, IdFault>(Some((id, fields))),
        fields.len() >= 1,
        fields[0] == "名詞"@,
        forall|k: int|
            start <= k < lines.len() ==> (id_on(#[trigger] lines[k]) matches Ok(found) && (
            found matches Some((_, other)) ==> !(other.len() >= 2 && other[0] == "名詞"@
                && other[1] == "一般"@))),
        forall|k: int|
            start <= k < line ==> (id_on(#[trigger] lines[k]) matches Ok(found) && (
            found matches Some((_, other)) ==> !(other.len() >= 1 && other[0] == "名詞"@))),
    ensures
        noun_id_from(lines, start, None) == Ok::<u16, Option<(nat, IdFault)>>(id),
    decreases line - start,
{
    if start < line {
        assert(id_on(lines[start]) is Ok);
        first_noun_is_taken(lines, start + 1, line, id, fields);
    } else {
        fallback_stays(lines, start + 1, id);
    }
}

proof fn fallback_stays(lines: Seq<Seq<char>>, start: int, id: u16)
    requires
        0 <= start <= lines.len(),
        forall|k: int|
            start <= k < lines.len() ==> (id_on(#[trigger] lines[k]) matches Ok(found) && (
            found matches Some((_, other)) ==> !(other.len() >= 2 && other[0] == "名詞"@
                && other[1] == "一般"@))),
    ensures
        noun_id_from(lines, start, Some(id)) == Ok::<u16, Option<(nat, IdFault)>>(id),
    decreases lines.len() - start,
{
    if start < lines.len() {
        assert(id_on(lines[start]) is Ok);
        fallback_stays(lines, start + 1, id);
    }
}

/// Entries are counted where one of their readings is all katakana.
pub proof fn katakana_entries_are_counted(entries: Seq<RawEntryView>, count: int)
    requires
        0 <= count < entries.len(),
    ensures
        katakana_entries(entries, count + 1) == katakana_entries(entries, count) + if exists|r: int|
            0 <= r < entries[count].readings.len() && (#[trigger] entries[count].readings[
                r
            ]).text.len() > 0 && forall|i: int|
                0 <= i < entries[count].readings[r].text.len() ==> '\u{30A0}'
                    <= #[trigger] entries[count].readings[r].text[i] <= '\u{30FF}' {
            1int
        } else {
            0
        },
        katakana_entries(entries, 0) == 0,
{
    let entry = entries[count];
    if has_katakana(entry) {
        let r = choose|r: int|
            0 <= r < entry.readings.len() && is_katakana_text((#[trigger] entry.readings[r]).text);
        assert forall|i: int| 0 <= i < entry.readings[r].text.len() implies '\u{30A0}'
            <= #[trigger] entry.readings[r].text[i] <= '\u{30FF}' by {
            assert(is_katakana(entry.readings[r].text[i]));
        }
    } else if exists|r: int|
        0 <= r < entry.readings.len() && (#[trigger] entry.readings[r]).text.len() > 0 && forall|
            i: int,
        |
            0 <= i < entry.readings[r].text.len() ==> '\u{30A0}'
                <= #[trigger] entry.readings[r].text[i] <= '\u{30FF}' {
        let r = choose|r: int|
            0 <= r < entry.readings.len() && (#[trigger] entry.readings[r]).text.len() > 0
                && forall|i: int|
                0 <= i < entry.readings[r].text.len() ==> '\u{30A0}'
                    <= #[trigger] entry.readings[r].text[i] <= '\u{30FF}';
        assert(is_katakana_text(entry.readings[r].text));
    }
}

} // verus!
