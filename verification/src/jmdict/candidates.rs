//! The English candidates that the entries of JMdict give, and their costs.

use crate::index::{distinct, TextIndex};
use crate::jmdict::document::{RawEntry, RawEntryView, RawReading, RawSense, ReadingView, SenseView};
use crate::jmdict::readings::{
    is_katakana_reading, is_katakana_text, normalize_reading, normalized, MAX_FIELD_BYTES,
};
use crate::text::{
    any_text, begins_with, byte_count, byte_length, chars_of, parse_i32, same_text, signed_value,
    starts_with, text_of, texts,
};
use crate::views::{views, views_push};
use vstd::prelude::*;

verus! {

/// A row of the dictionary: a reading, a surface and its cost.
#[derive(Clone, Debug, PartialEq, Eq)]
pub struct OutputEntry {
    pub reading: String,
    pub surface: String,
    pub cost: i32,
}

#[verifier::ext_equal]
pub struct OutputView {
    pub reading: Seq<char>,
    pub surface: Seq<char>,
    pub cost: int,
}

impl View for OutputEntry {
    type V = OutputView;

    open spec fn view(&self) -> OutputView {
        OutputView { reading: self.reading@, surface: self.surface@, cost: self.cost as int }
    }
}

/// The value within the bounds.
pub open spec fn clamped(value: int, low: int, high: int) -> int {
    if value < low {
        low
    } else if value > high {
        high
    } else {
        value
    }
}

/// The cost of a candidate: the base, the penalties of the reading and of the kind of candidate,
/// and the place among its like, within the range of Mozc.
pub open spec fn cost_of(base: int, penalty: int, kind: int, index: int) -> int {
    clamped(base + penalty + kind + index, 1, 32767)
}

/// The cost of a candidate.
pub fn candidate_cost(base: i32, penalty: i32, kind: u128, index: usize) -> (cost: i32)
    ensures
        cost == cost_of(base as int, penalty as int, kind as int, index as int),
{
    // Any larger kind leads to the same bound.
    let bounded: i128 = if kind > 0x4_0000_0000 {
        0x4_0000_0000
    } else {
        kind as i128
    };
    let value: i128 = base as i128 + penalty as i128 + bounded + index as i128;
    if value < 1 {
        1
    } else if value > 32767 {
        32767
    } else {
        value as i32
    }
}

/// The penalty that a priority marker of a reading leaves.
pub open spec fn marker_penalty(marker: Seq<char>) -> int {
    if marker == "news1"@ || marker == "ichi1"@ || marker == "spec1"@ || marker == "gai1"@ {
        0
    } else if marker == "news2"@ || marker == "ichi2"@ || marker == "spec2"@ || marker
        == "gai2"@ {
        2000
    } else if begins_with(marker, "nf"@) {
        match signed_value(marker.skip(2)) {
            Some(rank) if i32::MIN <= rank <= i32::MAX => clamped(rank - 1, 0, 49) * 100,
            _ => 6000,
        }
    } else {
        6000
    }
}

/// The smallest penalty that the markers leave.
pub open spec fn markers_penalty(markers: Seq<Seq<char>>) -> int
    decreases markers.len(),
{
    if markers.len() == 0 {
        6000
    } else {
        let before = markers_penalty(markers.drop_last());
        let last = marker_penalty(markers.last());
        if last < before {
            last
        } else {
            before
        }
    }
}

/// Penalties stay small.
pub proof fn penalty_within(markers: Seq<Seq<char>>)
    ensures
        0 <= markers_penalty(markers) <= 6000,
    decreases markers.len(),
{
    if markers.len() > 0 {
        penalty_within(markers.drop_last());
    }
}

fn penalty_of(marker: &str) -> (penalty: i32)
    ensures
        penalty == marker_penalty(marker@),
        0 <= penalty <= 6000,
{
    if same_text(marker, "news1") || same_text(marker, "ichi1") || same_text(marker, "spec1")
        || same_text(marker, "gai1") {
        0
    } else if same_text(marker, "news2") || same_text(marker, "ichi2") || same_text(
        marker,
        "spec2",
    ) || same_text(marker, "gai2") {
        2000
    } else if starts_with(marker, "nf") {
        proof {
            reveal_strlit("nf");
        }
        let chars = chars_of(marker);
        let number = text_of(&chars, 2, chars.len());
        assert(number@ =~= marker@.skip(2));
        match parse_i32(number.as_str()) {
            Some(rank) => if rank <= 1 {
                0
            } else if rank >= 50 {
                4900
            } else {
                (rank - 1) * 100
            },
            None => 6000,
        }
    } else {
        6000
    }
}

/// The smallest penalty that the markers of a reading leave.
pub fn priority_penalty(priorities: &[String]) -> (penalty: i32)
    ensures
        penalty == markers_penalty(texts(priorities@)),
        0 <= penalty <= 6000,
{
    let ghost all = texts(priorities@);
    let mut penalty: i32 = 6000;
    let mut i: usize = 0;
    assert(all.take(0) =~= Seq::empty());
    while i < priorities.len()
        invariant
            all == texts(priorities@),
            i <= priorities@.len(),
            penalty == markers_penalty(all.take(i as int)),
            0 <= penalty <= 6000,
        decreases priorities@.len() - i,
    {
        assert(all.take(i + 1).drop_last() =~= all.take(i as int));
        let candidate = penalty_of(priorities[i].as_str());
        if candidate < penalty {
            penalty = candidate;
        }
        i += 1;
    }
    assert(all.take(i as int) =~= all);
    penalty
}

/// The candidates that a list of surfaces gives for a reading.
pub open spec fn listed_candidates(
    reading: Seq<char>,
    surfaces: Seq<Seq<char>>,
    base: int,
    penalty: int,
    kind: int,
) -> Seq<OutputView> {
    Seq::new(
        surfaces.len(),
        |i: int|
            OutputView { reading, surface: surfaces[i], cost: cost_of(base, penalty, kind, i) },
    )
}

/// A sense that holds for a reading.
pub open spec fn sense_applies(sense: SenseView, reading: ReadingView) -> bool {
    sense.restrictions == Set::<Seq<char>>::empty() || sense.restrictions.contains(reading.text)
}

/// The candidates of the first `count` senses for a reading. Source words come first, then
/// glosses, which cost more.
pub open spec fn sense_candidates(
    entry: RawEntryView,
    reading: ReadingView,
    base: int,
    count: int,
) -> Seq<OutputView>
    decreases count,
{
    if count <= 0 {
        Seq::empty()
    } else {
        let before = sense_candidates(entry, reading, base, count - 1);
        let sense = entry.senses[count - 1];
        let shown = normalized(reading.text);
        let penalty = markers_penalty(reading.priorities);
        if sense_applies(sense, reading) {
            before + listed_candidates(shown, sense.sources, base, penalty, (count - 1) * 20)
                + listed_candidates(shown, sense.glosses, base, penalty, 500 + (count - 1) * 20)
        } else {
            before
        }
    }
}

/// A reading that candidates are made for: it is written in katakana and not too long.
pub open spec fn is_used(reading: ReadingView) -> bool {
    is_katakana_text(reading.text) && byte_count(normalized(reading.text)) <= MAX_FIELD_BYTES
}

/// The candidates of an entry for one of its readings.
pub open spec fn reading_candidates(
    entry: RawEntryView,
    reading: ReadingView,
    base: int,
) -> Seq<OutputView> {
    if is_used(reading) {
        listed_candidates(
            normalized(reading.text),
            entry.entry_sources,
            base,
            markers_penalty(reading.priorities),
            0,
        ) + sense_candidates(entry, reading, base, entry.senses.len() as int)
    } else {
        Seq::empty()
    }
}

/// The candidates of an entry for its first `count` readings.
pub open spec fn entry_candidates(entry: RawEntryView, base: int, count: int) -> Seq<OutputView>
    decreases count,
{
    if count <= 0 {
        Seq::empty()
    } else {
        entry_candidates(entry, base, count - 1) + reading_candidates(
            entry,
            entry.readings[count - 1],
            base,
        )
    }
}

/// The candidates of the first `count` entries.
pub open spec fn candidates_of(entries: Seq<RawEntryView>, base: int, count: int) -> Seq<OutputView>
    decreases count,
{
    if count <= 0 {
        Seq::empty()
    } else {
        let entry = entries[count - 1];
        candidates_of(entries, base, count - 1) + entry_candidates(
            entry,
            base,
            entry.readings.len() as int,
        )
    }
}

/// The readings of an entry, among its first `count`, that candidates are made for, normalized.
pub open spec fn used_readings(entry: RawEntryView, count: int) -> Seq<Seq<char>>
    decreases count,
{
    if count <= 0 {
        Seq::empty()
    } else {
        let before = used_readings(entry, count - 1);
        let reading = entry.readings[count - 1];
        if is_used(reading) {
            before.push(normalized(reading.text))
        } else {
            before
        }
    }
}

/// The readings of the first `count` entries that candidates are made for, normalized.
pub open spec fn all_used_readings(entries: Seq<RawEntryView>, count: int) -> Seq<Seq<char>>
    decreases count,
{
    if count <= 0 {
        Seq::empty()
    } else {
        all_used_readings(entries, count - 1) + used_readings(
            entries[count - 1],
            entries[count - 1].readings.len() as int,
        )
    }
}

/// An entry with a reading in katakana.
pub open spec fn has_katakana(entry: RawEntryView) -> bool {
    exists|i: int| 0 <= i < entry.readings.len() && is_katakana_text((#[trigger] entry.readings[i]).text)
}

/// The number of entries with a reading in katakana, among the first `count`.
pub open spec fn katakana_entries(entries: Seq<RawEntryView>, count: int) -> int
    decreases count,
{
    if count <= 0 {
        0
    } else {
        katakana_entries(entries, count - 1) + if has_katakana(entries[count - 1]) {
            1int
        } else {
            0
        }
    }
}

fn add_listed(
    output: &mut Vec<OutputEntry>,
    reading: &str,
    surfaces: &[String],
    base: i32,
    penalty: i32,
    kind: u128,
)
    ensures
        views(final(output)@) == views(old(output)@) + listed_candidates(
            reading@,
            texts(surfaces@),
            base as int,
            penalty as int,
            kind as int,
        ),
{
    let ghost before = views(output@);
    let ghost added = listed_candidates(
        reading@,
        texts(surfaces@),
        base as int,
        penalty as int,
        kind as int,
    );
    let mut i: usize = 0;
    assert(before =~= before + added.take(0));
    while i < surfaces.len()
        invariant
            added == listed_candidates(
                reading@,
                texts(surfaces@),
                base as int,
                penalty as int,
                kind as int,
            ),
            i <= surfaces@.len(),
            views(output@) == before + added.take(i as int),
        decreases surfaces@.len() - i,
    {
        let entry = OutputEntry {
            reading: reading.to_owned(),
            surface: surfaces[i].clone(),
            cost: candidate_cost(base, penalty, kind, i),
        };
        proof {
            views_push(output@, entry);
            assert(entry@ == added[i as int]);
            assert(before + added.take(i + 1) =~= (before + added.take(i as int)).push(entry@));
        }
        output.push(entry);
        i += 1;
    }
    assert(added.take(i as int) =~= added);
}

fn applies(sense: &RawSense, reading: &RawReading) -> (applies: bool)
    ensures
        applies == sense_applies(sense@, reading@),
{
    if sense.restrictions.len() == 0 {
        assert(sense@.restrictions =~= Set::empty());
        true
    } else {
        assert(texts(sense.restrictions@).contains(texts(sense.restrictions@)[0]));
        assert(sense@.restrictions.contains(texts(sense.restrictions@)[0]));
        any_text(&sense.restrictions, reading.text.as_str())
    }
}

fn add_senses(
    output: &mut Vec<OutputEntry>,
    entry: &RawEntry,
    reading: &RawReading,
    shown: &str,
    base: i32,
    penalty: i32,
)
    requires
        shown@ == normalized(reading.text@),
        penalty == markers_penalty(reading@.priorities),
    ensures
        views(final(output)@) == views(old(output)@) + sense_candidates(
            entry@,
            reading@,
            base as int,
            entry@.senses.len() as int,
        ),
{
    let ghost before = views(output@);
    let mut i: usize = 0;
    assert(before =~= before + sense_candidates(entry@, reading@, base as int, 0));
    while i < entry.senses.len()
        invariant
            shown@ == normalized(reading.text@),
            penalty == markers_penalty(reading@.priorities),
            i <= entry.senses@.len(),
            views(output@) == before + sense_candidates(
                entry@,
                reading@,
                base as int,
                i as int,
            ),
        decreases entry.senses@.len() - i,
    {
        let sense = &entry.senses[i];
        assert(entry@.senses[i as int] == sense@);
        if applies(sense, reading) {
            let kind: u128 = i as u128 * 20;
            add_listed(output, shown, &sense.sources, base, penalty, kind);
            add_listed(output, shown, &sense.glosses, base, penalty, 500 + kind);
            assert(views(output@) =~= before + sense_candidates(
                entry@,
                reading@,
                base as int,
                i + 1,
            ));
        }
        i += 1;
    }
}

/// Adds the candidates of an entry, and the readings that they are made for. Says whether the
/// entry has a reading in katakana.
pub fn process_entry(
    entry: &RawEntry,
    base_cost: i32,
    output: &mut Vec<OutputEntry>,
    readings: &mut Vec<String>,
) -> (katakana: bool)
    ensures
        views(final(output)@) == views(old(output)@) + entry_candidates(
            entry@,
            base_cost as int,
            entry@.readings.len() as int,
        ),
        texts(final(readings)@) == texts(old(readings)@) + used_readings(
            entry@,
            entry@.readings.len() as int,
        ),
        katakana == has_katakana(entry@),
{
    let ghost before = views(output@);
    let ghost known = texts(readings@);
    let mut katakana = false;
    let mut i: usize = 0;
    assert(before =~= before + entry_candidates(entry@, base_cost as int, 0));
    assert(known =~= known + used_readings(entry@, 0));
    while i < entry.readings.len()
        invariant
            i <= entry.readings@.len(),
            views(output@) == before + entry_candidates(entry@, base_cost as int, i as int),
            texts(readings@) == known + used_readings(entry@, i as int),
            katakana == (exists|j: int|
                0 <= j < i && is_katakana_text((#[trigger] entry@.readings[j]).text)),
        decreases entry.readings@.len() - i,
    {
        let reading = &entry.readings[i];
        assert(entry@.readings[i as int] == reading@);
        if is_katakana_reading(reading.text.as_str()) {
            assert(is_katakana_text(entry@.readings[i as int].text));
            katakana = true;
            let shown = normalize_reading(reading.text.as_str());
            if byte_length(shown.as_str()) <= MAX_FIELD_BYTES {
                let penalty = priority_penalty(&reading.priorities);
                add_listed(output, shown.as_str(), &entry.entry_sources, base_cost, penalty, 0);
                add_senses(output, entry, reading, shown.as_str(), base_cost, penalty);
                proof {
                    crate::text::texts_push(readings@, shown);
                }
                readings.push(shown);
            }
        }
        assert(views(output@) =~= before + entry_candidates(entry@, base_cost as int, i + 1));
        assert(texts(readings@) =~= known + used_readings(entry@, i + 1));
        i += 1;
    }
    katakana
}

/// The number of distinct texts of a list.
pub fn count_distinct(list: Vec<String>) -> (count: usize)
    ensures
        count == distinct(texts(list@)).len(),
{
    let ghost all = texts(list@);
    let mut index = TextIndex::new();
    assert(all.take(0) =~= Seq::empty());
    for text in it: list
        invariant
            texts(it.seq()) == all,
            index.well_formed(),
            index@ == distinct(all.take(it.index())),
    {
        assert(all.take(it.index() + 1).drop_last() =~= all.take(it.index()));
        assert(all.take(it.index() + 1).last() == text@);
        let place = index.intern(text);
    }
    assert(all.take(all.len() as int) =~= all);
    index.len()
}

} // verus!
