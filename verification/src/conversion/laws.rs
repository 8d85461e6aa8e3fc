//! What conversions are, said of the entries of the dictionary and of characters.

use crate::conversion::dictionary::{
    entry_fault, first_fault, is_dictionary, is_made, normal_reading, normalized_entries,
    Dictionary, EntryFault, EntryView,
};
use crate::conversion::optimality::first_conversion_is_best;
use crate::conversion::search::{
    candidate_order, conversions, conversions_are_ranked, conversions_are_segmentations,
    convert_error, copied_segment, entry_segment, is_step, limited_options, segments_convert,
    spelled, total_cost, unknown_count, written, ConvertError, ConvertOptions, SegmentView,
};
use crate::conversion::segmentations::{every_text_comes_out, segmentations};
use crate::kana::nfkc_of;
use crate::order::{text_rank, Rank};
use crate::text::has_control;
use vstd::prelude::*;

verus! {

/// A step of a conversion: an entry of the dictionary, or a character that is copied.
pub enum Step {
    Entry(EntryView),
    Copied(char),
}

impl Step {
    /// The characters of the reading that the step takes.
    pub open spec fn reading(self) -> Seq<char> {
        match self {
            Step::Entry(entry) => entry.reading,
            Step::Copied(c) => seq![c],
        }
    }

    /// The text that the step gives.
    pub open spec fn surface(self) -> Seq<char> {
        match self {
            Step::Entry(entry) => entry.surface,
            Step::Copied(c) => seq![c],
        }
    }

    /// What the step costs: what stands in the dictionary, whatever the order of the entry.
    pub open spec fn cost(self, unknown_cost: int) -> int {
        match self {
            Step::Entry(entry) => entry.cost as int,
            Step::Copied(_) => unknown_cost,
        }
    }
}

/// What the steps take of the reading, one after the other.
pub open spec fn taken(steps: Seq<Step>) -> Seq<char>
    decreases steps.len(),
{
    if steps.len() == 0 {
        Seq::empty()
    } else {
        taken(steps.drop_last()) + steps.last().reading()
    }
}

/// What the steps give, one after the other.
pub open spec fn given(steps: Seq<Step>) -> Seq<char>
    decreases steps.len(),
{
    if steps.len() == 0 {
        Seq::empty()
    } else {
        given(steps.drop_last()) + steps.last().surface()
    }
}

/// What the steps cost together.
pub open spec fn price(steps: Seq<Step>, unknown_cost: int) -> int
    decreases steps.len(),
{
    if steps.len() == 0 {
        0
    } else {
        price(steps.drop_last(), unknown_cost) + steps.last().cost(unknown_cost)
    }
}

/// How many of the steps copy a character.
pub open spec fn copies(steps: Seq<Step>) -> nat
    decreases steps.len(),
{
    if steps.len() == 0 {
        0
    } else {
        copies(steps.drop_last()) + if steps.last() is Copied {
            1nat
        } else {
            0nat
        }
    }
}

/// The steps use nothing but entries of the dictionary and copied characters.
pub open spec fn are_steps(entries: Seq<EntryView>, steps: Seq<Step>) -> bool {
    forall|i: int|
        0 <= i < steps.len() && (#[trigger] steps[i]) is Entry ==> entries.contains(
            steps[i]->Entry_0,
        )
}

/// The segment says what the step does: an entry with all its fields, or a copied character,
/// which has no context and the order zero.
pub open spec fn tells(segment: SegmentView, step: Step, unknown_cost: int) -> bool {
    &&& segment.reading == step.reading()
    &&& segment.surface == step.surface()
    &&& segment.cost == step.cost(unknown_cost)
    &&& match step {
        Step::Entry(entry) => {
            &&& segment.left_id == entry.left_id
            &&& segment.right_id == entry.right_id
            &&& segment.order == entry.order
        },
        Step::Copied(_) => segment.left_id == 0 && segment.right_id == 0 && segment.order == 0,
    }
}

/// The segments say what the steps do.
pub open spec fn tell(segments: Seq<SegmentView>, steps: Seq<Step>, unknown_cost: int) -> bool {
    &&& segments.len() == steps.len()
    &&& forall|i: int|
        0 <= i < steps.len() ==> tells(#[trigger] segments[i], steps[i], unknown_cost)
}

proof fn segments_of_steps(
    entries: Seq<EntryView>,
    segments: Seq<SegmentView>,
    steps: Seq<Step>,
    unknown_cost: int,
)
    requires
        is_dictionary(entries),
        unknown_cost > 0,
        are_steps(entries, steps),
        tell(segments, steps, unknown_cost),
    ensures
        spelled(segments) == taken(steps),
        written(segments) == given(steps),
        price(steps, unknown_cost) >= 0,
        total_cost(segments) == if price(steps, unknown_cost) > i64::MAX {
            i64::MAX as int
        } else {
            price(steps, unknown_cost)
        },
        unknown_count(segments) == copies(steps),
    decreases steps.len(),
{
    if steps.len() > 0 {
        let shorter = steps.drop_last();
        let before = segments.drop_last();
        assert(forall|i: int| 0 <= i < shorter.len() ==> shorter[i] == steps[i]);
        assert(forall|i: int| 0 <= i < before.len() ==> before[i] == segments[i]);
        segments_of_steps(entries, before, shorter, unknown_cost);
        let step = steps[steps.len() - 1];
        assert(tells(segments[steps.len() - 1], step, unknown_cost));
        match step {
            Step::Entry(entry) => {
                assert(entries.contains(entry));
                assert(entry_fault(entries[entries.index_of(entry)]) is None);
            },
            Step::Copied(_) => {},
        }
    }
}

/// The steps behind a segment.
proof fn step_behind(
    entries: Seq<EntryView>,
    unknown_cost: int,
    segment: SegmentView,
) -> (step: Step)
    requires
        is_step(entries, unknown_cost, segment),
    ensures
        step is Entry ==> entries.contains(step->Entry_0),
        tells(segment, step, unknown_cost),
{
    if exists|i: int| 0 <= i < entries.len() && segment == entry_segment(#[trigger] entries[i]) {
        let i = choose|i: int|
            0 <= i < entries.len() && segment == entry_segment(#[trigger] entries[i]);
        assert(entries.contains(entries[i]));
        Step::Entry(entries[i])
    } else {
        Step::Copied(choose|c: char| segment == #[trigger] copied_segment(c, unknown_cost))
    }
}

proof fn steps_behind(
    entries: Seq<EntryView>,
    unknown_cost: int,
    segments: Seq<SegmentView>,
) -> (steps: Seq<Step>)
    requires
        forall|i: int|
            0 <= i < segments.len() ==> is_step(entries, unknown_cost, #[trigger] segments[i]),
    ensures
        are_steps(entries, steps),
        tell(segments, steps, unknown_cost),
    decreases segments.len(),
{
    if segments.len() == 0 {
        Seq::empty()
    } else {
        let before = segments.drop_last();
        assert(forall|i: int| 0 <= i < before.len() ==> before[i] == segments[i]);
        let steps = steps_behind(entries, unknown_cost, before);
        assert(is_step(entries, unknown_cost, segments[segments.len() - 1]));
        let step = step_behind(entries, unknown_cost, segments.last());
        let all = steps.push(step);
        assert forall|i: int| 0 <= i < all.len() implies tells(
            #[trigger] segments[i],
            all[i],
            unknown_cost,
        ) by {
            if i < steps.len() {
                assert(tells(before[i], steps[i], unknown_cost));
            }
        }
        assert forall|i: int| 0 <= i < all.len() && (#[trigger] all[i]) is Entry implies
            entries.contains(all[i]->Entry_0) by {
            if i < steps.len() {
                assert(all[i] == steps[i]);
            }
        }
        all
    }
}

/// The segments that say what the steps do.
spec fn said(steps: Seq<Step>, unknown_cost: int) -> Seq<SegmentView> {
    Seq::new(
        steps.len(),
        |i: int|
            match steps[i] {
                Step::Entry(entry) => entry_segment(entry),
                Step::Copied(c) => copied_segment(c, unknown_cost),
            },
    )
}

proof fn steps_convert(entries: Seq<EntryView>, steps: Seq<Step>, unknown_cost: int)
    requires
        is_dictionary(entries),
        unknown_cost > 0,
        are_steps(entries, steps),
    ensures
        segments_convert(entries, unknown_cost, said(steps, unknown_cost), taken(steps)),
        tell(said(steps, unknown_cost), steps, unknown_cost),
{
    let segments = said(steps, unknown_cost);
    assert forall|i: int| 0 <= i < segments.len() implies is_step(
        entries,
        unknown_cost,
        #[trigger] segments[i],
    ) by {
        match steps[i] {
            Step::Entry(entry) => {
                assert(entries.contains(entry));
                assert(segments[i] == entry_segment(entries[entries.index_of(entry)]));
            },
            Step::Copied(c) => {
                assert(segments[i] == copied_segment(c, unknown_cost));
            },
        }
    }
    assert forall|i: int| 0 <= i < steps.len() implies tells(
        #[trigger] segments[i],
        steps[i],
        unknown_cost,
    ) by {}
    segments_of_steps(entries, segments, steps, unknown_cost);
}

/// Each result is made of entries and copied characters that take the whole reading: its text is
/// what they give, and its cost is what stands in the dictionary for the entries, whatever their
/// order, and `unknown_cost` for each copied character, up to the end of the range of 64 bits.
pub proof fn results_add_up(
    entries: Seq<EntryView>,
    reading: Seq<char>,
    options: ConvertOptions,
    i: int,
) -> (steps: Seq<Step>)
    requires
        is_dictionary(entries),
        options.unknown_cost > 0,
        0 <= i < conversions(entries, reading, options).len(),
    ensures
        are_steps(entries, steps),
        taken(steps) == reading,
        conversions(entries, reading, options)[i].text == given(steps),
        conversions(entries, reading, options)[i].cost == if price(
            steps,
            options.unknown_cost as int,
        ) > i64::MAX {
            i64::MAX as int
        } else {
            price(steps, options.unknown_cost as int)
        },
        tell(
            conversions(entries, reading, options)[i].segments,
            steps,
            options.unknown_cost as int,
        ),
{
    let unknown_cost = options.unknown_cost as int;
    let result = conversions(entries, reading, options)[i];
    conversions_are_segmentations(entries, reading, options, i);
    let steps = steps_behind(entries, unknown_cost, result.segments);
    segments_of_steps(entries, result.segments, steps, unknown_cost);
    steps
}

/// How many of the segments have the order zero.
pub open spec fn zero_orders(segments: Seq<SegmentView>) -> nat
    decreases segments.len(),
{
    if segments.len() == 0 {
        0
    } else {
        zero_orders(segments.drop_last()) + if segments.last().order == 0 {
            1nat
        } else {
            0nat
        }
    }
}

proof fn unknowns_are_zero_orders(segments: Seq<SegmentView>)
    ensures
        unknown_count(segments) == zero_orders(segments),
    decreases segments.len(),
{
    if segments.len() > 0 {
        unknowns_are_zero_orders(segments.drop_last());
    }
}

/// No entries and copied characters that take the whole reading cost less together than the first
/// result. Of those that cost as much, none copies fewer characters, and none that copies as many
/// has fewer steps.
pub proof fn no_steps_are_better(
    entries: Seq<EntryView>,
    reading: Seq<char>,
    options: ConvertOptions,
    steps: Seq<Step>,
)
    requires
        is_dictionary(entries),
        0 < options.candidate_limit <= options.beam_width,
        options.unknown_cost > 0,
        are_steps(entries, steps),
        taken(steps) == reading,
    ensures
        conversions(entries, reading, options).len() > 0,
        ({
            let first = conversions(entries, reading, options)[0];
            let cost = price(steps, options.unknown_cost as int);
            &&& first.cost <= cost
            &&& first.cost == cost && cost < i64::MAX ==> {
                ||| zero_orders(first.segments) < copies(steps)
                ||| zero_orders(first.segments) == copies(steps) && first.segments.len()
                    <= steps.len()
            }
        }),
{
    let unknown_cost = options.unknown_cost as int;
    let segments = said(steps, unknown_cost);
    steps_convert(entries, steps, unknown_cost);
    segments_of_steps(entries, segments, steps, unknown_cost);
    first_conversion_is_best(entries, reading, options, segments);
    conversions_are_segmentations(entries, reading, options, 0);
    unknowns_are_zero_orders(conversions(entries, reading, options)[0].segments);
}

/// Where there is room for all ways to convert the reading, what any steps give is among the
/// results, at no more than they cost.
pub proof fn all_steps_come_out(
    entries: Seq<EntryView>,
    reading: Seq<char>,
    options: ConvertOptions,
    steps: Seq<Step>,
)
    requires
        is_dictionary(entries),
        options.unknown_cost > 0,
        segmentations(entries, options.unknown_cost as int, reading).len() <= options.beam_width,
        segmentations(entries, options.unknown_cost as int, reading).len()
            <= options.candidate_limit,
        are_steps(entries, steps),
        taken(steps) == reading,
    ensures
        exists|i: int|
            0 <= i < conversions(entries, reading, options).len() && (#[trigger] conversions(
                entries,
                reading,
                options,
            )[i]).text == given(steps) && conversions(entries, reading, options)[i].cost <= price(
                steps,
                options.unknown_cost as int,
            ),
{
    let unknown_cost = options.unknown_cost as int;
    let segments = said(steps, unknown_cost);
    steps_convert(entries, steps, unknown_cost);
    segments_of_steps(entries, segments, steps, unknown_cost);
    every_text_comes_out(entries, reading, options, segments);
    let results = conversions(entries, reading, options);
    let i = choose|i: int| 0 <= i < results.len() && (#[trigger] results[i]).text == given(steps);
    assert(results[i].cost <= total_cost(segments));
}

/// Results come cheapest first; at one cost, those that copy fewer characters come first, then
/// those with fewer segments, then the texts in order. No text comes twice, and no more results
/// come than were asked for.
pub proof fn results_are_in_order(
    entries: Seq<EntryView>,
    reading: Seq<char>,
    options: ConvertOptions,
    i: int,
    j: int,
)
    requires
        0 <= i < j < conversions(entries, reading, options).len(),
    ensures
        conversions(entries, reading, options).len() <= options.candidate_limit,
        ({
            let first = conversions(entries, reading, options)[i];
            let second = conversions(entries, reading, options)[j];
            &&& first.text != second.text
            &&& first.cost <= second.cost
            &&& first.cost == second.cost ==> zero_orders(first.segments) <= zero_orders(
                second.segments,
            )
            &&& first.cost == second.cost && zero_orders(first.segments) == zero_orders(
                second.segments,
            ) ==> first.segments.len() <= second.segments.len()
            &&& first.cost == second.cost && zero_orders(first.segments) == zero_orders(
                second.segments,
            ) && first.segments.len() == second.segments.len() ==> text_rank(
                first.text,
                second.text,
            ) != Rank::After
        }),
{
    let results = conversions(entries, reading, options);
    conversions_are_ranked(entries, reading, options);
    unknowns_are_zero_orders(results[i].segments);
    unknowns_are_zero_orders(results[j].segments);
    assert(candidate_order(results[i], results[j]) != Rank::After);
}

/// A reading is converted where at least one result is asked for, the beam is not narrower than
/// that, copying costs something, and the reading has no control character. Of several things
/// that are wrong the first is said.
pub proof fn conversions_are_refused(reading: Seq<char>, options: ConvertOptions)
    ensures
        convert_error(reading, options) is None <==> {
            &&& options.candidate_limit >= 1
            &&& options.beam_width >= options.candidate_limit
            &&& options.unknown_cost >= 1
            &&& forall|i: int|
                0 <= i < reading.len() ==> !((#[trigger] reading[i]) as int <= 0x1F || 0x7F
                    <= reading[i] as int <= 0x9F)
        },
        convert_error(reading, options) == Some(ConvertError::ZeroCandidateLimit)
            <==> options.candidate_limit == 0,
        convert_error(reading, options) == Some(ConvertError::NarrowBeam) <==> 0
            < options.candidate_limit && options.beam_width < options.candidate_limit,
        convert_error(reading, options) == Some(ConvertError::UnknownCostNotPositive) <==> 0
            < options.candidate_limit <= options.beam_width && options.unknown_cost <= 0,
{
    if has_control(reading) {
        let i = choose|i: int|
            0 <= i < reading.len() && crate::text::is_control(#[trigger] reading[i]);
        assert(reading[i] as int <= 0x1F || 0x7F <= reading[i] as int <= 0x9F);
    } else {
        assert forall|i: int| 0 <= i < reading.len() implies !((#[trigger] reading[i]) as int
            <= 0x1F || 0x7F <= reading[i] as int <= 0x9F) by {
            assert(!crate::text::is_control(reading[i]));
        }
    }
}

/// With nothing but a limit given, copying a character costs 50,000, and a beam holds eight times
/// as many hypotheses as results are asked for, but not fewer than 64.
pub proof fn limits_widen_beams(limit: usize)
    ensures
        limited_options(limit).candidate_limit == limit,
        limited_options(limit).unknown_cost == 50_000,
        limited_options(limit).beam_width >= 64,
        limited_options(limit).beam_width >= limit,
        limit <= 8 ==> limited_options(limit).beam_width == 64,
        8 <= limit && 8 * limit <= usize::MAX ==> limited_options(limit).beam_width == 8 * limit,
{
}

/// An entry can stand in a dictionary where its reading and its surface are not empty and hold no
/// control character, its cost is not negative, and its order is one, two or three.
pub proof fn entries_are_refused(entry: EntryView)
    ensures
        entry_fault(entry) is None <==> {
            &&& entry.reading.len() >= 1 && entry.surface.len() >= 1
            &&& entry.cost >= 0
            &&& entry.order == 1 || entry.order == 2 || entry.order == 3
            &&& forall|i: int|
                0 <= i < entry.reading.len() ==> !((#[trigger] entry.reading[i]) as int <= 0x1F
                    || 0x7F <= entry.reading[i] as int <= 0x9F)
            &&& forall|i: int|
                0 <= i < entry.surface.len() ==> !((#[trigger] entry.surface[i]) as int <= 0x1F
                    || 0x7F <= entry.surface[i] as int <= 0x9F)
        },
        entry_fault(entry) == Some(EntryFault::EmptyField) <==> entry.reading.len() == 0
            || entry.surface.len() == 0,
        entry.reading.len() > 0 && entry.surface.len() > 0 ==> (entry_fault(entry) == Some(
            EntryFault::NegativeCost,
        ) <==> entry.cost < 0),
        entry.reading.len() > 0 && entry.surface.len() > 0 && entry.cost >= 0 ==> (entry_fault(
            entry,
        ) == Some(EntryFault::OrderOutOfRange) <==> entry.order == 0 || entry.order > 3),
{
    let bad = |c: char| c as int <= 0x1F || 0x7F <= c as int <= 0x9F;
    assert forall|text: Seq<char>| #[trigger] has_control(text) <==> exists|i: int|
        0 <= i < text.len() && bad(#[trigger] text[i]) by {
        if has_control(text) {
            let i = choose|i: int|
                0 <= i < text.len() && crate::text::is_control(#[trigger] text[i]);
            assert(bad(text[i]));
        }
        if exists|i: int| 0 <= i < text.len() && bad(#[trigger] text[i]) {
            let i = choose|i: int| 0 <= i < text.len() && bad(#[trigger] text[i]);
            assert(crate::text::is_control(text[i]));
        }
    }
    assert(has_control(entry.reading) <==> exists|i: int|
        0 <= i < entry.reading.len() && bad(#[trigger] entry.reading[i]));
    assert(has_control(entry.surface) <==> exists|i: int|
        0 <= i < entry.surface.len() && bad(#[trigger] entry.surface[i]));
}

/// Of the entries given for one reading, once normalized, and one surface, a dictionary holds the
/// cheapest; at one cost that of the lowest order, then the one with the lowest left and then
/// right context. What it holds was given, but for the form of the reading, and for whatever was
/// given it holds an entry.
pub proof fn cheapest_entries_are_held(
    dictionary: Dictionary,
    entries: Seq<EntryView>,
    held: EntryView,
    i: int,
)
    requires
        is_made(Ok(dictionary), entries),
        0 <= i < entries.len(),
        dictionary@.contains(held),
        held.reading == normal_reading(entries[i].reading),
        held.surface == entries[i].surface,
    ensures
        held.cost <= entries[i].cost,
        held.cost == entries[i].cost ==> held.order <= entries[i].order,
        held.cost == entries[i].cost && held.order == entries[i].order ==> held.left_id
            <= entries[i].left_id,
        held.cost == entries[i].cost && held.order == entries[i].order && held.left_id
            == entries[i].left_id ==> held.right_id <= entries[i].right_id,
        exists|j: int|
            0 <= j < entries.len() && held == (EntryView {
                reading: normal_reading((#[trigger] entries[j]).reading),
                ..entries[j]
            }),
{
    let all = normalized_entries(entries);
    assert(crate::conversion::dictionary::is_preferred(all, held));
    assert(all[i].reading == held.reading && all[i].surface == held.surface);
    assert(crate::conversion::dictionary::same_conversion(held, all[i]));
    let j = all.index_of(held);
    assert(all[j] == held);
    assert(held == (EntryView { reading: normal_reading(entries[j].reading), ..entries[j] }));
}

/// A dictionary holds an entry for each reading, once normalized, and surface that was given.
pub proof fn conversions_are_held(
    dictionary: Dictionary,
    entries: Seq<EntryView>,
    i: int,
) -> (held: EntryView)
    requires
        is_made(Ok(dictionary), entries),
        0 <= i < entries.len(),
    ensures
        dictionary@.contains(held),
        held.reading == normal_reading(entries[i].reading),
        held.surface == entries[i].surface,
{
    let all = normalized_entries(entries);
    assert(all.contains(all[i]));
    crate::conversion::dictionary::selection_is_complete_and_cheapest(dictionary@, all, all[i]);
    choose|kept: EntryView|
        #![trigger dictionary@.contains(kept)]
        dictionary@.contains(kept) && crate::conversion::dictionary::same_conversion(kept, all[i])
            && kept.cost <= all[i].cost
}

/// The entries of a dictionary stand by reading, at one reading by cost, and at one cost by
/// surface.
pub proof fn entries_are_in_order(entries: Seq<EntryView>, i: int, j: int)
    requires
        is_dictionary(entries),
        0 <= i < j < entries.len(),
    ensures
        text_rank(entries[i].reading, entries[j].reading) != Rank::After,
        entries[i].reading == entries[j].reading ==> entries[i].cost <= entries[j].cost,
        entries[i].reading == entries[j].reading && entries[i].cost == entries[j].cost
            ==> text_rank(entries[i].surface, entries[j].surface) == Rank::Before,
        entries[i].reading != entries[j].reading || entries[i].surface != entries[j].surface,
{
    crate::order::text_rank_same(entries[i].reading, entries[j].reading);
    crate::order::text_rank_same(entries[i].surface, entries[j].surface);
    assert(crate::conversion::dictionary::dictionary_order(entries[i], entries[j])
        == Rank::Before);
}

/// Normalizing a reading is form KC with each of the katakana from U+30A1 to U+30F6 and from
/// U+30FD to U+30FE moved 0x60 places down, and nothing else.
pub proof fn readings_are_moved_to_hiragana(reading: Seq<char>, i: int)
    requires
        0 <= i < nfkc_of(reading).len(),
    ensures
        normal_reading(reading).len() == nfkc_of(reading).len(),
        ({
            let before = nfkc_of(reading)[i] as int;
            let after = normal_reading(reading)[i] as int;
            if 0x30A1 <= before <= 0x30F6 || before == 0x30FD || before == 0x30FE {
                after == before - 0x60
            } else {
                after == before
            }
        }),
{
}

/// The fault that is found is that of the first entry that has one.
pub proof fn first_fault_is_found(entries: Seq<EntryView>, fault: EntryFault) -> (i: int)
    requires
        first_fault(entries) == Some(fault),
    ensures
        0 <= i < entries.len(),
        entry_fault(entries[i]) == Some(fault),
        forall|j: int| 0 <= j < i ==> entry_fault(#[trigger] entries[j]) is None,
    decreases entries.len(),
{
    let before = entries.drop_last();
    if first_fault(before) is Some {
        let i = first_fault_is_found(before, fault);
        assert(forall|j: int| 0 <= j < before.len() ==> before[j] == entries[j]);
        i
    } else {
        crate::conversion::dictionary::faults_are_found(before);
        assert(forall|j: int| 0 <= j < before.len() ==> before[j] == entries[j]);
        entries.len() - 1
    }
}

} // verus!
