//! What is measured of conversions, said of the items.

use crate::conversion::ajimee::{
    edit_distance, has_empty, is_valid_item, item_fault, least_rate, rate_of, summary_of, ErrorRate,
    ItemFault, ItemView,
};
use crate::conversion::dictionary::{normal_reading, EntryView};
use crate::conversion::search::{conversions, convert_error, limited_options};
use vstd::prelude::*;

verus! {

/// Each item is measured by the first of its conversions: it is right where that is one of the
/// expected outputs, and its rate is the least by any of them. It counts among the items with a
/// context where it has one, and among those without otherwise.
pub proof fn items_are_measured(entries: Seq<EntryView>, items: Seq<ItemView>, count: int)
    requires
        0 <= count < items.len(),
    ensures
        ({
            let item = items[count];
            let text = conversions(
                entries,
                normal_reading(item.input),
                limited_options(1),
            )[0].text;
            let right = if item.expected_output.contains(text) {
                1nat
            } else {
                0nat
            };
            let rate = least_rate(item.expected_output, text);
            let before = summary_of(entries, items, count);
            let after = summary_of(entries, items, count + 1);
            &&& after.overall.items == before.overall.items + 1
            &&& after.overall.correct_at_1 == before.overall.correct_at_1 + right
            &&& after.overall.min_cer == before.overall.min_cer.push(rate)
            &&& item.context_text.len() > 0 ==> {
                &&& after.with_context.items == before.with_context.items + 1
                &&& after.with_context.correct_at_1 == before.with_context.correct_at_1 + right
                &&& after.with_context.min_cer == before.with_context.min_cer.push(rate)
                &&& after.without_context == before.without_context
            }
            &&& item.context_text.len() == 0 ==> {
                &&& after.without_context.items == before.without_context.items + 1
                &&& after.without_context.correct_at_1 == before.without_context.correct_at_1
                    + right
                &&& after.without_context.min_cer == before.without_context.min_cer.push(rate)
                &&& after.with_context == before.with_context
            }
        }),
        summary_of(entries, items, 0).overall.items == 0,
        summary_of(entries, items, 0).overall.correct_at_1 == 0,
        summary_of(entries, items, 0).overall.min_cer.len() == 0,
{
}

/// A rate is the number of edits that turn the reference into the text, by the length of the
/// reference; rates are compared as fractions.
pub proof fn rates_are_fractions(
    reference: Seq<char>,
    hypothesis: Seq<char>,
    left: ErrorRate,
    right: ErrorRate,
)
    requires
        reference.len() <= usize::MAX,
        0 <= edit_distance(reference, hypothesis) <= usize::MAX,
    ensures
        rate_of(reference, hypothesis).distance == edit_distance(reference, hypothesis),
        rate_of(reference, hypothesis).length == reference.len(),
        left.is_below(right) <==> left.distance * right.length < right.distance * left.length,
{
}

/// An item is evaluated where it has expected outputs, its reading can be converted, and none of the
/// outputs is empty.
pub proof fn items_are_refused(item: ItemView)
    ensures
        item_fault(item) is None <==> {
            &&& item.expected_output.len() > 0
            &&& convert_error(normal_reading(item.input), limited_options(1)) is None
            &&& forall|i: int|
                0 <= i < item.expected_output.len() ==> (#[trigger] item.expected_output[i]).len()
                    > 0
        },
        item_fault(item) == Some(ItemFault::NoExpectedOutput) <==> item.expected_output.len() == 0,
        is_valid_item(item) <==> {
            &&& item.expected_output.len() > 0
            &&& forall|i: int|
                0 <= i < item.expected_output.len() ==> (#[trigger] item.expected_output[i]).len()
                    > 0
        },
{
    if has_empty(item.expected_output) {
        let i = choose|i: int|
            0 <= i < item.expected_output.len() && (#[trigger] item.expected_output[i]).len() == 0;
        assert(item.expected_output[i].len() == 0);
    } else {
        assert forall|i: int| 0 <= i < item.expected_output.len() implies (
        #[trigger] item.expected_output[i]).len() > 0 by {}
    }
}

} // verus!
