//! Evaluation of conversions that is compatible with AJIMEE-Bench.
//!
//! Rates are kept as fractions. Context is used only to stratify the report, never as input of a
//! conversion.

use crate::conversion::dictionary::{normal_reading, EntryView};
use crate::conversion::search::{
    conversions, convert_error, limited_options, ConvertError, Converter,
};
use crate::text::{any_text, chars_of, texts};
use crate::views::views;
use vstd::prelude::*;

verus! {

/// A reading and the conversions that are right for it.
#[derive(Clone, Debug, PartialEq, Eq)]
pub struct EvaluationItem {
    pub index: String,
    pub context_text: String,
    pub input: String,
    pub expected_output: Vec<String>,
}

#[verifier::ext_equal]
pub struct ItemView {
    pub index: Seq<char>,
    pub context_text: Seq<char>,
    pub input: Seq<char>,
    pub expected_output: Seq<Seq<char>>,
}

impl View for EvaluationItem {
    type V = ItemView;

    open spec fn view(&self) -> ItemView {
        ItemView {
            index: self.index@,
            context_text: self.context_text@,
            input: self.input@,
            expected_output: texts(self.expected_output@),
        }
    }
}

/// The smaller of two numbers.
pub open spec fn smaller(left: int, right: int) -> int {
    if left < right {
        left
    } else {
        right
    }
}

/// The least number of characters to replace, insert and delete in order to turn one text into
/// the other.
pub open spec fn edit_distance(left: Seq<char>, right: Seq<char>) -> int
    decreases left.len(), right.len(),
{
    if left.len() == 0 {
        right.len() as int
    } else if right.len() == 0 {
        left.len() as int
    } else {
        let replaced = edit_distance(left.drop_last(), right.drop_last()) + if left.last()
            == right.last() {
            0int
        } else {
            1
        };
        let inserted = edit_distance(left, right.drop_last()) + 1;
        let deleted = edit_distance(left.drop_last(), right) + 1;
        smaller(smaller(replaced, inserted), deleted)
    }
}

/// The distance of two texts is at most the length of the longer one, and at least the difference
/// of their lengths.
pub proof fn distance_is_bounded(left: Seq<char>, right: Seq<char>)
    ensures
        edit_distance(left, right) <= left.len() || edit_distance(left, right) <= right.len(),
        edit_distance(left, right) >= left.len() - right.len(),
        edit_distance(left, right) >= right.len() - left.len(),
        edit_distance(left, right) >= 0,
    decreases left.len(), right.len(),
{
    if left.len() > 0 && right.len() > 0 {
        distance_is_bounded(left.drop_last(), right.drop_last());
        distance_is_bounded(left, right.drop_last());
        distance_is_bounded(left.drop_last(), right);
    }
}

/// The distance is the same in both directions.
pub proof fn distance_is_symmetric(left: Seq<char>, right: Seq<char>)
    ensures
        edit_distance(left, right) == edit_distance(right, left),
    decreases left.len(), right.len(),
{
    if left.len() > 0 && right.len() > 0 {
        distance_is_symmetric(left.drop_last(), right.drop_last());
        distance_is_symmetric(left, right.drop_last());
        distance_is_symmetric(left.drop_last(), right);
    }
}

/// Equal texts, and no others, have the distance zero.
pub proof fn distance_is_zero_for_equal_texts(left: Seq<char>, right: Seq<char>)
    ensures
        edit_distance(left, right) == 0 <==> left == right,
    decreases left.len(), right.len(),
{
    if left.len() == 0 || right.len() == 0 {
        if left.len() == right.len() {
            assert(left =~= right);
        }
    } else {
        distance_is_zero_for_equal_texts(left.drop_last(), right.drop_last());
        distance_is_bounded(left.drop_last(), right.drop_last());
        distance_is_bounded(left, right.drop_last());
        distance_is_bounded(left.drop_last(), right);
        if left.last() == right.last() && left.drop_last() == right.drop_last() {
            assert(left =~= left.drop_last().push(left.last()));
            assert(right =~= right.drop_last().push(right.last()));
        }
    }
}

/// A detour over a third text is not shorter.
pub proof fn distance_has_no_detours(left: Seq<char>, middle: Seq<char>, right: Seq<char>)
    ensures
        edit_distance(left, right) <= edit_distance(left, middle) + edit_distance(middle, right),
    decreases left.len(), middle.len(), right.len(),
{
    distance_is_bounded(left, right);
    distance_is_bounded(left, middle);
    distance_is_bounded(middle, right);
    if left.len() > 0 && middle.len() > 0 && right.len() > 0 {
        distance_has_no_detours(left.drop_last(), middle, right);
        distance_has_no_detours(left, middle, right.drop_last());
        distance_has_no_detours(left, middle.drop_last(), right);
        distance_has_no_detours(left, middle.drop_last(), right.drop_last());
        distance_has_no_detours(left.drop_last(), middle.drop_last(), right);
        distance_has_no_detours(left.drop_last(), middle.drop_last(), right.drop_last());
    }
}

fn one_more(number: usize) -> (next: usize)
    ensures
        next == smaller(number + 1, usize::MAX as int),
{
    if number == usize::MAX {
        number
    } else {
        number + 1
    }
}

/// The row of distances of the first `length` characters of a text.
spec fn is_row(row: Seq<usize>, left: Seq<char>, right: Seq<char>, length: int) -> bool {
    forall|j: int|
        0 <= j < length ==> #[trigger] row[j] == edit_distance(left, right.take(j))
}

/// Turns the row of a text into that of the text with one more character.
fn next_row(
    previous: &[usize],
    current: &mut Vec<usize>,
    character: char,
    right: &[char],
    index: usize,
    Ghost(left): Ghost<Seq<char>>,
)
    requires
        index < usize::MAX,
        left.len() == index,
        previous@.len() == right@.len() + 1,
        old(current)@.len() == right@.len() + 1,
        is_row(previous@, left, right@, right@.len() as int + 1),
    ensures
        final(current)@.len() == right@.len() + 1,
        is_row(final(current)@, left.push(character), right@, right@.len() as int + 1),
{
    let ghost longer = left.push(character);
    current[0] = index + 1;
    assert(right@.take(0).len() == 0);
    assert(current@[0] == edit_distance(longer, right@.take(0)));
    let mut j: usize = 0;
    while j < right.len()
        invariant
            longer == left.push(character),
            left.len() == index,
            index < usize::MAX,
            previous@.len() == right@.len() + 1,
            is_row(previous@, left, right@, right@.len() as int + 1),
            j <= right@.len(),
            current@.len() == right@.len() + 1,
            is_row(current@, longer, right@, j + 1),
        decreases right@.len() - j,
    {
        proof {
            let short = right@.take(j as int);
            let long = right@.take(j + 1);
            assert(previous@[j as int] == edit_distance(left, short));
            assert(previous@[j + 1] == edit_distance(left, long));
            assert(current@[j as int] == edit_distance(longer, short));
            assert(longer.drop_last() =~= left);
            assert(long.drop_last() =~= short);
            assert(long.last() == right@[j as int]);
            distance_is_bounded(longer, long);
            distance_is_bounded(left, short);
        }
        let replaced = if character == right[j] {
            previous[j]
        } else {
            one_more(previous[j])
        };
        let inserted = one_more(current[j]);
        let deleted = one_more(previous[j + 1]);
        let mut least = if replaced < inserted {
            replaced
        } else {
            inserted
        };
        if deleted < least {
            least = deleted;
        }
        let ghost before = current@;
        current[j + 1] = least;
        assert forall|k: int| 0 <= k < j + 2 implies #[trigger] current@[k] == edit_distance(
            longer,
            right@.take(k),
        ) by {
            if k < j + 1 {
                assert(current@[k] == before[k]);
            }
        }
        j += 1;
    }
}

/// The least number of characters to replace, insert and delete in order to turn one text into
/// the other.
pub fn character_distance(left: &str, right: &str) -> (distance: usize)
    ensures
        distance == edit_distance(left@, right@),
{
    let left_chars = chars_of(left);
    let right = chars_of(right);
    let mut previous: Vec<usize> = Vec::new();
    let mut current: Vec<usize> = Vec::new();
    let mut j: usize = 0;
    while j < right.len()
        invariant
            j <= right@.len(),
            previous@.len() == j,
            current@.len() == j,
            is_row(previous@, Seq::empty(), right@, j as int),
        decreases right@.len() - j,
    {
        previous.push(j);
        current.push(0);
        assert(right@.take(j as int).len() == j);
        j += 1;
    }
    previous.push(j);
    current.push(0);
    assert(right@.take(j as int).len() == j);
    let mut i: usize = 0;
    assert(left@.take(0) =~= Seq::empty());
    while i < left_chars.len()
        invariant
            left_chars@ == left@,
            i <= left_chars@.len(),
            previous@.len() == right@.len() + 1,
            current@.len() == right@.len() + 1,
            is_row(previous@, left@.take(i as int), right@, right@.len() as int + 1),
        decreases left_chars@.len() - i,
    {
        next_row(
            &previous,
            &mut current,
            left_chars[i],
            &right,
            i,
            Ghost(left@.take(i as int)),
        );
        assert(left@.take(i + 1) =~= left@.take(i as int).push(left@[i as int]));
        std::mem::swap(&mut previous, &mut current);
        i += 1;
    }
    proof {
        assert(left@.take(i as int) =~= left@);
        assert(right@.take(right@.len() as int) =~= right@);
        assert(previous@[right@.len() as int] == edit_distance(
            left@,
            right@.take(right@.len() as int),
        ));
    }
    previous[right.len()]
}

/// A rate as a fraction: a distance by the length of the reference.
#[derive(Clone, Copy, Debug, PartialEq, Eq, Structural)]
pub struct ErrorRate {
    pub distance: usize,
    pub length: usize,
}

/// The character error rate of a text, by a reference that is not empty.
pub open spec fn rate_of(reference: Seq<char>, hypothesis: Seq<char>) -> ErrorRate {
    ErrorRate {
        distance: edit_distance(reference, hypothesis) as usize,
        length: reference.len() as usize,
    }
}

impl ErrorRate {
    /// The fraction is smaller than another.
    pub open spec fn is_below(self, other: ErrorRate) -> bool {
        self.distance * other.length < other.distance * self.length
    }

    /// Whether the fraction is smaller than another.
    pub fn below(self, other: ErrorRate) -> (smaller: bool)
        ensures
            smaller == self.is_below(other),
    {
        proof {
            product_fits(self.distance, other.length);
            product_fits(other.distance, self.length);
        }
        (self.distance as u128) * (other.length as u128) < (other.distance as u128) * (
        self.length as u128)
    }
}

proof fn product_fits(left: usize, right: usize)
    ensures
        0 <= left * right <= u128::MAX,
{
    assert(0 <= left * right <= 0xFFFF_FFFF_FFFF_FFFF * 0xFFFF_FFFF_FFFF_FFFF) by (nonlinear_arith)
        requires
            0 <= left <= 0xFFFF_FFFF_FFFF_FFFF,
            0 <= right <= 0xFFFF_FFFF_FFFF_FFFF,
    ;
}

/// Why a rate cannot be calculated.
#[derive(Clone, Copy, Debug, PartialEq, Eq, Structural)]
pub enum MetricError {
    EmptyReference,
    NoReference,
}

impl MetricError {
    /// The error in words.
    pub open spec fn text(self) -> Seq<char> {
        match self {
            MetricError::EmptyReference => "cannot calculate CER for an empty reference"@,
            MetricError::NoReference => "cannot calculate MinCER without a reference"@,
        }
    }

    /// Says the error in words.
    pub fn message(self) -> (message: &'static str)
        ensures
            message@ == self.text(),
    {
        match self {
            MetricError::EmptyReference => "cannot calculate CER for an empty reference",
            MetricError::NoReference => "cannot calculate MinCER without a reference",
        }
    }
}

/// The character error rate of a text.
pub fn cer(reference: &str, hypothesis: &str) -> (result: Result<ErrorRate, MetricError>)
    ensures
        result == if reference@.len() == 0 {
            Err::<ErrorRate, _>(MetricError::EmptyReference)
        } else {
            Ok(rate_of(reference@, hypothesis@))
        },
        result is Ok ==> result->Ok_0.distance == edit_distance(reference@, hypothesis@)
            && result->Ok_0.length == reference@.len(),
{
    let length = chars_of(reference).len();
    if length == 0 {
        return Err(MetricError::EmptyReference);
    }
    Ok(ErrorRate { distance: character_distance(reference, hypothesis), length })
}

/// The smallest rate of a text, by references of which there is one at least.
pub open spec fn least_rate(references: Seq<Seq<char>>, hypothesis: Seq<char>) -> ErrorRate
    decreases references.len(),
{
    let last = rate_of(references.last(), hypothesis);
    if references.len() <= 1 {
        last
    } else {
        let before = least_rate(references.drop_last(), hypothesis);
        if last.is_below(before) {
            last
        } else {
            before
        }
    }
}

/// The smallest rate, or why there is none.
pub open spec fn least_rate_or_error(references: Seq<Seq<char>>, hypothesis: Seq<char>) -> Result<
    ErrorRate,
    MetricError,
> {
    if has_empty(references) {
        Err(MetricError::EmptyReference)
    } else if references.len() == 0 {
        Err(MetricError::NoReference)
    } else {
        Ok(least_rate(references, hypothesis))
    }
}

/// One of the texts is empty.
pub open spec fn has_empty(references: Seq<Seq<char>>) -> bool {
    exists|i: int| 0 <= i < references.len() && (#[trigger] references[i]).len() == 0
}

/// The smallest rate of a text by the references.
pub fn min_cer(references: &[String], hypothesis: &str) -> (result: Result<ErrorRate, MetricError>)
    ensures
        result == least_rate_or_error(texts(references@), hypothesis@),
{
    let ghost all = texts(references@);
    let mut least: Option<ErrorRate> = None;
    let mut i: usize = 0;
    while i < references.len()
        invariant
            all == texts(references@),
            i <= references@.len(),
            forall|j: int| 0 <= j < i ==> (#[trigger] all[j]).len() > 0,
            match least {
                Some(rate) => i > 0 && rate == least_rate(all.take(i as int), hypothesis@),
                None => i == 0,
            },
        decreases references@.len() - i,
    {
        proof {
            assert(all[i as int] == references@[i as int]@);
            assert(all.take(i + 1).drop_last() =~= all.take(i as int));
            assert(all.take(i + 1).last() == all[i as int]);
        }
        match cer(references[i].as_str(), hypothesis) {
            Ok(rate) => {
                least = match least {
                    Some(before) => if rate.below(before) {
                        Some(rate)
                    } else {
                        Some(before)
                    },
                    None => Some(rate),
                };
            },
            Err(error) => {
                assert(has_empty(all));
                return Err(error);
            },
        }
        i += 1;
    }
    assert(all.take(i as int) =~= all);
    match least {
        Some(rate) => Ok(rate),
        None => Err(MetricError::NoReference),
    }
}

/// The smallest rate is that of some reference, and no reference has a smaller one.
pub proof fn least_rate_is_least(references: Seq<Seq<char>>, hypothesis: Seq<char>)
    requires
        references.len() > 0,
        !has_empty(references),
        forall|i: int|
            0 <= i < references.len() ==> (#[trigger] references[i]).len() <= usize::MAX,
    ensures
        exists|i: int|
            0 <= i < references.len() && least_rate(references, hypothesis) == rate_of(
                #[trigger] references[i],
                hypothesis,
            ),
        forall|i: int|
            0 <= i < references.len() ==> !rate_of(
                #[trigger] references[i],
                hypothesis,
            ).is_below(least_rate(references, hypothesis)),
        least_rate(references, hypothesis).length > 0,
    decreases references.len(),
{
    let last = rate_of(references.last(), hypothesis);
    assert(references[references.len() - 1] == references.last());
    if references.len() > 1 {
        let shorter = references.drop_last();
        assert(!has_empty(shorter)) by {
            if has_empty(shorter) {
                let i = choose|i: int| 0 <= i < shorter.len() && (#[trigger] shorter[i]).len() == 0;
                assert(references[i] == shorter[i]);
            }
        }
        assert forall|i: int| 0 <= i < shorter.len() implies (#[trigger] shorter[i]).len()
            <= usize::MAX by {
            assert(references[i] == shorter[i]);
        }
        least_rate_is_least(shorter, hypothesis);
        let before = least_rate(shorter, hypothesis);
        let least = least_rate(references, hypothesis);
        let k = choose|i: int|
            0 <= i < shorter.len() && before == rate_of(#[trigger] shorter[i], hypothesis);
        assert(references[k] == shorter[k]);
        assert forall|i: int| 0 <= i < references.len() implies !rate_of(
            #[trigger] references[i],
            hypothesis,
        ).is_below(least) by {
            let rate = rate_of(references[i], hypothesis);
            if i < shorter.len() {
                assert(shorter[i] == references[i]);
                assert(!rate.is_below(before));
                if last.is_below(before) {
                    assert(references[i].len() > 0);
                    below_is_transitive(rate, last, before);
                }
            }
        }
    }
}

proof fn below_is_transitive(first: ErrorRate, second: ErrorRate, third: ErrorRate)
    requires
        second.is_below(third),
        !first.is_below(third),
        first.length > 0,
        third.length > 0,
        second.length > 0,
    ensures
        !first.is_below(second),
{
    let (a, b) = (first.distance as int, first.length as int);
    let (c, d) = (second.distance as int, second.length as int);
    let (e, f) = (third.distance as int, third.length as int);
    assert(a * d >= c * b) by (nonlinear_arith)
        requires
            c * f < e * d,
            a * f >= e * b,
            b > 0,
            d > 0,
            f > 0,
            a >= 0,
            c >= 0,
            e >= 0,
    {
        assert(c * f * b < e * d * b);
        assert(a * f * d >= e * b * d);
        assert((a * d) * f > (c * b) * f);
    }
}

/// Whether a text is one of the references.
pub fn accuracy_at_1(references: &[String], hypothesis: &str) -> (correct: bool)
    ensures
        correct == texts(references@).contains(hypothesis@),
{
    any_text(references, hypothesis)
}

/// Exact matches, and no others, have the rate zero.
pub proof fn exact_matches_have_no_errors(reference: Seq<char>, hypothesis: Seq<char>)
    requires
        reference.len() <= usize::MAX,
        hypothesis.len() <= usize::MAX,
    ensures
        rate_of(reference, hypothesis).distance == 0 <==> reference == hypothesis,
{
    distance_is_zero_for_equal_texts(reference, hypothesis);
    distance_is_bounded(reference, hypothesis);
}

/// Why a dataset is refused.
#[derive(Clone, Debug)]
pub enum DatasetError {
    NoItems,
    NoExpectedOutput { index: String },
    EmptyExpectedOutput { index: String },
}

/// An item has expected outputs, none of which is empty.
pub open spec fn is_valid_item(item: ItemView) -> bool {
    item.expected_output.len() > 0 && !has_empty(item.expected_output)
}

/// The error says what is wrong with the first item that is not valid.
pub open spec fn is_dataset_error(error: DatasetError, items: Seq<ItemView>) -> bool {
    match error {
        DatasetError::NoItems => items.len() == 0,
        DatasetError::NoExpectedOutput { index } => exists|i: int|
            is_first_invalid(items, i) && index@ == items[i].index
                && items[i].expected_output.len() == 0,
        DatasetError::EmptyExpectedOutput { index } => exists|i: int|
            is_first_invalid(items, i) && index@ == items[i].index
                && items[i].expected_output.len() > 0,
    }
}

/// The item at this place is not valid, and all before it are.
pub open spec fn is_first_invalid(items: Seq<ItemView>, place: int) -> bool {
    &&& 0 <= place < items.len()
    &&& !is_valid_item(items[place])
    &&& forall|i: int| 0 <= i < place ==> is_valid_item(#[trigger] items[i])
}

impl DatasetError {
    /// The error in words.
    pub open spec fn text(self) -> Seq<char> {
        match self {
            DatasetError::NoItems => "AJIMEE-Bench dataset contains no items"@,
            DatasetError::NoExpectedOutput { index } => "AJIMEE-Bench item "@ + index@
                + " has no expected output"@,
            DatasetError::EmptyExpectedOutput { index } => "AJIMEE-Bench item "@ + index@
                + " has an empty expected output"@,
        }
    }

    /// Says the error in words.
    pub fn message(&self) -> (message: String)
        ensures
            message@ == self.text(),
    {
        match self {
            DatasetError::NoItems => "AJIMEE-Bench dataset contains no items".to_owned(),
            DatasetError::NoExpectedOutput { index } => {
                let mut message = "AJIMEE-Bench item ".to_owned();
                message.append(index.as_str());
                message.append(" has no expected output");
                message
            },
            DatasetError::EmptyExpectedOutput { index } => {
                let mut message = "AJIMEE-Bench item ".to_owned();
                message.append(index.as_str());
                message.append(" has an empty expected output");
                message
            },
        }
    }
}

fn any_empty(values: &[String]) -> (found: bool)
    ensures
        found == has_empty(texts(values@)),
{
    let mut i: usize = 0;
    while i < values.len()
        invariant
            i <= values@.len(),
            forall|j: int| 0 <= j < i ==> (#[trigger] texts(values@)[j]).len() > 0,
        decreases values@.len() - i,
    {
        assert(texts(values@)[i as int] == values@[i as int]@);
        if values[i].as_str().is_empty() {
            return true;
        }
        i += 1;
    }
    false
}

/// Takes the items of a dataset, if there are any and all are valid.
pub fn load_items(items: Vec<EvaluationItem>) -> (result: Result<Vec<EvaluationItem>, DatasetError>)
    ensures
        match result {
            Ok(loaded) => {
                &&& loaded@ == items@
                &&& items@.len() > 0
                &&& forall|i: int|
                    0 <= i < items@.len() ==> is_valid_item(#[trigger] views(items@)[i])
            },
            Err(error) => is_dataset_error(error, views(items@)),
        },
{
    if items.len() == 0 {
        return Err(DatasetError::NoItems);
    }
    let mut i: usize = 0;
    while i < items.len()
        invariant
            items@.len() > 0,
            i <= items@.len(),
            forall|j: int| 0 <= j < i ==> is_valid_item(#[trigger] views(items@)[j]),
        decreases items@.len() - i,
    {
        let item = &items[i];
        assert(views(items@)[i as int] == item@);
        if item.expected_output.len() == 0 {
            assert(is_first_invalid(views(items@), i as int));
            return Err(DatasetError::NoExpectedOutput { index: item.index.clone() });
        }
        if any_empty(&item.expected_output) {
            assert(is_first_invalid(views(items@), i as int));
            return Err(DatasetError::EmptyExpectedOutput { index: item.index.clone() });
        }
        i += 1;
    }
    Ok(items)
}

/// What was measured on some items: how many there are, how many were converted right, and the
/// smallest rate of each.
#[derive(Clone, Debug, PartialEq, Eq)]
pub struct MetricSet {
    pub items: usize,
    pub correct_at_1: usize,
    pub min_cer: Vec<ErrorRate>,
}

#[verifier::ext_equal]
pub struct MetricView {
    pub items: nat,
    pub correct_at_1: nat,
    pub min_cer: Seq<ErrorRate>,
}

impl View for MetricSet {
    type V = MetricView;

    open spec fn view(&self) -> MetricView {
        MetricView {
            items: self.items as nat,
            correct_at_1: self.correct_at_1 as nat,
            min_cer: self.min_cer@,
        }
    }
}

/// Nothing was measured.
pub open spec fn no_metrics() -> MetricView {
    MetricView { items: 0, correct_at_1: 0, min_cer: Seq::empty() }
}

/// The measures with one more item.
pub open spec fn recorded(metrics: MetricView, correct: bool, rate: ErrorRate) -> MetricView {
    MetricView {
        items: metrics.items + 1,
        correct_at_1: metrics.correct_at_1 + if correct {
            1nat
        } else {
            0nat
        },
        min_cer: metrics.min_cer.push(rate),
    }
}

impl MetricSet {
    fn new() -> (metrics: MetricSet)
        ensures
            metrics@ == no_metrics(),
    {
        MetricSet { items: 0, correct_at_1: 0, min_cer: Vec::new() }
    }

    /// Counts one more item.
    fn record(&mut self, correct: bool, rate: ErrorRate)
        requires
            old(self).correct_at_1 <= old(self).items < usize::MAX,
        ensures
            final(self)@ == recorded(old(self)@, correct, rate),
    {
        self.items += 1;
        if correct {
            self.correct_at_1 += 1;
        }
        self.min_cer.push(rate);
    }
}

/// The measures on all items, and on those with and without a context.
#[derive(Clone, Debug, PartialEq, Eq)]
pub struct EvaluationSummary {
    pub overall: MetricSet,
    pub with_context: MetricSet,
    pub without_context: MetricSet,
}

#[verifier::ext_equal]
pub struct SummaryView {
    pub overall: MetricView,
    pub with_context: MetricView,
    pub without_context: MetricView,
}

impl View for EvaluationSummary {
    type V = SummaryView;

    open spec fn view(&self) -> SummaryView {
        SummaryView {
            overall: self.overall@,
            with_context: self.with_context@,
            without_context: self.without_context@,
        }
    }
}

/// The first conversion of a reading.
pub open spec fn hypothesis_for(entries: Seq<EntryView>, input: Seq<char>) -> Seq<char> {
    conversions(entries, normal_reading(input), limited_options(1))[0].text
}

/// The measures with one more item, which was converted to `hypothesis`.
pub open spec fn with_item(summary: SummaryView, item: ItemView, hypothesis: Seq<char>) -> SummaryView {
    let correct = item.expected_output.contains(hypothesis);
    let rate = least_rate(item.expected_output, hypothesis);
    SummaryView {
        overall: recorded(summary.overall, correct, rate),
        with_context: if item.context_text.len() == 0 {
            summary.with_context
        } else {
            recorded(summary.with_context, correct, rate)
        },
        without_context: if item.context_text.len() == 0 {
            recorded(summary.without_context, correct, rate)
        } else {
            summary.without_context
        },
    }
}

/// The measures on the first `count` items.
pub open spec fn summary_of(
    entries: Seq<EntryView>,
    items: Seq<ItemView>,
    count: int,
) -> SummaryView
    decreases count,
{
    if count <= 0 {
        SummaryView {
            overall: no_metrics(),
            with_context: no_metrics(),
            without_context: no_metrics(),
        }
    } else {
        with_item(
            summary_of(entries, items, count - 1),
            items[count - 1],
            hypothesis_for(entries, items[count - 1].input),
        )
    }
}

/// Why an item cannot be evaluated.
#[derive(Clone, Copy, Debug, PartialEq, Eq, Structural)]
pub enum ItemFault {
    NoExpectedOutput,
    Convert(ConvertError),
    Metric(MetricError),
}

/// The first reason not to evaluate an item.
pub open spec fn item_fault(item: ItemView) -> Option<ItemFault> {
    if item.expected_output.len() == 0 {
        Some(ItemFault::NoExpectedOutput)
    } else {
        match convert_error(normal_reading(item.input), limited_options(1)) {
            Some(error) => Some(ItemFault::Convert(error)),
            None => if has_empty(item.expected_output) {
                Some(ItemFault::Metric(MetricError::EmptyReference))
            } else {
                None
            },
        }
    }
}

/// Why a dataset cannot be evaluated: it has no items, or one has a fault.
#[derive(Clone, Debug)]
pub enum EvaluationError {
    NoItems,
    Item { index: String, fault: ItemFault },
}

/// The first item with a fault stands at this place.
pub open spec fn is_first_fault(items: Seq<ItemView>, place: int, fault: ItemFault) -> bool {
    &&& 0 <= place < items.len()
    &&& item_fault(items[place]) == Some(fault)
    &&& forall|i: int| 0 <= i < place ==> item_fault(#[trigger] items[i]) is None
}

impl EvaluationError {
    /// The error in words.
    pub open spec fn text(self) -> Seq<char> {
        match self {
            EvaluationError::NoItems => "AJIMEE-Bench dataset contains no items"@,
            EvaluationError::Item { index, fault } => match fault {
                ItemFault::NoExpectedOutput => "AJIMEE-Bench item "@ + index@
                    + " has no expected output"@,
                ItemFault::Convert(error) => error.text(),
                ItemFault::Metric(error) => error.text(),
            },
        }
    }

    /// Says the error in words.
    pub fn message(&self) -> (message: String)
        ensures
            message@ == self.text(),
    {
        match self {
            EvaluationError::NoItems => "AJIMEE-Bench dataset contains no items".to_owned(),
            EvaluationError::Item { index, fault } => match fault {
                ItemFault::NoExpectedOutput => {
                    let mut message = "AJIMEE-Bench item ".to_owned();
                    message.append(index.as_str());
                    message.append(" has no expected output");
                    message
                },
                ItemFault::Convert(error) => error.message(),
                ItemFault::Metric(error) => error.message().to_owned(),
            },
        }
    }
}

/// Measures one item, which was converted to `hypothesis`.
pub fn evaluate_item(summary: &mut EvaluationSummary, item: &EvaluationItem, hypothesis: &str) -> (
result: Result<(), MetricError>)
    requires
        old(summary).overall.correct_at_1 <= old(summary).overall.items < usize::MAX,
        old(summary).with_context.correct_at_1 <= old(summary).with_context.items < usize::MAX,
        old(summary).without_context.correct_at_1 <= old(summary).without_context.items
            < usize::MAX,
    ensures
        match result {
            Ok(_) => {
                &&& item@.expected_output.len() > 0
                &&& !has_empty(item@.expected_output)
                &&& final(summary)@ == with_item(old(summary)@, item@, hypothesis@)
            },
            Err(error) => {
                &&& least_rate_or_error(item@.expected_output, hypothesis@) == Err::<
                    ErrorRate,
                    _,
                >(error)
                &&& final(summary)@ == old(summary)@
            },
        },
{
    let correct = accuracy_at_1(&item.expected_output, hypothesis);
    let rate = match min_cer(&item.expected_output, hypothesis) {
        Ok(rate) => rate,
        Err(error) => {
            return Err(error);
        },
    };
    summary.overall.record(correct, rate);
    if item.context_text.as_str().is_empty() {
        summary.without_context.record(correct, rate);
    } else {
        summary.with_context.record(correct, rate);
    }
    Ok(())
}

/// Evaluates the first conversion of each item.
pub fn evaluate(converter: &Converter, items: &[EvaluationItem]) -> (result: Result<
    EvaluationSummary,
    EvaluationError,
>)
    ensures
        match result {
            Ok(summary) => {
                &&& items@.len() > 0
                &&& forall|i: int|
                    0 <= i < items@.len() ==> item_fault(#[trigger] views(items@)[i]) is None
                &&& summary@ == summary_of(converter@, views(items@), items@.len() as int)
            },
            Err(EvaluationError::NoItems) => items@.len() == 0,
            Err(EvaluationError::Item { index, fault }) => exists|i: int| #[trigger]
                is_first_fault(views(items@), i, fault) && index@ == views(items@)[i].index,
        },
{
    if items.len() == 0 {
        return Err(EvaluationError::NoItems);
    }
    let ghost all = views(items@);
    let mut summary = EvaluationSummary {
        overall: MetricSet::new(),
        with_context: MetricSet::new(),
        without_context: MetricSet::new(),
    };
    let mut i: usize = 0;
    while i < items.len()
        invariant
            all == views(items@),
            items@.len() > 0,
            i <= items@.len(),
            forall|j: int| 0 <= j < i ==> item_fault(#[trigger] all[j]) is None,
            summary@ == summary_of(converter@, all, i as int),
            summary.overall.correct_at_1 <= summary.overall.items == i,
            summary.with_context.correct_at_1 <= summary.with_context.items <= i,
            summary.without_context.correct_at_1 <= summary.without_context.items <= i,
        decreases items@.len() - i,
    {
        let item = &items[i];
        assert(all[i as int] == item@);
        if item.expected_output.len() == 0 {
            assert(is_first_fault(all, i as int, ItemFault::NoExpectedOutput));
            return Err(
                EvaluationError::Item {
                    index: item.index.clone(),
                    fault: ItemFault::NoExpectedOutput,
                },
            );
        }
        let candidates = match converter.convert(item.input.as_str(), 1) {
            Ok(candidates) => candidates,
            Err(error) => {
                assert(is_first_fault(all, i as int, ItemFault::Convert(error)));
                return Err(
                    EvaluationError::Item {
                        index: item.index.clone(),
                        fault: ItemFault::Convert(error),
                    },
                );
            },
        };
        assert(views(candidates@)[0] == candidates@[0]@);
        let ghost hypothesis = hypothesis_for(converter@, item@.input);
        match evaluate_item(&mut summary, item, candidates[0].text.as_str()) {
            Ok(_) => {
                assert(summary@ == with_item(
                    summary_of(converter@, all, i as int),
                    all[i as int],
                    hypothesis,
                ));
            },
            Err(error) => {
                assert(is_first_fault(all, i as int, ItemFault::Metric(error)));
                return Err(
                    EvaluationError::Item {
                        index: item.index.clone(),
                        fault: ItemFault::Metric(error),
                    },
                );
            },
        }
        i += 1;
    }
    Ok(summary)
}

/// How many of the first `count` items have a context.
pub open spec fn context_count(items: Seq<ItemView>, count: int) -> nat
    decreases count,
{
    if count <= 0 {
        0
    } else {
        context_count(items, count - 1) + if items[count - 1].context_text.len() > 0 {
            1nat
        } else {
            0nat
        }
    }
}

/// Each item is measured once in all, and once among those with or without a context.
pub proof fn evaluation_is_stratified(entries: Seq<EntryView>, items: Seq<ItemView>, count: int)
    requires
        0 <= count <= items.len(),
    ensures
        summary_of(entries, items, count).overall.items == count,
        summary_of(entries, items, count).with_context.items == context_count(items, count),
        summary_of(entries, items, count).overall.items == summary_of(
            entries,
            items,
            count,
        ).with_context.items + summary_of(entries, items, count).without_context.items,
        summary_of(entries, items, count).overall.correct_at_1 == summary_of(
            entries,
            items,
            count,
        ).with_context.correct_at_1 + summary_of(
            entries,
            items,
            count,
        ).without_context.correct_at_1,
    decreases count,
{
    if count > 0 {
        evaluation_is_stratified(entries, items, count - 1);
    }
}

/// The items differ at most in their contexts.
pub open spec fn same_but_for_contexts(left: Seq<ItemView>, right: Seq<ItemView>) -> bool {
    &&& left.len() == right.len()
    &&& forall|i: int|
        0 <= i < left.len() ==> (#[trigger] left[i]) == (ItemView {
            context_text: left[i].context_text,
            ..right[i]
        })
}

/// Contexts are not used in conversions: the measures on all items do not depend on them, nor
/// does the first fault.
pub proof fn contexts_are_not_converted(
    entries: Seq<EntryView>,
    left: Seq<ItemView>,
    right: Seq<ItemView>,
    count: int,
)
    requires
        same_but_for_contexts(left, right),
        0 <= count <= left.len(),
    ensures
        summary_of(entries, left, count).overall == summary_of(entries, right, count).overall,
        forall|place: int, fault: ItemFault|
            is_first_fault(left, place, fault) <==> is_first_fault(right, place, fault),
    decreases count,
{
    if count > 0 {
        contexts_are_not_converted(entries, left, right, count - 1);
    }
    assert forall|i: int| 0 <= i < left.len() implies item_fault(#[trigger] left[i]) == item_fault(
        right[i],
    ) by {}
    assert forall|place: int, fault: ItemFault|
        is_first_fault(left, place, fault) <==> is_first_fault(right, place, fault) by {
        if 0 <= place < left.len() {
            assert(item_fault(left[place]) == item_fault(right[place]));
            assert forall|i: int| 0 <= i < place implies item_fault(#[trigger] right[i])
                == item_fault(left[i]) by {
                assert(item_fault(left[i]) == item_fault(right[i]));
            }
        }
    }
}

} // verus!
