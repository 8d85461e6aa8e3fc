//! The dictionary: entries sorted by reading, at most one for each reading and surface.

use crate::kana::{
    hiragana_idempotent, hiragana_of, is_shifted_katakana, katakana_to_hiragana, nfkc, nfkc_of,
};
use crate::order::{
    compare_i64, compare_text, compare_u64, int_rank, same_elements, sort_by, sorted_by,
    strictly_sorted_is_unique, text_laws, text_rank, text_rank_flip, text_rank_same, Rank, Ranking,
};
use crate::text::{contains_control, has_control, same_text};
use vstd::prelude::*;

verus! {

/// One dictionary entry: a reading, the surface it converts to, and what the conversion costs.
#[derive(Clone, Debug, PartialEq, Eq)]
pub struct DictionaryEntry {
    pub reading: String,
    pub surface: String,
    pub left_id: u16,
    pub right_id: u16,
    pub cost: i32,
    /// 1, 2 or 3, after the dictionary file that the entry comes from.
    pub order: u8,
}

/// What a dictionary entry says.
pub struct EntryView {
    pub reading: Seq<char>,
    pub surface: Seq<char>,
    pub left_id: u16,
    pub right_id: u16,
    pub cost: i32,
    pub order: u8,
}

impl View for DictionaryEntry {
    type V = EntryView;

    open spec fn view(&self) -> EntryView {
        EntryView {
            reading: self.reading@,
            surface: self.surface@,
            left_id: self.left_id,
            right_id: self.right_id,
            cost: self.cost,
            order: self.order,
        }
    }
}

/// What each entry of a sequence says.
pub open spec fn entry_views(entries: Seq<DictionaryEntry>) -> Seq<EntryView> {
    Seq::new(entries.len(), |i: int| entries[i]@)
}

/// The reading in Unicode normalization form KC with its katakana as hiragana.
pub open spec fn normal_reading(input: Seq<char>) -> Seq<char> {
    hiragana_of(nfkc_of(input))
}

/// The text holds katakana that has a hiragana counterpart.
pub open spec fn has_shifted_katakana(text: Seq<char>) -> bool {
    exists|i: int| 0 <= i < text.len() && is_shifted_katakana(#[trigger] text[i])
}

/// Applies form KC and converts ordinary katakana to hiragana. Normalizing a reading twice is
/// normalizing it once.
pub fn normalize_reading(input: &str) -> (result: String)
    ensures
        result@ == normal_reading(input@),
        normal_reading(result@) == result@,
        !has_shifted_katakana(result@),
{
    let composed = nfkc(input);
    proof {
        hiragana_idempotent(composed@);
    }
    katakana_to_hiragana(composed.as_str())
}

/// Whether the reading is in form KC and holds no katakana that has a hiragana counterpart. Such a
/// reading is what normalizing it gives.
fn is_normalized(input: &str) -> (already: bool)
    ensures
        already == (nfkc_of(input@) == input@ && !has_shifted_katakana(input@)),
        already ==> normal_reading(input@) == input@,
{
    let composed = nfkc(input);
    if !same_text(composed.as_str(), input) {
        return false;
    }
    for c in it: input.chars()
        invariant
            it.seq() == input@,
            forall|j: int| 0 <= j < it.index() ==> !is_shifted_katakana(#[trigger] input@[j]),
    {
        match c {
            '\u{30A1}'..='\u{30F6}' | '\u{30FD}'..='\u{30FE}' => {
                assert(is_shifted_katakana(input@[it.index()]));
                return false;
            },
            _ => {},
        }
    }
    assert(hiragana_of(input@) =~= input@);
    true
}

/// Normalizes an owned reading; one that is normalized already is handed back as it is.
fn normalize_owned(input: String) -> (result: String)
    ensures
        result@ == normal_reading(input@),
        normal_reading(result@) == result@,
{
    if is_normalized(input.as_str()) {
        input
    } else {
        normalize_reading(input.as_str())
    }
}

/// Why an entry cannot stand in a dictionary.
#[derive(Clone, Copy, Debug, PartialEq, Eq, Structural)]
pub enum EntryFault {
    EmptyField,
    NegativeCost,
    OrderOutOfRange,
    ControlCharacter,
}

impl EntryFault {
    /// The fault in words.
    pub open spec fn text(self) -> Seq<char> {
        match self {
            EntryFault::EmptyField => "reading and surface must not be empty"@,
            EntryFault::NegativeCost => "cost must not be negative"@,
            EntryFault::OrderOutOfRange => "dictionary order must be 1, 2, or 3"@,
            EntryFault::ControlCharacter => {
                "reading and surface must not contain tabs, newlines, or controls"@
            },
        }
    }

    /// Says the fault in words.
    pub fn message(&self) -> (message: String)
        ensures
            message@ == self.text(),
    {
        match self {
            EntryFault::EmptyField => "reading and surface must not be empty".to_owned(),
            EntryFault::NegativeCost => "cost must not be negative".to_owned(),
            EntryFault::OrderOutOfRange => "dictionary order must be 1, 2, or 3".to_owned(),
            EntryFault::ControlCharacter => {
                "reading and surface must not contain tabs, newlines, or controls".to_owned()
            },
        }
    }
}

/// The first fault of an entry.
pub open spec fn entry_fault(entry: EntryView) -> Option<EntryFault> {
    if entry.reading.len() == 0 || entry.surface.len() == 0 {
        Some(EntryFault::EmptyField)
    } else if entry.cost < 0 {
        Some(EntryFault::NegativeCost)
    } else if !(1 <= entry.order <= 3) {
        Some(EntryFault::OrderOutOfRange)
    } else if has_control(entry.reading) || has_control(entry.surface) {
        Some(EntryFault::ControlCharacter)
    } else {
        None
    }
}

/// Checks an entry.
pub fn validate_entry(entry: &DictionaryEntry) -> (result: Result<(), EntryFault>)
    ensures
        result == match entry_fault(entry@) {
            Some(fault) => Err(fault),
            None => Ok(()),
        },
{
    if entry.reading.as_str().is_empty() || entry.surface.as_str().is_empty() {
        return Err(EntryFault::EmptyField);
    }
    if entry.cost < 0 {
        return Err(EntryFault::NegativeCost);
    }
    if !(1 <= entry.order && entry.order <= 3) {
        return Err(EntryFault::OrderOutOfRange);
    }
    if contains_control(entry.reading.as_str()) || contains_control(entry.surface.as_str()) {
        return Err(EntryFault::ControlCharacter);
    }
    Ok(())
}

/// The order among entries with one reading and one surface: the cheapest first, then by order
/// and context.
pub open spec fn preference(left: EntryView, right: EntryView) -> Rank {
    int_rank(left.cost as int, right.cost as int).then_by(
        int_rank(left.order as int, right.order as int),
    ).then_by(int_rank(left.left_id as int, right.left_id as int)).then_by(
        int_rank(left.right_id as int, right.right_id as int),
    )
}

/// The order by reading, then surface, then preference.
pub open spec fn surface_order(left: EntryView, right: EntryView) -> Rank {
    text_rank(left.reading, right.reading).then_by(
        text_rank(left.surface, right.surface),
    ).then_by(preference(left, right))
}

/// The order of the dictionary: by reading, then cost, then surface, order and context.
pub open spec fn dictionary_order(left: EntryView, right: EntryView) -> Rank {
    text_rank(left.reading, right.reading).then_by(
        int_rank(left.cost as int, right.cost as int),
    ).then_by(text_rank(left.surface, right.surface)).then_by(
        int_rank(left.order as int, right.order as int),
    ).then_by(int_rank(left.left_id as int, right.left_id as int)).then_by(
        int_rank(left.right_id as int, right.right_id as int),
    )
}

/// Sorting by reading and surface, the preferred entry of each pair first.
pub struct BySurface;

impl Ranking<DictionaryEntry> for BySurface {
    open spec fn rank(left: DictionaryEntry, right: DictionaryEntry) -> Rank {
        surface_order(left@, right@)
    }

    proof fn rank_flip(left: DictionaryEntry, right: DictionaryEntry) {
        text_rank_flip(left.reading@, right.reading@);
        text_rank_flip(left.surface@, right.surface@);
    }

    proof fn rank_transitive(
        first: DictionaryEntry,
        second: DictionaryEntry,
        third: DictionaryEntry,
    ) {
        text_laws(first.reading@, second.reading@, third.reading@);
        text_laws(first.surface@, second.surface@, third.surface@);
    }

    fn compare(left: &DictionaryEntry, right: &DictionaryEntry) -> (rank: Rank) {
        let reading = compare_text(left.reading.as_str(), right.reading.as_str());
        if reading != Rank::Same {
            return reading;
        }
        let surface = compare_text(left.surface.as_str(), right.surface.as_str());
        if surface != Rank::Same {
            return surface;
        }
        let cost = compare_i64(left.cost as i64, right.cost as i64);
        if cost != Rank::Same {
            return cost;
        }
        let order = compare_u64(left.order as u64, right.order as u64);
        if order != Rank::Same {
            return order;
        }
        let left_id = compare_u64(left.left_id as u64, right.left_id as u64);
        if left_id != Rank::Same {
            return left_id;
        }
        compare_u64(left.right_id as u64, right.right_id as u64)
    }
}

/// Compares two entries in the order of the dictionary.
pub fn compare_entries(left: &DictionaryEntry, right: &DictionaryEntry) -> (rank: Rank)
    ensures
        rank == dictionary_order(left@, right@),
{
    let reading = compare_text(left.reading.as_str(), right.reading.as_str());
    if reading != Rank::Same {
        return reading;
    }
    let cost = compare_i64(left.cost as i64, right.cost as i64);
    if cost != Rank::Same {
        return cost;
    }
    let surface = compare_text(left.surface.as_str(), right.surface.as_str());
    if surface != Rank::Same {
        return surface;
    }
    let order = compare_u64(left.order as u64, right.order as u64);
    if order != Rank::Same {
        return order;
    }
    let left_id = compare_u64(left.left_id as u64, right.left_id as u64);
    if left_id != Rank::Same {
        return left_id;
    }
    compare_u64(left.right_id as u64, right.right_id as u64)
}

/// Sorting in the order of the dictionary.
pub struct ByCost;

impl Ranking<DictionaryEntry> for ByCost {
    open spec fn rank(left: DictionaryEntry, right: DictionaryEntry) -> Rank {
        dictionary_order(left@, right@)
    }

    proof fn rank_flip(left: DictionaryEntry, right: DictionaryEntry) {
        text_rank_flip(left.reading@, right.reading@);
        text_rank_flip(left.surface@, right.surface@);
    }

    proof fn rank_transitive(
        first: DictionaryEntry,
        second: DictionaryEntry,
        third: DictionaryEntry,
    ) {
        text_laws(first.reading@, second.reading@, third.reading@);
        text_laws(first.surface@, second.surface@, third.surface@);
    }

    fn compare(left: &DictionaryEntry, right: &DictionaryEntry) -> (rank: Rank) {
        compare_entries(left, right)
    }
}

/// The reading of an entry, normalized.
pub open spec fn normalized_entry(entry: EntryView) -> EntryView {
    EntryView { reading: normal_reading(entry.reading), ..entry }
}

/// The entries with their readings normalized.
pub open spec fn normalized_entries(entries: Seq<EntryView>) -> Seq<EntryView> {
    Seq::new(entries.len(), |i: int| normalized_entry(entries[i]))
}

/// Each reading is what normalizing it gives.
pub open spec fn are_normal(entries: Seq<EntryView>) -> bool {
    forall|i: int|
        0 <= i < entries.len() ==> normal_reading((#[trigger] entries[i]).reading)
            == entries[i].reading
}

/// The fault of the first entry that has one.
pub open spec fn first_fault(entries: Seq<EntryView>) -> Option<EntryFault>
    decreases entries.len(),
{
    if entries.len() == 0 {
        None
    } else {
        match first_fault(entries.drop_last()) {
            Some(fault) => Some(fault),
            None => entry_fault(entries.last()),
        }
    }
}

/// The two entries convert one reading to one surface.
pub open spec fn same_conversion(left: EntryView, right: EntryView) -> bool {
    left.reading == right.reading && left.surface == right.surface
}

/// No entry for the same conversion is preferred to this one.
pub open spec fn is_preferred(entries: Seq<EntryView>, entry: EntryView) -> bool {
    &&& entries.contains(entry)
    &&& forall|i: int|
        0 <= i < entries.len() && same_conversion(entry, #[trigger] entries[i]) ==> preference(
            entry,
            entries[i],
        ) != Rank::After
}

/// `selected` holds, in the order of the dictionary and once each, the preferred entries.
pub open spec fn selects(selected: Seq<EntryView>, entries: Seq<EntryView>) -> bool {
    &&& forall|i: int, j: int|
        0 <= i < j < selected.len() ==> dictionary_order(
            #[trigger] selected[i],
            #[trigger] selected[j],
        ) == Rank::Before
    &&& forall|entry: EntryView|
        #![trigger selected.contains(entry)]
        #![trigger is_preferred(entries, entry)]
        selected.contains(entry) <==> is_preferred(entries, entry)
}

/// Whether the two entries convert one reading to one surface.
fn converts_alike(left: &DictionaryEntry, right: &DictionaryEntry) -> (same: bool)
    ensures
        same == same_conversion(left@, right@),
{
    same_text(left.reading.as_str(), right.reading.as_str()) && same_text(
        left.surface.as_str(),
        right.surface.as_str(),
    )
}

/// The entry at `i` is the first of its reading and surface.
spec fn starts_group(entries: Seq<DictionaryEntry>, i: int) -> bool {
    0 <= i < entries.len() && (i == 0 || !same_conversion(entries[i - 1]@, entries[i]@))
}

/// In entries sorted by surface, the first of each group is preferred.
proof fn first_of_group_is_preferred(entries: Seq<DictionaryEntry>, i: int)
    requires
        sorted_by::<DictionaryEntry, BySurface>(entries),
        starts_group(entries, i),
    ensures
        is_preferred(entry_views(entries), entries[i]@),
{
    let views = entry_views(entries);
    assert(views[i] == entries[i]@);
    assert forall|j: int|
        0 <= j < views.len() && same_conversion(entries[i]@, #[trigger] views[j]) implies preference(
        entries[i]@,
        views[j],
    ) != Rank::After by {
        text_laws(entries[i].reading@, entries[j].reading@, entries[j].reading@);
        text_laws(entries[i].surface@, entries[j].surface@, entries[j].surface@);
        if i < j {
            assert(BySurface::rank(entries[i], entries[j]) != Rank::After);
        } else if j < i {
            let before = entries[i - 1];
            assert(BySurface::rank(before, entries[i]) != Rank::After);
            text_laws(entries[j].reading@, before.reading@, entries[i].reading@);
            text_laws(entries[j].surface@, before.surface@, entries[i].surface@);
            text_rank_flip(before.reading@, entries[j].reading@);
            text_rank_flip(before.surface@, entries[j].surface@);
            if j < i - 1 {
                assert(BySurface::rank(entries[j], before) != Rank::After);
            }
            assert(false);
        }
    }
}

/// In entries sorted by surface, a preferred entry stands first in its group.
proof fn preferred_is_first_of_group(entries: Seq<DictionaryEntry>, entry: EntryView) -> (place: int)
    requires
        sorted_by::<DictionaryEntry, BySurface>(entries),
        is_preferred(entry_views(entries), entry),
    ensures
        starts_group(entries, place),
        entries[place]@ == entry,
{
    let views = entry_views(entries);
    let i = choose|i: int| 0 <= i < views.len() && views[i] == entry;
    let place = group_start(entries, i);
    assert(views[place] == entries[place]@);
    text_laws(entry.reading, views[place].reading, entry.reading);
    text_laws(entry.surface, views[place].surface, entry.surface);
    if place < i {
        assert(BySurface::rank(entries[place], entries[i]) != Rank::After);
    }
    place
}

/// Where the group of the entry at `i` starts.
proof fn group_start(entries: Seq<DictionaryEntry>, i: int) -> (place: int)
    requires
        0 <= i < entries.len(),
    ensures
        starts_group(entries, place),
        place <= i,
        same_conversion(entries[place]@, entries[i]@),
    decreases i,
{
    if i == 0 || !same_conversion(entries[i - 1]@, entries[i]@) {
        i
    } else {
        group_start(entries, i - 1)
    }
}

/// Keeps the first entry of each reading and surface.
fn keep_preferred(entries: Vec<DictionaryEntry>) -> (kept: Vec<DictionaryEntry>)
    requires
        sorted_by::<DictionaryEntry, BySurface>(entries@),
    ensures
        forall|entry: EntryView|
            entry_views(kept@).contains(entry) <==> is_preferred(entry_views(entries@), entry),
        forall|i: int, j: int|
            0 <= i < j < kept@.len() ==> !same_conversion(
                #[trigger] kept@[i]@,
                #[trigger] kept@[j]@,
            ),
        entries@.len() > 0 ==> kept@.len() > 0,
{
    let ghost all = entries@;
    let mut rest = entries;
    let mut kept: Vec<DictionaryEntry> = Vec::new();
    // The places in `all` of the entries that were kept, the last first.
    let ghost mut places: Seq<int> = Seq::empty();
    while rest.len() > 0
        invariant
            sorted_by::<DictionaryEntry, BySurface>(all),
            rest@ == all.take(rest@.len() as int),
            rest@.len() <= all.len(),
            places.len() == kept@.len(),
            forall|k: int|
                0 <= k < places.len() ==> starts_group(all, #[trigger] places[k]) && places[k]
                    >= rest@.len() && kept@[k] == all[places[k]],
            forall|k: int, l: int| 0 <= k < l < places.len() ==> places[l] < places[k],
            forall|i: int|
                rest@.len() <= i < all.len() && #[trigger] starts_group(all, i)
                    ==> places.contains(i),
        decreases rest@.len(),
    {
        let ghost place = rest@.len() - 1;
        if let Some(entry) = rest.pop() {
            let first = rest.len() == 0 || !converts_alike(&rest[rest.len() - 1], &entry);
            assert(first == starts_group(all, place));
            if first {
                let ghost before = places;
                proof {
                    places = places.push(place);
                    assert forall|i: int|
                        rest@.len() <= i < all.len() && #[trigger] starts_group(
                            all,
                            i,
                        ) implies places.contains(i) by {
                        if i == place {
                            assert(places.last() == place);
                        } else {
                            let k = before.index_of(i);
                            assert(places[k] == i);
                        }
                    }
                }
                kept.push(entry);
            }
        }
    }
    proof {
        let views = entry_views(all);
        assert forall|entry: EntryView|
            entry_views(kept@).contains(entry) <==> is_preferred(views, entry) by {
            if entry_views(kept@).contains(entry) {
                let k = choose|k: int|
                    0 <= k < kept@.len() && entry_views(kept@)[k] == entry;
                first_of_group_is_preferred(all, places[k]);
            }
            if is_preferred(views, entry) {
                let i = preferred_is_first_of_group(all, entry);
                assert(places.contains(i));
                let k = places.index_of(i);
                assert(entry_views(kept@)[k] == entry);
            }
        }
        assert forall|k: int, l: int| 0 <= k < l < kept@.len() implies !same_conversion(
            #[trigger] kept@[k]@,
            #[trigger] kept@[l]@,
        ) by {
            let low = places[l];
            let high = places[k];
            if same_conversion(all[high]@, all[low]@) {
                let before = all[high - 1];
                if low < high - 1 {
                    assert(BySurface::rank(all[low], before) != Rank::After);
                }
                assert(BySurface::rank(before, all[high]) != Rank::After);
                text_laws(all[low].reading@, before.reading@, all[high].reading@);
                text_laws(all[low].surface@, before.surface@, all[high].surface@);
                text_rank_flip(before.reading@, all[high].reading@);
                text_rank_flip(before.surface@, all[high].surface@);
                assert(false);
            }
        }
        if all.len() > 0 {
            assert(starts_group(all, 0));
        }
    }
    kept
}

/// A sequence of entries that can stand as a dictionary: it is not empty, no entry has a fault,
/// each reading is what normalizing it gives, the entries stand in the order of the dictionary,
/// and none has a rival for its conversion.
pub open spec fn is_dictionary(entries: Seq<EntryView>) -> bool {
    &&& entries.len() > 0
    &&& forall|i: int| 0 <= i < entries.len() ==> entry_fault(#[trigger] entries[i]) is None
    &&& are_normal(entries)
    &&& forall|i: int, j: int|
        0 <= i < j < entries.len() ==> dictionary_order(
            #[trigger] entries[i],
            #[trigger] entries[j],
        ) == Rank::Before && !same_conversion(entries[i], entries[j])
}

/// Why no dictionary can be made.
#[derive(Clone, Debug, PartialEq, Eq)]
pub enum DictionaryError {
    InvalidEntry(EntryFault),
    NoEntries,
}

impl DictionaryError {
    /// The error in words.
    pub open spec fn text(self) -> Seq<char> {
        match self {
            DictionaryError::InvalidEntry(fault) => fault.text(),
            DictionaryError::NoEntries => "dictionary contains no entries"@,
        }
    }

    /// Says the error in words.
    pub fn message(&self) -> (message: String)
        ensures
            message@ == self.text(),
    {
        match self {
            DictionaryError::InvalidEntry(fault) => fault.message(),
            DictionaryError::NoEntries => "dictionary contains no entries".to_owned(),
        }
    }
}

/// The entries of the generated dictionaries in memory, sorted by reading.
#[derive(Debug)]
pub struct Dictionary {
    entries: Vec<DictionaryEntry>,
    max_reading_length: usize,
}

impl View for Dictionary {
    type V = Seq<EntryView>;

    closed spec fn view(&self) -> Seq<EntryView> {
        entry_views(self.entries@)
    }
}

/// The length of the longest reading.
fn longest_reading(entries: &[DictionaryEntry]) -> (length: usize)
    ensures
        forall|i: int| 0 <= i < entries@.len() ==> (#[trigger] entries@[i]).reading@.len()
            <= length,
{
    let mut length: usize = 0;
    let mut i: usize = 0;
    while i < entries.len()
        invariant
            i <= entries@.len(),
            forall|j: int| 0 <= j < i ==> (#[trigger] entries@[j]).reading@.len() <= length,
        decreases entries@.len() - i,
    {
        let current = crate::text::chars_of(entries[i].reading.as_str()).len();
        if current > length {
            length = current;
        }
        i += 1;
    }
    length
}

/// What comes of making a dictionary: the preferred ones of the entries, with their readings
/// normalized, or the first thing that is wrong with them.
pub open spec fn is_made(
    result: Result<Dictionary, DictionaryError>,
    entries: Seq<EntryView>,
) -> bool {
    match result {
        Ok(dictionary) => {
            &&& first_fault(normalized_entries(entries)) is None
            &&& entries.len() > 0
            &&& selects(dictionary@, normalized_entries(entries))
        },
        Err(DictionaryError::InvalidEntry(fault)) => first_fault(normalized_entries(entries))
            == Some(fault),
        Err(DictionaryError::NoEntries) => entries.len() == 0,
    }
}

impl Dictionary {
    /// The entries are valid, and no reading is longer than the longest.
    #[verifier::type_invariant]
    pub closed spec fn well_formed(self) -> bool {
        &&& is_dictionary(self@)
        &&& forall|i: int|
            0 <= i < self.entries@.len() ==> (#[trigger] self.entries@[i]).reading@.len()
                <= self.max_reading_length
    }

    /// The entries are those of a dictionary.
    pub proof fn is_valid(&self)
        requires
            self.well_formed(),
        ensures
            is_dictionary(self@),
    {
    }

    /// Makes a dictionary of the entries. Their readings are normalized; of the entries with one
    /// reading and one surface the preferred one is retained.
    pub fn from_entries(entries: Vec<DictionaryEntry>) -> (result: Result<
        Dictionary,
        DictionaryError,
    >)
        ensures
            is_made(result, entry_views(entries@)),
            result is Ok ==> is_dictionary(result->Ok_0@),
    {
        let ghost wanted = normalized_entries(entry_views(entries@));
        let ghost given = entries@;
        let mut prepared: Vec<DictionaryEntry> = Vec::new();
        for entry in it: entries
            invariant
                it.seq() == given,
                wanted == normalized_entries(entry_views(given)),
                entry_views(prepared@) == wanted.take(it.index()),
                prepared@.len() == it.index(),
                first_fault(wanted.take(it.index())) is None,
                are_normal(wanted.take(it.index())),
        {
            let next = DictionaryEntry {
                reading: normalize_owned(entry.reading),
                surface: entry.surface,
                left_id: entry.left_id,
                right_id: entry.right_id,
                cost: entry.cost,
                order: entry.order,
            };
            proof {
                assert(next@ == wanted[it.index()]);
                assert(wanted.take(it.index() + 1).drop_last() =~= wanted.take(it.index()));
                assert(wanted.take(it.index() + 1).last() == next@);
                assert(wanted.take(it.index() + 1) =~= wanted.take(it.index()).push(next@));
            }
            match validate_entry(&next) {
                Err(fault) => {
                    proof {
                        fault_stays(wanted, it.index() + 1);
                    }
                    return Err(DictionaryError::InvalidEntry(fault));
                },
                Ok(()) => {},
            }
            prepared.push(next);
            assert(entry_views(prepared@) =~= wanted.take(it.index() + 1));
        }
        assert(wanted.take(wanted.len() as int) =~= wanted);
        if prepared.len() == 0 {
            return Err(DictionaryError::NoEntries);
        }
        let ghost before_sort = prepared@;
        let sorted = sort_by::<DictionaryEntry, BySurface>(prepared);
        let ghost by_surface = sorted@;
        let kept = keep_preferred(sorted);
        let ghost kept_entries = kept@;
        let entries = sort_by::<DictionaryEntry, ByCost>(kept);
        let max_reading_length = longest_reading(&entries);
        proof {
            selected_entries(before_sort, by_surface, kept_entries, entries@);
        }
        Ok(Dictionary { entries, max_reading_length })
    }

    /// The number of entries.
    pub fn len(&self) -> (length: usize)
        ensures
            length == self@.len(),
            is_dictionary(self@),
    {
        proof {
            use_type_invariant(self);
        }
        self.entries.len()
    }

    /// Whether there is no entry.
    pub fn is_empty(&self) -> (empty: bool)
        ensures
            empty == (self@.len() == 0),
    {
        self.entries.len() == 0
    }

    /// The entries, sorted by reading.
    pub fn entries(&self) -> (entries: &[DictionaryEntry])
        ensures
            entry_views(entries@) == self@,
            is_dictionary(self@),
    {
        proof {
            use_type_invariant(self);
        }
        self.entries.as_slice()
    }

    /// A length that no reading exceeds.
    pub(crate) fn max_reading_length(&self) -> (length: usize)
        ensures
            forall|i: int| 0 <= i < self@.len() ==> (#[trigger] self@[i]).reading.len() <= length,
    {
        proof {
            use_type_invariant(self);
        }
        self.max_reading_length
    }

    /// The entries of a reading, the cheapest first.
    pub fn lookup(&self, reading: &str) -> (found: &[DictionaryEntry])
        ensures
            entry_views(found@) == entries_for(self@, reading@),
    {
        proof {
            use_type_invariant(self);
        }
        let ghost views = self@;
        let mut start: usize = 0;
        let mut above: usize = self.entries.len();
        while start < above
            invariant
                views == entry_views(self.entries@),
                is_dictionary(views),
                start <= above <= self.entries@.len(),
                forall|i: int|
                    0 <= i < start ==> text_rank((#[trigger] views[i]).reading, reading@)
                        == Rank::Before,
                forall|i: int|
                    above <= i < views.len() ==> text_rank((#[trigger] views[i]).reading, reading@)
                        != Rank::Before,
            decreases above - start,
        {
            let middle = start + (above - start) / 2;
            let rank = compare_text(self.entries[middle].reading.as_str(), reading);
            proof {
                assert(views[middle as int].reading == self.entries@[middle as int].reading@);
                assert forall|i: int| 0 <= i < views.len() implies {
                    &&& i <= middle && rank == Rank::Before ==> text_rank(
                        (#[trigger] views[i]).reading,
                        reading@,
                    ) == Rank::Before
                    &&& i >= middle && rank != Rank::Before ==> text_rank(
                        views[i].reading,
                        reading@,
                    ) != Rank::Before
                } by {
                    if i < middle {
                        text_laws(views[i].reading, views[middle as int].reading, reading@);
                        assert(dictionary_order(views[i], views[middle as int]) == Rank::Before);
                    }
                    if i > middle {
                        text_laws(views[middle as int].reading, views[i].reading, reading@);
                        assert(dictionary_order(views[middle as int], views[i]) == Rank::Before);
                    }
                }
            }
            if rank == Rank::Before {
                start = middle + 1;
            } else {
                above = middle;
            }
        }
        let mut end: usize = start;
        let mut above: usize = self.entries.len();
        while end < above
            invariant
                views == entry_views(self.entries@),
                is_dictionary(views),
                start <= end <= above <= self.entries@.len(),
                forall|i: int|
                    start <= i < end ==> (#[trigger] views[i]).reading == reading@,
                forall|i: int|
                    start <= i < views.len() ==> text_rank((#[trigger] views[i]).reading, reading@)
                        != Rank::Before,
                forall|i: int|
                    above <= i < views.len() ==> (#[trigger] views[i]).reading != reading@,
            decreases above - end,
        {
            let middle = end + (above - end) / 2;
            let same = same_text(self.entries[middle].reading.as_str(), reading);
            proof {
                assert(views[middle as int].reading == self.entries@[middle as int].reading@);
                assert forall|i: int| start <= i < views.len() implies {
                    &&& i <= middle && same ==> (#[trigger] views[i]).reading == reading@
                    &&& i >= middle && !same ==> views[i].reading != reading@
                } by {
                    text_laws(views[i].reading, views[middle as int].reading, reading@);
                    text_rank_flip(views[i].reading, reading@);
                    text_rank_flip(views[middle as int].reading, reading@);
                    text_rank_flip(views[i].reading, views[middle as int].reading);
                    if i < middle {
                        assert(dictionary_order(views[i], views[middle as int]) == Rank::Before);
                    }
                    if i > middle {
                        assert(dictionary_order(views[middle as int], views[i]) == Rank::Before);
                    }
                }
            }
            if same {
                end = middle + 1;
            } else {
                above = middle;
            }
        }
        proof {
            assert forall|i: int| 0 <= i < views.len() implies ((#[trigger] views[i]).reading
                == reading@) == (start <= i < end) by {
                text_rank_same(views[i].reading, reading@);
            }
            filter_is_range(views, |entry: EntryView| entry.reading == reading@, start as int, end as int);
            assert(entry_views(self.entries@.subrange(start as int, end as int))
                =~= views.subrange(start as int, end as int));
        }
        vstd::slice::slice_subrange(self.entries.as_slice(), start, end)
    }
}

/// The entries of a reading, in the order of the dictionary.
pub open spec fn entries_for(entries: Seq<EntryView>, reading: Seq<char>) -> Seq<EntryView> {
    entries.filter(|entry: EntryView| entry.reading == reading)
}

/// The entries of a reading are those entries that have it.
pub proof fn entries_for_members(entries: Seq<EntryView>, reading: Seq<char>)
    ensures
        forall|entry: EntryView| #[trigger]
            entries_for(entries, reading).contains(entry) <==> entries.contains(entry)
                && entry.reading == reading,
    decreases entries.len(),
{
    reveal(Seq::filter);
    if entries.len() > 0 {
        let shorter = entries.drop_last();
        let before = entries_for(shorter, reading);
        let found = entries_for(entries, reading);
        entries_for_members(shorter, reading);
        assert forall|entry: EntryView| #[trigger] found.contains(entry) <==> entries.contains(
            entry,
        ) && entry.reading == reading by {
            assert(entries.contains(entries.last()));
            if shorter.contains(entry) {
                assert(entries[shorter.index_of(entry)] == entry);
            }
            if entries.contains(entry) && entry != entries.last() {
                assert(shorter[entries.index_of(entry)] == entry);
            }
            if before.contains(entry) {
                assert(found[before.index_of(entry)] == entry);
            }
            if found.contains(entry) {
                let i = found.index_of(entry);
                if i < before.len() {
                    assert(before[i] == entry);
                }
            }
            if entries.last().reading == reading {
                assert(found.last() == entries.last());
                assert(found.contains(found.last()));
            }
        }
    }
}

/// Where exactly the values from `start` up to `end` pass, filtering gives that range.
proof fn filter_is_range<A>(values: Seq<A>, pred: spec_fn(A) -> bool, start: int, end: int)
    requires
        0 <= start <= end <= values.len(),
        forall|i: int|
            0 <= i < values.len() ==> pred(#[trigger] values[i]) == (start <= i < end),
    ensures
        values.filter(pred) == values.subrange(start, end),
    decreases values.len(),
{
    reveal(Seq::filter);
    if values.len() > 0 {
        let shorter = values.drop_last();
        assert(forall|i: int| 0 <= i < shorter.len() ==> shorter[i] == values[i]);
        if end == values.len() {
            if start == end {
                filter_is_range(shorter, pred, start - 1, end - 1);
                assert(shorter.subrange(start - 1, end - 1) =~= values.subrange(start, end));
            } else {
                filter_is_range(shorter, pred, start, end - 1);
                assert(shorter.subrange(start, end - 1).push(values.last()) =~= values.subrange(
                    start,
                    end,
                ));
            }
        } else {
            filter_is_range(shorter, pred, start, end);
            assert(shorter.subrange(start, end) =~= values.subrange(start, end));
        }
    } else {
        assert(values.filter(pred) =~= values.subrange(start, end));
    }
}

/// A fault among the first entries is the first fault of all of them.
proof fn fault_stays(entries: Seq<EntryView>, count: int)
    requires
        0 <= count <= entries.len(),
        first_fault(entries.take(count)) is Some,
    ensures
        first_fault(entries) == first_fault(entries.take(count)),
    decreases entries.len(),
{
    if count < entries.len() {
        assert(entries.drop_last().take(count) =~= entries.take(count));
        fault_stays(entries.drop_last(), count);
    } else {
        assert(entries.take(count) =~= entries);
    }
}

/// Where the entries have no fault, none of them has one.
proof fn no_fault(entries: Seq<EntryView>, i: int)
    requires
        first_fault(entries) is None,
        0 <= i < entries.len(),
    ensures
        entry_fault(entries[i]) is None,
    decreases entries.len(),
{
    if i < entries.len() - 1 {
        no_fault(entries.drop_last(), i);
        assert(entries.drop_last()[i] == entries[i]);
    }
}

/// Sequences with the same values have the same views.
proof fn same_values_same_views(left: Seq<DictionaryEntry>, right: Seq<DictionaryEntry>)
    requires
        left.to_multiset() == right.to_multiset(),
    ensures
        forall|entry: EntryView|
            entry_views(left).contains(entry) <==> entry_views(right).contains(entry),
{
    same_elements(left, right);
    assert forall|entry: EntryView|
        entry_views(left).contains(entry) <==> entry_views(right).contains(entry) by {
        if entry_views(left).contains(entry) {
            let i = choose|i: int| 0 <= i < left.len() && entry_views(left)[i] == entry;
            assert(left.contains(left[i]));
            assert(right.contains(left[i]));
            let j = right.index_of(left[i]);
            assert(entry_views(right)[j] == entry);
        }
        if entry_views(right).contains(entry) {
            let i = choose|i: int| 0 <= i < right.len() && entry_views(right)[i] == entry;
            assert(right.contains(right[i]));
            assert(left.contains(right[i]));
            let j = left.index_of(right[i]);
            assert(entry_views(left)[j] == entry);
        }
    }
}

/// Sorting by surface, keeping the preferred entries and sorting again gives a dictionary.
proof fn selected_entries(
    given: Seq<DictionaryEntry>,
    by_surface: Seq<DictionaryEntry>,
    kept: Seq<DictionaryEntry>,
    selected: Seq<DictionaryEntry>,
)
    requires
        given.len() > 0,
        first_fault(entry_views(given)) is None,
        are_normal(entry_views(given)),
        by_surface.to_multiset() == given.to_multiset(),
        forall|entry: EntryView|
            entry_views(kept).contains(entry) <==> is_preferred(entry_views(by_surface), entry),
        forall|i: int, j: int|
            0 <= i < j < kept.len() ==> !same_conversion(
                #[trigger] kept[i]@,
                #[trigger] kept[j]@,
            ),
        by_surface.len() > 0 ==> kept.len() > 0,
        selected.to_multiset() == kept.to_multiset(),
        sorted_by::<DictionaryEntry, ByCost>(selected),
    ensures
        selects(entry_views(selected), entry_views(given)),
        is_dictionary(entry_views(selected)),
{
    let views = entry_views(selected);
    same_elements(by_surface, given);
    same_elements(selected, kept);
    same_values_same_views(by_surface, given);
    same_values_same_views(selected, kept);
    assert forall|entry: EntryView| is_preferred(entry_views(by_surface), entry) <==> is_preferred(
        entry_views(given),
        entry,
    ) by {
        if is_preferred(entry_views(by_surface), entry) {
            assert forall|i: int|
                0 <= i < given.len() && same_conversion(
                    entry,
                    #[trigger] entry_views(given)[i],
                ) implies preference(entry, entry_views(given)[i]) != Rank::After by {
                assert(entry_views(by_surface).contains(entry_views(given)[i]));
            }
        }
        if is_preferred(entry_views(given), entry) {
            assert forall|i: int|
                0 <= i < by_surface.len() && same_conversion(
                    entry,
                    #[trigger] entry_views(by_surface)[i],
                ) implies preference(entry, entry_views(by_surface)[i]) != Rank::After by {
                assert(entry_views(given).contains(entry_views(by_surface)[i]));
            }
        }
    }
    assert forall|entry: EntryView| views.contains(entry) <==> is_preferred(
        entry_views(given),
        entry,
    ) by {}
    assert(kept.no_duplicates()) by {
        assert forall|i: int, j: int| 0 <= i < j < kept.len() implies kept[i] != kept[j] by {
            assert(!same_conversion(kept[i]@, kept[j]@));
        }
    }
    kept.lemma_multiset_has_no_duplicates();
    selected.lemma_multiset_has_no_duplicates_conv();
    assert forall|i: int, j: int| 0 <= i < j < views.len() implies dictionary_order(
        #[trigger] views[i],
        #[trigger] views[j],
    ) == Rank::Before && !same_conversion(views[i], views[j]) by {
        assert(ByCost::rank(selected[i], selected[j]) != Rank::After);
        assert(selected.contains(selected[i]));
        assert(selected.contains(selected[j]));
        assert(kept.contains(selected[i]));
        assert(kept.contains(selected[j]));
        let k = kept.index_of(selected[i]);
        let l = kept.index_of(selected[j]);
        assert(selected[i] != selected[j]);
        if k < l {
            assert(!same_conversion(kept[k]@, kept[l]@));
        } else {
            assert(!same_conversion(kept[l]@, kept[k]@));
        }
        text_rank_same(views[i].reading, views[j].reading);
        text_rank_same(views[i].surface, views[j].surface);
    }
    assert forall|i: int| 0 <= i < views.len() implies entry_fault(#[trigger] views[i]) is None
        && normal_reading(views[i].reading) == views[i].reading by {
        assert(views.contains(views[i]));
        let j = entry_views(given).index_of(views[i]);
        assert(entry_views(given)[j] == views[i]);
        no_fault(entry_views(given), j);
    }
}

/// Which entries a dictionary retains, and in what order, does not depend on the order in which
/// they were given, nor on how often each was given.
pub proof fn selection_is_deterministic(
    first: Seq<EntryView>,
    first_given: Seq<EntryView>,
    second: Seq<EntryView>,
    second_given: Seq<EntryView>,
)
    requires
        selects(first, first_given),
        selects(second, second_given),
        forall|entry: EntryView| first_given.contains(entry) <==> second_given.contains(entry),
    ensures
        first == second,
{
    assert forall|entry: EntryView| is_preferred(first_given, entry) <==> is_preferred(
        second_given,
        entry,
    ) by {
        if is_preferred(first_given, entry) {
            assert forall|i: int|
                0 <= i < second_given.len() && same_conversion(
                    entry,
                    #[trigger] second_given[i],
                ) implies preference(entry, second_given[i]) != Rank::After by {
                assert(second_given.contains(second_given[i]));
            }
        }
        if is_preferred(second_given, entry) {
            assert forall|i: int|
                0 <= i < first_given.len() && same_conversion(
                    entry,
                    #[trigger] first_given[i],
                ) implies preference(entry, first_given[i]) != Rank::After by {
                assert(first_given.contains(first_given[i]));
            }
        }
    }
    assert forall|entry: EntryView|
        #![trigger first.contains(entry)]
        #![trigger second.contains(entry)]
        first.contains(entry) <==> second.contains(entry) by {}
    let precedes = |left: EntryView, right: EntryView|
        dictionary_order(left, right) == Rank::Before;
    assert forall|left: EntryView, right: EntryView| #[trigger] precedes(
        left,
        right,
    ) implies !precedes(right, left) by {
        text_rank_flip(left.reading, right.reading);
        text_rank_flip(left.surface, right.surface);
    }
    strictly_sorted_is_unique(first, second, precedes);
}

/// No fault is found exactly where no entry has one.
pub proof fn faults_are_found(entries: Seq<EntryView>)
    ensures
        first_fault(entries) is None <==> forall|i: int|
            0 <= i < entries.len() ==> entry_fault(#[trigger] entries[i]) is None,
    decreases entries.len(),
{
    if entries.len() > 0 {
        let before = entries.drop_last();
        faults_are_found(before);
        assert(entries[entries.len() - 1] == entries.last());
        if first_fault(entries) is None {
            assert forall|i: int| 0 <= i < entries.len() implies entry_fault(
                #[trigger] entries[i],
            ) is None by {
                if i < before.len() {
                    assert(before[i] == entries[i]);
                }
            }
        }
        if forall|i: int| 0 <= i < entries.len() ==> entry_fault(#[trigger] entries[i]) is None {
            assert forall|i: int| 0 <= i < before.len() implies entry_fault(
                #[trigger] before[i],
            ) is None by {
                assert(before[i] == entries[i]);
            }
        }
    }
}

/// The same entries, in whatever order and however often each, are the same when normalized.
proof fn same_when_normalized(first: Seq<EntryView>, second: Seq<EntryView>)
    requires
        forall|entry: EntryView| first.contains(entry) ==> second.contains(entry),
    ensures
        forall|entry: EntryView|
            normalized_entries(first).contains(entry) ==> normalized_entries(second).contains(
                entry,
            ),
        first_fault(normalized_entries(second)) is None ==> first_fault(
            normalized_entries(first),
        ) is None,
        first.len() > 0 ==> second.len() > 0,
{
    let left = normalized_entries(first);
    let right = normalized_entries(second);
    assert forall|entry: EntryView| left.contains(entry) implies right.contains(entry) by {
        let i = left.index_of(entry);
        assert(second.contains(first[i]));
        let j = second.index_of(first[i]);
        assert(right[j] == entry);
    }
    faults_are_found(left);
    faults_are_found(right);
    if first_fault(right) is None {
        assert forall|i: int| 0 <= i < left.len() implies entry_fault(
            #[trigger] left[i],
        ) is None by {
            assert(left.contains(left[i]));
            let j = right.index_of(left[i]);
            assert(entry_fault(right[j]) is None);
        }
    }
    if first.len() > 0 {
        assert(first.contains(first[0]));
    }
}

/// Two makings came to the same: the same dictionary, no entries, or a fault each.
pub open spec fn came_to_the_same(
    first: Result<Dictionary, DictionaryError>,
    second: Result<Dictionary, DictionaryError>,
) -> bool {
    match (first, second) {
        (Ok(left), Ok(right)) => left@ == right@,
        (Err(left), Err(right)) => left is NoEntries <==> right is NoEntries,
        _ => false,
    }
}

/// What comes of making a dictionary does not depend on the order in which the entries are given,
/// nor on how often each is given. Where several have faults, which one is found may.
pub proof fn making_is_deterministic(
    first: Result<Dictionary, DictionaryError>,
    first_given: Seq<EntryView>,
    second: Result<Dictionary, DictionaryError>,
    second_given: Seq<EntryView>,
)
    requires
        is_made(first, first_given),
        is_made(second, second_given),
        forall|entry: EntryView| first_given.contains(entry) <==> second_given.contains(entry),
    ensures
        came_to_the_same(first, second),
{
    same_when_normalized(first_given, second_given);
    same_when_normalized(second_given, first_given);
    faults_are_found(normalized_entries(first_given));
    faults_are_found(normalized_entries(second_given));
    if first is Ok && second is Ok {
        selection_is_deterministic(
            first->Ok_0@,
            normalized_entries(first_given),
            second->Ok_0@,
            normalized_entries(second_given),
        );
    }
}

/// A dictionary made of the entries of a dictionary is that dictionary.
pub proof fn making_is_idempotent(
    entries: Seq<EntryView>,
    result: Result<Dictionary, DictionaryError>,
)
    requires
        is_dictionary(entries),
        is_made(result, entries),
    ensures
        result is Ok,
        result->Ok_0@ == entries,
{
    assert(normalized_entries(entries) =~= entries);
    faults_are_found(entries);
    assert forall|entry: EntryView|
        #![trigger entries.contains(entry)]
        #![trigger is_preferred(entries, entry)]
        entries.contains(entry) <==> is_preferred(entries, entry) by {
        if entries.contains(entry) {
            let p = entries.index_of(entry);
            assert forall|i: int|
                0 <= i < entries.len() && same_conversion(entry, #[trigger] entries[i]) implies
                preference(entry, entries[i]) != Rank::After by {
                if i < p {
                    assert(!same_conversion(entries[i], entries[p]));
                } else if i > p {
                    assert(!same_conversion(entries[p], entries[i]));
                }
            }
        }
    }
    assert(selects(entries, entries));
    selection_is_deterministic(result->Ok_0@, entries, entries, entries);
}

/// Every conversion that was given stands in the dictionary, at the lowest cost that was given
/// for it.
pub proof fn selection_is_complete_and_cheapest(
    selected: Seq<EntryView>,
    given: Seq<EntryView>,
    entry: EntryView,
)
    requires
        selects(selected, given),
        given.contains(entry),
    ensures
        exists|kept: EntryView|
            #![trigger selected.contains(kept)]
            selected.contains(kept) && same_conversion(kept, entry) && kept.cost <= entry.cost,
{
    let kept = preferred_below(given, entry, given.len() as int);
    assert(is_preferred(given, kept));
    assert(selected.contains(kept));
}

/// Among the first `count` entries, one for the same conversion to which none is preferred.
proof fn preferred_below(given: Seq<EntryView>, entry: EntryView, count: int) -> (kept: EntryView)
    requires
        given.contains(entry),
        0 <= count <= given.len(),
    ensures
        given.contains(kept),
        same_conversion(kept, entry),
        preference(kept, entry) != Rank::After,
        forall|i: int|
            0 <= i < count && same_conversion(kept, #[trigger] given[i]) ==> preference(
                kept,
                given[i],
            ) != Rank::After,
    decreases count,
{
    if count == 0 {
        entry
    } else {
        let before = preferred_below(given, entry, count - 1);
        let next = given[count - 1];
        if same_conversion(before, next) && preference(before, next) == Rank::After {
            next
        } else {
            before
        }
    }
}

} // verus!
