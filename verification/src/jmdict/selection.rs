//! Which candidates the dictionary keeps.

use crate::grouping::{first_of_groups, has_first, Grouping};
use crate::index::distinct;
use crate::jmdict::candidates::{
    all_used_readings, candidates_of, count_distinct, katakana_entries, process_entry, OutputEntry,
    OutputView,
};
use crate::jmdict::document::{after_events, read_document, Document, DocumentError, DocumentView};
use crate::jmdict::loanword::{rejection, DirectLoanwordFilter, FilterView, Rejection};
use crate::jmdict::xml::document_events;
use crate::order::{
    bool_rank, compare_i64, compare_text, int_rank, strictly_sorted_is_unique, text_laws, text_rank,
    text_rank_flip, text_rank_same, Rank, Ranking,
};
use crate::text::{lowercase, same_text, texts, to_lowercase};
use crate::views::{views, views_push};
use vstd::prelude::*;

verus! {

/// The order by reading and surface.
pub open spec fn pair_order(left: OutputView, right: OutputView) -> Rank {
    text_rank(left.reading, right.reading).then_by(text_rank(left.surface, right.surface))
}

/// The order by reading and surface, in which surfaces that differ in case only are one.
pub open spec fn folded_order(left: OutputView, right: OutputView) -> Rank {
    text_rank(left.reading, right.reading).then_by(
        text_rank(lowercase(left.surface), lowercase(right.surface)),
    )
}

/// A surface with an upper-case letter.
pub open spec fn has_capital(surface: Seq<char>) -> bool {
    surface != lowercase(surface)
}

/// The order among rows whose surfaces differ in case only: the cheapest first, then the ones
/// without capitals.
pub open spec fn case_preference(left: OutputView, right: OutputView) -> Rank {
    int_rank(left.cost, right.cost).then_by(
        bool_rank(has_capital(left.surface), has_capital(right.surface)),
    ).then_by(text_rank(left.surface, right.surface))
}

/// Groups by reading and surface, the cheapest first.
pub struct ByPair;

impl Ranking<OutputEntry> for ByPair {
    open spec fn rank(left: OutputEntry, right: OutputEntry) -> Rank {
        pair_order(left@, right@).then_by(int_rank(left@.cost, right@.cost))
    }

    proof fn rank_flip(left: OutputEntry, right: OutputEntry) {
        text_rank_flip(left.reading@, right.reading@);
        text_rank_flip(left.surface@, right.surface@);
    }

    proof fn rank_transitive(first: OutputEntry, second: OutputEntry, third: OutputEntry) {
        text_laws(first.reading@, second.reading@, third.reading@);
        text_laws(first.surface@, second.surface@, third.surface@);
    }

    fn compare(left: &OutputEntry, right: &OutputEntry) -> (rank: Rank) {
        let reading = compare_text(left.reading.as_str(), right.reading.as_str());
        if reading != Rank::Same {
            return reading;
        }
        let surface = compare_text(left.surface.as_str(), right.surface.as_str());
        if surface != Rank::Same {
            return surface;
        }
        compare_i64(left.cost as i64, right.cost as i64)
    }
}

impl Grouping<OutputEntry> for ByPair {
    open spec fn same_group(left: OutputEntry, right: OutputEntry) -> bool {
        left@.reading == right@.reading && left@.surface == right@.surface
    }

    proof fn groups_are_reflexive(value: OutputEntry) {
    }

    proof fn groups_stand_together(first: OutputEntry, second: OutputEntry, third: OutputEntry) {
        text_laws(first.reading@, second.reading@, third.reading@);
        text_laws(first.surface@, second.surface@, third.surface@);
        text_rank_flip(first.reading@, second.reading@);
        text_rank_flip(first.surface@, second.surface@);
    }

    fn alike(left: &OutputEntry, right: &OutputEntry) -> (alike: bool) {
        same_text(left.reading.as_str(), right.reading.as_str()) && same_text(
            left.surface.as_str(),
            right.surface.as_str(),
        )
    }
}

fn compare_folded(left: &OutputEntry, right: &OutputEntry) -> (rank: Rank)
    ensures
        rank == folded_order(left@, right@),
{
    let reading = compare_text(left.reading.as_str(), right.reading.as_str());
    if reading != Rank::Same {
        return reading;
    }
    compare_text(
        to_lowercase(left.surface.as_str()).as_str(),
        to_lowercase(right.surface.as_str()).as_str(),
    )
}

fn capital(surface: &str) -> (found: bool)
    ensures
        found == has_capital(surface@),
{
    !same_text(surface, to_lowercase(surface).as_str())
}

/// Groups by reading and surface in lower case, the preferred case first.
pub struct ByFoldedPair;

impl Ranking<OutputEntry> for ByFoldedPair {
    open spec fn rank(left: OutputEntry, right: OutputEntry) -> Rank {
        folded_order(left@, right@).then_by(case_preference(left@, right@))
    }

    proof fn rank_flip(left: OutputEntry, right: OutputEntry) {
        text_rank_flip(left.reading@, right.reading@);
        text_rank_flip(left.surface@, right.surface@);
        text_rank_flip(lowercase(left.surface@), lowercase(right.surface@));
    }

    proof fn rank_transitive(first: OutputEntry, second: OutputEntry, third: OutputEntry) {
        text_laws(first.reading@, second.reading@, third.reading@);
        text_laws(first.surface@, second.surface@, third.surface@);
        text_laws(
            lowercase(first.surface@),
            lowercase(second.surface@),
            lowercase(third.surface@),
        );
    }

    fn compare(left: &OutputEntry, right: &OutputEntry) -> (rank: Rank) {
        let folded = compare_folded(left, right);
        if folded != Rank::Same {
            return folded;
        }
        let cost = compare_i64(left.cost as i64, right.cost as i64);
        if cost != Rank::Same {
            return cost;
        }
        let left_capital = capital(left.surface.as_str());
        let right_capital = capital(right.surface.as_str());
        if left_capital != right_capital {
            return if right_capital {
                Rank::Before
            } else {
                Rank::After
            };
        }
        compare_text(left.surface.as_str(), right.surface.as_str())
    }
}

impl Grouping<OutputEntry> for ByFoldedPair {
    open spec fn same_group(left: OutputEntry, right: OutputEntry) -> bool {
        folded_order(left@, right@) == Rank::Same
    }

    proof fn groups_are_reflexive(value: OutputEntry) {
        text_laws(value.reading@, value.reading@, value.reading@);
        text_laws(lowercase(value.surface@), lowercase(value.surface@), lowercase(value.surface@));
    }

    proof fn groups_stand_together(first: OutputEntry, second: OutputEntry, third: OutputEntry) {
        text_laws(first.reading@, second.reading@, third.reading@);
        text_laws(
            lowercase(first.surface@),
            lowercase(second.surface@),
            lowercase(third.surface@),
        );
        text_rank_flip(first.reading@, second.reading@);
        text_rank_flip(lowercase(first.surface@), lowercase(second.surface@));
    }

    fn alike(left: &OutputEntry, right: &OutputEntry) -> (alike: bool) {
        compare_folded(left, right) == Rank::Same
    }
}

/// The table has a row for the pair that costs no more.
pub open spec fn has_cheapest(table: Seq<OutputView>, entry: OutputView) -> bool {
    exists|i: int|
        0 <= i < table.len() && (#[trigger] table[i]).reading == entry.reading && table[i].surface
            == entry.surface && table[i].cost <= entry.cost
}

/// The table holds each pair of reading and surface once, in order, with its smallest cost.
pub open spec fn is_cheapest_table(table: Seq<OutputView>, candidates: Seq<OutputView>) -> bool {
    &&& forall|i: int, j: int|
        0 <= i < j < table.len() ==> pair_order(#[trigger] table[i], #[trigger] table[j])
            == Rank::Before
    &&& forall|i: int| 0 <= i < table.len() ==> #[trigger] candidates.contains(table[i])
    &&& forall|p: int|
        0 <= p < candidates.len() ==> #[trigger] has_cheapest(table, candidates[p])
}

/// The table has the preferred row among those whose surfaces differ in case only.
pub open spec fn has_preferred_case(table: Seq<OutputView>, entry: OutputView) -> bool {
    exists|i: int|
        0 <= i < table.len() && folded_order(#[trigger] table[i], entry) == Rank::Same
            && case_preference(table[i], entry) != Rank::After
}

/// The table holds each pair of reading and surface in lower case once, in order, with its
/// preferred row.
pub open spec fn is_case_table(table: Seq<OutputView>, rows: Seq<OutputView>) -> bool {
    &&& forall|i: int, j: int|
        0 <= i < j < table.len() ==> folded_order(#[trigger] table[i], #[trigger] table[j])
            == Rank::Before
    &&& forall|i: int| 0 <= i < table.len() ==> #[trigger] rows.contains(table[i])
    &&& forall|p: int| 0 <= p < rows.len() ==> #[trigger] has_preferred_case(table, rows[p])
}

/// Keeps each pair of reading and surface once, with its smallest cost.
pub fn keep_cheapest(candidates: Vec<OutputEntry>) -> (table: Vec<OutputEntry>)
    ensures
        is_cheapest_table(views(table@), views(candidates@)),
{
    let ghost given = candidates@;
    let table = first_of_groups::<OutputEntry, ByPair>(candidates);
    proof {
        let rows = views(table@);
        let all = views(given);
        assert forall|i: int, j: int| 0 <= i < j < rows.len() implies pair_order(
            #[trigger] rows[i],
            #[trigger] rows[j],
        ) == Rank::Before by {
            assert(!ByPair::same_group(table@[i], table@[j]));
            text_laws(rows[i].reading, rows[j].reading, rows[j].reading);
            text_laws(rows[i].surface, rows[j].surface, rows[j].surface);
        }
        assert forall|i: int| 0 <= i < rows.len() implies #[trigger] all.contains(
            rows[i],
        ) by {
            assert(given.contains(table@[i]));
            assert(all[given.index_of(table@[i])] == rows[i]);
        }
        assert forall|p: int| 0 <= p < all.len() implies #[trigger] has_cheapest(
            rows,
            all[p],
        ) by {
            assert(has_first::<OutputEntry, ByPair>(table@, given[p]));
            let i = choose|i: int|
                0 <= i < table@.len() && ByPair::same_group(#[trigger] table@[i], given[p])
                    && ByPair::rank(table@[i], given[p]) != Rank::After;
            assert(rows[i] == table@[i]@);
            text_laws(rows[i].reading, all[p].reading, all[p].reading);
            text_laws(rows[i].surface, all[p].surface, all[p].surface);
        }
    }
    table
}

/// Keeps one row of those whose surfaces differ in case only.
pub fn keep_preferred_case(rows: Vec<OutputEntry>) -> (table: Vec<OutputEntry>)
    ensures
        is_case_table(views(table@), views(rows@)),
{
    let ghost given = rows@;
    let table = first_of_groups::<OutputEntry, ByFoldedPair>(rows);
    proof {
        let kept = views(table@);
        let all = views(given);
        assert forall|i: int, j: int| 0 <= i < j < kept.len() implies folded_order(
            #[trigger] kept[i],
            #[trigger] kept[j],
        ) == Rank::Before by {
            assert(!ByFoldedPair::same_group(table@[i], table@[j]));
        }
        assert forall|i: int| 0 <= i < kept.len() implies #[trigger] all.contains(
            kept[i],
        ) by {
            assert(given.contains(table@[i]));
            assert(all[given.index_of(table@[i])] == kept[i]);
        }
        assert forall|p: int| 0 <= p < all.len() implies #[trigger] has_preferred_case(
            kept,
            all[p],
        ) by {
            assert(has_first::<OutputEntry, ByFoldedPair>(table@, given[p]));
            let i = choose|i: int|
                0 <= i < table@.len() && ByFoldedPair::same_group(#[trigger] table@[i], given[p])
                    && ByFoldedPair::rank(table@[i], given[p]) != Rank::After;
            assert(kept[i] == table@[i]@);
        }
    }
    table
}

/// The filter accepts the candidate.
pub open spec fn is_accepted(filter: FilterView, candidate: OutputView) -> bool {
    rejection(filter, candidate.reading, candidate.surface) is None
}

/// The candidates that the filter accepts.
pub open spec fn accepted(filter: FilterView, candidates: Seq<OutputView>) -> Seq<OutputView>
    decreases candidates.len(),
{
    if candidates.len() == 0 {
        candidates
    } else {
        let before = accepted(filter, candidates.drop_last());
        if is_accepted(filter, candidates.last()) {
            before.push(candidates.last())
        } else {
            before
        }
    }
}

/// The number of candidates that the filter refuses for a reason.
pub open spec fn refused(
    filter: FilterView,
    candidates: Seq<OutputView>,
    reason: Rejection,
) -> nat
    decreases candidates.len(),
{
    if candidates.len() == 0 {
        0
    } else {
        let last = candidates.last();
        refused(filter, candidates.drop_last(), reason) + if rejection(
            filter,
            last.reading,
            last.surface,
        ) == Some(reason) {
            1nat
        } else {
            0nat
        }
    }
}

/// How many candidates were refused for each reason.
pub struct RejectionCounts {
    pub invalid_surface: u64,
    pub non_lexical_surface: u64,
    pub compound_not_allowlisted: u64,
    pub missing_pronunciation: u64,
    pub pronunciation_mismatch: u64,
}

impl RejectionCounts {
    /// The number for a reason.
    pub open spec fn count(self, reason: Rejection) -> u64 {
        match reason {
            Rejection::InvalidSurface => self.invalid_surface,
            Rejection::NonLexicalSurface => self.non_lexical_surface,
            Rejection::CompoundNotAllowlisted => self.compound_not_allowlisted,
            Rejection::MissingPronunciation => self.missing_pronunciation,
            Rejection::PronunciationMismatch => self.pronunciation_mismatch,
        }
    }

    /// No refusals.
    pub fn new() -> (counts: RejectionCounts)
        ensures
            forall|reason: Rejection| #[trigger] counts.count(reason) == 0,
    {
        RejectionCounts {
            invalid_surface: 0,
            non_lexical_surface: 0,
            compound_not_allowlisted: 0,
            missing_pronunciation: 0,
            pronunciation_mismatch: 0,
        }
    }

    /// The number for a reason.
    pub fn get(&self, reason: Rejection) -> (number: u64)
        ensures
            number == self.count(reason),
    {
        match reason {
            Rejection::InvalidSurface => self.invalid_surface,
            Rejection::NonLexicalSurface => self.non_lexical_surface,
            Rejection::CompoundNotAllowlisted => self.compound_not_allowlisted,
            Rejection::MissingPronunciation => self.missing_pronunciation,
            Rejection::PronunciationMismatch => self.pronunciation_mismatch,
        }
    }

    fn increment(&mut self, reason: Rejection)
        requires
            old(self).count(reason) < u64::MAX,
        ensures
            forall|other: Rejection| #[trigger]
                final(self).count(other) == old(self).count(other) + if other == reason {
                    1int
                } else {
                    0
                },
    {
        match reason {
            Rejection::InvalidSurface => {
                self.invalid_surface += 1;
            },
            Rejection::NonLexicalSurface => {
                self.non_lexical_surface += 1;
            },
            Rejection::CompoundNotAllowlisted => {
                self.compound_not_allowlisted += 1;
            },
            Rejection::MissingPronunciation => {
                self.missing_pronunciation += 1;
            },
            Rejection::PronunciationMismatch => {
                self.pronunciation_mismatch += 1;
            },
        }
    }

    /// The reasons with a number above zero, in order of their names.
    pub open spec fn listed(self) -> Seq<(Rejection, u64)> {
        let one = |reason: Rejection|
            if self.count(reason) > 0 {
                seq![(reason, self.count(reason))]
            } else {
                Seq::empty()
            };
        one(Rejection::CompoundNotAllowlisted) + one(Rejection::InvalidSurface) + one(
            Rejection::MissingPronunciation,
        ) + one(Rejection::NonLexicalSurface) + one(Rejection::PronunciationMismatch)
    }

    /// The reasons with a number above zero, in order of their names.
    pub fn entries(&self) -> (list: Vec<(Rejection, u64)>)
        ensures
            list@ == self.listed(),
    {
        let mut list: Vec<(Rejection, u64)> = Vec::new();
        if self.compound_not_allowlisted > 0 {
            list.push((Rejection::CompoundNotAllowlisted, self.compound_not_allowlisted));
        }
        if self.invalid_surface > 0 {
            list.push((Rejection::InvalidSurface, self.invalid_surface));
        }
        if self.missing_pronunciation > 0 {
            list.push((Rejection::MissingPronunciation, self.missing_pronunciation));
        }
        if self.non_lexical_surface > 0 {
            list.push((Rejection::NonLexicalSurface, self.non_lexical_surface));
        }
        if self.pronunciation_mismatch > 0 {
            list.push((Rejection::PronunciationMismatch, self.pronunciation_mismatch));
        }
        assert(list@ =~= self.listed());
        list
    }
}

/// Splits the candidates into those that the filter accepts and the numbers of the others.
pub fn retain_candidates(candidates: Vec<OutputEntry>, filter: &DirectLoanwordFilter) -> (result: (
    Vec<OutputEntry>,
    RejectionCounts,
))
    ensures
        views(result.0@) == accepted(filter@, views(candidates@)),
        forall|reason: Rejection| #[trigger]
            result.1.count(reason) == refused(filter@, views(candidates@), reason),
{
    let total = candidates.len();
    let ghost all = views(candidates@);
    let mut kept: Vec<OutputEntry> = Vec::new();
    let mut counts = RejectionCounts::new();
    assert(views(kept@) =~= accepted(filter@, all.take(0)));
    for candidate in it: candidates
        invariant
            views(it.seq()) == all,
            all.len() == total,
            views(kept@) == accepted(filter@, all.take(it.index())),
            forall|reason: Rejection| #[trigger]
                counts.count(reason) == refused(filter@, all.take(it.index()), reason),
            forall|reason: Rejection| #[trigger] counts.count(reason) <= it.index(),
    {
        let ghost done = all.take(it.index());
        let ghost next = all.take(it.index() + 1);
        proof {
            assert(next.drop_last() =~= done);
            assert(next.last() == candidate@);
        }
        match filter.check(candidate.reading.as_str(), candidate.surface.as_str()) {
            Ok(_) => {
                proof {
                    views_push(kept@, candidate);
                }
                kept.push(candidate);
            },
            Err(reason) => {
                assert(counts.count(reason) <= it.index() < total);
                counts.increment(reason);
            },
        }
    }
    assert(all.take(all.len() as int) =~= all);
    (kept, counts)
}

/// What was counted while a document was taken in.
pub struct ParseStats {
    pub source_created: String,
    pub jmdict_entries: u64,
    pub katakana_entries: u64,
    pub unique_readings: u64,
    pub rejected_candidates: RejectionCounts,
}

/// The contents of a filter that need not be there.
pub open spec fn optional_filter(filter: Option<&DirectLoanwordFilter>) -> Option<FilterView> {
    match filter {
        Some(filter) => Some(filter@),
        None => None,
    }
}

/// `rows` are the rows that the entries give: all pairs with their smallest cost, or, with a
/// filter, the accepted ones, each in one case only.
pub open spec fn are_rows(
    rows: Seq<OutputView>,
    candidates: Seq<OutputView>,
    filter: Option<FilterView>,
) -> bool {
    match filter {
        Some(filter) => exists|table: Seq<OutputView>|
            #![trigger is_case_table(rows, table)]
            is_cheapest_table(table, accepted(filter, candidates)) && is_case_table(rows, table),
        None => is_cheapest_table(rows, candidates),
    }
}

/// What is counted while a document is taken in.
pub open spec fn are_stats(
    stats: ParseStats,
    document: DocumentView,
    candidates: Seq<OutputView>,
    filter: Option<FilterView>,
) -> bool {
    let count = document.entries.len() as int;
    &&& stats.source_created@ == document.created
    &&& stats.jmdict_entries == count
    &&& stats.katakana_entries == katakana_entries(document.entries, count)
    &&& stats.unique_readings == distinct(all_used_readings(document.entries, count)).len()
    &&& forall|reason: Rejection| #[trigger]
        stats.rejected_candidates.count(reason) == match filter {
            Some(filter) => refused(filter, candidates, reason),
            None => 0,
        }
}

/// The rows of the dictionary that a document gives, and what was counted.
pub fn collect_entries(
    document: &Document,
    base_cost: i32,
    filter: Option<&DirectLoanwordFilter>,
) -> (result: (Vec<OutputEntry>, ParseStats))
    ensures
        are_rows(
            views(result.0@),
            candidates_of(
                document@.entries,
                base_cost as int,
                document@.entries.len() as int,
            ),
            optional_filter(filter),
        ),
        are_stats(
            result.1,
            document@,
            candidates_of(
                document@.entries,
                base_cost as int,
                document@.entries.len() as int,
            ),
            optional_filter(filter),
        ),
{
    let ghost entries = document@.entries;
    let mut candidates: Vec<OutputEntry> = Vec::new();
    let mut readings: Vec<String> = Vec::new();
    let mut katakana: u64 = 0;
    let mut i: usize = 0;
    assert(views(candidates@) =~= candidates_of(entries, base_cost as int, 0));
    assert(texts(readings@) =~= all_used_readings(entries, 0));
    while i < document.entries.len()
        invariant
            entries == document@.entries,
            i <= document.entries@.len(),
            views(candidates@) == candidates_of(entries, base_cost as int, i as int),
            texts(readings@) == all_used_readings(entries, i as int),
            katakana == katakana_entries(entries, i as int),
            katakana <= i,
        decreases document.entries@.len() - i,
    {
        assert(entries[i as int] == document.entries@[i as int]@);
        if process_entry(&document.entries[i], base_cost, &mut candidates, &mut readings) {
            katakana += 1;
        }
        i += 1;
    }
    let ghost all = views(candidates@);
    let unique = count_distinct(readings);
    let (rows, rejected) = match filter {
        Some(filter) => {
            let (kept, counts) = retain_candidates(candidates, filter);
            let table = keep_cheapest(kept);
            let ghost pairs = views(table@);
            let rows = keep_preferred_case(table);
            assert(is_cheapest_table(pairs, accepted(filter@, all)));
            assert(is_case_table(views(rows@), pairs));
            (rows, counts)
        },
        None => (keep_cheapest(candidates), RejectionCounts::new()),
    };
    let stats = ParseStats {
        source_created: document.created.clone(),
        jmdict_entries: document.entries.len() as u64,
        katakana_entries: katakana,
        unique_readings: unique as u64,
        rejected_candidates: rejected,
    };
    (rows, stats)
}

/// The rows of the dictionary that a JMdict document gives, and what was counted.
pub fn parse_jmdict(
    source: &[u8],
    base_cost: i32,
    filter: Option<&DirectLoanwordFilter>,
) -> (result: Result<(Vec<OutputEntry>, ParseStats), DocumentError>)
    ensures
        match result {
            Ok((rows, stats)) => match after_events(document_events(source@)) {
                Ok(document) => {
                    let candidates = candidates_of(
                        document.entries,
                        base_cost as int,
                        document.entries.len() as int,
                    );
                    &&& are_rows(views(rows@), candidates, optional_filter(filter))
                    &&& are_stats(stats, document, candidates, optional_filter(filter))
                },
                Err(_) => false,
            },
            Err(error) => after_events(document_events(source@)) == Err::<DocumentView, _>(error@),
        },
{
    match read_document(source) {
        Ok(document) => Ok(collect_entries(&document, base_cost, filter)),
        Err(error) => Err(error),
    }
}

/// A row that a table has for a pair stands in every such table.
proof fn cheapest_row_is_shared(
    left: Seq<OutputView>,
    right: Seq<OutputView>,
    candidates: Seq<OutputView>,
    row: OutputView,
)
    requires
        is_cheapest_table(left, candidates),
        is_cheapest_table(right, candidates),
        left.contains(row),
    ensures
        right.contains(row),
{
    let i = left.index_of(row);
    assert(candidates.contains(left[i]));
    let p = candidates.index_of(row);
    assert(has_cheapest(right, candidates[p]));
    let j = choose|j: int|
        0 <= j < right.len() && (#[trigger] right[j]).reading == row.reading && right[j].surface
            == row.surface && right[j].cost <= row.cost;
    assert(candidates.contains(right[j]));
    let q = candidates.index_of(right[j]);
    assert(has_cheapest(left, candidates[q]));
    let k = choose|k: int|
        0 <= k < left.len() && (#[trigger] left[k]).reading == row.reading && left[k].surface
            == row.surface && left[k].cost <= right[j].cost;
    text_rank_same(row.reading, row.reading);
    text_rank_same(row.surface, row.surface);
    if k != i {
        assert(pair_order(left[i], left[k]) == Rank::Same);
        assert(pair_order(left[k], left[i]) == Rank::Same);
    }
    assert(right[j] == row);
}

/// The candidates determine the table of their smallest costs.
pub proof fn cheapest_table_is_unique(
    left: Seq<OutputView>,
    right: Seq<OutputView>,
    candidates: Seq<OutputView>,
)
    requires
        is_cheapest_table(left, candidates),
        is_cheapest_table(right, candidates),
    ensures
        left == right,
{
    let precedes = |first: OutputView, second: OutputView|
        pair_order(first, second) == Rank::Before;
    assert forall|first: OutputView, second: OutputView| #[trigger] precedes(
        first,
        second,
    ) implies !precedes(second, first) by {
        text_rank_flip(first.reading, second.reading);
        text_rank_flip(first.surface, second.surface);
    }
    assert forall|row: OutputView|
        #![trigger left.contains(row)]
        #![trigger right.contains(row)]
        left.contains(row) <==> right.contains(row) by {
        if left.contains(row) {
            cheapest_row_is_shared(left, right, candidates, row);
        }
        if right.contains(row) {
            cheapest_row_is_shared(right, left, candidates, row);
        }
    }
    strictly_sorted_is_unique(left, right, precedes);
}

/// A row that a table has for a pair in one case stands in every such table.
proof fn case_row_is_shared(
    left: Seq<OutputView>,
    right: Seq<OutputView>,
    rows: Seq<OutputView>,
    row: OutputView,
)
    requires
        is_case_table(left, rows),
        is_case_table(right, rows),
        left.contains(row),
    ensures
        right.contains(row),
{
    let i = left.index_of(row);
    assert(rows.contains(left[i]));
    let p = rows.index_of(row);
    assert(has_preferred_case(right, rows[p]));
    let j = choose|j: int|
        0 <= j < right.len() && folded_order(#[trigger] right[j], row) == Rank::Same
            && case_preference(right[j], row) != Rank::After;
    let other = right[j];
    assert(rows.contains(other));
    let q = rows.index_of(other);
    assert(has_preferred_case(left, rows[q]));
    let k = choose|k: int|
        0 <= k < left.len() && folded_order(#[trigger] left[k], other) == Rank::Same
            && case_preference(left[k], other) != Rank::After;
    let small = lowercase(row.surface);
    text_rank_same(left[k].reading, other.reading);
    text_rank_same(other.reading, row.reading);
    text_rank_same(lowercase(left[k].surface), lowercase(other.surface));
    text_rank_same(lowercase(other.surface), small);
    text_rank_same(row.reading, row.reading);
    text_rank_same(small, small);
    if k != i {
        assert(folded_order(left[i], left[k]) == Rank::Same);
        assert(folded_order(left[k], left[i]) == Rank::Same);
    }
    text_rank_flip(row.surface, other.surface);
    text_rank_same(row.surface, other.surface);
    assert(other == row);
}

/// The rows determine the table of their preferred case.
pub proof fn case_table_is_unique(
    left: Seq<OutputView>,
    right: Seq<OutputView>,
    rows: Seq<OutputView>,
)
    requires
        is_case_table(left, rows),
        is_case_table(right, rows),
    ensures
        left == right,
{
    let precedes = |first: OutputView, second: OutputView|
        folded_order(first, second) == Rank::Before;
    assert forall|first: OutputView, second: OutputView| #[trigger] precedes(
        first,
        second,
    ) implies !precedes(second, first) by {
        text_rank_flip(first.reading, second.reading);
        text_rank_flip(lowercase(first.surface), lowercase(second.surface));
    }
    assert forall|row: OutputView|
        #![trigger left.contains(row)]
        #![trigger right.contains(row)]
        left.contains(row) <==> right.contains(row) by {
        if left.contains(row) {
            case_row_is_shared(left, right, rows, row);
        }
        if right.contains(row) {
            case_row_is_shared(right, left, rows, row);
        }
    }
    strictly_sorted_is_unique(left, right, precedes);
}

/// The candidates and the filter determine the rows of the dictionary.
pub proof fn rows_are_unique(
    left: Seq<OutputView>,
    right: Seq<OutputView>,
    candidates: Seq<OutputView>,
    filter: Option<FilterView>,
)
    requires
        are_rows(left, candidates, filter),
        are_rows(right, candidates, filter),
    ensures
        left == right,
{
    match filter {
        Some(filter) => {
            let kept = accepted(filter, candidates);
            let left_table = choose|table: Seq<OutputView>|
                #![trigger is_case_table(left, table)]
                is_cheapest_table(table, kept) && is_case_table(left, table);
            let right_table = choose|table: Seq<OutputView>|
                #![trigger is_case_table(right, table)]
                is_cheapest_table(table, kept) && is_case_table(right, table);
            cheapest_table_is_unique(left_table, right_table, kept);
            case_table_is_unique(left, right, left_table);
        },
        None => {
            cheapest_table_is_unique(left, right, candidates);
        },
    }
}

/// What the filter accepts are candidates that it does not refuse.
proof fn accepted_are_candidates(filter: FilterView, candidates: Seq<OutputView>, row: OutputView)
    requires
        accepted(filter, candidates).contains(row),
    ensures
        candidates.contains(row),
        is_accepted(filter, row),
    decreases candidates.len(),
{
    let kept = accepted(filter, candidates);
    let i = kept.index_of(row);
    if candidates.len() > 0 {
        let before = accepted(filter, candidates.drop_last());
        assert(candidates[candidates.len() - 1] == candidates.last());
        if i < before.len() {
            assert(before[i] == row);
            accepted_are_candidates(filter, candidates.drop_last(), row);
            let p = candidates.drop_last().index_of(row);
            assert(candidates[p] == row);
        }
    }
}

/// With a filter, the dictionary has no row that the filter refuses.
pub proof fn rows_are_accepted(
    rows: Seq<OutputView>,
    candidates: Seq<OutputView>,
    filter: FilterView,
    i: int,
)
    requires
        are_rows(rows, candidates, Some(filter)),
        0 <= i < rows.len(),
    ensures
        rejection(filter, rows[i].reading, rows[i].surface) is None,
        candidates.contains(rows[i]),
{
    let kept = accepted(filter, candidates);
    let table = choose|table: Seq<OutputView>|
        #![trigger is_case_table(rows, table)]
        is_cheapest_table(table, kept) && is_case_table(rows, table);
    assert(table.contains(rows[i]));
    let j = table.index_of(rows[i]);
    assert(kept.contains(table[j]));
    accepted_are_candidates(filter, candidates, rows[i]);
}

/// Every candidate is accepted or refused for one reason.
pub proof fn candidates_are_accounted_for(filter: FilterView, candidates: Seq<OutputView>)
    ensures
        candidates.len() == accepted(filter, candidates).len() + refused(
            filter,
            candidates,
            Rejection::InvalidSurface,
        ) + refused(filter, candidates, Rejection::NonLexicalSurface) + refused(
            filter,
            candidates,
            Rejection::CompoundNotAllowlisted,
        ) + refused(filter, candidates, Rejection::MissingPronunciation) + refused(
            filter,
            candidates,
            Rejection::PronunciationMismatch,
        ),
    decreases candidates.len(),
{
    if candidates.len() > 0 {
        candidates_are_accounted_for(filter, candidates.drop_last());
    }
}

} // verus!
