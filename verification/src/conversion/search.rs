//! Converting a reading: a left-to-right beam search over the entries of the dictionary.

use crate::conversion::dictionary::{
    entries_for, entries_for_members, entry_views, normal_reading, normalize_reading, Dictionary,
    EntryView,
};
use crate::conversion::optimality::conversions_are_never_empty;
use crate::conversion::ranking::{
    best_is_ranked, best_of, has_no_repeats, is_ranked, prune, Emission,
};
use crate::order::{
    compare_i64, compare_text, compare_u64, int_rank, text_laws, text_rank, text_rank_flip, Rank,
};
use crate::text::{chars_of, contains_control, has_control, same_text};
use crate::views::{views, views_push};
use vstd::prelude::*;

verus! {

/// Cost assigned to one input character that is not covered by the dictionary.
pub const DEFAULT_UNKNOWN_COST: i64 = 50_000;

/// One step of a conversion.
#[derive(Clone, Debug, PartialEq, Eq)]
pub struct Segment {
    pub reading: String,
    pub surface: String,
    pub left_id: u16,
    pub right_id: u16,
    pub cost: i64,
    /// 0 denotes a character that was copied; 1 through 3 denote the order of the entry.
    pub order: u8,
}

/// What a segment says.
pub struct SegmentView {
    pub reading: Seq<char>,
    pub surface: Seq<char>,
    pub left_id: u16,
    pub right_id: u16,
    pub cost: int,
    pub order: u8,
}

impl View for Segment {
    type V = SegmentView;

    open spec fn view(&self) -> SegmentView {
        SegmentView {
            reading: self.reading@,
            surface: self.surface@,
            left_id: self.left_id,
            right_id: self.right_id,
            cost: self.cost as int,
            order: self.order,
        }
    }
}

impl SegmentView {
    /// The segment copies a character.
    pub open spec fn unknown(self) -> bool {
        self.order == 0
    }
}

impl Segment {
    /// Whether the segment copies a character that the dictionary does not convert.
    pub fn is_unknown(&self) -> (unknown: bool)
        ensures
            unknown == self@.unknown(),
    {
        self.order == 0
    }

    /// Another segment that says the same.
    fn duplicate(&self) -> (copy: Segment)
        ensures
            copy@ == self@,
    {
        Segment {
            reading: self.reading.clone(),
            surface: self.surface.clone(),
            left_id: self.left_id,
            right_id: self.right_id,
            cost: self.cost,
            order: self.order,
        }
    }
}

/// One result of a conversion.
#[derive(Clone, Debug, PartialEq, Eq)]
pub struct Candidate {
    pub text: String,
    pub cost: i64,
    pub segments: Vec<Segment>,
}

/// What a candidate says.
pub struct CandidateView {
    pub text: Seq<char>,
    pub cost: int,
    pub segments: Seq<SegmentView>,
}

impl View for Candidate {
    type V = CandidateView;

    open spec fn view(&self) -> CandidateView {
        CandidateView {
            text: self.text@,
            cost: self.cost as int,
            segments: views(self.segments@),
        }
    }
}

/// How many of the segments copy a character.
pub open spec fn unknown_count(segments: Seq<SegmentView>) -> nat
    decreases segments.len(),
{
    if segments.len() == 0 {
        0
    } else {
        unknown_count(segments.drop_last()) + if segments.last().unknown() {
            1nat
        } else {
            0nat
        }
    }
}

/// The order of the candidates: the cheapest first, then the fewest copied characters, then the
/// fewest segments, then by text.
pub open spec fn candidate_order(left: CandidateView, right: CandidateView) -> Rank {
    int_rank(left.cost, right.cost).then_by(
        int_rank(unknown_count(left.segments) as int, unknown_count(right.segments) as int),
    ).then_by(int_rank(left.segments.len() as int, right.segments.len() as int)).then_by(
        text_rank(left.text, right.text),
    )
}

/// Counts the segments that copy a character.
fn count_unknown(segments: &[Segment]) -> (count: usize)
    ensures
        count == unknown_count(views(segments@)),
        count <= segments@.len(),
{
    let ghost all = views(segments@);
    let length = segments.len();
    let mut count: usize = 0;
    let mut i: usize = 0;
    while i < length
        invariant
            all == views(segments@),
            i <= length == segments@.len(),
            count <= i,
            count == unknown_count(all.take(i as int)),
        decreases segments@.len() - i,
    {
        proof {
            assert(all.take(i + 1).drop_last() =~= all.take(i as int));
            assert(all.take(i + 1).last() == segments@[i as int]@);
        }
        if segments[i].is_unknown() {
            count += 1;
        }
        i += 1;
    }
    assert(all.take(i as int) =~= all);
    count
}

/// Compares two candidates.
pub fn compare_candidates(left: &Candidate, right: &Candidate) -> (rank: Rank)
    ensures
        rank == candidate_order(left@, right@),
{
    let cost = compare_i64(left.cost, right.cost);
    if cost != Rank::Same {
        return cost;
    }
    let left_unknowns = count_unknown(&left.segments);
    let right_unknowns = count_unknown(&right.segments);
    let unknowns = compare_u64(left_unknowns as u64, right_unknowns as u64);
    if unknowns != Rank::Same {
        return unknowns;
    }
    let length = compare_u64(left.segments.len() as u64, right.segments.len() as u64);
    if length != Rank::Same {
        return length;
    }
    compare_text(left.text.as_str(), right.text.as_str())
}

impl Emission for Candidate {
    open spec fn order(left: CandidateView, right: CandidateView) -> Rank {
        candidate_order(left, right)
    }

    open spec fn emitted(value: CandidateView) -> Seq<char> {
        value.text
    }

    proof fn order_flip(left: CandidateView, right: CandidateView) {
        text_rank_flip(left.text, right.text);
    }

    proof fn order_transitive(first: CandidateView, second: CandidateView, third: CandidateView) {
        text_laws(first.text, second.text, third.text);
    }

    fn compare(&self, other: &Candidate) -> (rank: Rank) {
        compare_candidates(self, other)
    }

    fn emits_same(&self, other: &Candidate) -> (same: bool) {
        same_text(self.text.as_str(), other.text.as_str())
    }
}

/// A conversion of the start of the reading.
pub struct Hypothesis {
    pub text: String,
    pub cost: i64,
    pub unknowns: usize,
    pub segments: Vec<Segment>,
}

/// What a hypothesis says.
pub struct HypothesisView {
    pub text: Seq<char>,
    pub cost: int,
    pub unknowns: nat,
    pub segments: Seq<SegmentView>,
}

impl View for Hypothesis {
    type V = HypothesisView;

    open spec fn view(&self) -> HypothesisView {
        HypothesisView {
            text: self.text@,
            cost: self.cost as int,
            unknowns: self.unknowns as nat,
            segments: views(self.segments@),
        }
    }
}

/// The order of the hypotheses: the cheapest first, then the fewest copied characters, then the
/// fewest segments, then by text.
pub open spec fn hypothesis_order(left: HypothesisView, right: HypothesisView) -> Rank {
    int_rank(left.cost, right.cost).then_by(
        int_rank(left.unknowns as int, right.unknowns as int),
    ).then_by(int_rank(left.segments.len() as int, right.segments.len() as int)).then_by(
        text_rank(left.text, right.text),
    )
}

/// Compares two hypotheses.
fn compare_hypotheses(left: &Hypothesis, right: &Hypothesis) -> (rank: Rank)
    ensures
        rank == hypothesis_order(left@, right@),
{
    let cost = compare_i64(left.cost, right.cost);
    if cost != Rank::Same {
        return cost;
    }
    let unknowns = compare_u64(left.unknowns as u64, right.unknowns as u64);
    if unknowns != Rank::Same {
        return unknowns;
    }
    let length = compare_u64(left.segments.len() as u64, right.segments.len() as u64);
    if length != Rank::Same {
        return length;
    }
    compare_text(left.text.as_str(), right.text.as_str())
}

impl Emission for Hypothesis {
    open spec fn order(left: HypothesisView, right: HypothesisView) -> Rank {
        hypothesis_order(left, right)
    }

    open spec fn emitted(value: HypothesisView) -> Seq<char> {
        value.text
    }

    proof fn order_flip(left: HypothesisView, right: HypothesisView) {
        text_rank_flip(left.text, right.text);
    }

    proof fn order_transitive(
        first: HypothesisView,
        second: HypothesisView,
        third: HypothesisView,
    ) {
        text_laws(first.text, second.text, third.text);
    }

    fn compare(&self, other: &Hypothesis) -> (rank: Rank) {
        compare_hypotheses(self, other)
    }

    fn emits_same(&self, other: &Hypothesis) -> (same: bool) {
        same_text(self.text.as_str(), other.text.as_str())
    }
}

/// The sum of two costs, within the range of 64 bits.
pub open spec fn saturating_sum(left: int, right: int) -> int {
    if left + right > i64::MAX {
        i64::MAX as int
    } else if left + right < i64::MIN {
        i64::MIN as int
    } else {
        left + right
    }
}

/// The hypothesis with one more segment.
pub open spec fn extended(hypothesis: HypothesisView, segment: SegmentView) -> HypothesisView {
    HypothesisView {
        text: hypothesis.text + segment.surface,
        cost: saturating_sum(hypothesis.cost, segment.cost),
        unknowns: hypothesis.unknowns + if segment.unknown() {
            1nat
        } else {
            0nat
        },
        segments: hypothesis.segments.push(segment),
    }
}

impl Hypothesis {
    /// The hypothesis with one more segment.
    fn extend(&self, segment: &Segment) -> (result: Hypothesis)
        requires
            self.unknowns < usize::MAX,
        ensures
            result@ == extended(self@, segment@),
    {
        let mut text = self.text.clone();
        text.append(segment.surface.as_str());
        let mut segments: Vec<Segment> = Vec::new();
        let mut i: usize = 0;
        while i < self.segments.len()
            invariant
                i <= self.segments@.len(),
                views(segments@) == views(self.segments@).take(i as int),
            decreases self.segments@.len() - i,
        {
            let ghost before = segments@;
            let copy = self.segments[i].duplicate();
            segments.push(copy);
            proof {
                views_push(before, copy);
                assert(views(self.segments@).take(i + 1) =~= views(self.segments@).take(
                    i as int,
                ).push(self.segments@[i as int]@));
            }
            i += 1;
        }
        let ghost before = segments@;
        let copy = segment.duplicate();
        segments.push(copy);
        proof {
            views_push(before, copy);
            assert(views(self.segments@).take(i as int) =~= views(self.segments@));
        }
        let cost = match self.cost.checked_add(segment.cost) {
            Some(cost) => cost,
            None => if segment.cost > 0 {
                i64::MAX
            } else {
                i64::MIN
            },
        };
        let unknowns = if segment.is_unknown() {
            self.unknowns + 1
        } else {
            self.unknowns
        };
        Hypothesis { text, cost, unknowns, segments }
    }
}

/// The segment that an entry gives.
pub open spec fn entry_segment(entry: EntryView) -> SegmentView {
    SegmentView {
        reading: entry.reading,
        surface: entry.surface,
        left_id: entry.left_id,
        right_id: entry.right_id,
        cost: entry.cost as int,
        order: entry.order,
    }
}

/// The segment that copies a character.
pub open spec fn copied_segment(character: char, unknown_cost: int) -> SegmentView {
    SegmentView {
        reading: seq![character],
        surface: seq![character],
        left_id: 0,
        right_id: 0,
        cost: unknown_cost,
        order: 0,
    }
}

/// A segment and the place in the reading where it ends.
pub struct EdgeView {
    pub end: int,
    pub segment: SegmentView,
}

/// The edges that the entries of one reading give.
pub open spec fn entry_edges(entries: Seq<EntryView>, end: int) -> Seq<EdgeView> {
    Seq::new(entries.len(), |i: int| EdgeView { end, segment: entry_segment(entries[i]) })
}

/// The edges that start at `start` and end at `end` or before, for all entries whose reading
/// stands there; the shortest first.
pub open spec fn known_edges(
    entries: Seq<EntryView>,
    reading: Seq<char>,
    start: int,
    end: int,
) -> Seq<EdgeView>
    decreases end - start,
{
    if end <= start {
        Seq::empty()
    } else {
        known_edges(entries, reading, start, end - 1) + entry_edges(
            entries_for(entries, reading.subrange(start, end)),
            end,
        )
    }
}

/// All edges that start at `start`: those of the entries, then the one that copies a character.
pub open spec fn edges_from(
    entries: Seq<EntryView>,
    reading: Seq<char>,
    start: int,
    unknown_cost: int,
) -> Seq<EdgeView> {
    known_edges(entries, reading, start, reading.len() as int).push(
        EdgeView { end: start + 1, segment: copied_segment(reading[start], unknown_cost) },
    )
}

/// The hypotheses, each with one more segment.
pub open spec fn all_extended(
    hypotheses: Seq<HypothesisView>,
    segment: SegmentView,
) -> Seq<HypothesisView> {
    Seq::new(hypotheses.len(), |i: int| extended(hypotheses[i], segment))
}

/// The beams after the hypotheses went along each edge in turn. Each beam keeps its best
/// hypotheses.
pub open spec fn advanced(
    beams: Seq<Seq<HypothesisView>>,
    hypotheses: Seq<HypothesisView>,
    edges: Seq<EdgeView>,
    width: nat,
) -> Seq<Seq<HypothesisView>>
    decreases edges.len(),
{
    if edges.len() == 0 {
        beams
    } else {
        let before = advanced(beams, hypotheses, edges.drop_last(), width);
        let edge = edges.last();
        before.update(
            edge.end,
            best_of::<Hypothesis>(
                before[edge.end] + all_extended(hypotheses, edge.segment),
                width,
            ),
        )
    }
}

/// The conversion of nothing.
pub open spec fn empty_hypothesis() -> HypothesisView {
    HypothesisView { text: Seq::empty(), cost: 0, unknowns: 0, segments: Seq::empty() }
}

/// The beams after the first `count` places of the reading were left behind: for each place the
/// hypotheses that end there.
pub open spec fn beams_after(
    entries: Seq<EntryView>,
    reading: Seq<char>,
    width: nat,
    unknown_cost: int,
    count: int,
) -> Seq<Seq<HypothesisView>>
    decreases count,
{
    if count <= 0 {
        Seq::new(
            reading.len() + 1,
            |i: int|
                if i == 0 {
                    seq![empty_hypothesis()]
                } else {
                    Seq::empty()
                },
        )
    } else {
        let start = count - 1;
        let before = beams_after(entries, reading, width, unknown_cost, start);
        if before[start].len() == 0 {
            before
        } else {
            advanced(
                before.update(start, Seq::empty()),
                before[start],
                edges_from(entries, reading, start, unknown_cost),
                width,
            )
        }
    }
}

/// The candidate that a hypothesis for the whole reading gives.
pub open spec fn candidate_of(hypothesis: HypothesisView) -> CandidateView {
    CandidateView {
        text: hypothesis.text,
        cost: hypothesis.cost,
        segments: hypothesis.segments,
    }
}

/// The candidates that the hypotheses give.
pub open spec fn candidates_of(hypotheses: Seq<HypothesisView>) -> Seq<CandidateView> {
    Seq::new(hypotheses.len(), |i: int| candidate_of(hypotheses[i]))
}

/// How a reading is converted.
#[derive(Clone, Debug)]
pub struct ConvertOptions {
    /// Maximum number of results returned.
    pub candidate_limit: usize,
    /// Maximum hypotheses retained at each place of the reading.
    pub beam_width: usize,
    /// Cost for copying one input character not selected from the dictionary.
    pub unknown_cost: i64,
}

impl Default for ConvertOptions {
    fn default() -> (options: ConvertOptions)
        ensures
            options.candidate_limit == 5,
            options.beam_width == 64,
            options.unknown_cost == DEFAULT_UNKNOWN_COST,
    {
        ConvertOptions {
            candidate_limit: 5,
            beam_width: 64,
            unknown_cost: DEFAULT_UNKNOWN_COST,
        }
    }
}

/// The results of converting a normalized reading.
pub open spec fn conversions(
    entries: Seq<EntryView>,
    reading: Seq<char>,
    options: ConvertOptions,
) -> Seq<CandidateView> {
    let beams = beams_after(
        entries,
        reading,
        options.beam_width as nat,
        options.unknown_cost as int,
        reading.len() as int,
    );
    best_of::<Candidate>(
        candidates_of(beams[reading.len() as int]),
        options.candidate_limit as nat,
    )
}

/// Why a reading is not converted.
#[derive(Clone, Copy, Debug, PartialEq, Eq, Structural)]
pub enum ConvertError {
    ZeroCandidateLimit,
    NarrowBeam,
    UnknownCostNotPositive,
    ControlCharacter,
}

impl ConvertError {
    /// The error in words.
    pub open spec fn text(self) -> Seq<char> {
        match self {
            ConvertError::ZeroCandidateLimit => "candidate_limit must be positive"@,
            ConvertError::NarrowBeam => "beam_width must be at least candidate_limit"@,
            ConvertError::UnknownCostNotPositive => "unknown_cost must be positive"@,
            ConvertError::ControlCharacter => "input must not contain control characters"@,
        }
    }

    /// Says the error in words.
    pub fn message(&self) -> (message: String)
        ensures
            message@ == self.text(),
    {
        match self {
            ConvertError::ZeroCandidateLimit => "candidate_limit must be positive".to_owned(),
            ConvertError::NarrowBeam => "beam_width must be at least candidate_limit".to_owned(),
            ConvertError::UnknownCostNotPositive => "unknown_cost must be positive".to_owned(),
            ConvertError::ControlCharacter => {
                "input must not contain control characters".to_owned()
            },
        }
    }
}

/// The first reason not to convert a normalized reading.
pub open spec fn convert_error(reading: Seq<char>, options: ConvertOptions) -> Option<ConvertError> {
    if options.candidate_limit == 0 {
        Some(ConvertError::ZeroCandidateLimit)
    } else if options.beam_width < options.candidate_limit {
        Some(ConvertError::NarrowBeam)
    } else if options.unknown_cost <= 0 {
        Some(ConvertError::UnknownCostNotPositive)
    } else if has_control(reading) {
        Some(ConvertError::ControlCharacter)
    } else {
        None
    }
}

/// The readings of the segments, one after the other.
pub open spec fn spelled(segments: Seq<SegmentView>) -> Seq<char>
    decreases segments.len(),
{
    if segments.len() == 0 {
        Seq::empty()
    } else {
        spelled(segments.drop_last()) + segments.last().reading
    }
}

/// The surfaces of the segments, one after the other.
pub open spec fn written(segments: Seq<SegmentView>) -> Seq<char>
    decreases segments.len(),
{
    if segments.len() == 0 {
        Seq::empty()
    } else {
        written(segments.drop_last()) + segments.last().surface
    }
}

/// The sum of the costs of the segments, within the range of 64 bits.
pub open spec fn total_cost(segments: Seq<SegmentView>) -> int
    decreases segments.len(),
{
    if segments.len() == 0 {
        0
    } else {
        saturating_sum(total_cost(segments.drop_last()), segments.last().cost)
    }
}

/// The segment comes from an entry, or copies a character.
pub open spec fn is_step(entries: Seq<EntryView>, unknown_cost: int, segment: SegmentView) -> bool {
    ||| exists|i: int| 0 <= i < entries.len() && segment == entry_segment(#[trigger] entries[i])
    ||| exists|c: char| segment == #[trigger] copied_segment(c, unknown_cost)
}

/// The segments convert the whole reading, each in one step.
pub open spec fn segments_convert(
    entries: Seq<EntryView>,
    unknown_cost: int,
    segments: Seq<SegmentView>,
    reading: Seq<char>,
) -> bool {
    &&& spelled(segments) == reading
    &&& forall|i: int|
        0 <= i < segments.len() ==> is_step(entries, unknown_cost, #[trigger] segments[i])
}

/// What a hypothesis says of its segments is true of them.
pub open spec fn describes_segments(hypothesis: HypothesisView) -> bool {
    &&& hypothesis.text == written(hypothesis.segments)
    &&& hypothesis.cost == total_cost(hypothesis.segments)
    &&& hypothesis.unknowns == unknown_count(hypothesis.segments)
}

/// A hypothesis that can stand in the beam at a place.
pub(crate) open spec fn stands_at(
    entries: Seq<EntryView>,
    unknown_cost: int,
    reading: Seq<char>,
    place: int,
    hypothesis: HypothesisView,
) -> bool {
    &&& describes_segments(hypothesis)
    &&& segments_convert(entries, unknown_cost, hypothesis.segments, reading.take(place))
    &&& hypothesis.segments.len() <= place
    &&& hypothesis.unknowns <= place
}

/// Every beam holds hypotheses that can stand there.
pub(crate) open spec fn sound_beams(
    entries: Seq<EntryView>,
    unknown_cost: int,
    reading: Seq<char>,
    beams: Seq<Seq<HypothesisView>>,
) -> bool {
    &&& beams.len() == reading.len() + 1
    &&& forall|place: int, i: int|
        0 <= place < beams.len() && 0 <= i < beams[place].len() ==> stands_at(
            entries,
            unknown_cost,
            reading,
            place,
            #[trigger] beams[place][i],
        )
}

/// An edge that starts at `start` and follows the reading.
pub(crate) open spec fn is_edge(
    entries: Seq<EntryView>,
    unknown_cost: int,
    reading: Seq<char>,
    start: int,
    edge: EdgeView,
) -> bool {
    &&& 0 <= start < edge.end <= reading.len()
    &&& edge.segment.reading == reading.subrange(start, edge.end)
    &&& is_step(entries, unknown_cost, edge.segment)
}

/// The edges of the entries are edges.
proof fn known_edges_are_edges(
    entries: Seq<EntryView>,
    unknown_cost: int,
    reading: Seq<char>,
    start: int,
    end: int,
)
    requires
        0 <= start <= end <= reading.len(),
    ensures
        forall|i: int|
            0 <= i < known_edges(entries, reading, start, end).len() ==> is_edge(
                entries,
                unknown_cost,
                reading,
                start,
                #[trigger] known_edges(entries, reading, start, end)[i],
            ),
    decreases end - start,
{
    if start < end {
        known_edges_are_edges(entries, unknown_cost, reading, start, end - 1);
        let part = reading.subrange(start, end);
        let found = entries_for(entries, part);
        entries_for_members(entries, part);
        let shorter = known_edges(entries, reading, start, end - 1);
        assert forall|i: int|
            0 <= i < known_edges(entries, reading, start, end).len() implies is_edge(
            entries,
            unknown_cost,
            reading,
            start,
            #[trigger] known_edges(entries, reading, start, end)[i],
        ) by {
            let edge = known_edges(entries, reading, start, end)[i];
            if i < shorter.len() {
                assert(edge == shorter[i]);
            } else {
                let entry = found[i - shorter.len()];
                assert(edge == EdgeView { end, segment: entry_segment(entry) });
                assert(found.contains(entry));
                assert(entries.contains(entry));
                let j = entries.index_of(entry);
                assert(edge.segment == entry_segment(entries[j]));
            }
        }
    }
}

/// All edges that start at a place are edges.
pub(crate) proof fn edges_are_edges(
    entries: Seq<EntryView>,
    unknown_cost: int,
    reading: Seq<char>,
    start: int,
)
    requires
        0 <= start < reading.len(),
    ensures
        forall|i: int|
            0 <= i < edges_from(entries, reading, start, unknown_cost).len() ==> is_edge(
                entries,
                unknown_cost,
                reading,
                start,
                #[trigger] edges_from(entries, reading, start, unknown_cost)[i],
            ),
{
    known_edges_are_edges(entries, unknown_cost, reading, start, reading.len() as int);
    let copied = copied_segment(reading[start], unknown_cost);
    assert(copied.reading =~= reading.subrange(start, start + 1));
    assert(is_step(entries, unknown_cost, copied));
}

/// Going along an edge, a hypothesis comes to stand at its end.
pub(crate) proof fn extension_stands(
    entries: Seq<EntryView>,
    unknown_cost: int,
    reading: Seq<char>,
    start: int,
    hypothesis: HypothesisView,
    edge: EdgeView,
)
    requires
        stands_at(entries, unknown_cost, reading, start, hypothesis),
        is_edge(entries, unknown_cost, reading, start, edge),
    ensures
        stands_at(
            entries,
            unknown_cost,
            reading,
            edge.end,
            extended(hypothesis, edge.segment),
        ),
{
    let longer = hypothesis.segments.push(edge.segment);
    assert(longer.drop_last() =~= hypothesis.segments);
    assert(reading.take(edge.end) =~= reading.take(start) + reading.subrange(start, edge.end));
    assert forall|i: int| 0 <= i < longer.len() implies is_step(
        entries,
        unknown_cost,
        #[trigger] longer[i],
    ) by {
        if i < hypothesis.segments.len() {
            assert(longer[i] == hypothesis.segments[i]);
        }
    }
}

/// Going along edges keeps the beams sound.
pub(crate) proof fn advancing_is_sound(
    entries: Seq<EntryView>,
    unknown_cost: int,
    reading: Seq<char>,
    start: int,
    beams: Seq<Seq<HypothesisView>>,
    hypotheses: Seq<HypothesisView>,
    edges: Seq<EdgeView>,
    width: nat,
)
    requires
        sound_beams(entries, unknown_cost, reading, beams),
        forall|i: int|
            0 <= i < hypotheses.len() ==> stands_at(
                entries,
                unknown_cost,
                reading,
                start,
                #[trigger] hypotheses[i],
            ),
        forall|i: int|
            0 <= i < edges.len() ==> is_edge(
                entries,
                unknown_cost,
                reading,
                start,
                #[trigger] edges[i],
            ),
    ensures
        sound_beams(
            entries,
            unknown_cost,
            reading,
            advanced(beams, hypotheses, edges, width),
        ),
    decreases edges.len(),
{
    if edges.len() > 0 {
        let shorter = edges.drop_last();
        assert(forall|i: int| 0 <= i < shorter.len() ==> shorter[i] == edges[i]);
        advancing_is_sound(
            entries,
            unknown_cost,
            reading,
            start,
            beams,
            hypotheses,
            shorter,
            width,
        );
        let before = advanced(beams, hypotheses, shorter, width);
        let edge = edges.last();
        assert(is_edge(entries, unknown_cost, reading, start, edge));
        let pool = before[edge.end] + all_extended(hypotheses, edge.segment);
        best_is_ranked::<Hypothesis>(pool, width);
        let best = best_of::<Hypothesis>(pool, width);
        assert forall|i: int| 0 <= i < best.len() implies stands_at(
            entries,
            unknown_cost,
            reading,
            edge.end,
            #[trigger] best[i],
        ) by {
            assert(best.contains(best[i]));
            let j = pool.index_of(best[i]);
            if j < before[edge.end].len() {
                assert(pool[j] == before[edge.end][j]);
            } else {
                let k = j - before[edge.end].len();
                extension_stands(entries, unknown_cost, reading, start, hypotheses[k], edge);
            }
        }
    }
}

/// The beams of the search are sound.
pub(crate) proof fn search_is_sound(
    entries: Seq<EntryView>,
    reading: Seq<char>,
    width: nat,
    unknown_cost: int,
    count: int,
)
    requires
        0 <= count <= reading.len(),
    ensures
        sound_beams(
            entries,
            unknown_cost,
            reading,
            beams_after(entries, reading, width, unknown_cost, count),
        ),
    decreases count,
{
    if count == 0 {
        assert(reading.take(0) =~= Seq::empty());
    } else {
        let start = count - 1;
        search_is_sound(entries, reading, width, unknown_cost, start);
        let before = beams_after(entries, reading, width, unknown_cost, start);
        edges_are_edges(entries, unknown_cost, reading, start);
        let cleared = before.update(start, Seq::empty());
        assert forall|place: int, i: int|
            0 <= place < cleared.len() && 0 <= i < cleared[place].len() implies stands_at(
            entries,
            unknown_cost,
            reading,
            place,
            #[trigger] cleared[place][i],
        ) by {
            assert(cleared[place] == before[place]);
        }
        advancing_is_sound(
            entries,
            unknown_cost,
            reading,
            start,
            cleared,
            before[start],
            edges_from(entries, reading, start, unknown_cost),
            width,
        );
    }
}

/// What a hypothesis for the whole reading says of its segments is true of them.
pub(crate) proof fn hypotheses_describe_segments(
    entries: Seq<EntryView>,
    reading: Seq<char>,
    width: nat,
    unknown_cost: int,
    i: int,
)
    requires
        0 <= i < beams_after(
            entries,
            reading,
            width,
            unknown_cost,
            reading.len() as int,
        )[reading.len() as int].len(),
    ensures
        describes_segments(
            beams_after(entries, reading, width, unknown_cost, reading.len() as int)[
                reading.len() as int
            ][i],
        ),
{
    let length = reading.len() as int;
    search_is_sound(entries, reading, width, unknown_cost, length);
    let hypothesis = beams_after(entries, reading, width, unknown_cost, length)[length][i];
    assert(stands_at(entries, unknown_cost, reading, length, hypothesis));
}

/// Every result of a conversion is made of segments that convert the whole reading, each from
/// an entry or a copied character. Its text and its cost are those of its segments.
pub proof fn conversions_are_segmentations(
    entries: Seq<EntryView>,
    reading: Seq<char>,
    options: ConvertOptions,
    i: int,
)
    requires
        0 <= i < conversions(entries, reading, options).len(),
    ensures
        segments_convert(
            entries,
            options.unknown_cost as int,
            conversions(entries, reading, options)[i].segments,
            reading,
        ),
        conversions(entries, reading, options)[i].text == written(
            conversions(entries, reading, options)[i].segments,
        ),
        conversions(entries, reading, options)[i].cost == total_cost(
            conversions(entries, reading, options)[i].segments,
        ),
{
    let width = options.beam_width as nat;
    let unknown_cost = options.unknown_cost as int;
    let length = reading.len() as int;
    search_is_sound(entries, reading, width, unknown_cost, length);
    let last = beams_after(entries, reading, width, unknown_cost, length)[length];
    let pool = candidates_of(last);
    let results = conversions(entries, reading, options);
    best_is_ranked::<Candidate>(pool, options.candidate_limit as nat);
    assert(results.contains(results[i]));
    let j = pool.index_of(results[i]);
    assert(pool[j] == candidate_of(last[j]));
    assert(stands_at(entries, unknown_cost, reading, length, last[j]));
    assert(reading.take(length) =~= reading);
}

/// Results are at most as many as asked for, stand in order, and no two of them have the same
/// text.
pub proof fn conversions_are_ranked(
    entries: Seq<EntryView>,
    reading: Seq<char>,
    options: ConvertOptions,
)
    ensures
        conversions(entries, reading, options).len() <= options.candidate_limit,
        is_ranked::<Candidate>(conversions(entries, reading, options)),
        has_no_repeats::<Candidate>(conversions(entries, reading, options)),
{
    let beams = beams_after(
        entries,
        reading,
        options.beam_width as nat,
        options.unknown_cost as int,
        reading.len() as int,
    );
    best_is_ranked::<Candidate>(
        candidates_of(beams[reading.len() as int]),
        options.candidate_limit as nat,
    );
}

/// An edge of the search.
struct Edge {
    end: usize,
    segment: Segment,
}

impl View for Edge {
    type V = EdgeView;

    closed spec fn view(&self) -> EdgeView {
        EdgeView { end: self.end as int, segment: self.segment@ }
    }
}

/// No entry is longer than `limit`, so no edge of an entry is.
proof fn no_longer_edges(
    entries: Seq<EntryView>,
    reading: Seq<char>,
    start: int,
    end: int,
    limit: int,
)
    requires
        0 <= start <= end <= reading.len(),
        0 <= limit,
        forall|i: int| 0 <= i < entries.len() ==> (#[trigger] entries[i]).reading.len() <= limit,
    ensures
        end - start > limit ==> known_edges(entries, reading, start, end) == known_edges(
            entries,
            reading,
            start,
            start + limit,
        ),
    decreases end - start,
{
    if end - start > limit {
        no_longer_edges(entries, reading, start, end - 1, limit);
        let part = reading.subrange(start, end);
        let found = entries_for(entries, part);
        entries_for_members(entries, part);
        if found.len() > 0 {
            assert(found.contains(found[0]));
            assert(entries.contains(found[0]));
            let i = entries.index_of(found[0]);
            assert(entries[i].reading.len() <= limit);
            assert(false);
        }
        assert(entry_edges(found, end) =~= Seq::empty());
        assert(known_edges(entries, reading, start, end) =~= known_edges(
            entries,
            reading,
            start,
            end - 1,
        ));
    }
}

/// The edges that start at a place of the reading.
fn edges_at(dictionary: &Dictionary, chars: &[char], start: usize, unknown_cost: i64) -> (edges: Vec<
    Edge,
>)
    requires
        start < chars@.len(),
    ensures
        views(edges@) == edges_from(dictionary@, chars@, start as int, unknown_cost as int),
{
    let length = chars.len();
    let limit = dictionary.max_reading_length();
    let mut edges: Vec<Edge> = Vec::new();
    let mut prefix = String::new();
    let mut end: usize = start;
    assert(views(edges@) =~= known_edges(dictionary@, chars@, start as int, start as int));
    assert(prefix@ =~= chars@.subrange(start as int, start as int));
    while end < length && end - start < limit
        invariant
            start <= end <= length == chars@.len(),
            end - start <= limit,
            prefix@ == chars@.subrange(start as int, end as int),
            views(edges@) == known_edges(dictionary@, chars@, start as int, end as int),
        decreases length - end,
    {
        prefix.push(chars[end]);
        end += 1;
        assert(prefix@ =~= chars@.subrange(start as int, end as int));
        let found = dictionary.lookup(prefix.as_str());
        let ghost before = views(edges@);
        let ghost entries = entries_for(dictionary@, prefix@);
        assert(before =~= before + entry_edges(entries, end as int).take(0));
        let mut i: usize = 0;
        while i < found.len()
            invariant
                entries == entry_views(found@),
                i <= found@.len(),
                views(edges@) == before + entry_edges(entries, end as int).take(i as int),
            decreases found@.len() - i,
        {
            let entry = &found[i];
            let segment = Segment {
                reading: entry.reading.clone(),
                surface: entry.surface.clone(),
                left_id: entry.left_id,
                right_id: entry.right_id,
                cost: entry.cost as i64,
                order: entry.order,
            };
            let edge = Edge { end, segment };
            proof {
                views_push(edges@, edge);
                assert(entries[i as int] == entry@);
                assert(edge@ == entry_edges(entries, end as int)[i as int]);
                assert(before + entry_edges(entries, end as int).take(i + 1) =~= (before
                    + entry_edges(entries, end as int).take(i as int)).push(edge@));
            }
            edges.push(edge);
            i += 1;
        }
        assert(entry_edges(entries, end as int).take(i as int) =~= entry_edges(
            entries,
            end as int,
        ));
    }
    proof {
        no_longer_edges(
            dictionary@,
            chars@,
            start as int,
            length as int,
            limit as int,
        );
    }
    let mut reading = String::new();
    reading.push(chars[start]);
    let surface = reading.clone();
    assert(reading@ =~= seq![chars@[start as int]]);
    let segment = Segment {
        reading,
        surface,
        left_id: 0,
        right_id: 0,
        cost: unknown_cost,
        order: 0,
    };
    let edge = Edge { end: start + 1, segment };
    proof {
        views_push(edges@, edge);
    }
    edges.push(edge);
    edges
}

/// The views of the hypotheses of each beam.
spec fn beam_views(beams: Seq<Vec<Hypothesis>>) -> Seq<Seq<HypothesisView>> {
    Seq::new(beams.len(), |i: int| views(beams[i]@))
}

/// Lets the hypotheses go along each edge.
fn advance(beams: &mut Vec<Vec<Hypothesis>>, hypotheses: &[Hypothesis], edges: &[Edge], width: usize)
    requires
        forall|i: int| 0 <= i < hypotheses@.len() ==> (#[trigger] hypotheses@[i]).unknowns
            < usize::MAX,
        forall|i: int| 0 <= i < edges@.len() ==> (#[trigger] edges@[i])@.end < old(beams)@.len()
            && edges@[i]@.end >= 0,
    ensures
        beam_views(final(beams)@) == advanced(
            beam_views(old(beams)@),
            views(hypotheses@),
            views(edges@),
            width as nat,
        ),
        final(beams)@.len() == old(beams)@.len(),
{
    let ghost given = beam_views(beams@);
    let ghost all = views(edges@);
    let mut i: usize = 0;
    assert(all.take(0) =~= Seq::empty());
    while i < edges.len()
        invariant
            forall|i: int| 0 <= i < hypotheses@.len() ==> (#[trigger] hypotheses@[i]).unknowns
                < usize::MAX,
            forall|i: int| 0 <= i < edges@.len() ==> (#[trigger] edges@[i])@.end < beams@.len()
                && edges@[i]@.end >= 0,
            beams@.len() == old(beams)@.len(),
            all == views(edges@),
            i <= edges@.len(),
            beam_views(beams@) == advanced(
                given,
                views(hypotheses@),
                all.take(i as int),
                width as nat,
            ),
        decreases edges@.len() - i,
    {
        let ghost before = beam_views(beams@);
        let edge = &edges[i];
        let end = edge.end;
        assert(edges@[i as int]@.end == end);
        proof {
            assert(all.take(i + 1).drop_last() =~= all.take(i as int));
            assert(all.take(i + 1).last() == edge@);
        }
        let mut pool: Vec<Hypothesis> = Vec::new();
        std::mem::swap(&mut pool, &mut beams[end]);
        let ghost kept = views(pool@);
        let ghost added = all_extended(views(hypotheses@), edge@.segment);
        assert(kept =~= kept + added.take(0));
        let mut j: usize = 0;
        while j < hypotheses.len()
            invariant
                forall|i: int| 0 <= i < hypotheses@.len() ==> (#[trigger] hypotheses@[i]).unknowns
                    < usize::MAX,
                added == all_extended(views(hypotheses@), edge@.segment),
                j <= hypotheses@.len(),
                views(pool@) == kept + added.take(j as int),
            decreases hypotheses@.len() - j,
        {
            let longer = hypotheses[j].extend(&edge.segment);
            proof {
                views_push(pool@, longer);
                assert(longer@ == added[j as int]);
                assert(kept + added.take(j + 1) =~= (kept + added.take(j as int)).push(longer@));
            }
            pool.push(longer);
            j += 1;
        }
        assert(added.take(j as int) =~= added);
        let best = prune(pool, width);
        let ghost result = views(best@);
        beams[end] = best;
        proof {
            assert(beam_views(beams@) =~= before.update(end as int, result));
        }
        i += 1;
    }
    assert(all.take(i as int) =~= all);
}

/// Converts readings with a dictionary.
#[derive(Debug)]
pub struct Converter {
    dictionary: Dictionary,
}

impl View for Converter {
    type V = Seq<EntryView>;

    closed spec fn view(&self) -> Seq<EntryView> {
        self.dictionary@
    }
}

/// The options of a conversion with nothing but a limit given.
pub open spec fn limited_options(candidate_limit: usize) -> ConvertOptions {
    ConvertOptions {
        candidate_limit,
        beam_width: if candidate_limit * 8 > usize::MAX {
            usize::MAX
        } else if candidate_limit * 8 < 64 {
            64
        } else {
            (candidate_limit * 8) as usize
        },
        unknown_cost: DEFAULT_UNKNOWN_COST,
    }
}

/// The options of a conversion with nothing but a limit given.
pub fn limit_candidates(candidate_limit: usize) -> (options: ConvertOptions)
    ensures
        options == limited_options(candidate_limit),
{
    let wide = match candidate_limit.checked_mul(8) {
        Some(wide) => wide,
        None => usize::MAX,
    };
    let beam_width = if wide < 64 {
        64
    } else {
        wide
    };
    ConvertOptions { candidate_limit, beam_width, unknown_cost: DEFAULT_UNKNOWN_COST }
}

impl Converter {
    /// A converter with the dictionary.
    pub fn new(dictionary: Dictionary) -> (converter: Converter)
        ensures
            converter@ == dictionary@,
    {
        Converter { dictionary }
    }

    /// The dictionary.
    pub fn dictionary(&self) -> (dictionary: &Dictionary)
        ensures
            dictionary@ == self@,
    {
        &self.dictionary
    }

    /// Converts a reading to at most `candidate_limit` candidates.
    pub fn convert(&self, input: &str, candidate_limit: usize) -> (result: Result<
        Vec<Candidate>,
        ConvertError,
    >)
        ensures
            match result {
                Ok(candidates) => {
                    &&& candidates@.len() > 0
                    &&& convert_error(normal_reading(input@), limited_options(candidate_limit))
                        is None
                    &&& views(candidates@) == conversions(
                        self@,
                        normal_reading(input@),
                        limited_options(candidate_limit),
                    )
                },
                Err(error) => convert_error(
                    normal_reading(input@),
                    limited_options(candidate_limit),
                ) == Some(error),
            },
    {
        let options = limit_candidates(candidate_limit);
        self.convert_with_options(input, &options)
    }

    /// Converts a reading with a left-to-right beam search over the entries of the dictionary.
    pub fn convert_with_options(&self, input: &str, options: &ConvertOptions) -> (result: Result<
        Vec<Candidate>,
        ConvertError,
    >)
        ensures
            match result {
                Ok(candidates) => {
                    &&& candidates@.len() > 0
                    &&& convert_error(normal_reading(input@), *options) is None
                    &&& views(candidates@) == conversions(
                        self@,
                        normal_reading(input@),
                        *options,
                    )
                },
                Err(error) => convert_error(normal_reading(input@), *options) == Some(error),
            },
    {
        let reading = normalize_reading(input);
        self.convert_reading(reading.as_str(), options)
    }

    /// Converts a reading that is normalized already.
    pub fn convert_reading(&self, reading: &str, options: &ConvertOptions) -> (result: Result<
        Vec<Candidate>,
        ConvertError,
    >)
        ensures
            match result {
                Ok(candidates) => {
                    &&& candidates@.len() > 0
                    &&& convert_error(reading@, *options) is None
                    &&& views(candidates@) == conversions(self@, reading@, *options)
                },
                Err(error) => convert_error(reading@, *options) == Some(error),
            },
    {
        if options.candidate_limit == 0 {
            return Err(ConvertError::ZeroCandidateLimit);
        }
        if options.beam_width < options.candidate_limit {
            return Err(ConvertError::NarrowBeam);
        }
        if options.unknown_cost <= 0 {
            return Err(ConvertError::UnknownCostNotPositive);
        }
        if contains_control(reading) {
            return Err(ConvertError::ControlCharacter);
        }
        let chars = chars_of(reading);
        let length = chars.len();
        let mut beams = first_beams(length);
        let mut start: usize = 0;
        assert(beam_views(beams@) =~= beams_after(
            self@,
            reading@,
            options.beam_width as nat,
            options.unknown_cost as int,
            0,
        ));
        while start < length
            invariant
                chars@ == reading@,
                start <= length == reading@.len(),
                beams@.len() == length + 1,
                beam_views(beams@) == beams_after(
                    self@,
                    reading@,
                    options.beam_width as nat,
                    options.unknown_cost as int,
                    start as int,
                ),
            decreases length - start,
        {
            let ghost before = beam_views(beams@);
            proof {
                search_is_sound(
                    self@,
                    reading@,
                    options.beam_width as nat,
                    options.unknown_cost as int,
                    start as int,
                );
                edges_are_edges(self@, options.unknown_cost as int, reading@, start as int);
            }
            if beams[start].len() > 0 {
                let mut hypotheses: Vec<Hypothesis> = Vec::new();
                std::mem::swap(&mut hypotheses, &mut beams[start]);
                assert(views(hypotheses@) == before[start as int]);
                assert(views(beams@[start as int]@) =~= Seq::empty());
                assert(beam_views(beams@) =~= before.update(start as int, Seq::empty()));
                let edges = edges_at(&self.dictionary, &chars, start, options.unknown_cost);
                proof {
                    assert forall|i: int| 0 <= i < hypotheses@.len() implies (
                    #[trigger] hypotheses@[i]).unknowns < usize::MAX by {
                        assert(before[start as int][i] == hypotheses@[i]@);
                    }
                    assert forall|i: int| 0 <= i < edges@.len() implies (
                    #[trigger] edges@[i])@.end < beams@.len() && edges@[i]@.end >= 0 by {
                        assert(views(edges@)[i] == edges@[i]@);
                    }
                }
                advance(&mut beams, &hypotheses, &edges, options.beam_width);
            }
            start += 1;
        }
        let mut hypotheses: Vec<Hypothesis> = Vec::new();
        std::mem::swap(&mut hypotheses, &mut beams[length]);
        let ghost last = views(hypotheses@);
        let mut candidates: Vec<Candidate> = Vec::new();
        assert(views(candidates@) =~= candidates_of(last).take(0));
        for hypothesis in it: hypotheses
            invariant
                views(it.seq()) == last,
                views(candidates@) == candidates_of(last).take(it.index()),
        {
            let candidate = Candidate {
                text: hypothesis.text,
                cost: hypothesis.cost,
                segments: hypothesis.segments,
            };
            proof {
                views_push(candidates@, candidate);
                assert(last[it.index()] == hypothesis@);
                assert(candidate@ == candidates_of(last)[it.index()]);
                assert(candidates_of(last).take(it.index() + 1) =~= candidates_of(last).take(
                    it.index(),
                ).push(candidate@));
            }
            candidates.push(candidate);
        }
        assert(candidates_of(last).take(last.len() as int) =~= candidates_of(last));
        let best = prune(candidates, options.candidate_limit);
        proof {
            use_type_invariant(&self.dictionary);
            self.dictionary.is_valid();
            conversions_are_never_empty(self@, reading@, *options);
            assert(views(best@).len() == best@.len());
        }
        Ok(best)
    }
}

/// The beams before the search: the conversion of nothing stands at the first place.
fn first_beams(length: usize) -> (beams: Vec<Vec<Hypothesis>>)
    ensures
        beams@.len() == length + 1,
        forall|i: int|
            0 <= i <= length ==> views((#[trigger] beams@[i])@) == if i == 0 {
                seq![empty_hypothesis()]
            } else {
                Seq::empty()
            },
{
    let empty = Hypothesis {
        text: String::new(),
        cost: 0,
        unknowns: 0,
        segments: Vec::new(),
    };
    let mut first: Vec<Hypothesis> = Vec::new();
    assert(views(empty.segments@) =~= Seq::empty());
    first.push(empty);
    assert(views(first@) =~= seq![empty_hypothesis()]);
    let mut beams: Vec<Vec<Hypothesis>> = Vec::new();
    beams.push(first);
    let mut i: usize = 0;
    while i < length
        invariant
            i <= length,
            beams@.len() == i + 1,
            forall|j: int|
                0 <= j <= i ==> views((#[trigger] beams@[j])@) == if j == 0 {
                    seq![empty_hypothesis()]
                } else {
                    Seq::empty()
                },
        decreases length - i,
    {
        let none: Vec<Hypothesis> = Vec::new();
        assert(views(none@) =~= Seq::<HypothesisView>::empty());
        beams.push(none);
        i += 1;
    }
    beams
}

} // verus!
