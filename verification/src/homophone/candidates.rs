//! Counting how words of one reading are written.

use crate::homophone::annotation::{AnnotatedToken, AnnotatedView};
use crate::index::TextIndex;
use crate::ngram::counts::{occurrences, occurrences_within};
use crate::sorted::SortedMap;
use crate::text::texts;
use vstd::prelude::*;

verus! {

/// A word that came, and where it came from.
#[verifier::ext_equal]
pub struct ObservationView {
    pub token: AnnotatedView,
    pub source: Seq<char>,
}

/// The map counts the texts of a list.
pub open spec fn is_tally(tally: SortedMap<u64>, list: Seq<Seq<char>>) -> bool {
    &&& tally.well_formed()
    &&& forall|i: int|
        0 <= i < tally.values@.len() ==> (#[trigger] tally.values@[i]) == occurrences(
            list,
            tally.spec_keys()[i],
        ) && tally.values@[i] > 0
    &&& forall|i: int| 0 <= i < list.len() ==> tally.spec_keys().contains(#[trigger] list[i])
}

/// What does not stand in a list comes in it never.
proof fn absent_never_occurs(list: Seq<Seq<char>>, text: Seq<char>)
    requires
        !list.contains(text),
    ensures
        occurrences(list, text) == 0,
    decreases list.len(),
{
    if list.len() > 0 {
        assert(list[list.len() - 1] == list.last());
        let shorter = list.drop_last();
        assert forall|i: int| 0 <= i < shorter.len() implies shorter[i] != text by {
            assert(list[i] == shorter[i]);
        }
        absent_never_occurs(shorter, text);
    }
}

/// Counts one more text.
fn add_to_tally(tally: &mut SortedMap<u64>, key: &str, Ghost(list): Ghost<Seq<Seq<char>>>)
    requires
        is_tally(*old(tally), list),
        list.len() < u64::MAX,
    ensures
        is_tally(*final(tally), list.push(key@)),
{
    let ghost before = *tally;
    let place = tally.slot(key, 0);
    let ghost keys = tally.spec_keys();
    let ghost known = before.spec_keys().contains(key@);
    proof {
        occurrences_within(list, key@);
        if !known {
            assert(!list.contains(key@)) by {
                if list.contains(key@) {
                    assert(before.spec_keys().contains(list[list.index_of(key@)]));
                }
            }
            absent_never_occurs(list, key@);
        } else {
            assert(tally.values@[place as int] == before.values@[place as int]);
        }
        assert(tally.values@[place as int] == occurrences(list, key@));
    }
    tally.values[place] += 1;
    proof {
        let longer = list.push(key@);
        assert(longer.drop_last() =~= list);
        assert forall|i: int| 0 <= i < tally.values@.len() implies (#[trigger] tally.values@[i])
            == occurrences(longer, keys[i]) && tally.values@[i] > 0 by {
            if i != place {
                assert(keys[i] != keys[place as int]) by {
                    if i < place {
                        crate::order::text_rank_same(keys[i], keys[place as int]);
                    } else {
                        crate::order::text_rank_same(keys[place as int], keys[i]);
                    }
                }
                if known {
                    assert(tally.values@[i] == before.values@[i]);
                } else if i < place {
                    assert(tally.values@[i] == before.values@[i]);
                    assert(keys[i] == before.spec_keys()[i]);
                } else {
                    assert(tally.values@[i] == before.values@[i - 1]);
                    assert(keys[i] == before.spec_keys()[i - 1]);
                }
            }
        }
        assert forall|i: int| 0 <= i < longer.len() implies keys.contains(#[trigger] longer[i]) by {
            if i < list.len() {
                assert(before.spec_keys().contains(list[i]));
                let p = before.spec_keys().index_of(list[i]);
                if !known {
                    if p < place {
                        assert(keys[p] == list[i]);
                    } else {
                        assert(keys[p + 1] == list[i]);
                    }
                }
            } else {
                assert(keys[place as int] == key@);
            }
        }
    }
}

/// What was counted of the words of one reading and one surface: how many there were, and of
/// which lemmas, parts of speech and sources.
pub struct CandidateStats {
    pub count: u64,
    pub lemma_counts: SortedMap<u64>,
    pub pos_counts: SortedMap<u64>,
    pub source_counts: SortedMap<u64>,
}

/// The part of speech of a token in full.
pub open spec fn pos_of(token: AnnotatedView) -> Seq<char> {
    token.pos + "/"@ + token.subpos + "/"@ + token.subsubpos
}

/// The lemmas of words.
pub open spec fn lemmas(seen: Seq<ObservationView>) -> Seq<Seq<char>> {
    Seq::new(seen.len(), |i: int| seen[i].token.lemma)
}

/// The parts of speech of words.
pub open spec fn parts(seen: Seq<ObservationView>) -> Seq<Seq<char>> {
    Seq::new(seen.len(), |i: int| pos_of(seen[i].token))
}

/// The sources of words.
pub open spec fn sources(seen: Seq<ObservationView>) -> Seq<Seq<char>> {
    Seq::new(seen.len(), |i: int| seen[i].source)
}

/// The counts are those of the words that were seen.
pub open spec fn is_candidate(stats: CandidateStats, seen: Seq<ObservationView>) -> bool {
    &&& stats.count == seen.len()
    &&& is_tally(stats.lemma_counts, lemmas(seen))
    &&& is_tally(stats.pos_counts, parts(seen))
    &&& is_tally(stats.source_counts, sources(seen))
}

impl CandidateStats {
    /// Counts of which only their number is known.
    pub fn with_count(count: u64) -> (stats: CandidateStats)
        ensures
            stats.count == count,
            stats.lemma_counts.well_formed() && stats.lemma_counts.keys@.len() == 0,
            stats.pos_counts.well_formed() && stats.pos_counts.keys@.len() == 0,
            stats.source_counts.well_formed() && stats.source_counts.keys@.len() == 0,
    {
        CandidateStats {
            count,
            lemma_counts: SortedMap::new(),
            pos_counts: SortedMap::new(),
            source_counts: SortedMap::new(),
        }
    }
}

/// Counts one more word.
pub(crate) fn observe_candidate(
    stats: &mut CandidateStats,
    token: &AnnotatedToken,
    source: &str,
    Ghost(seen): Ghost<Seq<ObservationView>>,
)
    requires
        is_candidate(*old(stats), seen),
        seen.len() < u64::MAX,
    ensures
        is_candidate(
            *final(stats),
            seen.push(ObservationView { token: token@, source: source@ }),
        ),
{
    let ghost longer = seen.push(ObservationView { token: token@, source: source@ });
    stats.count += 1;
    add_to_tally(&mut stats.lemma_counts, token.lemma.as_str(), Ghost(lemmas(seen)));
    let mut pos = token.pos.clone();
    pos.append("/");
    pos.append(token.subpos.as_str());
    pos.append("/");
    pos.append(token.subsubpos.as_str());
    add_to_tally(&mut stats.pos_counts, pos.as_str(), Ghost(parts(seen)));
    add_to_tally(&mut stats.source_counts, source, Ghost(sources(seen)));
    proof {
        assert(lemmas(longer) =~= lemmas(seen).push(token@.lemma));
        assert(parts(longer) =~= parts(seen).push(pos@));
        assert(sources(longer) =~= sources(seen).push(source@));
    }
}

/// The words of a reading and a surface.
pub open spec fn seen_as(
    seen: Seq<ObservationView>,
    reading: Seq<char>,
    surface: Seq<char>,
) -> Seq<ObservationView>
    decreases seen.len(),
{
    if seen.len() == 0 {
        Seq::empty()
    } else {
        let before = seen_as(seen.drop_last(), reading, surface);
        let last = seen.last();
        if last.token.reading == reading && last.token.surface == surface {
            before.push(last)
        } else {
            before
        }
    }
}

proof fn seen_as_within(seen: Seq<ObservationView>, reading: Seq<char>, surface: Seq<char>)
    ensures
        seen_as(seen, reading, surface).len() <= seen.len(),
        (forall|i: int|
            0 <= i < seen.len() ==> (#[trigger] seen[i]).token.reading != reading
                || seen[i].token.surface != surface) ==> seen_as(seen, reading, surface).len()
            == 0,
    decreases seen.len(),
{
    if seen.len() > 0 {
        let shorter = seen.drop_last();
        seen_as_within(shorter, reading, surface);
        assert(seen[seen.len() - 1] == seen.last());
        if forall|i: int|
            0 <= i < seen.len() ==> (#[trigger] seen[i]).token.reading != reading
                || seen[i].token.surface != surface {
            assert forall|i: int| 0 <= i < shorter.len() implies (
            #[trigger] shorter[i]).token.reading != reading || shorter[i].token.surface
                != surface by {
                assert(shorter[i] == seen[i]);
            }
        }
    }
}

/// A place of the map holds what was counted of its surface.
pub open spec fn counts_surface(
    map: SortedMap<CandidateStats>,
    seen: Seq<ObservationView>,
    reading: Seq<char>,
    place: int,
) -> bool {
    &&& seen_as(seen, reading, map.spec_keys()[place]).len() > 0
    &&& is_candidate(map.values@[place], seen_as(seen, reading, map.spec_keys()[place]))
}

/// The map holds the surfaces of a reading, each with what was counted of it.
pub open spec fn are_candidates(
    map: SortedMap<CandidateStats>,
    seen: Seq<ObservationView>,
    reading: Seq<char>,
) -> bool {
    &&& map.well_formed()
    &&& forall|place: int|
        0 <= place < map.keys@.len() ==> #[trigger] counts_surface(map, seen, reading, place)
    &&& forall|i: int|
        0 <= i < seen.len() && (#[trigger] seen[i]).token.reading == reading
            ==> map.spec_keys().contains(seen[i].token.surface)
}

fn observe_surface(
    map: &mut SortedMap<CandidateStats>,
    token: &AnnotatedToken,
    source: &str,
    Ghost(seen): Ghost<Seq<ObservationView>>,
)
    requires
        are_candidates(*old(map), seen, token.reading@),
        seen.len() < u64::MAX,
    ensures
        are_candidates(
            *final(map),
            seen.push(ObservationView { token: token@, source: source@ }),
            token.reading@,
        ),
        final(map).keys@.len() > 0,
{
    let ghost before = *map;
    let ghost reading = token.reading@;
    let ghost surface = token.surface@;
    let ghost observation = ObservationView { token: token@, source: source@ };
    let ghost longer = seen.push(observation);
    let ghost known = before.spec_keys().contains(surface);
    let fresh = CandidateStats::with_count(0);
    let ghost empty = fresh;
    let place = map.slot(token.surface.as_str(), fresh);
    let ghost keys = map.spec_keys();
    let ghost mine = seen_as(seen, reading, surface);
    proof {
        seen_as_within(seen, reading, surface);
        if known {
            assert(counts_surface(before, seen, reading, place as int));
        } else {
            assert forall|i: int| 0 <= i < seen.len() implies (#[trigger] seen[i]).token.reading
                != reading || seen[i].token.surface != surface by {
                if seen[i].token.reading == reading {
                    assert(before.spec_keys().contains(seen[i].token.surface));
                }
            }
            assert(mine =~= Seq::empty());
            assert(lemmas(mine) =~= Seq::empty());
            assert(parts(mine) =~= Seq::empty());
            assert(sources(mine) =~= Seq::empty());
            assert(is_candidate(empty, mine));
        }
    }
    let ghost slotted = *map;
    observe_candidate(&mut map.values[place], token, source, Ghost(mine));
    proof {
        assert(longer.drop_last() =~= seen);
        assert(map.spec_keys() == keys);
        assert forall|p: int| 0 <= p < map.keys@.len() implies #[trigger] counts_surface(
            *map,
            longer,
            reading,
            p,
        ) by {
            if p != place {
                if p < place {
                    crate::order::text_rank_same(keys[p], keys[place as int]);
                } else {
                    crate::order::text_rank_same(keys[place as int], keys[p]);
                }
                assert(keys[p] != surface);
                assert(map.values@[p] == slotted.values@[p]);
                if known || p < place {
                    assert(counts_surface(before, seen, reading, p));
                    assert(before.spec_keys()[p] == keys[p]);
                    assert(before.values@[p] == slotted.values@[p]);
                } else {
                    assert(counts_surface(before, seen, reading, p - 1));
                    assert(before.spec_keys()[p - 1] == keys[p]);
                    assert(before.values@[p - 1] == slotted.values@[p]);
                }
            }
        }
        assert forall|i: int|
            0 <= i < longer.len() && (#[trigger] longer[i]).token.reading
                == reading implies keys.contains(longer[i].token.surface) by {
            if i < seen.len() {
                assert(longer[i] == seen[i]);
                assert(before.spec_keys().contains(seen[i].token.surface));
                let p = before.spec_keys().index_of(seen[i].token.surface);
                if !known {
                    if p < place {
                        assert(keys[p] == seen[i].token.surface);
                    } else {
                        assert(keys[p + 1] == seen[i].token.surface);
                    }
                }
            } else {
                assert(keys[place as int] == surface);
            }
        }
    }
}

/// A reading and its surfaces.
pub struct ReadingCandidates {
    pub reading: String,
    pub candidates: SortedMap<CandidateStats>,
}

/// The surfaces of each reading.
pub struct HomophoneCounts {
    readings: TextIndex,
    candidates: Vec<SortedMap<CandidateStats>>,
}

/// The surfaces are those of the words that were seen, by reading.
pub open spec fn are_counts(
    readings: Seq<Seq<char>>,
    candidates: Seq<SortedMap<CandidateStats>>,
    seen: Seq<ObservationView>,
) -> bool {
    &&& readings.len() == candidates.len()
    &&& readings.no_duplicates()
    &&& forall|i: int|
        0 <= i < candidates.len() ==> (#[trigger] candidates[i]).keys@.len() > 0
            && are_candidates(candidates[i], seen, readings[i])
    &&& forall|i: int|
        0 <= i < seen.len() ==> readings.contains((#[trigger] seen[i]).token.reading)
}

impl HomophoneCounts {
    /// The readings, each once.
    pub closed spec fn spec_readings(&self) -> Seq<Seq<char>> {
        self.readings@
    }

    /// The surfaces of each reading.
    pub closed spec fn spec_candidates(&self) -> Seq<SortedMap<CandidateStats>> {
        self.candidates@
    }

    /// There are surfaces for each reading.
    pub closed spec fn well_formed(&self) -> bool {
        self.readings.well_formed() && self.readings@.len() == self.candidates@.len()
    }

    /// No reading stands twice.
    pub proof fn readings_are_distinct(&self)
        requires
            self.well_formed(),
        ensures
            self.spec_readings().no_duplicates(),
            self.spec_readings().len() == self.spec_candidates().len(),
    {
        self.readings.texts_are_distinct();
    }

    /// The counts are those of the words that were seen.
    pub open spec fn counts(&self, seen: Seq<ObservationView>) -> bool {
        self.well_formed() && are_counts(self.spec_readings(), self.spec_candidates(), seen)
    }

    /// Nothing was seen.
    pub fn new() -> (counts: HomophoneCounts)
        ensures
            counts.counts(Seq::empty()),
            counts.spec_readings().len() == 0,
    {
        HomophoneCounts { readings: TextIndex::new(), candidates: Vec::new() }
    }

    /// The readings and their surfaces.
    pub fn into_readings(self) -> (list: Vec<ReadingCandidates>)
        requires
            self.well_formed(),
        ensures
            list@.len() == self.spec_readings().len(),
            list@.len() == self.spec_candidates().len(),
            forall|i: int|
                0 <= i < list@.len() ==> (#[trigger] list@[i]).reading@ == self.spec_readings()[i]
                    && list@[i].candidates == self.spec_candidates()[i],
    {
        let ghost all = self.candidates@;
        let ghost readings = self.readings@;
        let keys = self.readings.into_keys();
        assert(texts(keys@).len() == keys@.len());
        let length = keys.len();
        let mut list: Vec<ReadingCandidates> = Vec::new();
        let mut place: usize = 0;
        for candidates in it: self.candidates
            invariant
                it.seq() == all,
                texts(keys@) == readings,
                keys@.len() == all.len(),
                length == keys@.len(),
                place == it.index(),
                list@.len() == it.index(),
                forall|i: int|
                    0 <= i < list@.len() ==> (#[trigger] list@[i]).reading@ == readings[i]
                        && list@[i].candidates == all[i],
        {
            assert(texts(keys@)[place as int] == keys@[place as int]@);
            list.push(ReadingCandidates { reading: keys[place].clone(), candidates });
            place += 1;
        }
        list
    }

    /// Counts one more word.
    pub(crate) fn observe(
        &mut self,
        token: &AnnotatedToken,
        source: &str,
        Ghost(seen): Ghost<Seq<ObservationView>>,
    )
        requires
            old(self).counts(seen),
            seen.len() < u64::MAX,
        ensures
            final(self).counts(seen.push(ObservationView { token: token@, source: source@ })),
    {
        let ghost before_readings = self.readings@;
        let ghost before_candidates = self.candidates@;
        let ghost reading = token.reading@;
        let ghost longer = seen.push(ObservationView { token: token@, source: source@ });
        let known = self.candidates.len();
        let place = self.readings.intern(token.reading.clone());
        proof {
            self.readings.texts_are_distinct();
        }
        if place == known {
            self.candidates.push(SortedMap::new());
        }
        let ghost slotted = self.candidates@;
        let ghost readings = self.readings@;
        proof {
            if before_readings.contains(reading) {
                let p = before_readings.index_of(reading);
                assert(readings[p] == readings[place as int]);
                assert(p == place);
            } else {
                assert(readings[known as int] == reading);
                assert(place == known);
            }
            assert(are_candidates(slotted[place as int], seen, reading)) by {
                if place == known {
                    assert forall|i: int|
                        0 <= i < seen.len() && (#[trigger] seen[i]).token.reading
                            == reading implies slotted[place as int].spec_keys().contains(
                        seen[i].token.surface,
                    ) by {
                        assert(before_readings.contains(seen[i].token.reading));
                    }
                } else {
                    assert(before_candidates[place as int] == slotted[place as int]);
                }
            }
        }
        observe_surface(&mut self.candidates[place], token, source, Ghost(seen));
        proof {
            assert(longer.drop_last() =~= seen);
            assert forall|i: int| 0 <= i < self.candidates@.len() implies (
            #[trigger] self.candidates@[i]).keys@.len() > 0 && are_candidates(
                self.candidates@[i],
                longer,
                readings[i],
            ) by {
                if i != place {
                    assert(self.candidates@[i] == before_candidates[i]);
                    assert(readings[i] == before_readings[i]);
                    assert(readings[i] != reading);
                    other_reading(before_candidates[i], seen, longer, readings[i]);
                }
            }
            assert forall|i: int| 0 <= i < longer.len() implies readings.contains(
                (#[trigger] longer[i]).token.reading,
            ) by {
                if i < seen.len() {
                    assert(longer[i] == seen[i]);
                    assert(before_readings.contains(seen[i].token.reading));
                    let p = before_readings.index_of(seen[i].token.reading);
                    assert(readings[p] == before_readings[p]);
                } else {
                    assert(readings[place as int] == reading);
                }
            }
        }
    }
}

/// A word of another reading changes nothing.
proof fn other_reading(
    map: SortedMap<CandidateStats>,
    seen: Seq<ObservationView>,
    longer: Seq<ObservationView>,
    reading: Seq<char>,
)
    requires
        are_candidates(map, seen, reading),
        longer.len() == seen.len() + 1,
        longer.drop_last() == seen,
        longer.last().token.reading != reading,
    ensures
        are_candidates(map, longer, reading),
{
    assert forall|place: int| 0 <= place < map.keys@.len() implies #[trigger] counts_surface(
        map,
        longer,
        reading,
        place,
    ) by {
        assert(counts_surface(map, seen, reading, place));
    }
    assert forall|i: int|
        0 <= i < longer.len() && (#[trigger] longer[i]).token.reading
            == reading implies map.spec_keys().contains(longer[i].token.surface) by {
        if i < seen.len() {
            assert(longer[i] == seen[i]);
        }
    }
}

} // verus!
