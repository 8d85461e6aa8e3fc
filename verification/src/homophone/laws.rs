//! What groups of homophones are, said of the words that are counted and of characters.

use crate::homophone::annotation::{annotated, annotated_word, AnnotatedView};
use crate::homophone::candidates::{
    are_candidates, counts_surface, is_candidate, lemmas, parts, pos_of, seen_as, sources,
    CandidateStats, ObservationView, ReadingCandidates,
};
use crate::homophone::groups::{
    all_kept, are_groups, are_summaries, comes_from, count_sum, is_group, is_kept, is_summary,
    kept_places, CandidateSummary, GroupSummary,
};
use crate::homophone::occurrences::{
    corpus_words, is_selected, lists_surface, observed, occurrence_of, record_words,
    sentence_occurrences, RecordView,
};
use crate::homophone::recount::kept_places_rise;
use crate::ngram::counts::occurrences;
use crate::ngram::laws::feature_field;
use crate::ngram::sentences::{sentence_spans, sentences_of};
use crate::ngram::tokenizer::{counted_reading, is_kanji_char, morphemes_of, MorphemeView};
use crate::sorted::SortedMap;
use crate::text::{decimal_of, split_on, split_on_not_empty, texts, zero_padded};
use vstd::prelude::*;

verus! {

/// The text has a character of one of the three blocks of kanji.
pub open spec fn shows_kanji(text: Seq<char>) -> bool {
    exists|i: int|
        0 <= i < text.len() && ('\u{3400}' <= #[trigger] text[i] <= '\u{4DBF}' || '\u{4E00}'
            <= text[i] <= '\u{9FFF}' || '\u{F900}' <= text[i] <= '\u{FAFF}')
}

proof fn kanji_are_shown(text: Seq<char>)
    ensures
        crate::ngram::tokenizer::has_kanji(text) <==> shows_kanji(text),
{
    if crate::ngram::tokenizer::has_kanji(text) {
        let i = choose|i: int| 0 <= i < text.len() && is_kanji_char(#[trigger] text[i]);
        assert('\u{3400}' <= text[i] <= '\u{4DBF}' || '\u{4E00}' <= text[i] <= '\u{9FFF}'
            || '\u{F900}' <= text[i] <= '\u{FAFF}');
    }
    if shows_kanji(text) {
        let i = choose|i: int|
            0 <= i < text.len() && ('\u{3400}' <= #[trigger] text[i] <= '\u{4DBF}' || '\u{4E00}'
                <= text[i] <= '\u{9FFF}' || '\u{F900}' <= text[i] <= '\u{FAFF}');
        assert(is_kanji_char(text[i]));
    }
}

proof fn kept_places_hold(map: SortedMap<CandidateStats>, min_count: u64, length: int, place: int)
    requires
        0 <= length <= map.keys@.len(),
    ensures
        kept_places(map, min_count, length).contains(place) <==> 0 <= place < length
            && shows_kanji(map.keys@[place]@) && map.values@[place].count >= min_count,
    decreases length,
{
    if length > 0 {
        kept_places_hold(map, min_count, length - 1, place);
        let before = kept_places(map, min_count, length - 1);
        let after = kept_places(map, min_count, length);
        kanji_are_shown(map.keys@[length - 1]@);
        assert(map.spec_keys()[length - 1] == map.keys@[length - 1]@);
        if is_kept(map, length - 1, min_count) {
            assert(after[before.len() as int] == length - 1);
            if before.contains(place) {
                assert(after[before.index_of(place)] == place);
            }
            if after.contains(place) && place != length - 1 {
                let i = after.index_of(place);
                assert(before[i] == place);
            }
        }
    }
}

/// How often the surfaces of a list come together.
pub open spec fn counted_together(candidates: Seq<CandidateSummary>) -> int
    decreases candidates.len(),
{
    if candidates.len() == 0 {
        0
    } else {
        counted_together(candidates.drop_last()) + candidates.last().occurrence_count
    }
}

proof fn counts_add_up(
    list: Seq<CandidateSummary>,
    map: SortedMap<CandidateStats>,
    places: Seq<int>,
)
    requires
        are_summaries(list, map, places),
    ensures
        counted_together(list) == count_sum(map, places),
    decreases list.len(),
{
    if list.len() > 0 {
        let before = list.drop_last();
        let fewer = places.drop_last();
        assert forall|i: int| 0 <= i < before.len() implies is_summary(
            #[trigger] before[i],
            map.spec_keys()[fewer[i]],
            map.values@[fewer[i]],
        ) by {
            assert(before[i] == list[i]);
            assert(fewer[i] == places[i]);
        }
        counts_add_up(before, map, fewer);
        assert(is_summary(
            list[list.len() - 1],
            map.spec_keys()[places[list.len() - 1]],
            map.values@[places[list.len() - 1]],
        ));
    }
}

/// Each group is that of one of the readings, under the name `homophone:` and the reading. It has
/// at least as many candidates as a group needs, and comes as often as they do together.
///
/// Each candidate is one of the surfaces of the reading, has kanji in it and comes often enough;
/// it is shown with the number of times, the lemmas, the parts of speech and the sources that were
/// counted for it.
pub proof fn candidates_have_kanji(
    groups: Seq<GroupSummary>,
    counts: Seq<ReadingCandidates>,
    min_group_size: usize,
    min_count: u64,
    g: int,
) -> (i: int)
    requires
        are_groups(groups, counts, min_group_size, min_count),
        forall|k: int| 0 <= k < counts.len() ==> (#[trigger] counts[k]).candidates.well_formed(),
        0 <= g < groups.len(),
    ensures
        0 <= i < counts.len(),
        groups[g].reading@ == counts[i].reading@,
        groups[g].group_id@ == "homophone:"@ + counts[i].reading@,
        groups[g].candidate_count == groups[g].candidates@.len(),
        groups[g].candidates@.len() >= min_group_size,
        groups[g].total_occurrences == counted_together(groups[g].candidates@),
        forall|c: int|
            0 <= c < groups[g].candidates@.len() ==> {
                let candidate = #[trigger] groups[g].candidates@[c];
                &&& shows_kanji(candidate.surface@)
                &&& candidate.occurrence_count >= min_count
                &&& exists|place: int|
                    0 <= place < counts[i].candidates.keys@.len() && (
                    #[trigger] counts[i].candidates.keys@[place])@ == candidate.surface@
                        && counts[i].candidates.values@[place].count == candidate.occurrence_count
                        && texts(counts[i].candidates.values@[place].lemma_counts.keys@) == texts(
                        candidate.lemmas@,
                    ) && texts(counts[i].candidates.values@[place].pos_counts.keys@) == texts(
                        candidate.parts_of_speech@,
                    ) && counts[i].candidates.values@[place].source_counts
                        == candidate.source_counts
            },
{
    let group = groups[g];
    assert(comes_from(group, counts, min_group_size, min_count));
    let i = choose|i: int|
        0 <= i < counts.len() && is_group(group, #[trigger] counts[i], min_count)
            && group.candidate_count >= min_group_size;
    let map = counts[i].candidates;
    let places = all_kept(map, min_count);
    counts_add_up(group.candidates@, map, places);
    assert forall|c: int| 0 <= c < group.candidates@.len() implies {
        let candidate = #[trigger] group.candidates@[c];
        &&& shows_kanji(candidate.surface@)
        &&& candidate.occurrence_count >= min_count
        &&& exists|place: int|
            0 <= place < map.keys@.len() && (#[trigger] map.keys@[place])@ == candidate.surface@
                && map.values@[place].count == candidate.occurrence_count && texts(
                map.values@[place].lemma_counts.keys@,
            ) == texts(candidate.lemmas@) && texts(map.values@[place].pos_counts.keys@) == texts(
                candidate.parts_of_speech@,
            ) && map.values@[place].source_counts == candidate.source_counts
    } by {
        let place = places[c];
        assert(places.contains(place));
        kept_places_hold(map, min_count, map.keys@.len() as int, place);
        assert(is_summary(group.candidates@[c], map.spec_keys()[place], map.values@[place]));
        assert(map.keys@[place]@ == map.spec_keys()[place]);
    }
    i
}

proof fn fewer_places(some: Seq<int>, all: Seq<int>)
    requires
        some.no_duplicates(),
        forall|p: int| #[trigger] some.contains(p) ==> all.contains(p),
    ensures
        some.len() <= all.len(),
{
    some.unique_seq_to_set();
    all.lemma_cardinality_of_set();
    assert(some.to_set().subset_of(all.to_set())) by {
        assert forall|p: int| some.to_set().contains(p) implies all.to_set().contains(p) by {
            assert(some.contains(p));
        }
    }
    vstd::set_lib::lemma_len_subset(some.to_set(), all.to_set());
}

proof fn kept_are_apart(map: SortedMap<CandidateStats>, min_count: u64)
    ensures
        all_kept(map, min_count).no_duplicates(),
{
    kept_places_rise(map, min_count, map.keys@.len() as int);
}

/// A reading whose surfaces with kanji in them that come often enough are too few has no group.
pub proof fn too_few_surfaces_make_no_group(
    groups: Seq<GroupSummary>,
    counts: Seq<ReadingCandidates>,
    min_group_size: usize,
    min_count: u64,
    i: int,
    places: Seq<int>,
)
    requires
        are_groups(groups, counts, min_group_size, min_count),
        forall|j: int, k: int|
            0 <= j < k < counts.len() ==> (#[trigger] counts[j]).reading@ != (
            #[trigger] counts[k]).reading@,
        0 <= i < counts.len(),
        places.len() < min_group_size,
        forall|place: int|
            0 <= place < counts[i].candidates.keys@.len() && shows_kanji(
                (#[trigger] counts[i].candidates.keys@[place])@,
            ) && counts[i].candidates.values@[place].count >= min_count ==> places.contains(place),
    ensures
        forall|g: int|
            0 <= g < groups.len() ==> (#[trigger] groups[g]).reading@ != counts[i].reading@,
{
    let map = counts[i].candidates;
    assert forall|g: int| 0 <= g < groups.len() implies (#[trigger] groups[g]).reading@
        != counts[i].reading@ by {
        if groups[g].reading@ == counts[i].reading@ {
            assert(comes_from(groups[g], counts, min_group_size, min_count));
            let k = choose|k: int|
                0 <= k < counts.len() && is_group(groups[g], #[trigger] counts[k], min_count)
                    && groups[g].candidate_count >= min_group_size;
            if k < i {
                assert(counts[k].reading@ != counts[i].reading@);
            } else if i < k {
                assert(counts[i].reading@ != counts[k].reading@);
            }
            let kept = all_kept(map, min_count);
            kept_are_apart(map, min_count);
            assert forall|p: int| #[trigger] kept.contains(p) implies places.contains(p) by {
                kept_places_hold(map, min_count, map.keys@.len() as int, p);
                assert(shows_kanji(map.keys@[p]@));
            }
            fewer_places(kept, places);
        }
    }
}

/// A reading with enough surfaces that have kanji in them and come often enough has a group.
pub proof fn enough_surfaces_make_a_group(
    groups: Seq<GroupSummary>,
    counts: Seq<ReadingCandidates>,
    min_group_size: usize,
    min_count: u64,
    i: int,
    places: Seq<int>,
)
    requires
        are_groups(groups, counts, min_group_size, min_count),
        0 <= i < counts.len(),
        places.no_duplicates(),
        places.len() >= min_group_size,
        forall|j: int|
            0 <= j < places.len() ==> {
                let place = #[trigger] places[j];
                &&& 0 <= place < counts[i].candidates.keys@.len()
                &&& shows_kanji(counts[i].candidates.keys@[place]@)
                &&& counts[i].candidates.values@[place].count >= min_count
            },
    ensures
        exists|g: int|
            0 <= g < groups.len() && (#[trigger] groups[g]).reading@ == counts[i].reading@,
{
    let map = counts[i].candidates;
    let kept = all_kept(map, min_count);
    assert forall|p: int| #[trigger] places.contains(p) implies kept.contains(p) by {
        let j = places.index_of(p);
        assert(places[j] == p);
        kept_places_hold(map, min_count, map.keys@.len() as int, p);
    }
    fewer_places(places, kept);
    assert(crate::homophone::groups::has_group(groups, counts[i].reading@));
}

/// Groups stand by their readings, and no reading has two.
pub proof fn groups_are_in_order(
    groups: Seq<GroupSummary>,
    counts: Seq<ReadingCandidates>,
    min_group_size: usize,
    min_count: u64,
    i: int,
    j: int,
)
    requires
        are_groups(groups, counts, min_group_size, min_count),
        0 <= i < j < groups.len(),
    ensures
        groups[i].reading@ != groups[j].reading@,
        crate::order::text_rank(groups[i].reading@, groups[j].reading@)
            == crate::order::Rank::Before,
{
    crate::order::text_rank_same(groups[i].reading@, groups[j].reading@);
}

/// The words of a reading and a surface, as many as they are.
proof fn seen_as_is_filter(seen: Seq<ObservationView>, reading: Seq<char>, surface: Seq<char>)
    ensures
        seen_as(seen, reading, surface) == seen.filter(
            |word: ObservationView| word.token.reading == reading && word.token.surface == surface,
        ),
    decreases seen.len(),
{
    reveal(Seq::filter);
    if seen.len() > 0 {
        seen_as_is_filter(seen.drop_last(), reading, surface);
    }
}

/// A surface of a reading is counted as often as a word comes with both, and there is one for each
/// word that comes with the reading.
pub proof fn words_are_counted_by_surface(
    map: SortedMap<CandidateStats>,
    seen: Seq<ObservationView>,
    reading: Seq<char>,
    place: int,
)
    requires
        are_candidates(map, seen, reading),
        0 <= place < map.keys@.len(),
    ensures
        map.values@[place].count == seen.filter(
            |word: ObservationView|
                word.token.reading == reading && word.token.surface == map.keys@[place]@,
        ).len(),
        map.values@[place].count > 0,
        forall|i: int|
            0 <= i < seen.len() && (#[trigger] seen[i]).token.reading == reading ==> texts(
                map.keys@,
            ).contains(seen[i].token.surface),
{
    assert(counts_surface(map, seen, reading, place));
    assert(map.spec_keys()[place] == map.keys@[place]@);
    seen_as_is_filter(seen, reading, map.keys@[place]@);
}

/// The parts of speech of a word are its first three, with slashes between them.
pub proof fn parts_of_speech_are_three(token: AnnotatedView)
    ensures
        pos_of(token) == token.pos + "/"@ + token.subpos + "/"@ + token.subsubpos,
{
}

/// A word that is counted is kept with its surface, its place in the sentence, the first three
/// fields of its feature and its lemma, which is the seventh field, or the word itself where that
/// is missing or `*`.
pub proof fn words_are_annotated(word: MorphemeView)
    ensures
        annotated_word(word) is Some <==> counted_reading(word) is Some,
        annotated_word(word) matches Some(token) ==> {
            let fields = split_on(word.feature, ',');
            &&& token.surface == word.surface
            &&& Some(token.reading) == counted_reading(word)
            &&& token.start == word.start
            &&& token.end == word.end
            &&& token.pos == fields[0]
            &&& token.subpos == feature_field(word, 1)
            &&& token.subsubpos == feature_field(word, 2)
            &&& token.lemma == if fields.len() > 6 && fields[6] != "*"@ {
                fields[6]
            } else {
                word.surface
            }
        },
{
    split_on_not_empty(word.feature, ',');
}

/// The words of a sentence are annotated one by one.
pub proof fn annotations_add(first: Seq<MorphemeView>, second: Seq<MorphemeView>)
    ensures
        annotated(first + second) == annotated(first) + annotated(second),
    decreases second.len(),
{
    if second.len() == 0 {
        assert(first + second =~= first);
        assert(annotated(first) + annotated(second) =~= annotated(first));
    } else {
        annotations_add(first, second.drop_last());
        assert((first + second).drop_last() =~= first + second.drop_last());
        assert((first + second).last() == second.last());
        assert(annotated(first + second) =~= annotated(first) + annotated(second));
    }
}

/// A word has an occurrence in its sentence exactly where one of the groups has its reading and
/// one of the candidates of that group its surface.
pub proof fn words_of_groups_occur(
    groups: Seq<GroupSummary>,
    record: RecordView,
    index: int,
    tokens: Seq<AnnotatedView>,
    count: int,
    i: int,
)
    requires
        0 <= i < count <= tokens.len(),
    ensures
        (exists|k: int|
            0 <= k < sentence_occurrences(groups, record, index, tokens, count).len() && (
            #[trigger] sentence_occurrences(groups, record, index, tokens, count)[k]).token_index
                == i) <==> exists|g: int, c: int|
            #![trigger groups[g].candidates@[c]]
            0 <= g < groups.len() && 0 <= c < groups[g].candidates@.len() && groups[g].reading@
                == tokens[i].reading && groups[g].candidates@[c].surface@ == tokens[i].surface,
    decreases count,
{
    let all = sentence_occurrences(groups, record, index, tokens, count);
    let before = sentence_occurrences(groups, record, index, tokens, count - 1);
    occurrences_keep_places(groups, record, index, tokens, count - 1);
    let chosen = exists|g: int, c: int|
        #![trigger groups[g].candidates@[c]]
        0 <= g < groups.len() && 0 <= c < groups[g].candidates@.len() && groups[g].reading@
            == tokens[i].reading && groups[g].candidates@[c].surface@ == tokens[i].surface;
    selection_is_literal(groups, tokens[i]);
    if i < count - 1 {
        words_of_groups_occur(groups, record, index, tokens, count - 1, i);
        if chosen {
            let k = choose|k: int|
                0 <= k < before.len() && (#[trigger] before[k]).token_index == i;
            assert(all[k] == before[k]);
        } else if exists|k: int| 0 <= k < all.len() && (#[trigger] all[k]).token_index == i {
            let k = choose|k: int| 0 <= k < all.len() && (#[trigger] all[k]).token_index == i;
            if k < before.len() {
                assert(before[k] == all[k]);
            }
        }
    } else {
        if chosen {
            assert(all[before.len() as int].token_index == i);
        } else if exists|k: int| 0 <= k < all.len() && (#[trigger] all[k]).token_index == i {
            let k = choose|k: int| 0 <= k < all.len() && (#[trigger] all[k]).token_index == i;
            assert(before[k] == all[k]);
        }
    }
}

proof fn selection_is_literal(groups: Seq<GroupSummary>, token: AnnotatedView)
    ensures
        is_selected(groups, token) <==> exists|g: int, c: int|
            #![trigger groups[g].candidates@[c]]
            0 <= g < groups.len() && 0 <= c < groups[g].candidates@.len() && groups[g].reading@
                == token.reading && groups[g].candidates@[c].surface@ == token.surface,
{
    if is_selected(groups, token) {
        let g = choose|g: int|
            0 <= g < groups.len() && (#[trigger] groups[g]).reading@ == token.reading
                && lists_surface(groups[g].candidates@, token.surface);
        let c = choose|c: int|
            0 <= c < groups[g].candidates@.len() && (#[trigger] groups[g].candidates@[c]).surface@
                == token.surface;
        assert(groups[g].candidates@[c].surface@ == token.surface);
    }
    if exists|g: int, c: int|
        #![trigger groups[g].candidates@[c]]
        0 <= g < groups.len() && 0 <= c < groups[g].candidates@.len() && groups[g].reading@
            == token.reading && groups[g].candidates@[c].surface@ == token.surface {
        let (g, c) = choose|g: int, c: int|
            #![trigger groups[g].candidates@[c]]
            0 <= g < groups.len() && 0 <= c < groups[g].candidates@.len() && groups[g].reading@
                == token.reading && groups[g].candidates@[c].surface@ == token.surface;
        assert(lists_surface(groups[g].candidates@, token.surface));
    }
}

proof fn occurrences_keep_places(
    groups: Seq<GroupSummary>,
    record: RecordView,
    index: int,
    tokens: Seq<AnnotatedView>,
    count: int,
)
    ensures
        forall|k: int|
            0 <= k < sentence_occurrences(groups, record, index, tokens, count).len() ==> 0 <= (
            #[trigger] sentence_occurrences(groups, record, index, tokens, count)[k]).token_index
                < count,
    decreases count,
{
    if count > 0 {
        occurrences_keep_places(groups, record, index, tokens, count - 1);
        let before = sentence_occurrences(groups, record, index, tokens, count - 1);
        let all = sentence_occurrences(groups, record, index, tokens, count);
        assert forall|k: int| 0 <= k < all.len() implies 0 <= (#[trigger] all[k]).token_index
            < count by {
            if k < before.len() {
                assert(all[k] == before[k]);
            }
        }
    }
}

/// An occurrence names its group by the reading, its sentence by the document and the place of the
/// sentence in it, in six digits at least, and says where the sentence and the word stand in the
/// document. The contexts are the rest of the sentence.
pub proof fn occurrences_say_where(
    record: RecordView,
    index: int,
    token: AnnotatedView,
    token_index: int,
)
    requires
        0 <= index < sentence_spans(record.text).len(),
        0 <= token.start <= token.end <= sentence_spans(record.text)[index].1 - sentence_spans(
            record.text,
        )[index].0,
        0 <= sentence_spans(record.text)[index].0,
        sentence_spans(record.text)[index].1 <= record.text.len(),
    ensures
        ({
            let occurrence = occurrence_of(record, index, token, token_index);
            let (start, end) = sentence_spans(record.text)[index];
            &&& occurrence.group_id == "homophone:"@ + token.reading
            &&& occurrence.sentence_id == record.document_id + ":s"@ + zero_padded(
                decimal_of(index as nat),
                6,
            )
            &&& occurrence.token == token
            &&& occurrence.record == record
            &&& occurrence.token_index == token_index
            &&& occurrence.sentence_start == start && occurrence.sentence_end == end
            &&& occurrence.target_start == start + token.start
            &&& occurrence.target_end - occurrence.target_start == token.end - token.start
            &&& occurrence.sentence == record.text.subrange(start, end)
            &&& occurrence.left_context + record.text.subrange(
                occurrence.target_start,
                occurrence.target_end,
            ) + occurrence.right_context == occurrence.sentence
            &&& occurrence.left_context.len() == token.start
        }),
{
    let occurrence = occurrence_of(record, index, token, token_index);
    assert(occurrence.left_context + record.text.subrange(
        occurrence.target_start,
        occurrence.target_end,
    ) + occurrence.right_context =~= occurrence.sentence);
}

proof fn contained_in_sum<A>(first: Seq<A>, second: Seq<A>, value: A)
    ensures
        (first + second).contains(value) <==> first.contains(value) || second.contains(value),
{
    let all = first + second;
    if first.contains(value) {
        assert(all[first.index_of(value)] == value);
    }
    if second.contains(value) {
        assert(all[first.len() + second.index_of(value)] == value);
    }
    if all.contains(value) {
        let i = all.index_of(value);
        if i < first.len() {
            assert(first[i] == value);
        } else {
            assert(second[i - first.len()] == value);
        }
    }
}

/// The word is one of a sentence of the record.
pub open spec fn is_word_of(
    word: ObservationView,
    record: RecordView,
    tokenizer: vibrato::Tokenizer,
    s: int,
) -> bool {
    &&& 0 <= s < sentences_of(record.text).len()
    &&& word.source == record.source
    &&& annotated(morphemes_of(tokenizer, sentences_of(record.text)[s])).contains(word.token)
}

proof fn record_words_hold(
    record: RecordView,
    tokenizer: vibrato::Tokenizer,
    count: int,
    word: ObservationView,
)
    requires
        0 <= count <= sentences_of(record.text).len(),
    ensures
        record_words(record, tokenizer, count).contains(word) <==> exists|s: int| #[trigger]
            is_word_of(word, record, tokenizer, s) && s < count,
    decreases count,
{
    if count > 0 {
        record_words_hold(record, tokenizer, count - 1, word);
        let tokens = annotated(morphemes_of(tokenizer, sentences_of(record.text)[count - 1]));
        let added = observed(tokens, record.source);
        contained_in_sum(record_words(record, tokenizer, count - 1), added, word);
        if added.contains(word) {
            let i = added.index_of(word);
            assert(tokens[i] == word.token);
            assert(is_word_of(word, record, tokenizer, count - 1));
        }
        if is_word_of(word, record, tokenizer, count - 1) {
            let i = tokens.index_of(word.token);
            assert(added[i] == word);
        }
    } else {
        assert(!record_words(record, tokenizer, count).contains(word));
    }
}

/// The words of a corpus are those of all sentences of its records, each with the source of its
/// record.
pub proof fn words_come_from_all_sentences(
    records: Seq<RecordView>,
    tokenizer: vibrato::Tokenizer,
    count: int,
    word: ObservationView,
)
    requires
        0 <= count <= records.len(),
    ensures
        corpus_words(records, tokenizer, count).contains(word) <==> exists|r: int, s: int|
            0 <= r < count && #[trigger] is_word_of(word, records[r], tokenizer, s),
    decreases count,
{
    if count > 0 {
        words_come_from_all_sentences(records, tokenizer, count - 1, word);
        let record = records[count - 1];
        let length = sentences_of(record.text).len() as int;
        let before = corpus_words(records, tokenizer, count - 1);
        let added = record_words(record, tokenizer, length);
        contained_in_sum(before, added, word);
        record_words_hold(record, tokenizer, length, word);
        if added.contains(word) {
            let s = choose|s: int| #[trigger] is_word_of(word, record, tokenizer, s) && s < length;
            assert(is_word_of(word, records[count - 1], tokenizer, s));
        }
        if exists|r: int, s: int|
            0 <= r < count && #[trigger] is_word_of(word, records[r], tokenizer, s) {
            let (r, s) = choose|r: int, s: int|
                0 <= r < count && #[trigger] is_word_of(word, records[r], tokenizer, s);
            if r == count - 1 {
                assert(is_word_of(word, record, tokenizer, s));
            }
        }
    } else {
        assert(!corpus_words(records, tokenizer, count).contains(word));
    }
}

proof fn told_apart(
    seen: Seq<ObservationView>,
    told: spec_fn(ObservationView) -> Seq<char>,
    key: Seq<char>,
)
    ensures
        occurrences(Seq::new(seen.len(), |i: int| told(seen[i])), key) == seen.filter(
            |word: ObservationView| told(word) == key,
        ).len(),
    decreases seen.len(),
{
    reveal(Seq::filter);
    let list = Seq::new(seen.len(), |i: int| told(seen[i]));
    if seen.len() > 0 {
        let shorter = seen.drop_last();
        told_apart(shorter, told, key);
        assert(list.drop_last() =~= Seq::new(shorter.len(), |i: int| told(shorter[i])));
    }
}

/// A surface is counted by lemma, by part of speech and by source: with each as often as a word
/// that was seen has it, and with each that some word has.
pub proof fn words_are_counted_by_kind(
    stats: CandidateStats,
    seen: Seq<ObservationView>,
    place: int,
)
    requires
        is_candidate(stats, seen),
        0 <= place,
    ensures
        stats.count == seen.len(),
        place < stats.lemma_counts.keys@.len() ==> stats.lemma_counts.values@[place]
            == seen.filter(
            |word: ObservationView| word.token.lemma == stats.lemma_counts.keys@[place]@,
        ).len(),
        place < stats.pos_counts.keys@.len() ==> stats.pos_counts.values@[place] == seen.filter(
            |word: ObservationView|
                word.token.pos + "/"@ + word.token.subpos + "/"@ + word.token.subsubpos
                    == stats.pos_counts.keys@[place]@,
        ).len(),
        place < stats.source_counts.keys@.len() ==> stats.source_counts.values@[place]
            == seen.filter(
            |word: ObservationView| word.source == stats.source_counts.keys@[place]@,
        ).len(),
        forall|i: int|
            0 <= i < seen.len() ==> {
                let word = #[trigger] seen[i];
                &&& texts(stats.lemma_counts.keys@).contains(word.token.lemma)
                &&& texts(stats.source_counts.keys@).contains(word.source)
            },
{
    let lemma = |word: ObservationView| word.token.lemma;
    let part = |word: ObservationView|
        word.token.pos + "/"@ + word.token.subpos + "/"@ + word.token.subsubpos;
    let source = |word: ObservationView| word.source;
    assert(lemmas(seen) =~= Seq::new(seen.len(), |i: int| lemma(seen[i])));
    assert(parts(seen) =~= Seq::new(seen.len(), |i: int| part(seen[i])));
    assert(sources(seen) =~= Seq::new(seen.len(), |i: int| source(seen[i])));
    if place < stats.lemma_counts.keys@.len() {
        let key = stats.lemma_counts.keys@[place]@;
        told_apart(seen, lemma, key);
        assert(stats.lemma_counts.spec_keys()[place] == key);
        assert(stats.lemma_counts.values@[place] == occurrences(lemmas(seen), key));
        assert(seen.filter(|word: ObservationView| lemma(word) == key) =~= seen.filter(
            |word: ObservationView| word.token.lemma == stats.lemma_counts.keys@[place]@,
        )) by {
            same_filter(
                seen,
                |word: ObservationView| lemma(word) == key,
                |word: ObservationView| word.token.lemma == stats.lemma_counts.keys@[place]@,
            );
        }
    }
    if place < stats.pos_counts.keys@.len() {
        let key = stats.pos_counts.keys@[place]@;
        told_apart(seen, part, key);
        assert(stats.pos_counts.spec_keys()[place] == key);
        assert(stats.pos_counts.values@[place] == occurrences(parts(seen), key));
        same_filter(
            seen,
            |word: ObservationView| part(word) == key,
            |word: ObservationView|
                word.token.pos + "/"@ + word.token.subpos + "/"@ + word.token.subsubpos
                    == stats.pos_counts.keys@[place]@,
        );
    }
    if place < stats.source_counts.keys@.len() {
        let key = stats.source_counts.keys@[place]@;
        told_apart(seen, source, key);
        assert(stats.source_counts.spec_keys()[place] == key);
        assert(stats.source_counts.values@[place] == occurrences(sources(seen), key));
        same_filter(
            seen,
            |word: ObservationView| source(word) == key,
            |word: ObservationView| word.source == stats.source_counts.keys@[place]@,
        );
    }
    assert forall|i: int| 0 <= i < seen.len() implies {
        let word = #[trigger] seen[i];
        &&& texts(stats.lemma_counts.keys@).contains(word.token.lemma)
        &&& texts(stats.source_counts.keys@).contains(word.source)
    } by {
        assert(stats.lemma_counts.spec_keys().contains(lemmas(seen)[i]));
        assert(stats.source_counts.spec_keys().contains(sources(seen)[i]));
    }
}

proof fn same_filter(
    seen: Seq<ObservationView>,
    left: spec_fn(ObservationView) -> bool,
    right: spec_fn(ObservationView) -> bool,
)
    requires
        forall|word: ObservationView| left(word) == #[trigger] right(word),
    ensures
        seen.filter(left) == seen.filter(right),
    decreases seen.len(),
{
    reveal(Seq::filter);
    if seen.len() > 0 {
        same_filter(seen.drop_last(), left, right);
    }
}

} // verus!
