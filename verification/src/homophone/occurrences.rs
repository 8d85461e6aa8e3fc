//! The contexts in which homophones come.

use crate::homophone::annotation::{
    annotated, stands_in, AnnotatedToken, AnnotatedTokenSequenceBuilder, AnnotatedView,
};
use crate::homophone::candidates::{HomophoneCounts, ObservationView};
use crate::homophone::groups::{are_apart, find_group, has_group, CandidateSummary, GroupSummary};
use crate::ngram::sentences::{
    sentence_spans, sentences_of, sentences_respect_boundaries, span_views, split_sentence_spans,
};
use crate::ngram::tokenizer::{can_all_be_analyzed, morphemes_of};
use crate::text::{
    chars_of, decimal_of, lines, lines_of, padded_decimal, same_text, text_of, texts, trim, trimmed,
    zero_padded,
};
use crate::views::views;
use vstd::prelude::*;

verus! {

/// A document of a corpus.
#[derive(Clone, Debug)]
pub struct CorpusRecord {
    pub source: String,
    pub document_id: String,
    pub title: String,
    pub url: String,
    pub text: String,
}

#[verifier::ext_equal]
pub struct RecordView {
    pub source: Seq<char>,
    pub document_id: Seq<char>,
    pub title: Seq<char>,
    pub url: Seq<char>,
    pub text: Seq<char>,
}

impl View for CorpusRecord {
    type V = RecordView;

    open spec fn view(&self) -> RecordView {
        RecordView {
            source: self.source@,
            document_id: self.document_id@,
            title: self.title@,
            url: self.url@,
            text: self.text@,
        }
    }
}

/// The tokenizer comes to an end with every sentence of the records.
pub open spec fn can_be_annotated(records: Seq<RecordView>, tokenizer: vibrato::Tokenizer) -> bool {
    forall|i: int|
        0 <= i < records.len() ==> can_all_be_analyzed(
            tokenizer,
            sentences_of((#[trigger] records[i]).text),
        )
}

/// The words of a sentence.
pub open spec fn sentence_tokens(sentence: Seq<char>, tokenizer: vibrato::Tokenizer) -> Seq<
    AnnotatedView,
> {
    annotated(morphemes_of(tokenizer, sentence))
}

/// Words with the source that they came from.
pub open spec fn observed(tokens: Seq<AnnotatedView>, source: Seq<char>) -> Seq<ObservationView> {
    Seq::new(tokens.len(), |i: int| ObservationView { token: tokens[i], source })
}

/// The words of the first `count` sentences of a record.
pub open spec fn record_words(
    record: RecordView,
    tokenizer: vibrato::Tokenizer,
    count: int,
) -> Seq<ObservationView>
    decreases count,
{
    if count <= 0 {
        Seq::empty()
    } else {
        record_words(record, tokenizer, count - 1) + observed(
            sentence_tokens(sentences_of(record.text)[count - 1], tokenizer),
            record.source,
        )
    }
}

/// The number of sentences of a record.
pub open spec fn sentence_count(record: RecordView) -> nat {
    sentences_of(record.text).len()
}

/// The words of the first `count` records.
pub open spec fn corpus_words(
    records: Seq<RecordView>,
    tokenizer: vibrato::Tokenizer,
    count: int,
) -> Seq<ObservationView>
    decreases count,
{
    if count <= 0 {
        Seq::empty()
    } else {
        corpus_words(records, tokenizer, count - 1) + record_words(
            records[count - 1],
            tokenizer,
            sentence_count(records[count - 1]) as int,
        )
    }
}

/// The number of sentences of the first `count` records.
pub open spec fn sentence_total(records: Seq<RecordView>, count: int) -> nat
    decreases count,
{
    if count <= 0 {
        0
    } else {
        sentence_total(records, count - 1) + sentence_count(records[count - 1])
    }
}

/// What was read of a corpus.
#[derive(Clone, Copy, Debug, PartialEq, Eq, Structural)]
pub struct BuildStats {
    pub documents: u64,
    pub sentences: u64,
    pub valid_tokens: u64,
}

/// Counts the words of a sentence. Nothing where they cannot be counted in 64 bits.
fn collect_sentence(
    tokens: &[AnnotatedToken],
    source: &str,
    counts: &mut HomophoneCounts,
    valid_tokens: &mut u64,
    Ghost(seen): Ghost<Seq<ObservationView>>,
) -> (result: Option<()>)
    requires
        old(counts).counts(seen),
        *old(valid_tokens) == seen.len(),
    ensures
        match result {
            Some(_) => {
                &&& final(counts).counts(seen + observed(views(tokens@), source@))
                &&& *final(valid_tokens) == seen.len() + tokens@.len()
            },
            None => seen.len() + tokens@.len() > u64::MAX,
        },
{
    let ghost words = observed(views(tokens@), source@);
    let mut i: usize = 0;
    assert(seen + words.take(0) =~= seen);
    while i < tokens.len()
        invariant
            words == observed(views(tokens@), source@),
            i <= tokens@.len(),
            counts.counts(seen + words.take(i as int)),
            *valid_tokens == seen.len() + i,
        decreases tokens@.len() - i,
    {
        if *valid_tokens == u64::MAX {
            return None;
        }
        *valid_tokens += 1;
        counts.observe(&tokens[i], source, Ghost(seen + words.take(i as int)));
        proof {
            assert(words[i as int] == ObservationView {
                token: tokens@[i as int]@,
                source: source@,
            });
            assert(seen + words.take(i + 1) =~= (seen + words.take(i as int)).push(
                words[i as int],
            ));
        }
        i += 1;
    }
    assert(words.take(i as int) =~= words);
    Some(())
}

/// Counts the words of a record. Nothing where they cannot be counted in 64 bits.
fn collect_record(
    record: &CorpusRecord,
    builder: &AnnotatedTokenSequenceBuilder<'_>,
    counts: &mut HomophoneCounts,
    stats: &mut BuildStats,
    Ghost(seen): Ghost<Seq<ObservationView>>,
) -> (result: Option<()>)
    requires
        old(counts).counts(seen),
        old(stats).valid_tokens == seen.len(),
        can_all_be_analyzed(builder.spec_tokenizer(), sentences_of(record.text@)),
    ensures
        match result {
            Some(_) => {
                let words = record_words(
                    record@,
                    builder.spec_tokenizer(),
                    sentence_count(record@) as int,
                );
                &&& final(counts).counts(seen + words)
                &&& final(stats).documents == old(stats).documents
                &&& final(stats).sentences == old(stats).sentences + sentence_count(record@)
                &&& final(stats).valid_tokens == seen.len() + words.len()
            },
            None => {
                let words = record_words(
                    record@,
                    builder.spec_tokenizer(),
                    sentence_count(record@) as int,
                );
                seen.len() + words.len() > u64::MAX || old(stats).sentences + sentence_count(
                    record@,
                ) > u64::MAX
            },
        },
{
    let ghost tokenizer = builder.spec_tokenizer();
    let ghost text = record.text@;
    let ghost total = sentence_count(record@) as int;
    let chars = chars_of(record.text.as_str());
    let spans = split_sentence_spans(&chars);
    proof {
        sentences_respect_boundaries(text);
        assert(span_views(spans@).len() == spans@.len());
        assert(seen + record_words(record@, tokenizer, 0) =~= seen);
    }
    let mut i: usize = 0;
    while i < spans.len()
        invariant
            tokenizer == builder.spec_tokenizer(),
            can_all_be_analyzed(tokenizer, sentences_of(text)),
            text == record.text@,
            chars@ == text,
            total == sentence_count(record@),
            total == spans@.len(),
            span_views(spans@) == sentence_spans(text),
            forall|j: int|
                0 <= j < sentence_spans(text).len() ==> 0 <= (#[trigger] sentence_spans(
                    text,
                )[j]).0 < sentence_spans(text)[j].1 <= text.len(),
            i <= spans@.len(),
            counts.counts(seen + record_words(record@, tokenizer, i as int)),
            stats.documents == old(stats).documents,
            stats.sentences == old(stats).sentences + i,
            stats.valid_tokens == seen.len() + record_words(record@, tokenizer, i as int).len(),
        decreases spans@.len() - i,
    {
        proof {
            assert(span_views(spans@)[i as int] == (
                spans@[i as int].start as int,
                spans@[i as int].end as int,
            ));
            record_words_grow(record@, tokenizer, i + 1, total);
        }
        if stats.sentences == u64::MAX {
            return None;
        }
        stats.sentences += 1;
        let sentence = text_of(&chars, spans[i].start, spans[i].end);
        assert(sentence@ == sentences_of(text)[i as int]);
        let tokens = builder.tokenize(sentence.as_str());
        let ghost known = seen + record_words(record@, tokenizer, i as int);
        let ghost more = observed(views(tokens@), record.source@);
        match collect_sentence(
            &tokens,
            record.source.as_str(),
            counts,
            &mut stats.valid_tokens,
            Ghost(known),
        ) {
            Some(_) => {
                assert(known + more =~= seen + record_words(record@, tokenizer, i + 1));
            },
            None => {
                return None;
            },
        }
        i += 1;
    }
    Some(())
}

proof fn record_words_grow(
    record: RecordView,
    tokenizer: vibrato::Tokenizer,
    count: int,
    more: int,
)
    requires
        0 <= count <= more,
    ensures
        record_words(record, tokenizer, count).len() <= record_words(
            record,
            tokenizer,
            more,
        ).len(),
    decreases more - count,
{
    if count < more {
        record_words_grow(record, tokenizer, count, more - 1);
    }
}

/// The words of a corpus and its sentences can be counted in 64 bits.
pub open spec fn can_be_counted(records: Seq<RecordView>, tokenizer: vibrato::Tokenizer) -> bool {
    &&& records.len() <= u64::MAX
    &&& sentence_total(records, records.len() as int) <= u64::MAX
    &&& corpus_words(records, tokenizer, records.len() as int).len() <= u64::MAX
}

proof fn corpus_words_grow(
    records: Seq<RecordView>,
    tokenizer: vibrato::Tokenizer,
    count: int,
    more: int,
)
    requires
        0 <= count <= more,
    ensures
        corpus_words(records, tokenizer, count).len() <= corpus_words(
            records,
            tokenizer,
            more,
        ).len(),
        sentence_total(records, count) <= sentence_total(records, more),
    decreases more - count,
{
    if count < more {
        corpus_words_grow(records, tokenizer, count, more - 1);
    }
}

/// Counts the words of records, by reading and surface. Nothing where they cannot be counted in
/// 64 bits.
pub fn collect_statistics(
    records: &[CorpusRecord],
    builder: &AnnotatedTokenSequenceBuilder<'_>,
) -> (result: Option<(HomophoneCounts, BuildStats)>)
    requires
        can_be_annotated(views(records@), builder.spec_tokenizer()),
    ensures
        match result {
            Some((counts, stats)) => {
                &&& can_be_counted(views(records@), builder.spec_tokenizer())
                &&& counts.counts(
                    corpus_words(
                        views(records@),
                        builder.spec_tokenizer(),
                        records@.len() as int,
                    ),
                )
                &&& stats.documents == records@.len()
                &&& stats.sentences == sentence_total(views(records@), records@.len() as int)
                &&& stats.valid_tokens == corpus_words(
                    views(records@),
                    builder.spec_tokenizer(),
                    records@.len() as int,
                ).len()
            },
            None => !can_be_counted(views(records@), builder.spec_tokenizer()),
        },
{
    let ghost all = views(records@);
    let ghost tokenizer = builder.spec_tokenizer();
    let mut counts = HomophoneCounts::new();
    let mut stats = BuildStats { documents: 0, sentences: 0, valid_tokens: 0 };
    let mut i: usize = 0;
    while i < records.len()
        invariant
            all == views(records@),
            tokenizer == builder.spec_tokenizer(),
            can_be_annotated(all, tokenizer),
            i <= records@.len(),
            counts.counts(corpus_words(all, tokenizer, i as int)),
            stats.documents == i,
            stats.sentences == sentence_total(all, i as int),
            stats.valid_tokens == corpus_words(all, tokenizer, i as int).len(),
        decreases records@.len() - i,
    {
        stats.documents += 1;
        let ghost seen = corpus_words(all, tokenizer, i as int);
        proof {
            assert(all[i as int] == records@[i as int]@);
            corpus_words_grow(all, tokenizer, i + 1, all.len() as int);
        }
        match collect_record(&records[i], builder, &mut counts, &mut stats, Ghost(seen)) {
            Some(_) => {},
            None => {
                return None;
            },
        }
        i += 1;
    }
    Some((counts, stats))
}

/// A word in its context. Places are counted in characters of the document.
#[derive(Clone, Debug)]
pub struct Occurrence {
    pub group_id: String,
    pub reading: String,
    pub surface: String,
    pub lemma: String,
    pub pos: String,
    pub subpos: String,
    pub subsubpos: String,
    pub source: String,
    pub document_id: String,
    pub title: String,
    pub url: String,
    pub sentence_id: String,
    pub sentence: String,
    pub sentence_start: usize,
    pub sentence_end: usize,
    pub target_start: usize,
    pub target_end: usize,
    pub token_index: usize,
    pub left_context: String,
    pub right_context: String,
}

#[verifier::ext_equal]
pub struct OccurrenceView {
    pub group_id: Seq<char>,
    pub token: AnnotatedView,
    pub record: RecordView,
    pub sentence_id: Seq<char>,
    pub sentence: Seq<char>,
    pub sentence_start: int,
    pub sentence_end: int,
    pub target_start: int,
    pub target_end: int,
    pub token_index: int,
    pub left_context: Seq<char>,
    pub right_context: Seq<char>,
}

/// The occurrence shows what the view says.
pub open spec fn shows(occurrence: Occurrence, view: OccurrenceView) -> bool {
    &&& occurrence.group_id@ == view.group_id
    &&& occurrence.reading@ == view.token.reading
    &&& occurrence.surface@ == view.token.surface
    &&& occurrence.lemma@ == view.token.lemma
    &&& occurrence.pos@ == view.token.pos
    &&& occurrence.subpos@ == view.token.subpos
    &&& occurrence.subsubpos@ == view.token.subsubpos
    &&& occurrence.source@ == view.record.source
    &&& occurrence.document_id@ == view.record.document_id
    &&& occurrence.title@ == view.record.title
    &&& occurrence.url@ == view.record.url
    &&& occurrence.sentence_id@ == view.sentence_id
    &&& occurrence.sentence@ == view.sentence
    &&& occurrence.sentence_start == view.sentence_start
    &&& occurrence.sentence_end == view.sentence_end
    &&& occurrence.target_start == view.target_start
    &&& occurrence.target_end == view.target_end
    &&& occurrence.token_index == view.token_index
    &&& occurrence.left_context@ == view.left_context
    &&& occurrence.right_context@ == view.right_context
}

/// The occurrence of a word of a record: the word at `token_index` of sentence `index`.
pub open spec fn occurrence_of(
    record: RecordView,
    index: int,
    token: AnnotatedView,
    token_index: int,
) -> OccurrenceView {
    let (start, end) = sentence_spans(record.text)[index];
    OccurrenceView {
        group_id: "homophone:"@ + token.reading,
        token,
        record,
        sentence_id: record.document_id + ":s"@ + zero_padded(decimal_of(index as nat), 6),
        sentence: record.text.subrange(start, end),
        sentence_start: start,
        sentence_end: end,
        target_start: start + token.start,
        target_end: start + token.end,
        token_index,
        left_context: record.text.subrange(start, start + token.start),
        right_context: record.text.subrange(start + token.end, end),
    }
}

/// One of the candidates is written so.
pub open spec fn lists_surface(candidates: Seq<CandidateSummary>, surface: Seq<char>) -> bool {
    exists|i: int| 0 <= i < candidates.len() && (#[trigger] candidates[i]).surface@ == surface
}

/// A word that is one of a group.
pub open spec fn is_selected(groups: Seq<GroupSummary>, token: AnnotatedView) -> bool {
    exists|i: int|
        0 <= i < groups.len() && (#[trigger] groups[i]).reading@ == token.reading && lists_surface(
            groups[i].candidates@,
            token.surface,
        )
}

/// The occurrences among the first `count` words of a sentence.
pub open spec fn sentence_occurrences(
    groups: Seq<GroupSummary>,
    record: RecordView,
    index: int,
    tokens: Seq<AnnotatedView>,
    count: int,
) -> Seq<OccurrenceView>
    decreases count,
{
    if count <= 0 {
        Seq::empty()
    } else {
        let before = sentence_occurrences(groups, record, index, tokens, count - 1);
        if is_selected(groups, tokens[count - 1]) {
            before.push(occurrence_of(record, index, tokens[count - 1], count - 1))
        } else {
            before
        }
    }
}

/// The occurrences in the first `count` sentences of a record.
pub open spec fn record_occurrences(
    groups: Seq<GroupSummary>,
    record: RecordView,
    tokenizer: vibrato::Tokenizer,
    count: int,
) -> Seq<OccurrenceView>
    decreases count,
{
    if count <= 0 {
        Seq::empty()
    } else {
        let tokens = sentence_tokens(sentences_of(record.text)[count - 1], tokenizer);
        record_occurrences(groups, record, tokenizer, count - 1) + sentence_occurrences(
            groups,
            record,
            count - 1,
            tokens,
            tokens.len() as int,
        )
    }
}

/// The occurrences in the first `count` records.
pub open spec fn corpus_occurrences(
    groups: Seq<GroupSummary>,
    records: Seq<RecordView>,
    tokenizer: vibrato::Tokenizer,
    count: int,
) -> Seq<OccurrenceView>
    decreases count,
{
    if count <= 0 {
        Seq::empty()
    } else {
        corpus_occurrences(groups, records, tokenizer, count - 1) + record_occurrences(
            groups,
            records[count - 1],
            tokenizer,
            sentence_count(records[count - 1]) as int,
        )
    }
}

/// The occurrences show what the views say.
pub open spec fn all_show(list: Seq<Occurrence>, all: Seq<OccurrenceView>) -> bool {
    &&& list.len() == all.len()
    &&& forall|i: int| 0 <= i < list.len() ==> shows(#[trigger] list[i], all[i])
}

/// The word and its sentence stand in the text of the document where the occurrence says, and the
/// sentence is made of the word and its contexts.
pub open spec fn stands_in_document(occurrence: Occurrence, text: Seq<char>) -> bool {
    &&& occurrence.sentence_start <= occurrence.target_start <= occurrence.target_end
        <= occurrence.sentence_end <= text.len()
    &&& occurrence.sentence@ == text.subrange(
        occurrence.sentence_start as int,
        occurrence.sentence_end as int,
    )
    &&& occurrence.surface@ == text.subrange(
        occurrence.target_start as int,
        occurrence.target_end as int,
    )
    &&& occurrence.sentence@ == occurrence.left_context@ + occurrence.surface@
        + occurrence.right_context@
}

/// The list begins with another, and the occurrences behind it stand in the text.
spec fn adds_occurrences(before: Seq<Occurrence>, after: Seq<Occurrence>, text: Seq<char>) -> bool {
    &&& before.len() <= after.len()
    &&& forall|i: int| 0 <= i < before.len() ==> #[trigger] after[i] == before[i]
    &&& forall|i: int|
        before.len() <= i < after.len() ==> stands_in_document(#[trigger] after[i], text)
}

/// The occurrence stands in one of the records.
pub open spec fn stands_in_some(occurrence: Occurrence, records: Seq<RecordView>) -> bool {
    exists|i: int|
        0 <= i < records.len() && stands_in_document(occurrence, (#[trigger] records[i]).text)
}

/// The groups are sorted, and named after their readings.
pub open spec fn are_named(groups: Seq<GroupSummary>) -> bool {
    &&& are_apart(groups)
    &&& forall|i: int|
        0 <= i < groups.len() ==> (#[trigger] groups[i]).group_id@ == "homophone:"@
            + groups[i].reading@
}

fn has_surface(candidates: &[CandidateSummary], surface: &str) -> (found: bool)
    ensures
        found == lists_surface(candidates@, surface@),
{
    let mut i: usize = 0;
    while i < candidates.len()
        invariant
            i <= candidates@.len(),
            forall|j: int| 0 <= j < i ==> (#[trigger] candidates@[j]).surface@ != surface@,
        decreases candidates@.len() - i,
    {
        if same_text(candidates[i].surface.as_str(), surface) {
            assert(candidates@[i as int].surface@ == surface@);
            return true;
        }
        i += 1;
    }
    false
}

/// Finds the group that a word is one of.
fn select(groups: &[GroupSummary], token: &AnnotatedToken) -> (place: Option<usize>)
    requires
        are_named(groups@),
    ensures
        match place {
            Some(place) => place < groups@.len() && groups@[place as int].group_id@
                == "homophone:"@ + token.reading@ && is_selected(groups@, token@),
            None => !is_selected(groups@, token@),
        },
{
    match find_group(groups, token.reading.as_str()) {
        Some(place) => {
            if has_surface(&groups[place].candidates, token.surface.as_str()) {
                return Some(place);
            }
            proof {
                let found = groups@[place as int];
                assert forall|i: int|
                    0 <= i < groups@.len() && (#[trigger] groups@[i]).reading@
                        == token.reading@ implies i == place by {
                    crate::order::text_rank_same(groups@[i].reading@, found.reading@);
                    crate::order::text_rank_same(found.reading@, groups@[i].reading@);
                }
            }
            None
        },
        None => {
            assert(!is_selected(groups@, token@)) by {
                if is_selected(groups@, token@) {
                    assert(has_group(groups@, token.reading@));
                }
            }
            None
        },
    }
}

/// Adds the occurrences of a sentence.
fn write_sentence(
    groups: &[GroupSummary],
    record: &CorpusRecord,
    chars: &[char],
    index: usize,
    start: usize,
    end: usize,
    tokens: Vec<AnnotatedToken>,
    list: &mut Vec<Occurrence>,
    Ghost(known): Ghost<Seq<OccurrenceView>>,
)
    requires
        are_named(groups@),
        chars@ == record.text@,
        index < sentence_spans(record.text@).len(),
        sentence_spans(record.text@)[index as int] == (start as int, end as int),
        start <= end <= chars@.len(),
        forall|i: int|
            0 <= i < tokens@.len() ==> stands_in(
                (#[trigger] tokens@[i])@,
                record.text@.subrange(start as int, end as int),
            ),
        all_show(old(list)@, known),
    ensures
        all_show(
            final(list)@,
            known + sentence_occurrences(
                groups@,
                record@,
                index as int,
                views(tokens@),
                tokens@.len() as int,
            ),
        ),
        adds_occurrences(old(list)@, final(list)@, record.text@),
{
    let ghost all = views(tokens@);
    let ghost given = tokens@;
    let ghost text = record.text@;
    let mut token_index: usize = 0;
    let count = tokens.len();
    assert(known + sentence_occurrences(groups@, record@, index as int, all, 0) =~= known);
    for token in it: tokens
        invariant
            it.seq() == given,
            all == views(given),
            count == given.len(),
            text == record.text@,
            are_named(groups@),
            chars@ == text,
            index < sentence_spans(text).len(),
            sentence_spans(text)[index as int] == (start as int, end as int),
            start <= end <= chars@.len(),
            forall|i: int|
                0 <= i < given.len() ==> stands_in(
                    (#[trigger] given[i])@,
                    text.subrange(start as int, end as int),
                ),
            token_index == it.index(),
            all_show(
                list@,
                known + sentence_occurrences(
                    groups@,
                    record@,
                    index as int,
                    all,
                    token_index as int,
                ),
            ),
            adds_occurrences(old(list)@, list@, text),
    {
        let ghost before = sentence_occurrences(
            groups@,
            record@,
            index as int,
            all,
            token_index as int,
        );
        assert(given[it.index()] == token);
        assert(all[token_index as int] == token@);
        if let Some(place) = select(groups, &token) {
            let mut sentence_id = record.document_id.clone();
            sentence_id.append(":s");
            sentence_id.append(padded_decimal(index as u64, 6).as_str());
            let ghost view = occurrence_of(record@, index as int, token@, token_index as int);
            let occurrence = Occurrence {
                group_id: groups[place].group_id.clone(),
                source: record.source.clone(),
                document_id: record.document_id.clone(),
                title: record.title.clone(),
                url: record.url.clone(),
                sentence_id,
                sentence: text_of(chars, start, end),
                sentence_start: start,
                sentence_end: end,
                target_start: start + token.start,
                target_end: start + token.end,
                token_index,
                left_context: text_of(chars, start, start + token.start),
                right_context: text_of(chars, start + token.end, end),
                reading: token.reading,
                surface: token.surface,
                lemma: token.lemma,
                pos: token.pos,
                subpos: token.subpos,
                subsubpos: token.subsubpos,
            };
            list.push(occurrence);
            proof {
                let sentence = text.subrange(start as int, end as int);
                assert(stands_in(token@, sentence));
                assert(sentence.subrange(token.start as int, token.end as int) =~= text.subrange(
                    start + token.start,
                    start + token.end,
                ));
                assert(occurrence.sentence@ =~= occurrence.left_context@ + occurrence.surface@
                    + occurrence.right_context@);
                assert(stands_in_document(occurrence, text));
                assert(shows(occurrence, view));
                assert(known + before.push(view) =~= (known + before).push(view));
            }
        }
        token_index += 1;
    }
}

/// The occurrences in a record, added to those of others.
fn write_record(
    groups: &[GroupSummary],
    record: &CorpusRecord,
    builder: &AnnotatedTokenSequenceBuilder<'_>,
    list: &mut Vec<Occurrence>,
    Ghost(known): Ghost<Seq<OccurrenceView>>,
)
    requires
        are_named(groups@),
        all_show(old(list)@, known),
        can_all_be_analyzed(builder.spec_tokenizer(), sentences_of(record.text@)),
    ensures
        all_show(
            final(list)@,
            known + record_occurrences(
                groups@,
                record@,
                builder.spec_tokenizer(),
                sentence_count(record@) as int,
            ),
        ),
        adds_occurrences(old(list)@, final(list)@, record.text@),
{
    let ghost tokenizer = builder.spec_tokenizer();
    let ghost text = record.text@;
    let chars = chars_of(record.text.as_str());
    let spans = split_sentence_spans(&chars);
    proof {
        sentences_respect_boundaries(text);
        assert(span_views(spans@).len() == spans@.len());
        assert(known + record_occurrences(groups@, record@, tokenizer, 0) =~= known);
    }
    let mut i: usize = 0;
    while i < spans.len()
        invariant
            tokenizer == builder.spec_tokenizer(),
            can_all_be_analyzed(tokenizer, sentences_of(text)),
            text == record.text@,
            chars@ == text,
            are_named(groups@),
            spans@.len() == sentence_count(record@),
            span_views(spans@) == sentence_spans(text),
            forall|j: int|
                0 <= j < sentence_spans(text).len() ==> 0 <= (#[trigger] sentence_spans(
                    text,
                )[j]).0 < sentence_spans(text)[j].1 <= text.len(),
            i <= spans@.len(),
            all_show(
                list@,
                known + record_occurrences(groups@, record@, tokenizer, i as int),
            ),
            adds_occurrences(old(list)@, list@, text),
        decreases spans@.len() - i,
    {
        assert(span_views(spans@)[i as int] == (
            spans@[i as int].start as int,
            spans@[i as int].end as int,
        ));
        let start = spans[i].start;
        let end = spans[i].end;
        let sentence = text_of(&chars, start, end);
        assert(sentence@ == sentences_of(text)[i as int]);
        let tokens = builder.tokenize(sentence.as_str());
        let ghost before = record_occurrences(groups@, record@, tokenizer, i as int);
        let ghost more = sentence_occurrences(
            groups@,
            record@,
            i as int,
            views(tokens@),
            tokens@.len() as int,
        );
        write_sentence(
            groups,
            record,
            &chars,
            i,
            start,
            end,
            tokens,
            list,
            Ghost(known + before),
        );
        assert(known + before + more =~= known + record_occurrences(
            groups@,
            record@,
            tokenizer,
            i + 1,
        ));
        i += 1;
    }
}

/// The occurrences of the words of groups in records.
pub fn write_occurrences(
    groups: &[GroupSummary],
    records: &[CorpusRecord],
    builder: &AnnotatedTokenSequenceBuilder<'_>,
) -> (list: Vec<Occurrence>)
    requires
        are_named(groups@),
        can_be_annotated(views(records@), builder.spec_tokenizer()),
    ensures
        all_show(
            list@,
            corpus_occurrences(
                groups@,
                views(records@),
                builder.spec_tokenizer(),
                records@.len() as int,
            ),
        ),
        forall|i: int|
            0 <= i < list@.len() ==> stands_in_some(#[trigger] list@[i], views(records@)),
{
    let ghost all = views(records@);
    let ghost tokenizer = builder.spec_tokenizer();
    let mut list: Vec<Occurrence> = Vec::new();
    let mut i: usize = 0;
    while i < records.len()
        invariant
            all == views(records@),
            tokenizer == builder.spec_tokenizer(),
            can_be_annotated(all, tokenizer),
            are_named(groups@),
            i <= records@.len(),
            all_show(list@, corpus_occurrences(groups@, all, tokenizer, i as int)),
            forall|j: int| 0 <= j < list@.len() ==> stands_in_some(#[trigger] list@[j], all),
        decreases records@.len() - i,
    {
        let ghost known = corpus_occurrences(groups@, all, tokenizer, i as int);
        assert(all[i as int] == records@[i as int]@);
        let ghost before = list@;
        write_record(groups, &records[i], builder, &mut list, Ghost(known));
        proof {
            assert forall|j: int| 0 <= j < list@.len() implies stands_in_some(
                #[trigger] list@[j],
                all,
            ) by {
                if j < before.len() {
                    assert(list@[j] == before[j]);
                } else {
                    assert(stands_in_document(list@[j], all[i as int].text));
                }
            }
        }
        i += 1;
    }
    list
}

/// The lines of a text, from the first `count`, that are not blank, with their numbers.
pub open spec fn numbered_lines(lines: Seq<Seq<char>>, count: int) -> Seq<(int, Seq<char>)>
    decreases count,
{
    if count <= 0 {
        Seq::empty()
    } else if trim(lines[count - 1]).len() == 0 {
        numbered_lines(lines, count - 1)
    } else {
        numbered_lines(lines, count - 1).push((count, lines[count - 1]))
    }
}

/// Takes the records from the text of a corpus, one on each line that is not blank, with the
/// numbers of their lines.
pub fn record_lines(text: &str) -> (result: Vec<(usize, String)>)
    ensures
        result@.len() == numbered_lines(lines_of(text@), lines_of(text@).len() as int).len(),
        forall|i: int|
            0 <= i < result@.len() ==> (result@[i].0 as int, (#[trigger] result@[i]).1@)
                == numbered_lines(lines_of(text@), lines_of(text@).len() as int)[i],
{
    let all = lines(text);
    let length = all.len();
    let mut result: Vec<(usize, String)> = Vec::new();
    let mut i: usize = 0;
    while i < length
        invariant
            texts(all@) == lines_of(text@),
            length == all@.len(),
            i <= length,
            result@.len() == numbered_lines(lines_of(text@), i as int).len(),
            forall|j: int|
                0 <= j < result@.len() ==> (result@[j].0 as int, (#[trigger] result@[j]).1@)
                    == numbered_lines(lines_of(text@), i as int)[j],
        decreases length - i,
    {
        assert(texts(all@)[i as int] == all@[i as int]@);
        let line = all[i].as_str();
        if !trimmed(line).as_str().is_empty() {
            result.push((i + 1, line.to_owned()));
        }
        i += 1;
    }
    result
}

} // verus!
