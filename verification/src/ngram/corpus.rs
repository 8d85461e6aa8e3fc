//! Turning the texts of a corpus into lines of token numbers.

use crate::ngram::id_map::IdMapView;
use crate::ngram::sentences::{sentences_of, split_sentences};
use crate::ngram::tokenizer::{
    can_all_be_analyzed, can_be_analyzed, morphemes_of, sequence_views, sequences_of,
    TokenSequenceBuilder,
};
use crate::ngram::tokens::{TokenKey, TokenView};
use crate::ngram::vocabulary::{
    all_interned, id_text, interned, interning_keeps_places, places_in, write_sequence, CorpusStats,
    Interner, InternerView,
};
use crate::text::{byte_length, texts, texts_push};
use crate::views::views;
use rayon::iter::{IntoParallelRefIterator, ParallelIterator};
use vstd::prelude::*;

verus! {

/// Sentences are handed out for analysis in batches of at least this many bytes.
pub const TOKENIZE_BATCH_BYTES: usize = 4194304;

/// Lists put together.
pub open spec fn flat<T>(parts: Seq<Seq<T>>) -> Seq<T>
    decreases parts.len(),
{
    if parts.len() == 0 {
        Seq::empty()
    } else {
        flat(parts.drop_last()) + parts.last()
    }
}

pub proof fn flat_add<T>(first: Seq<Seq<T>>, second: Seq<Seq<T>>)
    ensures
        flat(first + second) == flat(first) + flat(second),
    decreases second.len(),
{
    if second.len() == 0 {
        assert(first + second =~= first);
        assert(flat(first) + flat(second) =~= flat(first));
    } else {
        flat_add(first, second.drop_last());
        assert((first + second).drop_last() =~= first + second.drop_last());
        assert(flat(first + second) =~= flat(first) + flat(second));
    }
}

/// The sentences of records.
pub open spec fn sentences_in(records: Seq<Seq<char>>) -> Seq<Seq<char>>
    decreases records.len(),
{
    if records.len() == 0 {
        Seq::empty()
    } else {
        sentences_in(records.drop_last()) + sentences_of(records.last())
    }
}

/// The sequences of tokens of sentences.
pub open spec fn sequences_in(
    sentences: Seq<Seq<char>>,
    tokenizer: vibrato::Tokenizer,
    ids: IdMapView,
) -> Seq<Seq<TokenView>>
    decreases sentences.len(),
{
    if sentences.len() == 0 {
        Seq::empty()
    } else {
        sequences_in(sentences.drop_last(), tokenizer, ids) + sequences_of(
            morphemes_of(tokenizer, sentences.last()),
            ids,
        )
    }
}

proof fn sequences_add(
    first: Seq<Seq<char>>,
    second: Seq<Seq<char>>,
    tokenizer: vibrato::Tokenizer,
    ids: IdMapView,
)
    ensures
        sequences_in(first + second, tokenizer, ids) == sequences_in(first, tokenizer, ids)
            + sequences_in(second, tokenizer, ids),
    decreases second.len(),
{
    if second.len() == 0 {
        assert(first + second =~= first);
        assert(sequences_in(first, tokenizer, ids) + sequences_in(second, tokenizer, ids)
            =~= sequences_in(first, tokenizer, ids));
    } else {
        sequences_add(first, second.drop_last(), tokenizer, ids);
        assert((first + second).drop_last() =~= first + second.drop_last());
        assert(sequences_in(first + second, tokenizer, ids) =~= sequences_in(first, tokenizer, ids)
            + sequences_in(second, tokenizer, ids));
    }
}

/// The lines of a file of token numbers, one for each sequence.
pub open spec fn token_lines(sequences: Seq<Seq<TokenView>>, tokens: Seq<TokenView>) -> Seq<char>
    decreases sequences.len(),
{
    if sequences.len() == 0 {
        Seq::empty()
    } else {
        token_lines(sequences.drop_last(), tokens) + id_text(
            places_in(tokens, sequences.last()),
        ).push('\n')
    }
}

proof fn lines_add(
    first: Seq<Seq<TokenView>>,
    second: Seq<Seq<TokenView>>,
    tokens: Seq<TokenView>,
)
    ensures
        token_lines(first + second, tokens) == token_lines(first, tokens) + token_lines(
            second,
            tokens,
        ),
    decreases second.len(),
{
    if second.len() == 0 {
        assert(first + second =~= first);
        assert(token_lines(first, tokens) + token_lines(second, tokens) =~= token_lines(
            first,
            tokens,
        ));
    } else {
        lines_add(first, second.drop_last(), tokens);
        assert((first + second).drop_last() =~= first + second.drop_last());
        assert(token_lines(first + second, tokens) =~= token_lines(first, tokens) + token_lines(
            second,
            tokens,
        ));
    }
}

proof fn interning_adds(known: InternerView, first: Seq<TokenView>, second: Seq<TokenView>)
    ensures
        all_interned(known, first + second) == all_interned(all_interned(known, first), second),
    decreases second.len(),
{
    if second.len() == 0 {
        assert(first + second =~= first);
    } else {
        interning_adds(known, first, second.drop_last());
        assert((first + second).drop_last() =~= first + second.drop_last());
    }
}

/// Every token that came is known, and none is known twice.
pub proof fn interning_keeps_tokens(known: InternerView, sequence: Seq<TokenView>)
    requires
        known.tokens.no_duplicates(),
    ensures
        all_interned(known, sequence).tokens.no_duplicates(),
        forall|i: int|
            0 <= i < sequence.len() ==> all_interned(known, sequence).tokens.contains(
                #[trigger] sequence[i],
            ),
    decreases sequence.len(),
{
    if sequence.len() > 0 {
        let shorter = sequence.drop_last();
        interning_keeps_tokens(known, shorter);
        let before = all_interned(known, shorter);
        let after = all_interned(known, sequence);
        assert(after == interned(before, sequence.last()));
        assert forall|i: int| 0 <= i < sequence.len() implies after.tokens.contains(
            #[trigger] sequence[i],
        ) by {
            if i < shorter.len() {
                assert(shorter[i] == sequence[i]);
                let place = before.tokens.index_of(shorter[i]);
                assert(after.tokens[place] == sequence[i]);
            } else if !before.tokens.contains(sequence.last()) {
                assert(after.tokens[before.tokens.len() as int] == sequence.last());
            }
        }
        assert(after.tokens.no_duplicates()) by {
            if !before.tokens.contains(sequence.last()) {
                assert forall|i: int, j: int|
                    0 <= i < after.tokens.len() && 0 <= j < after.tokens.len() && i
                        != j implies after.tokens[i] != after.tokens[j] by {
                    if i < before.tokens.len() {
                        assert(before.tokens.contains(before.tokens[i]));
                    }
                    if j < before.tokens.len() {
                        assert(before.tokens.contains(before.tokens[j]));
                    }
                }
            }
        }
    }
}

/// Tokens that come later do not change lines.
pub proof fn lines_stay(sequences: Seq<Seq<TokenView>>, tokens: Seq<TokenView>, more: Seq<TokenView>)
    requires
        tokens.len() <= more.len(),
        forall|i: int| 0 <= i < tokens.len() ==> #[trigger] more[i] == tokens[i],
        more.no_duplicates(),
        forall|i: int|
            0 <= i < flat(sequences).len() ==> tokens.contains(#[trigger] flat(sequences)[i]),
    ensures
        token_lines(sequences, tokens) == token_lines(sequences, more),
    decreases sequences.len(),
{
    if sequences.len() > 0 {
        let shorter = sequences.drop_last();
        let last = sequences.last();
        assert forall|i: int| 0 <= i < flat(shorter).len() implies tokens.contains(
            #[trigger] flat(shorter)[i],
        ) by {
            assert(flat(sequences)[i] == flat(shorter)[i]);
        }
        lines_stay(shorter, tokens, more);
        assert forall|i: int| 0 <= i < last.len() implies tokens.index_of(last[i])
            == more.index_of(last[i]) by {
            assert(flat(sequences)[flat(shorter).len() + i] == last[i]);
            assert(tokens.contains(last[i]));
            let place = tokens.index_of(last[i]);
            assert(more[place] == last[i]);
            assert(more.contains(last[i]));
        }
        assert(places_in(tokens, last) =~= places_in(more, last));
    }
}

/// The tokens of a corpus, and what was counted.
#[verifier::ext_equal]
pub struct CorpusView {
    pub known: InternerView,
    pub documents: nat,
    pub sentences: nat,
    pub valid_tokens: nat,
}

/// A corpus with more sequences of tokens.
pub open spec fn with_sequences(corpus: CorpusView, sequences: Seq<Seq<TokenView>>) -> CorpusView {
    CorpusView {
        known: all_interned(corpus.known, flat(sequences)),
        documents: corpus.documents,
        sentences: corpus.sentences + sequences.len(),
        valid_tokens: corpus.valid_tokens + flat(sequences).len(),
    }
}

/// A corpus with the records of one more file.
pub open spec fn with_records(
    corpus: CorpusView,
    records: Seq<Seq<char>>,
    tokenizer: vibrato::Tokenizer,
    ids: IdMapView,
) -> CorpusView {
    let more = with_sequences(corpus, sequences_in(sentences_in(records), tokenizer, ids));
    CorpusView { documents: corpus.documents + records.len(), ..more }
}

/// The numbers of the tokens fit in 32 bits and the counts in 64.
pub open spec fn fits(corpus: CorpusView) -> bool {
    &&& corpus.known.tokens.len() <= 0x1_0000_0000
    &&& corpus.documents <= u64::MAX
    &&& corpus.sentences <= u64::MAX
    &&& corpus.valid_tokens <= u64::MAX
}

/// A corpus of which nothing was read.
pub open spec fn empty_corpus() -> CorpusView {
    CorpusView {
        known: InternerView { tokens: Seq::empty(), counts: Seq::empty() },
        documents: 0,
        sentences: 0,
        valid_tokens: 0,
    }
}

/// A part of a corpus that does not fit leaves none that contains it.
proof fn fitting_shrinks(
    corpus: CorpusView,
    first: Seq<Seq<TokenView>>,
    second: Seq<Seq<TokenView>>,
)
    ensures
        with_sequences(corpus, first + second) == with_sequences(
            with_sequences(corpus, first),
            second,
        ),
        fits(with_sequences(corpus, first + second)) ==> fits(with_sequences(corpus, first)),
{
    flat_add(first, second);
    interning_adds(corpus.known, flat(first), flat(second));
    interning_keeps_places(all_interned(corpus.known, flat(first)), flat(second));
}

/// The tokens of a corpus as they are counted.
pub struct Corpus {
    interner: Interner,
    stats: CorpusStats,
}

impl View for Corpus {
    type V = CorpusView;

    closed spec fn view(&self) -> CorpusView {
        CorpusView {
            known: self.interner@,
            documents: self.stats.documents as nat,
            sentences: self.stats.sentences as nat,
            valid_tokens: self.stats.valid_tokens as nat,
        }
    }
}

impl Corpus {
    /// The tokens have numbers, and their total is known.
    pub closed spec fn well_formed(&self) -> bool {
        self.interner.well_formed() && self.interner.spec_total() == self.stats.valid_tokens
    }

    /// No token is known twice.
    pub proof fn tokens_are_distinct(&self)
        requires
            self.well_formed(),
        ensures
            self@.known.tokens.no_duplicates(),
            self@.known.tokens.len() == self@.known.counts.len(),
    {
        self.interner.tokens_are_distinct();
    }

    /// Nothing was read yet.
    pub fn new() -> (corpus: Corpus)
        ensures
            corpus.well_formed(),
            corpus@ == empty_corpus(),
    {
        Corpus {
            interner: Interner::new(),
            stats: CorpusStats { documents: 0, sentences: 0, valid_tokens: 0 },
        }
    }

    /// What was counted.
    pub fn stats(&self) -> (stats: CorpusStats)
        ensures
            stats.documents == self@.documents,
            stats.sentences == self@.sentences,
            stats.valid_tokens == self@.valid_tokens,
    {
        self.stats
    }

    /// The distinct tokens and their counts.
    pub fn into_parts(self) -> (parts: (Vec<TokenKey>, Vec<u64>))
        requires
            self.well_formed(),
        ensures
            views(parts.0@) == self@.known.tokens,
            parts.0@.len() == parts.1@.len(),
            forall|i: int|
                0 <= i < parts.1@.len() ==> #[trigger] parts.1@[i] == self@.known.counts[i],
    {
        self.interner.into_parts()
    }

    /// Counts the tokens of sequences and writes a line for each. Nothing where a counter has no
    /// room for them.
    fn write_sequences(&mut self, sequences: Vec<Vec<TokenKey>>, output: &mut String) -> (result:
        Option<()>)
        requires
            old(self).well_formed(),
        ensures
            match result {
                Some(_) => {
                    &&& final(self).well_formed()
                    &&& final(self)@ == with_sequences(old(self)@, sequence_views(sequences@))
                    &&& final(output)@ == old(output)@ + token_lines(
                        sequence_views(sequences@),
                        final(self)@.known.tokens,
                    )
                },
                None => !fits(with_sequences(old(self)@, sequence_views(sequences@))),
            },
    {
        let ghost all = sequence_views(sequences@);
        let ghost given = self@;
        let ghost text = output@;
        proof {
            self.tokens_are_distinct();
            assert(with_sequences(given, all.take(0)) =~= given);
            assert(text + token_lines(all.take(0), given.known.tokens) =~= text);
        }
        for sequence in it: sequences
            invariant
                all == sequence_views(it.seq()),
                all == sequence_views(sequences@),
                given == old(self)@,
                given.known.tokens.no_duplicates(),
                self.well_formed(),
                self@ == with_sequences(given, all.take(it.index())),
                output@ == text + token_lines(all.take(it.index()), self@.known.tokens),
        {
            let ghost done = it.index();
            let ghost before = self@;
            let ghost written = output@;
            let ghost units = views(sequence@);
            proof {
                assert(all.take(done + 1).drop_last() =~= all.take(done));
                assert(all.take(done + 1).last() == units);
                assert(all.take(done + 1) =~= all.take(done) + seq![units]);
                assert(flat(seq![units]) =~= units) by {
                    assert(seq![units].drop_last() =~= Seq::empty());
                    assert(flat(Seq::<Seq<TokenView>>::empty()) =~= Seq::empty());
                }
                fitting_shrinks(given, all.take(done), seq![units]);
            }
            match write_sequence(sequence, &mut self.interner, &mut self.stats, output) {
                Some(_) => {
                    proof {
                        assert(self@ =~= with_sequences(given, all.take(done + 1)));
                        interning_keeps_places(before.known, units);
                        interning_keeps_tokens(given.known, flat(all.take(done)));
                        self.tokens_are_distinct();
                        lines_stay(
                            all.take(done),
                            before.known.tokens,
                            self@.known.tokens,
                        );
                        assert(output@ =~= text + token_lines(
                            all.take(done + 1),
                            self@.known.tokens,
                        ));
                    }
                },
                None => {
                    proof {
                        assert(all =~= all.take(done + 1) + all.skip(done + 1));
                        fitting_shrinks(given, all.take(done + 1), all.skip(done + 1));
                    }
                    return None;
                },
            }
        }
        assert(all.take(all.len() as int) =~= all);
        Some(())
    }

    /// Analyzes sentences, counts their tokens and writes a line for each sequence. Nothing where
    /// a counter has no room for them.
    fn write_batch(
        &mut self,
        batch: &[String],
        builder: &TokenSequenceBuilder<'_>,
        output: &mut String,
    ) -> (result: Option<()>)
        requires
            old(self).well_formed(),
            can_all_be_analyzed(builder.spec_tokenizer(), texts(batch@)),
        ensures
            match result {
                Some(_) => {
                    &&& final(self).well_formed()
                    &&& final(self)@ == with_sequences(
                        old(self)@,
                        sequences_in(texts(batch@), builder.spec_tokenizer(), builder.spec_ids()),
                    )
                    &&& final(output)@ == old(output)@ + token_lines(
                        sequences_in(texts(batch@), builder.spec_tokenizer(), builder.spec_ids()),
                        final(self)@.known.tokens,
                    )
                },
                None => !fits(
                    with_sequences(
                        old(self)@,
                        sequences_in(texts(batch@), builder.spec_tokenizer(), builder.spec_ids()),
                    ),
                ),
            },
    {
        let ghost tokenizer = builder.spec_tokenizer();
        let ghost ids = builder.spec_ids();
        let ghost sentences = texts(batch@);
        let ghost given = self@;
        let ghost text = output@;
        let results = tokenize_all(builder, batch);
        proof {
            self.tokens_are_distinct();
            assert(sentences.take(0) =~= Seq::empty());
            assert(with_sequences(given, Seq::empty()) =~= given);
            assert(text + token_lines(Seq::empty(), given.known.tokens) =~= text);
        }
        for sequences in it: results
            invariant
                it.seq() == results@,
                results@.len() == sentences.len(),
                sentences == texts(batch@),
                tokenizer == builder.spec_tokenizer(),
                ids == builder.spec_ids(),
                forall|i: int|
                    0 <= i < results@.len() ==> sequence_views((#[trigger] results@[i])@)
                        == sequences_of(morphemes_of(tokenizer, sentences[i]), ids),
                given == old(self)@,
                given.known.tokens.no_duplicates(),
                self.well_formed(),
                self@ == with_sequences(
                    given,
                    sequences_in(sentences.take(it.index()), tokenizer, ids),
                ),
                output@ == text + token_lines(
                    sequences_in(sentences.take(it.index()), tokenizer, ids),
                    self@.known.tokens,
                ),
        {
            let ghost done = it.index();
            let ghost before = self@;
            let ghost more = sequences_of(morphemes_of(tokenizer, sentences[done]), ids);
            let ghost past = sequences_in(sentences.take(done), tokenizer, ids);
            proof {
                assert(sentences.take(done + 1).drop_last() =~= sentences.take(done));
                assert(sequences_in(sentences.take(done + 1), tokenizer, ids) == past + more);
                fitting_shrinks(given, past, more);
            }
            match self.write_sequences(sequences, output) {
                Some(_) => {
                    proof {
                        interning_keeps_places(before.known, flat(more));
                        interning_keeps_tokens(given.known, flat(past));
                        self.tokens_are_distinct();
                        lines_stay(past, before.known.tokens, self@.known.tokens);
                        lines_add(past, more, self@.known.tokens);
                        assert(output@ =~= text + token_lines(past + more, self@.known.tokens));
                    }
                },
                None => {
                    proof {
                        let rest = sequences_in(sentences.skip(done + 1), tokenizer, ids);
                        assert(sentences =~= sentences.take(done + 1) + sentences.skip(done + 1));
                        sequences_add(
                            sentences.take(done + 1),
                            sentences.skip(done + 1),
                            tokenizer,
                            ids,
                        );
                        fitting_shrinks(given, past + more, rest);
                    }
                    return None;
                },
            }
        }
        assert(sentences.take(sentences.len() as int) =~= sentences);
        Some(())
    }

    /// Reads the records of a file: counts their tokens, and gives the lines of their numbers.
    /// Nothing where a counter has no room for them.
    pub fn tokenize_input(&mut self, records: &[String], builder: &TokenSequenceBuilder<'_>) -> (
    result: Option<String>)
        requires
            old(self).well_formed(),
            can_all_be_analyzed(builder.spec_tokenizer(), sentences_in(texts(records@))),
        ensures
            match result {
                Some(output) => {
                    &&& final(self).well_formed()
                    &&& final(self)@ == with_records(
                        old(self)@,
                        texts(records@),
                        builder.spec_tokenizer(),
                        builder.spec_ids(),
                    )
                    &&& output@ == token_lines(
                        sequences_in(
                            sentences_in(texts(records@)),
                            builder.spec_tokenizer(),
                            builder.spec_ids(),
                        ),
                        final(self)@.known.tokens,
                    )
                },
                None => !fits(
                    with_records(
                        old(self)@,
                        texts(records@),
                        builder.spec_tokenizer(),
                        builder.spec_ids(),
                    ),
                ),
            },
    {
        let ghost tokenizer = builder.spec_tokenizer();
        let ghost ids = builder.spec_ids();
        let ghost all = texts(records@);
        let ghost given = self@;
        let ghost mut past: Seq<Seq<char>> = Seq::empty();
        let mut output = String::new();
        let mut batch: Vec<String> = Vec::new();
        let mut batch_bytes: usize = 0;
        let mut i: usize = 0;
        proof {
            self.tokens_are_distinct();
            assert(all.take(0) =~= Seq::empty());
            assert(past + texts(batch@) =~= Seq::empty());
            assert(self@ =~= read_so_far(given, past, 0, tokenizer, ids));
            assert(output@ =~= token_lines(Seq::empty(), self@.known.tokens));
        }
        while i < records.len()
            invariant
                tokenizer == builder.spec_tokenizer(),
                ids == builder.spec_ids(),
                all == texts(records@),
                can_all_be_analyzed(tokenizer, sentences_in(all)),
                given == old(self)@,
                given.known.tokens.no_duplicates(),
                i <= records@.len(),
                batch_bytes < TOKENIZE_BATCH_BYTES,
                past + texts(batch@) == sentences_in(all.take(i as int)),
                self.well_formed(),
                self@ == read_so_far(given, past, i as nat, tokenizer, ids),
                output@ == token_lines(
                    sequences_in(past, tokenizer, ids),
                    self@.known.tokens,
                ),
            decreases records@.len() - i,
        {
            if self.stats.documents == u64::MAX {
                return None;
            }
            self.stats.documents += 1;
            let sentences = split_sentences(records[i].as_str());
            let ghost before = sentences_in(all.take(i as int));
            let ghost more = sentences_of(all[i as int]);
            proof {
                assert(all.take(i + 1).drop_last() =~= all.take(i as int));
                assert(before + more.take(0) =~= before);
            }
            for sentence in it: sentences
                invariant
                    tokenizer == builder.spec_tokenizer(),
                    ids == builder.spec_ids(),
                    all == texts(records@),
                    can_all_be_analyzed(tokenizer, sentences_in(all)),
                    given == old(self)@,
                    given.known.tokens.no_duplicates(),
                    i < records@.len(),
                    more == texts(it.seq()),
                    more == sentences_of(all[i as int]),
                    before == sentences_in(all.take(i as int)),
                    batch_bytes < TOKENIZE_BATCH_BYTES,
                    past + texts(batch@) == before + more.take(it.index()),
                    self.well_formed(),
                    self@ == read_so_far(given, past, (i + 1) as nat, tokenizer, ids),
                    output@ == token_lines(
                        sequences_in(past, tokenizer, ids),
                        self@.known.tokens,
                    ),
            {
                let ghost done = it.index();
                let length = byte_length(sentence.as_str());
                proof {
                    texts_push(batch@, sentence);
                    assert(more[done] == sentence@);
                    assert(before + more.take(done + 1) =~= (before + more.take(done)).push(
                        sentence@,
                    ));
                    assert(past + texts(batch@).push(sentence@) =~= (past + texts(batch@)).push(
                        sentence@,
                    ));
                }
                batch.push(sentence);
                if length >= TOKENIZE_BATCH_BYTES - batch_bytes {
                    proof {
                        assert(past + texts(batch@) + more.skip(done + 1) =~= before + more);
                        assert(all.take(i + 1).drop_last() =~= all.take(i as int));
                        batch_is_analyzed(
                            past,
                            texts(batch@),
                            more.skip(done + 1),
                            all,
                            i + 1,
                            tokenizer,
                        );
                    }
                    match self.write_batch(&batch, builder, &mut output) {
                        Some(_) => {
                            proof {
                                self.tokens_are_distinct();
                                batch_follows(
                                    given,
                                    past,
                                    texts(batch@),
                                    (i + 1) as nat,
                                    tokenizer,
                                    ids,
                                );
                                past = past + texts(batch@);
                            }
                        },
                        None => {
                            proof {
                                assert(all.take(i + 1).drop_last() =~= all.take(i as int));
                                assert(past + texts(batch@) + more.skip(done + 1) =~= before
                                    + more);
                                rest_does_not_fit(
                                    given,
                                    past,
                                    texts(batch@),
                                    more.skip(done + 1),
                                    all,
                                    i + 1,
                                    tokenizer,
                                    ids,
                                );
                            }
                            return None;
                        },
                    }
                    batch = Vec::new();
                    batch_bytes = 0;
                    assert(past + texts(batch@) =~= past);
                } else {
                    batch_bytes += length;
                }
            }
            proof {
                assert(more.take(more.len() as int) =~= more);
            }
            i += 1;
        }
        assert(all.take(i as int) =~= all);
        if batch.len() > 0 {
            proof {
                assert(past + texts(batch@) + Seq::<Seq<char>>::empty() =~= past + texts(batch@));
                batch_is_analyzed(
                    past,
                    texts(batch@),
                    Seq::empty(),
                    all,
                    all.len() as int,
                    tokenizer,
                );
            }
            match self.write_batch(&batch, builder, &mut output) {
                Some(_) => {
                    proof {
                        self.tokens_are_distinct();
                        batch_follows(
                            given,
                            past,
                            texts(batch@),
                            all.len(),
                            tokenizer,
                            ids,
                        );
                    }
                },
                None => {
                    proof {
                        rest_does_not_fit(
                            given,
                            past,
                            texts(batch@),
                            Seq::empty(),
                            all,
                            all.len() as int,
                            tokenizer,
                            ids,
                        );
                    }
                    return None;
                },
            }
        } else {
            assert(past + texts(batch@) =~= past);
        }
        assert(self@ =~= with_records(given, all, tokenizer, ids));
        Some(output)
    }
}

/// The corpus with some records read and the sentences of `past` analyzed.
spec fn read_so_far(
    given: CorpusView,
    past: Seq<Seq<char>>,
    records: nat,
    tokenizer: vibrato::Tokenizer,
    ids: IdMapView,
) -> CorpusView {
    let analyzed = with_sequences(given, sequences_in(past, tokenizer, ids));
    CorpusView { documents: given.documents + records, ..analyzed }
}

/// The sentences of a batch are sentences of the records.
proof fn batch_is_analyzed(
    past: Seq<Seq<char>>,
    batch: Seq<Seq<char>>,
    rest: Seq<Seq<char>>,
    records: Seq<Seq<char>>,
    count: int,
    tokenizer: vibrato::Tokenizer,
)
    requires
        0 <= count <= records.len(),
        past + batch + rest == sentences_in(records.take(count)),
        can_all_be_analyzed(tokenizer, sentences_in(records)),
    ensures
        can_all_be_analyzed(tokenizer, batch),
{
    assert(records =~= records.take(count) + records.skip(count));
    sentences_add(records.take(count), records.skip(count));
    assert forall|i: int| 0 <= i < batch.len() implies can_be_analyzed(
        tokenizer,
        #[trigger] batch[i],
    ) by {
        assert((past + batch + rest)[past.len() + i] == batch[i]);
        assert(sentences_in(records)[past.len() + i] == batch[i]);
    }
}

/// A batch that is analyzed behind others.
proof fn batch_follows(
    given: CorpusView,
    past: Seq<Seq<char>>,
    batch: Seq<Seq<char>>,
    records: nat,
    tokenizer: vibrato::Tokenizer,
    ids: IdMapView,
)
    requires
        given.known.tokens.no_duplicates(),
    ensures
        with_sequences(
            read_so_far(given, past, records, tokenizer, ids),
            sequences_in(batch, tokenizer, ids),
        ) == read_so_far(given, past + batch, records, tokenizer, ids),
        token_lines(
            sequences_in(past, tokenizer, ids),
            read_so_far(given, past, records, tokenizer, ids).known.tokens,
        ) + token_lines(
            sequences_in(batch, tokenizer, ids),
            read_so_far(given, past + batch, records, tokenizer, ids).known.tokens,
        ) == token_lines(
            sequences_in(past + batch, tokenizer, ids),
            read_so_far(given, past + batch, records, tokenizer, ids).known.tokens,
        ),
{
    let first = sequences_in(past, tokenizer, ids);
    let second = sequences_in(batch, tokenizer, ids);
    let before = read_so_far(given, past, records, tokenizer, ids);
    let after = read_so_far(given, past + batch, records, tokenizer, ids);
    sequences_add(past, batch, tokenizer, ids);
    fitting_shrinks(given, first, second);
    assert(with_sequences(before, second) =~= after);
    interning_keeps_tokens(given.known, flat(first));
    interning_keeps_tokens(before.known, flat(second));
    interning_keeps_places(before.known, flat(second));
    lines_stay(first, before.known.tokens, after.known.tokens);
    lines_add(first, second, after.known.tokens);
}

/// What does not fit with a batch does not fit with the rest of the records either.
proof fn rest_does_not_fit(
    given: CorpusView,
    past: Seq<Seq<char>>,
    batch: Seq<Seq<char>>,
    rest: Seq<Seq<char>>,
    records: Seq<Seq<char>>,
    count: int,
    tokenizer: vibrato::Tokenizer,
    ids: IdMapView,
)
    requires
        given.known.tokens.no_duplicates(),
        0 <= count <= records.len(),
        given.documents + count <= u64::MAX,
        past + batch + rest == sentences_in(records.take(count)),
        !fits(
            with_sequences(
                read_so_far(given, past, count as nat, tokenizer, ids),
                sequences_in(batch, tokenizer, ids),
            ),
        ),
    ensures
        !fits(with_records(given, records, tokenizer, ids)),
{
    let unread = records.skip(count);
    batch_follows(given, past, batch, count as nat, tokenizer, ids);
    assert(records =~= records.take(count) + unread);
    sentences_add(records.take(count), unread);
    let tail = rest + sentences_in(unread);
    assert(past + batch + tail =~= sentences_in(records));
    sequences_add(past + batch, tail, tokenizer, ids);
    fitting_shrinks(
        given,
        sequences_in(past + batch, tokenizer, ids),
        sequences_in(tail, tokenizer, ids),
    );
}

proof fn sentences_add(first: Seq<Seq<char>>, second: Seq<Seq<char>>)
    ensures
        sentences_in(first + second) == sentences_in(first) + sentences_in(second),
    decreases second.len(),
{
    if second.len() == 0 {
        assert(first + second =~= first);
        assert(sentences_in(first) + sentences_in(second) =~= sentences_in(first));
    } else {
        sentences_add(first, second.drop_last());
        assert((first + second).drop_last() =~= first + second.drop_last());
        assert(sentences_in(first + second) =~= sentences_in(first) + sentences_in(second));
    }
}

/// `par_iter`, `map` and `collect` of the `rayon` crate: what the function gives for each sentence
/// stands in the order of the sentences, whatever the order in which threads come to them.
#[verifier::external_body]
fn tokenize_all(builder: &TokenSequenceBuilder<'_>, batch: &[String]) -> (results: Vec<
    Vec<Vec<TokenKey>>,
>)
    requires
        can_all_be_analyzed(builder.spec_tokenizer(), texts(batch@)),
    ensures
        results@.len() == batch@.len(),
        forall|i: int|
            0 <= i < results@.len() ==> sequence_views((#[trigger] results@[i])@) == sequences_of(
                morphemes_of(builder.spec_tokenizer(), texts(batch@)[i]),
                builder.spec_ids(),
            ),
{
    batch.par_iter().map(|sentence| builder.tokenize(sentence)).collect()
}

} // verus!
