//! N-grams do not cross the boundaries of sentences, nor of documents.

use crate::ngram::corpus::{sentences_in, sequences_in};
use crate::ngram::counts::{file_grams, grams_of, occurrences, occurrences_add, Gram};
use crate::ngram::exactness::total_occurrences;
use crate::ngram::id_map::IdMapView;
use crate::ngram::pipeline::{corpus_runs, file_sequences, sequence_runs};
use crate::ngram::sentences::sentences_of;
use crate::ngram::tokenizer::{morphemes_of, sequences_of};
use crate::ngram::tokens::TokenView;
use vstd::prelude::*;

verus! {

/// How tokens are told in a sentence, and which numbers they have.
pub struct Analysis {
    pub tokenizer: vibrato::Tokenizer,
    pub ids: IdMapView,
    pub tokens: Seq<TokenView>,
    pub raw_to_vocab: Seq<u32>,
}

/// The runs of vocabulary numbers of a sentence that stands alone.
pub open spec fn sentence_runs(sentence: Seq<char>, analysis: Analysis) -> Seq<Seq<u32>> {
    sequence_runs(
        sequences_of(morphemes_of(analysis.tokenizer, sentence), analysis.ids),
        analysis.tokens,
        analysis.raw_to_vocab,
    )
}

/// How often an n-gram comes in sentences, each on its own.
pub open spec fn sentence_sum<G: Gram>(
    sentences: Seq<Seq<char>>,
    analysis: Analysis,
    key: G::Key,
) -> nat
    decreases sentences.len(),
{
    if sentences.len() == 0 {
        0
    } else {
        sentence_sum::<G>(sentences.drop_last(), analysis, key) + occurrences(
            file_grams::<G>(sentence_runs(sentences.last(), analysis)),
            key,
        )
    }
}

/// How often an n-gram comes in the sentences of documents, each on its own.
pub open spec fn document_sum<G: Gram>(
    documents: Seq<Seq<char>>,
    analysis: Analysis,
    key: G::Key,
) -> nat
    decreases documents.len(),
{
    if documents.len() == 0 {
        0
    } else {
        document_sum::<G>(documents.drop_last(), analysis, key) + sentence_sum::<G>(
            sentences_of(documents.last()),
            analysis,
            key,
        )
    }
}

/// How often an n-gram comes in the sentences of the first `count` files, each on its own.
pub open spec fn file_sum<G: Gram>(
    files: Seq<Seq<Seq<char>>>,
    analysis: Analysis,
    key: G::Key,
    count: int,
) -> nat
    decreases count,
{
    if count <= 0 {
        0
    } else {
        file_sum::<G>(files, analysis, key, count - 1) + document_sum::<G>(
            files[count - 1],
            analysis,
            key,
        )
    }
}

proof fn grams_add<G: Gram>(first: Seq<Seq<u32>>, second: Seq<Seq<u32>>, count: int)
    requires
        0 <= count <= second.len(),
    ensures
        grams_of::<G>(first + second, first.len() + count) == file_grams::<G>(first) + grams_of::<
            G,
        >(second, count),
    decreases count,
{
    let both = first + second;
    if count == 0 {
        same_grams::<G>(both, first, first.len() as int);
        assert(file_grams::<G>(first) + grams_of::<G>(second, 0) =~= file_grams::<G>(first));
    } else {
        grams_add::<G>(first, second, count - 1);
        assert(both[first.len() + count - 1] == second[count - 1]);
        let last = G::grams(second[count - 1]);
        assert(file_grams::<G>(first) + grams_of::<G>(second, count - 1) + last =~= file_grams::<G>(
            first,
        ) + (grams_of::<G>(second, count - 1) + last));
    }
}

proof fn same_grams<G: Gram>(left: Seq<Seq<u32>>, right: Seq<Seq<u32>>, count: int)
    requires
        count <= left.len(),
        count <= right.len(),
        forall|i: int| 0 <= i < count ==> left[i] == right[i],
    ensures
        grams_of::<G>(left, count) == grams_of::<G>(right, count),
    decreases count,
{
    if count > 0 {
        same_grams::<G>(left, right, count - 1);
        assert(left[count - 1] == right[count - 1]);
    }
}

proof fn runs_add(
    first: Seq<Seq<TokenView>>,
    second: Seq<Seq<TokenView>>,
    tokens: Seq<TokenView>,
    raw_to_vocab: Seq<u32>,
)
    ensures
        sequence_runs(first + second, tokens, raw_to_vocab) == sequence_runs(
            first,
            tokens,
            raw_to_vocab,
        ) + sequence_runs(second, tokens, raw_to_vocab),
    decreases second.len(),
{
    let left = sequence_runs(first, tokens, raw_to_vocab);
    if second.len() == 0 {
        assert(first + second =~= first);
        assert(left + sequence_runs(second, tokens, raw_to_vocab) =~= left);
    } else {
        let both = first + second;
        assert(both.drop_last() =~= first + second.drop_last());
        assert(both.last() == second.last());
        runs_add(first, second.drop_last(), tokens, raw_to_vocab);
        assert(sequence_runs(both, tokens, raw_to_vocab) =~= left + sequence_runs(
            second,
            tokens,
            raw_to_vocab,
        ));
    }
}

proof fn sentences_count_alone<G: Gram>(sentences: Seq<Seq<char>>, analysis: Analysis, key: G::Key)
    ensures
        occurrences(
            file_grams::<G>(
                sequence_runs(
                    sequences_in(sentences, analysis.tokenizer, analysis.ids),
                    analysis.tokens,
                    analysis.raw_to_vocab,
                ),
            ),
            key,
        ) == sentence_sum::<G>(sentences, analysis, key),
    decreases sentences.len(),
{
    if sentences.len() > 0 {
        let before = sequences_in(sentences.drop_last(), analysis.tokenizer, analysis.ids);
        let last = sequences_of(morphemes_of(analysis.tokenizer, sentences.last()), analysis.ids);
        let first = sequence_runs(before, analysis.tokens, analysis.raw_to_vocab);
        let second = sentence_runs(sentences.last(), analysis);
        sentences_count_alone::<G>(sentences.drop_last(), analysis, key);
        runs_add(before, last, analysis.tokens, analysis.raw_to_vocab);
        grams_add::<G>(first, second, second.len() as int);
        occurrences_add(file_grams::<G>(first), file_grams::<G>(second), key);
    }
}

proof fn sums_add<G: Gram>(
    first: Seq<Seq<char>>,
    second: Seq<Seq<char>>,
    analysis: Analysis,
    key: G::Key,
)
    ensures
        sentence_sum::<G>(first + second, analysis, key) == sentence_sum::<G>(first, analysis, key)
            + sentence_sum::<G>(second, analysis, key),
    decreases second.len(),
{
    if second.len() == 0 {
        assert(first + second =~= first);
    } else {
        assert((first + second).drop_last() =~= first + second.drop_last());
        assert((first + second).last() == second.last());
        sums_add::<G>(first, second.drop_last(), analysis, key);
    }
}

proof fn documents_count_alone<G: Gram>(documents: Seq<Seq<char>>, analysis: Analysis, key: G::Key)
    ensures
        sentence_sum::<G>(sentences_in(documents), analysis, key) == document_sum::<G>(
            documents,
            analysis,
            key,
        ),
    decreases documents.len(),
{
    if documents.len() > 0 {
        documents_count_alone::<G>(documents.drop_last(), analysis, key);
        sums_add::<G>(
            sentences_in(documents.drop_last()),
            sentences_of(documents.last()),
            analysis,
            key,
        );
    }
}

/// The count of an n-gram in a corpus is the sum of its counts in the sentences of the documents,
/// each on its own: no n-gram crosses the boundary of a sentence or of a document.
pub proof fn ngrams_stay_in_sentences<G: Gram>(
    files: Seq<Seq<Seq<char>>>,
    analysis: Analysis,
    key: G::Key,
    count: int,
)
    requires
        count <= files.len(),
    ensures
        total_occurrences::<G>(
            corpus_runs(
                files,
                analysis.tokenizer,
                analysis.ids,
                analysis.tokens,
                analysis.raw_to_vocab,
            ),
            key,
            count,
        ) == file_sum::<G>(files, analysis, key, count),
    decreases count,
{
    if count > 0 {
        ngrams_stay_in_sentences::<G>(files, analysis, key, count - 1);
        let documents = files[count - 1];
        assert(file_sequences(documents, analysis.tokenizer, analysis.ids) == sequences_in(
            sentences_in(documents),
            analysis.tokenizer,
            analysis.ids,
        ));
        sentences_count_alone::<G>(sentences_in(documents), analysis, key);
        documents_count_alone::<G>(documents, analysis, key);
    }
}

} // verus!
