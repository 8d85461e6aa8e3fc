//! From the records of a corpus to the counts of its n-grams.

use crate::compression::{compress, zstd_contents, zstd_frame};
use crate::mozc::{decimal_reads_back, split_further};
use crate::ngram::corpus::{
    empty_corpus, fits, flat, interning_keeps_tokens, lines_stay, sentences_in, sequences_in,
    token_lines, with_records, Corpus, CorpusView,
};
use crate::ngram::counts::{
    grams_of, lists_counts, pairs, triples, Bigram, Gram, RecountView, Trigram,
};
use crate::ngram::exactness::{
    corpus_counts, count_corpus, counted_bigrams_occur, counted_trigrams_occur, file_views,
    total_grams,
};
use crate::ngram::id_map::IdMapView;
use crate::ngram::packing::{pairs_round_trip, triples_round_trip};
use crate::ngram::rows::{pair_within, triple_within};
use crate::ngram::scan::{
    ended_runs, mapped, open_ids, run_views, runs_in, scan_tokens, scanned, sequences_read_back,
    with_ids, ScanFault,
};
use crate::ngram::tokenizer::{can_all_be_analyzed, TokenSequenceBuilder};
use crate::ngram::tokens::TokenView;
use crate::ngram::vocabulary::{
    frequent_count, id_text, interning_keeps_places, is_vocabulary, make_vocabulary, places_in,
    stands_in, CorpusStats, Vocabulary, MISSING_VOCAB_ID,
};
use crate::text::{
    decimal_of, is_digit, lines_of, padded_decimal, split_on, texts, without_return, zero_padded,
};
use crate::views::views;
use vstd::prelude::*;

verus! {

/// The records of each file.
pub open spec fn record_views(files: Seq<Vec<String>>) -> Seq<Seq<Seq<char>>> {
    Seq::new(files.len(), |i: int| texts(files[i]@))
}

/// The corpus of the first `count` files.
pub open spec fn corpus_of(
    files: Seq<Seq<Seq<char>>>,
    tokenizer: vibrato::Tokenizer,
    ids: IdMapView,
    count: int,
) -> CorpusView
    decreases count,
{
    if count <= 0 {
        empty_corpus()
    } else {
        with_records(
            corpus_of(files, tokenizer, ids, count - 1),
            files[count - 1],
            tokenizer,
            ids,
        )
    }
}

/// The tokenizer comes to an end with every sentence of the files.
pub open spec fn can_be_tokenized(
    files: Seq<Seq<Seq<char>>>,
    tokenizer: vibrato::Tokenizer,
) -> bool {
    forall|i: int|
        0 <= i < files.len() ==> can_all_be_analyzed(tokenizer, sentences_in(#[trigger] files[i]))
}

/// The sequences of tokens of a file.
pub open spec fn file_sequences(
    records: Seq<Seq<char>>,
    tokenizer: vibrato::Tokenizer,
    ids: IdMapView,
) -> Seq<Seq<TokenView>> {
    sequences_in(sentences_in(records), tokenizer, ids)
}

/// The corpus of more files knows the tokens of fewer, in the same places.
proof fn corpus_grows(
    files: Seq<Seq<Seq<char>>>,
    tokenizer: vibrato::Tokenizer,
    ids: IdMapView,
    count: int,
    more: int,
)
    requires
        0 <= count <= more,
    ensures
        corpus_of(files, tokenizer, ids, count).known.tokens.len() <= corpus_of(
            files,
            tokenizer,
            ids,
            more,
        ).known.tokens.len(),
        forall|i: int|
            0 <= i < corpus_of(files, tokenizer, ids, count).known.tokens.len()
                ==> #[trigger] corpus_of(files, tokenizer, ids, more).known.tokens[i] == corpus_of(
                files,
                tokenizer,
                ids,
                count,
            ).known.tokens[i],
        corpus_of(files, tokenizer, ids, more).known.tokens.no_duplicates(),
        fits(corpus_of(files, tokenizer, ids, more)) ==> fits(
            corpus_of(files, tokenizer, ids, count),
        ),
    decreases more,
{
    if more > 0 {
        let before = corpus_of(files, tokenizer, ids, more - 1);
        let sequences = file_sequences(files[more - 1], tokenizer, ids);
        if count < more {
            corpus_grows(files, tokenizer, ids, count, more - 1);
        } else {
            corpus_grows(files, tokenizer, ids, more - 1, more - 1);
        }
        interning_keeps_places(before.known, flat(sequences));
        interning_keeps_tokens(before.known, flat(sequences));
    }
}

/// The corpus knows the tokens of each of its files.
proof fn corpus_knows(
    files: Seq<Seq<Seq<char>>>,
    tokenizer: vibrato::Tokenizer,
    ids: IdMapView,
    count: int,
    file: int,
)
    requires
        0 <= file < count <= files.len(),
    ensures
        forall|i: int|
            0 <= i < flat(file_sequences(files[file], tokenizer, ids)).len() ==> corpus_of(
                files,
                tokenizer,
                ids,
                count,
            ).known.tokens.contains(#[trigger] flat(file_sequences(files[file], tokenizer, ids))[i]),
{
    let tokens = flat(file_sequences(files[file], tokenizer, ids));
    let before = corpus_of(files, tokenizer, ids, file);
    let then = corpus_of(files, tokenizer, ids, file + 1);
    let end = corpus_of(files, tokenizer, ids, count);
    corpus_grows(files, tokenizer, ids, file, file);
    corpus_grows(files, tokenizer, ids, file + 1, count);
    interning_keeps_tokens(before.known, tokens);
    assert forall|i: int| 0 <= i < tokens.len() implies end.known.tokens.contains(
        #[trigger] tokens[i],
    ) by {
        assert(then.known.tokens.contains(tokens[i]));
        let place = then.known.tokens.index_of(tokens[i]);
        assert(end.known.tokens[place] == tokens[i]);
    }
}

/// Counts the tokens of all files, and gives the lines of their numbers for each. Nothing where a
/// counter has no room for them.
pub fn tokenize_corpus(files: &[Vec<String>], builder: &TokenSequenceBuilder<'_>) -> (result:
    Option<(Corpus, Vec<String>)>)
    requires
        can_be_tokenized(record_views(files@), builder.spec_tokenizer()),
    ensures
        match result {
            Some((corpus, token_files)) => {
                &&& corpus.well_formed()
                &&& corpus@ == corpus_of(
                    record_views(files@),
                    builder.spec_tokenizer(),
                    builder.spec_ids(),
                    files@.len() as int,
                )
                &&& token_files@.len() == files@.len()
                &&& forall|i: int|
                    0 <= i < files@.len() ==> (#[trigger] token_files@[i])@ == token_lines(
                        file_sequences(
                            record_views(files@)[i],
                            builder.spec_tokenizer(),
                            builder.spec_ids(),
                        ),
                        corpus@.known.tokens,
                    )
            },
            None => !fits(
                corpus_of(
                    record_views(files@),
                    builder.spec_tokenizer(),
                    builder.spec_ids(),
                    files@.len() as int,
                ),
            ),
        },
{
    let ghost all = record_views(files@);
    let ghost tokenizer = builder.spec_tokenizer();
    let ghost ids = builder.spec_ids();
    let mut corpus = Corpus::new();
    let mut token_files: Vec<String> = Vec::new();
    let mut i: usize = 0;
    while i < files.len()
        invariant
            all == record_views(files@),
            can_be_tokenized(all, tokenizer),
            tokenizer == builder.spec_tokenizer(),
            ids == builder.spec_ids(),
            i <= files@.len(),
            corpus.well_formed(),
            corpus@ == corpus_of(all, tokenizer, ids, i as int),
            token_files@.len() == i,
            forall|j: int|
                0 <= j < i ==> (#[trigger] token_files@[j])@ == token_lines(
                    file_sequences(all[j], tokenizer, ids),
                    corpus@.known.tokens,
                ),
        decreases files@.len() - i,
    {
        let ghost before = corpus@;
        let ghost written = token_files@;
        assert(all[i as int] == texts(files@[i as int]@));
        match corpus.tokenize_input(&files[i], builder) {
            Some(output) => {
                token_files.push(output);
                proof {
                    corpus_grows(all, tokenizer, ids, i as int, i + 1);
                    assert forall|j: int| 0 <= j < i + 1 implies (#[trigger] token_files@[j])@
                        == token_lines(
                        file_sequences(all[j], tokenizer, ids),
                        corpus@.known.tokens,
                    ) by {
                        if j < i {
                            assert(token_files@[j] == written[j]);
                            corpus_knows(all, tokenizer, ids, i as int, j);
                            lines_stay(
                                file_sequences(all[j], tokenizer, ids),
                                before.known.tokens,
                                corpus@.known.tokens,
                            );
                        }
                    }
                }
            },
            None => {
                proof {
                    corpus_grows(all, tokenizer, ids, i + 1, files@.len() as int);
                }
                return None;
            },
        }
        i += 1;
    }
    Some((corpus, token_files))
}

/// The runs of vocabulary numbers of sequences of tokens.
pub open spec fn sequence_runs(
    sequences: Seq<Seq<TokenView>>,
    tokens: Seq<TokenView>,
    raw_to_vocab: Seq<u32>,
) -> Seq<Seq<u32>>
    decreases sequences.len(),
{
    if sequences.len() == 0 {
        Seq::empty()
    } else {
        sequence_runs(sequences.drop_last(), tokens, raw_to_vocab) + runs_in(
            mapped(places_in(tokens, sequences.last()), raw_to_vocab),
        )
    }
}

/// The lines of sequences.
spec fn sequence_lines(sequences: Seq<Seq<TokenView>>, tokens: Seq<TokenView>) -> Seq<Seq<char>> {
    Seq::new(sequences.len(), |i: int| id_text(places_in(tokens, sequences[i])))
}

proof fn id_text_is_plain(ids: Seq<int>)
    ensures
        forall|i: int|
            0 <= i < id_text(ids).len() ==> is_digit(#[trigger] id_text(ids)[i]) || id_text(ids)[i]
                == ' ',
    decreases ids.len(),
{
    if ids.len() > 0 {
        let shorter = id_text(ids.drop_last());
        let digits = decimal_of(ids.last() as nat);
        decimal_reads_back(ids.last() as nat);
        id_text_is_plain(ids.drop_last());
        assert forall|i: int| 0 <= i < id_text(ids).len() implies is_digit(
            #[trigger] id_text(ids)[i],
        ) || id_text(ids)[i] == ' ' by {
            if ids.len() == 1 {
                assert(id_text(ids)[i] == digits[i]);
            } else if i < shorter.len() {
                assert(id_text(ids)[i] == shorter[i]);
            } else if i > shorter.len() {
                assert(id_text(ids)[i] == digits[i - shorter.len() - 1]);
            }
        }
    }
}

proof fn token_lines_split(sequences: Seq<Seq<TokenView>>, tokens: Seq<TokenView>)
    ensures
        split_on(token_lines(sequences, tokens), '\n') == sequence_lines(sequences, tokens).push(
            Seq::empty(),
        ),
    decreases sequences.len(),
{
    let text = token_lines(sequences, tokens);
    let lines = sequence_lines(sequences, tokens);
    if sequences.len() == 0 {
        assert(split_on(text, '\n') =~= lines.push(Seq::empty()));
    } else {
        let shorter = sequences.drop_last();
        token_lines_split(shorter, tokens);
        let before = token_lines(shorter, tokens);
        let line = id_text(places_in(tokens, sequences.last()));
        id_text_is_plain(places_in(tokens, sequences.last()));
        assert(!line.contains('\n'));
        split_further(before, line, '\n');
        assert(text =~= (before + line).push('\n'));
        assert(text.drop_last() =~= before + line);
        assert(sequence_lines(shorter, tokens).push(Seq::empty()).drop_last() =~= sequence_lines(
            shorter,
            tokens,
        ));
        assert(Seq::<char>::empty() + line =~= line);
        assert(lines =~= sequence_lines(shorter, tokens).push(line));
    }
}

/// The lines of a file of token numbers are those of its sequences.
proof fn token_lines_lines(sequences: Seq<Seq<TokenView>>, tokens: Seq<TokenView>)
    ensures
        lines_of(token_lines(sequences, tokens)) == sequence_lines(sequences, tokens),
{
    let lines = sequence_lines(sequences, tokens);
    token_lines_split(sequences, tokens);
    assert forall|i: int| 0 <= i < lines.len() implies #[trigger] without_return(lines[i])
        == lines[i] by {
        id_text_is_plain(places_in(tokens, sequences[i]));
        if lines[i].len() > 0 {
            let last = id_text(places_in(tokens, sequences[i]))[lines[i].len() - 1];
            assert(is_digit(last) || last == ' ');
        }
    }
    assert(lines_of(token_lines(sequences, tokens)) =~= lines);
}

/// What was written of the sequences of a file is read back as their runs.
pub proof fn files_read_back(
    sequences: Seq<Seq<TokenView>>,
    tokens: Seq<TokenView>,
    raw_to_vocab: Seq<u32>,
)
    requires
        raw_to_vocab.len() == tokens.len(),
        raw_to_vocab.len() <= usize::MAX,
        forall|i: int|
            0 <= i < flat(sequences).len() ==> tokens.contains(#[trigger] flat(sequences)[i]),
    ensures
        scanned(lines_of(token_lines(sequences, tokens)), raw_to_vocab) == Ok::<_, ScanFault>(
            sequence_runs(sequences, tokens, raw_to_vocab),
        ),
{
    token_lines_lines(sequences, tokens);
    lines_read_back(sequences, tokens, raw_to_vocab);
}

proof fn lines_read_back(
    sequences: Seq<Seq<TokenView>>,
    tokens: Seq<TokenView>,
    raw_to_vocab: Seq<u32>,
)
    requires
        raw_to_vocab.len() == tokens.len(),
        raw_to_vocab.len() <= usize::MAX,
        forall|i: int|
            0 <= i < flat(sequences).len() ==> tokens.contains(#[trigger] flat(sequences)[i]),
    ensures
        scanned(sequence_lines(sequences, tokens), raw_to_vocab) == Ok::<_, ScanFault>(
            sequence_runs(sequences, tokens, raw_to_vocab),
        ),
    decreases sequences.len(),
{
    let lines = sequence_lines(sequences, tokens);
    if sequences.len() > 0 {
        let shorter = sequences.drop_last();
        let last = sequences.last();
        let places = places_in(tokens, last);
        assert forall|i: int| 0 <= i < flat(shorter).len() implies tokens.contains(
            #[trigger] flat(shorter)[i],
        ) by {
            assert(flat(sequences)[i] == flat(shorter)[i]);
        }
        lines_read_back(shorter, tokens, raw_to_vocab);
        assert forall|i: int| 0 <= i < places.len() implies 0 <= #[trigger] places[i]
            < raw_to_vocab.len() by {
            assert(flat(sequences)[flat(shorter).len() + i] == last[i]);
            assert(tokens.contains(last[i]));
        }
        sequences_read_back(places, raw_to_vocab);
        assert(lines.drop_last() =~= sequence_lines(shorter, tokens));
        assert(lines.last() == id_text(places));
    }
}

/// All numbers of runs are below a bound.
pub open spec fn runs_within(runs: Seq<Seq<u32>>, bound: nat) -> bool {
    forall|i: int, j: int|
        0 <= i < runs.len() && 0 <= j < runs[i].len() ==> (#[trigger] runs[i][j]) < bound
}

/// The number of numbers in runs.
pub open spec fn run_total(runs: Seq<Seq<u32>>) -> nat
    decreases runs.len(),
{
    if runs.len() == 0 {
        0
    } else {
        run_total(runs.drop_last()) + runs.last().len()
    }
}

proof fn run_total_add(first: Seq<Seq<u32>>, second: Seq<Seq<u32>>)
    ensures
        run_total(first + second) == run_total(first) + run_total(second),
    decreases second.len(),
{
    if second.len() == 0 {
        assert(first + second =~= first);
    } else {
        assert((first + second).drop_last() =~= first + second.drop_last());
        run_total_add(first, second.drop_last());
    }
}

/// Numbers of the vocabulary: below its length, or the one that stands for no token.
spec fn are_vocab_ids(ids: Seq<u32>, bound: nat) -> bool {
    forall|i: int| 0 <= i < ids.len() ==> (#[trigger] ids[i]) == MISSING_VOCAB_ID || ids[i] < bound
}

proof fn runs_hold_ids(ids: Seq<u32>, bound: nat)
    requires
        are_vocab_ids(ids, bound),
    ensures
        runs_within(runs_in(ids), bound),
        run_total(runs_in(ids)) <= ids.len(),
        runs_within(ended_runs(ids), bound),
        forall|j: int| 0 <= j < open_ids(ids).len() ==> (#[trigger] open_ids(ids)[j]) < bound,
        run_total(ended_runs(ids)) + open_ids(ids).len() <= ids.len(),
    decreases ids.len(),
{
    if ids.len() > 0 {
        let shorter = ids.drop_last();
        assert(are_vocab_ids(shorter, bound)) by {
            assert forall|i: int| 0 <= i < shorter.len() implies (#[trigger] shorter[i])
                == MISSING_VOCAB_ID || shorter[i] < bound by {
                assert(shorter[i] == ids[i]);
            }
        }
        runs_hold_ids(shorter, bound);
        assert(ids[ids.len() - 1] == ids.last());
        with_ids_total(ended_runs(shorter), open_ids(shorter));
    }
    with_ids_total(ended_runs(ids), open_ids(ids));
}

proof fn with_ids_total(runs: Seq<Seq<u32>>, run: Seq<u32>)
    ensures
        run_total(with_ids(runs, run)) == run_total(runs) + run.len(),
{
    assert(runs.push(run).drop_last() =~= runs);
}

/// The runs of sequences hold numbers of the vocabulary, no more than there are tokens.
proof fn sequence_runs_hold_ids(
    sequences: Seq<Seq<TokenView>>,
    tokens: Seq<TokenView>,
    raw_to_vocab: Seq<u32>,
    bound: nat,
)
    requires
        raw_to_vocab.len() == tokens.len(),
        are_vocab_ids(raw_to_vocab, bound),
        forall|i: int|
            0 <= i < flat(sequences).len() ==> tokens.contains(#[trigger] flat(sequences)[i]),
    ensures
        runs_within(sequence_runs(sequences, tokens, raw_to_vocab), bound),
        run_total(sequence_runs(sequences, tokens, raw_to_vocab)) <= flat(sequences).len(),
    decreases sequences.len(),
{
    if sequences.len() > 0 {
        let shorter = sequences.drop_last();
        let last = sequences.last();
        let places = places_in(tokens, last);
        let ids = mapped(places, raw_to_vocab);
        assert forall|i: int| 0 <= i < flat(shorter).len() implies tokens.contains(
            #[trigger] flat(shorter)[i],
        ) by {
            assert(flat(sequences)[i] == flat(shorter)[i]);
        }
        sequence_runs_hold_ids(shorter, tokens, raw_to_vocab, bound);
        assert forall|i: int| 0 <= i < ids.len() implies (#[trigger] ids[i]) == MISSING_VOCAB_ID
            || ids[i] < bound by {
            assert(flat(sequences)[flat(shorter).len() + i] == last[i]);
            assert(tokens.contains(last[i]));
            assert(ids[i] == raw_to_vocab[places[i]]);
        }
        runs_hold_ids(ids, bound);
        let before = sequence_runs(shorter, tokens, raw_to_vocab);
        let more = runs_in(ids);
        run_total_add(before, more);
        assert forall|i: int, j: int|
            0 <= i < (before + more).len() && 0 <= j < (before + more)[i].len() implies (
        #[trigger] (before + more)[i][j]) < bound by {
            if i < before.len() {
                assert((before + more)[i] == before[i]);
                assert(before[i][j] < bound);
            } else {
                assert((before + more)[i] == more[i - before.len()]);
                assert(more[i - before.len()][j] < bound);
            }
        }
    }
}

/// A file has no more n-grams than numbers.
proof fn grams_within_total<G: Gram>(runs: Seq<Seq<u32>>, count: int)
    requires
        0 <= count <= runs.len(),
    ensures
        grams_of::<G>(runs, count).len() <= run_total(runs.take(count)),
    decreases count,
{
    if count > 0 {
        grams_within_total::<G>(runs, count - 1);
        G::fewer_grams(runs[count - 1]);
        assert(runs.take(count).drop_last() =~= runs.take(count - 1));
    }
}

/// Each n-gram of a file is one of a run.
proof fn gram_has_run<G: Gram>(runs: Seq<Seq<u32>>, count: int, key: G::Key) -> (place: (int, int))
    requires
        0 <= count <= runs.len(),
        grams_of::<G>(runs, count).contains(key),
    ensures
        0 <= place.0 < count,
        0 <= place.1 < G::grams(runs[place.0]).len(),
        G::grams(runs[place.0])[place.1] == key,
    decreases count,
{
    let at = grams_of::<G>(runs, count).index_of(key);
    if count <= 0 {
        assert(false);
        (0, 0)
    } else {
        let before = grams_of::<G>(runs, count - 1);
        if at < before.len() {
            assert(before[at] == key);
            gram_has_run::<G>(runs, count - 1, key)
        } else {
            (count - 1, at - before.len())
        }
    }
}

/// The pairs that are counted are pairs of the vocabulary.
proof fn counted_pairs_within(
    files: Seq<Seq<Seq<u32>>>,
    map_min_count: u32,
    bound: nat,
    key: u64,
)
    requires
        forall|i: int| 0 <= i < files.len() ==> runs_within(#[trigger] files[i], bound),
        corpus_counts(files, map_min_count).bigrams.contains_key(key),
    ensures
        pair_within(key, bound),
{
    let file = counted_bigrams_occur(files, map_min_count, key);
    let runs = files[file];
    assert(runs_within(runs, bound));
    let (i, j) = gram_has_run::<Bigram>(runs, runs.len() as int, key);
    let run = runs[i];
    assert(pairs(run)[j] == key);
    assert(runs[i][j] < bound && runs[i][j + 1] < bound);
    pairs_round_trip(run[j], run[j + 1], key);
}

/// The triples that are counted are triples of the vocabulary.
proof fn counted_triples_within(
    files: Seq<Seq<Seq<u32>>>,
    map_min_count: u32,
    bound: nat,
    key: u128,
)
    requires
        forall|i: int| 0 <= i < files.len() ==> runs_within(#[trigger] files[i], bound),
        corpus_counts(files, map_min_count).trigrams.contains_key(key),
    ensures
        triple_within(key, bound),
{
    let file = counted_trigrams_occur(files, map_min_count, key);
    let runs = files[file];
    assert(runs_within(runs, bound));
    let (i, j) = gram_has_run::<Trigram>(runs, runs.len() as int, key);
    let run = runs[i];
    assert(triples(run)[j] == key);
    assert(runs[i][j] < bound && runs[i][j + 1] < bound && runs[i][j + 2] < bound);
    triples_round_trip(run[j], run[j + 1], run[j + 2]);
}

/// The runs of all files.
pub open spec fn corpus_runs(
    files: Seq<Seq<Seq<char>>>,
    tokenizer: vibrato::Tokenizer,
    ids: IdMapView,
    tokens: Seq<TokenView>,
    raw_to_vocab: Seq<u32>,
) -> Seq<Seq<Seq<u32>>> {
    Seq::new(
        files.len(),
        |i: int| sequence_runs(file_sequences(files[i], tokenizer, ids), tokens, raw_to_vocab),
    )
}

/// The counts of tokens as integers of 64 bits.
pub open spec fn narrow(counts: Seq<nat>) -> Seq<u64> {
    Seq::new(counts.len(), |i: int| counts[i] as u64)
}

/// How often pairs and triples of tokens of the vocabulary come, in no order, and the numbers of
/// all tokens, pairs and triples. How often the tokens themselves come stands in the vocabulary.
pub struct OrderCounts {
    pub bigram: Vec<(u64, u64)>,
    pub trigram: Vec<(u128, u64)>,
    pub unigram_total: u64,
    pub bigram_total: u64,
    pub trigram_total: u64,
}

/// What is counted in a corpus, and for each of its files the lines of token numbers.
pub struct CountedCorpus {
    pub vocabulary: Vocabulary,
    pub counts: OrderCounts,
    pub stats: CorpusStats,
    pub raw_unique_tokens: u64,
    pub token_files: Vec<String>,
}

/// The counts are those of a corpus.
pub open spec fn are_order_counts(
    counts: OrderCounts,
    recount: RecountView,
    valid_tokens: nat,
) -> bool {
    &&& lists_counts(counts.bigram@, recount.bigrams)
    &&& lists_counts(counts.trigram@, recount.trigrams)
    &&& counts.unigram_total == valid_tokens
    &&& counts.bigram_total == recount.bigram_total
    &&& counts.trigram_total == recount.trigram_total
}

/// The vocabulary, the counts and the lines are those of the corpus.
pub open spec fn is_counted(
    counted: CountedCorpus,
    files: Seq<Seq<Seq<char>>>,
    tokenizer: vibrato::Tokenizer,
    ids: IdMapView,
    unigram_min_count: u64,
    map_min_count: u32,
) -> bool {
    let corpus = corpus_of(files, tokenizer, ids, files.len() as int);
    let tokens = corpus.known.tokens;
    &&& is_vocabulary(
        counted.vocabulary,
        tokens,
        narrow(corpus.known.counts),
        unigram_min_count,
    )
    &&& are_order_counts(
        counted.counts,
        corpus_counts(
            corpus_runs(files, tokenizer, ids, tokens, counted.vocabulary.raw_to_vocab@),
            map_min_count,
        ),
        corpus.valid_tokens,
    )
    &&& counted.stats.documents == corpus.documents
    &&& counted.stats.sentences == corpus.sentences
    &&& counted.stats.valid_tokens == corpus.valid_tokens
    &&& counted.raw_unique_tokens == tokens.len()
    &&& counted.token_files@.len() == files.len()
    &&& forall|i: int|
        0 <= i < files.len() ==> (#[trigger] counted.token_files@[i])@ == token_lines(
            file_sequences(files[i], tokenizer, ids),
            tokens,
        )
}

/// Pairs and triples are of the vocabulary.
pub open spec fn counts_within(counts: OrderCounts, length: nat) -> bool {
    &&& forall|i: int|
        0 <= i < counts.bigram@.len() ==> pair_within((#[trigger] counts.bigram@[i]).0, length)
    &&& forall|i: int|
        0 <= i < counts.trigram@.len() ==> triple_within(
            (#[trigger] counts.trigram@[i]).0,
            length,
        )
}

/// Why a corpus cannot be counted.
#[derive(Clone, Copy, Debug, PartialEq, Eq, Structural)]
pub enum CountFault {
    /// The numbers of tokens do not fit in 32 bits, or a count not in 64.
    Overflow,
    /// The vocabulary is too large for numbers of 32 bits.
    VocabularySize,
}

impl CountFault {
    /// The fault in words.
    pub open spec fn text(self) -> Seq<char> {
        match self {
            CountFault::Overflow => "raw token ID overflow"@,
            CountFault::VocabularySize => "vocabulary exceeds u32 IDs"@,
        }
    }

    /// Says the fault in words.
    pub fn message(self) -> (message: &'static str)
        ensures
            message@ == self.text(),
    {
        match self {
            CountFault::Overflow => "raw token ID overflow",
            CountFault::VocabularySize => "vocabulary exceeds u32 IDs",
        }
    }
}

/// The n-grams of a corpus are no more than its tokens.
proof fn grams_within_tokens<G: Gram>(
    files: Seq<Seq<Seq<char>>>,
    tokenizer: vibrato::Tokenizer,
    ids: IdMapView,
    raw_to_vocab: Seq<u32>,
    bound: nat,
    count: int,
)
    requires
        0 <= count <= files.len(),
        raw_to_vocab.len() == corpus_of(
            files,
            tokenizer,
            ids,
            files.len() as int,
        ).known.tokens.len(),
        are_vocab_ids(raw_to_vocab, bound),
    ensures
        total_grams::<G>(
            corpus_runs(
                files,
                tokenizer,
                ids,
                corpus_of(files, tokenizer, ids, files.len() as int).known.tokens,
                raw_to_vocab,
            ),
            count,
        ) <= corpus_of(files, tokenizer, ids, count).valid_tokens,
    decreases count,
{
    if count > 0 {
        let tokens = corpus_of(files, tokenizer, ids, files.len() as int).known.tokens;
        let sequences = file_sequences(files[count - 1], tokenizer, ids);
        let runs = sequence_runs(sequences, tokens, raw_to_vocab);
        grams_within_tokens::<G>(files, tokenizer, ids, raw_to_vocab, bound, count - 1);
        corpus_knows(files, tokenizer, ids, files.len() as int, count - 1);
        sequence_runs_hold_ids(sequences, tokens, raw_to_vocab, bound);
        grams_within_total::<G>(runs, runs.len() as int);
        assert(runs.take(runs.len() as int) =~= runs);
    }
}

/// The runs of each file hold numbers of the vocabulary.
proof fn corpus_runs_within(
    files: Seq<Seq<Seq<char>>>,
    tokenizer: vibrato::Tokenizer,
    ids: IdMapView,
    raw_to_vocab: Seq<u32>,
    bound: nat,
)
    requires
        raw_to_vocab.len() == corpus_of(
            files,
            tokenizer,
            ids,
            files.len() as int,
        ).known.tokens.len(),
        are_vocab_ids(raw_to_vocab, bound),
    ensures
        forall|i: int|
            0 <= i < files.len() ==> runs_within(
                #[trigger] corpus_runs(
                    files,
                    tokenizer,
                    ids,
                    corpus_of(files, tokenizer, ids, files.len() as int).known.tokens,
                    raw_to_vocab,
                )[i],
                bound,
            ),
{
    let tokens = corpus_of(files, tokenizer, ids, files.len() as int).known.tokens;
    let runs = corpus_runs(files, tokenizer, ids, tokens, raw_to_vocab);
    assert forall|i: int| 0 <= i < files.len() implies runs_within(#[trigger] runs[i], bound) by {
        corpus_knows(files, tokenizer, ids, files.len() as int, i);
        sequence_runs_hold_ids(
            file_sequences(files[i], tokenizer, ids),
            tokens,
            raw_to_vocab,
            bound,
        );
    }
}

/// Counts the tokens of a corpus, and the pairs and triples of its frequent tokens.
pub fn count_ngrams(
    files: &[Vec<String>],
    builder: &TokenSequenceBuilder<'_>,
    unigram_min_count: u64,
    map_min_count: u32,
) -> (result: Result<CountedCorpus, CountFault>)
    requires
        can_be_tokenized(record_views(files@), builder.spec_tokenizer()),
    ensures
        match result {
            Ok(counted) => is_counted(
                counted,
                record_views(files@),
                builder.spec_tokenizer(),
                builder.spec_ids(),
                unigram_min_count,
                map_min_count,
            ) && counts_within(counted.counts, counted.vocabulary.tokens@.len()),
            Err(CountFault::Overflow) => !fits(
                corpus_of(
                    record_views(files@),
                    builder.spec_tokenizer(),
                    builder.spec_ids(),
                    files@.len() as int,
                ),
            ),
            Err(CountFault::VocabularySize) => frequent_count(
                narrow(
                    corpus_of(
                        record_views(files@),
                        builder.spec_tokenizer(),
                        builder.spec_ids(),
                        files@.len() as int,
                    ).known.counts,
                ),
                unigram_min_count,
                corpus_of(
                    record_views(files@),
                    builder.spec_tokenizer(),
                    builder.spec_ids(),
                    files@.len() as int,
                ).known.tokens.len() as int,
            ) > u32::MAX,
        },
{
    let ghost all = record_views(files@);
    let ghost tokenizer = builder.spec_tokenizer();
    let ghost ids = builder.spec_ids();
    let ghost whole = corpus_of(all, tokenizer, ids, files@.len() as int);
    let ghost tokens = whole.known.tokens;
    let (corpus, token_files) = match tokenize_corpus(files, builder) {
        Some(tokenized) => tokenized,
        None => {
            return Err(CountFault::Overflow);
        },
    };
    proof {
        corpus.tokens_are_distinct();
    }
    let stats = corpus.stats();
    let (raw_tokens, raw_counts) = corpus.into_parts();
    let raw_unique_tokens = raw_tokens.len() as u64;
    assert(views(raw_tokens@).len() == tokens.len());
    assert(raw_counts@ =~= narrow(whole.known.counts));
    let vocabulary = match make_vocabulary(&raw_tokens, &raw_counts, unigram_min_count) {
        Some(vocabulary) => vocabulary,
        None => {
            return Err(CountFault::VocabularySize);
        },
    };
    let ghost raw_to_vocab = vocabulary.raw_to_vocab@;
    let ghost bound = vocabulary.tokens@.len();
    proof {
        vocabulary_ids(vocabulary, tokens, raw_counts@, unigram_min_count);
    }
    let runs = scan_files(
        &token_files,
        &vocabulary.raw_to_vocab,
        Ghost(all),
        Ghost(tokenizer),
        Ghost(ids),
    );
    let ghost found = corpus_runs(all, tokenizer, ids, tokens, raw_to_vocab);
    proof {
        grams_within_tokens::<Bigram>(all, tokenizer, ids, raw_to_vocab, bound, all.len() as int);
        grams_within_tokens::<Trigram>(all, tokenizer, ids, raw_to_vocab, bound, all.len() as int);
        corpus_runs_within(all, tokenizer, ids, raw_to_vocab, bound);
        assert(runs@.len() == file_views(runs@).len());
    }
    let recount = count_corpus(&runs, map_min_count);
    let bigram = recount.bigram_counts();
    let trigram = recount.trigram_counts();
    let (bigram_total, trigram_total) = recount.totals();
    let counts = OrderCounts {
        bigram,
        trigram,
        unigram_total: stats.valid_tokens,
        bigram_total,
        trigram_total,
    };
    proof {
        assert forall|i: int| 0 <= i < counts.bigram@.len() implies pair_within(
            (#[trigger] counts.bigram@[i]).0,
            bound,
        ) by {
            counted_pairs_within(found, map_min_count, bound, counts.bigram@[i].0);
        }
        assert forall|i: int| 0 <= i < counts.trigram@.len() implies triple_within(
            (#[trigger] counts.trigram@[i]).0,
            bound,
        ) by {
            counted_triples_within(found, map_min_count, bound, counts.trigram@[i].0);
        }
    }
    Ok(CountedCorpus { vocabulary, counts, stats, raw_unique_tokens, token_files })
}

proof fn vocabulary_ids(
    vocabulary: Vocabulary,
    tokens: Seq<TokenView>,
    raw_counts: Seq<u64>,
    min_count: u64,
)
    requires
        is_vocabulary(vocabulary, tokens, raw_counts, min_count),
    ensures
        vocabulary.raw_to_vocab@.len() == tokens.len(),
        are_vocab_ids(vocabulary.raw_to_vocab@, vocabulary.tokens@.len()),
{
    let ids = vocabulary.raw_to_vocab@;
    assert forall|i: int| 0 <= i < ids.len() implies (#[trigger] ids[i]) == MISSING_VOCAB_ID
        || ids[i] < vocabulary.tokens@.len() by {
        if raw_counts[i] >= min_count {
            assert(stands_in(vocabulary, tokens, raw_counts, i));
        }
    }
}

/// Reads the lines of all files back as runs.
fn scan_files(
    token_files: &[String],
    raw_to_vocab: &[u32],
    Ghost(files): Ghost<Seq<Seq<Seq<char>>>>,
    Ghost(tokenizer): Ghost<vibrato::Tokenizer>,
    Ghost(ids): Ghost<IdMapView>,
) -> (runs: Vec<Vec<Vec<u32>>>)
    requires
        token_files@.len() == files.len(),
        raw_to_vocab@.len() == corpus_of(
            files,
            tokenizer,
            ids,
            files.len() as int,
        ).known.tokens.len(),
        forall|i: int|
            0 <= i < files.len() ==> (#[trigger] token_files@[i])@ == token_lines(
                file_sequences(files[i], tokenizer, ids),
                corpus_of(files, tokenizer, ids, files.len() as int).known.tokens,
            ),
    ensures
        file_views(runs@) == corpus_runs(
            files,
            tokenizer,
            ids,
            corpus_of(files, tokenizer, ids, files.len() as int).known.tokens,
            raw_to_vocab@,
        ),
{
    let ghost tokens = corpus_of(files, tokenizer, ids, files.len() as int).known.tokens;
    let ghost all = corpus_runs(files, tokenizer, ids, tokens, raw_to_vocab@);
    let length = raw_to_vocab.len();
    let mut runs: Vec<Vec<Vec<u32>>> = Vec::new();
    let mut i: usize = 0;
    assert(file_views(runs@) =~= all.take(0));
    while i < token_files.len()
        invariant
            tokens == corpus_of(files, tokenizer, ids, files.len() as int).known.tokens,
            all == corpus_runs(files, tokenizer, ids, tokens, raw_to_vocab@),
            token_files@.len() == files.len(),
            raw_to_vocab@.len() == tokens.len(),
            length == raw_to_vocab@.len(),
            forall|i: int|
                0 <= i < files.len() ==> (#[trigger] token_files@[i])@ == token_lines(
                    file_sequences(files[i], tokenizer, ids),
                    tokens,
                ),
            i <= token_files@.len(),
            file_views(runs@) == all.take(i as int),
        decreases token_files@.len() - i,
    {
        proof {
            corpus_knows(files, tokenizer, ids, files.len() as int, i as int);
            files_read_back(
                file_sequences(files[i as int], tokenizer, ids),
                tokens,
                raw_to_vocab@,
            );
        }
        if let Ok(file_runs) = scan_tokens(token_files[i].as_str(), raw_to_vocab) {
            let ghost before = runs@;
            runs.push(file_runs);
            assert(file_views(runs@) =~= file_views(before).push(run_views(file_runs@)));
            assert(all.take(i + 1) =~= all.take(i as int).push(all[i as int]));
        }
        i += 1;
    }
    assert(all.take(i as int) =~= all);
    runs
}

/// The level at which the lines of numbers are compressed.
pub const TOKEN_FILE_LEVEL: i32 = 6;

/// The name of the file that holds the lines of an input.
pub open spec fn token_file_name(index: nat) -> Seq<char> {
    "tokens-"@ + zero_padded(decimal_of(index), 5) + ".txt.zst"@
}

/// Makes the file that holds the lines of an input. Nothing exactly where the compressor makes no
/// frame of them.
pub fn token_file(index: usize, text: &str) -> (file: (String, Option<Vec<u8>>))
    ensures
        file.0@ == token_file_name(index as nat),
        ({
            let bytes = vstd::utf8::encode_utf8(text@);
            match file.1 {
                Some(frame) => zstd_frame(bytes, TOKEN_FILE_LEVEL as int) == Some(frame@)
                    && zstd_contents(frame@) == Some(bytes),
                None => zstd_frame(bytes, TOKEN_FILE_LEVEL as int) is None,
            }
        }),
{
    let mut name = "tokens-".to_owned();
    name.append(padded_decimal(index as u64, 5).as_str());
    name.append(".txt.zst");
    (name, compress(text.as_bytes(), TOKEN_FILE_LEVEL))
}

} // verus!
