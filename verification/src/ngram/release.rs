//! A release of the n-gram dictionaries: their rows and the files beside them.

use crate::id_def::IdDefError;
use crate::mozc::{MozcRow, RowView};
use crate::ngram::corpus::fits;
use crate::ngram::counts::{lists_counts, Bigram, Trigram};
use crate::ngram::exactness::{
    corpus_counts, discovers_all, frequent_bigrams_are_exact, frequent_trigrams_are_exact,
    total_occurrences,
};
use crate::ngram::id_map::{best_id, entries_on, generic_noun, is_map_error, IdMapView, MozcIdMap};
use crate::ngram::options::{check_options, option_fault, BuildOptions, OptionFault, PresentFiles};
use crate::ngram::pipeline::{
    can_be_tokenized, corpus_of, count_ngrams, counts_within, is_counted, narrow, record_views,
    CountFault, CountedCorpus, OrderCounts,
};
use crate::ngram::rows::{
    bigram_rows, frequent_keys, is_frequent_list, keys_are_distinct, pair_rows, price_rows, priced,
    token_rows, trigram_rows, triple_rows, unigram_rows, CountedRow, CountedRowView,
};
use crate::ngram::tokenizer::TokenSequenceBuilder;
use crate::ngram::tokens::TokenView;
use crate::ngram::vocabulary::{frequent_count, Vocabulary};
use crate::output::{
    can_be_packed, is_file, is_shard_file, json_file, json_name, output_file, shard_count,
    shard_files, OutputFile,
};
use crate::text::{bytes_of, decimal, decimal_of, lines_of};
use crate::views::views;
use vstd::prelude::*;

verus! {

/// The rows of the three dictionaries, without costs.
pub struct ReleaseRows {
    pub unigrams: Vec<CountedRow>,
    pub bigrams: Vec<CountedRow>,
    pub trigrams: Vec<CountedRow>,
}

/// The rows are those of the pairs with at least `min_count`, by rising keys.
pub open spec fn are_pair_rows(
    rows: Seq<CountedRowView>,
    vocabulary: Seq<TokenView>,
    counts: Seq<(u64, u64)>,
    min_count: u64,
) -> bool {
    exists|list: Seq<(u64, u64)>|
        is_frequent_list(list, counts, min_count) && rows == #[trigger] pair_rows(vocabulary, list)
}

/// The rows are those of the triples with at least `min_count`, by rising keys.
pub open spec fn are_triple_rows(
    rows: Seq<CountedRowView>,
    vocabulary: Seq<TokenView>,
    counts: Seq<(u128, u64)>,
    min_count: u64,
) -> bool {
    exists|list: Seq<(u128, u64)>|
        is_frequent_list(list, counts, min_count) && rows == #[trigger] triple_rows(
            vocabulary,
            list,
        )
}

/// The rows are those of the frequent tokens, pairs and triples.
pub open spec fn are_release_rows(
    rows: ReleaseRows,
    vocabulary: Vocabulary,
    counts: OrderCounts,
    unigram_min_count: u64,
    ngram_min_count: u64,
) -> bool {
    let tokens = views(vocabulary.tokens@);
    &&& views(rows.unigrams@) == token_rows(
        tokens,
        vocabulary.counts@,
        unigram_min_count,
        tokens.len() as int,
    )
    &&& are_pair_rows(views(rows.bigrams@), tokens, counts.bigram@, ngram_min_count)
    &&& are_triple_rows(views(rows.trigrams@), tokens, counts.trigram@, ngram_min_count)
}

/// Makes the rows of the frequent tokens, pairs and triples.
pub fn release_rows(
    vocabulary: &Vocabulary,
    counts: &OrderCounts,
    unigram_min_count: u64,
    ngram_min_count: u64,
) -> (rows: ReleaseRows)
    requires
        vocabulary.tokens@.len() <= vocabulary.counts@.len(),
        keys_are_distinct(counts.bigram@),
        keys_are_distinct(counts.trigram@),
        counts_within(*counts, vocabulary.tokens@.len()),
    ensures
        are_release_rows(rows, *vocabulary, *counts, unigram_min_count, ngram_min_count),
{
    let unigrams = unigram_rows(&vocabulary.tokens, &vocabulary.counts, unigram_min_count);
    let pairs = frequent_keys(&counts.bigram, ngram_min_count);
    proof {
        assert forall|i: int| 0 <= i < pairs@.len() implies crate::ngram::rows::pair_within(
            (#[trigger] pairs@[i]).0,
            vocabulary.tokens@.len(),
        ) by {
            assert(counts.bigram@.contains(pairs@[i]));
            let place = counts.bigram@.index_of(pairs@[i]);
            assert(counts.bigram@[place] == pairs@[i]);
        }
    }
    let bigrams = bigram_rows(&vocabulary.tokens, &pairs);
    let triples = frequent_keys(&counts.trigram, ngram_min_count);
    proof {
        assert forall|i: int| 0 <= i < triples@.len() implies crate::ngram::rows::triple_within(
            (#[trigger] triples@[i]).0,
            vocabulary.tokens@.len(),
        ) by {
            assert(counts.trigram@.contains(triples@[i]));
            let place = counts.trigram@.index_of(triples@[i]);
            assert(counts.trigram@[place] == triples@[i]);
        }
    }
    let trigrams = trigram_rows(&vocabulary.tokens, &triples);
    ReleaseRows { unigrams, bigrams, trigrams }
}

/// The context IDs of an `id.def`.
pub open spec fn is_id_map(ids: IdMapView, lines: Seq<Seq<char>>) -> bool {
    match entries_on(lines) {
        Ok(entries) => {
            &&& entries == ids.entries
            &&& entries.len() > 0
            &&& best_id(entries, generic_noun()) == Some(ids.generic_noun_id)
        },
        Err(_) => false,
    }
}

/// The corpus that the options count, and the rows that are made of it.
pub struct NgramBuild {
    pub counted: CountedCorpus,
    pub rows: ReleaseRows,
}

/// Why no dictionaries can be made.
#[derive(Debug)]
pub enum BuildError {
    Options(OptionFault),
    IdDef(IdDefError),
    Count(CountFault),
}

/// Counts a corpus, given by the texts of the records of each input, and makes the rows of the
/// dictionaries.
pub fn build(
    options: &BuildOptions,
    present: &PresentFiles,
    scale_is_valid: bool,
    id_def: &str,
    tokenizer: &vibrato::Tokenizer,
    files: &[Vec<String>],
) -> (result: Result<NgramBuild, BuildError>)
    requires
        options.inputs@.len() == files@.len(),
        can_be_tokenized(record_views(files@), *tokenizer),
    ensures
        match result {
            Ok(built) => {
                &&& option_fault(*options, *present, scale_is_valid) is None
                &&& discovers_all(files@.len(), options.ngram_min_count, options.map_min_count)
                &&& exists|ids: IdMapView| #[trigger]
                    is_id_map(ids, lines_of(id_def@)) && is_counted(
                        built.counted,
                        record_views(files@),
                        *tokenizer,
                        ids,
                        options.unigram_min_count,
                        options.map_min_count,
                    )
                &&& are_release_rows(
                    built.rows,
                    built.counted.vocabulary,
                    built.counted.counts,
                    options.unigram_min_count,
                    options.ngram_min_count,
                )
            },
            Err(BuildError::Options(fault)) => option_fault(*options, *present, scale_is_valid)
                == Some(fault),
            Err(BuildError::IdDef(error)) => {
                &&& option_fault(*options, *present, scale_is_valid) is None
                &&& is_map_error(error, lines_of(id_def@))
            },
            Err(BuildError::Count(fault)) => {
                &&& option_fault(*options, *present, scale_is_valid) is None
                &&& exists|ids: IdMapView| #[trigger]
                    is_id_map(ids, lines_of(id_def@)) && match fault {
                        CountFault::Overflow => !fits(
                            corpus_of(
                                record_views(files@),
                                *tokenizer,
                                ids,
                                files@.len() as int,
                            ),
                        ),
                        CountFault::VocabularySize => frequent_count(
                            narrow(
                                corpus_of(
                                    record_views(files@),
                                    *tokenizer,
                                    ids,
                                    files@.len() as int,
                                ).known.counts,
                            ),
                            options.unigram_min_count,
                            corpus_of(
                                record_views(files@),
                                *tokenizer,
                                ids,
                                files@.len() as int,
                            ).known.tokens.len() as int,
                        ) > u32::MAX,
                    }
            },
        },
{
    match check_options(options, present, scale_is_valid) {
        Ok(()) => {},
        Err(fault) => {
            return Err(BuildError::Options(fault));
        },
    }
    let id_map = match MozcIdMap::load(id_def) {
        Ok(id_map) => id_map,
        Err(error) => {
            return Err(BuildError::IdDef(error));
        },
    };
    assert(is_id_map(id_map@, lines_of(id_def@)));
    let builder = TokenSequenceBuilder::new(tokenizer, &id_map);
    let counted = match count_ngrams(
        files,
        &builder,
        options.unigram_min_count,
        options.map_min_count,
    ) {
        Ok(counted) => counted,
        Err(fault) => {
            return Err(BuildError::Count(fault));
        },
    };
    let rows = release_rows(
        &counted.vocabulary,
        &counted.counts,
        options.unigram_min_count,
        options.ngram_min_count,
    );
    Ok(NgramBuild { counted, rows })
}

/// The dictionary of pairs is exact: it has a row for each pair of vocabulary tokens that comes
/// at least `ngram_min_count` times in the corpus, with the number of times that it comes, and no
/// others.
pub proof fn released_bigrams_are_exact(
    list: Seq<(u64, u64)>,
    counts: OrderCounts,
    files: Seq<Seq<Seq<u32>>>,
    ngram_min_count: u64,
    map_min_count: u32,
    key: u64,
)
    requires
        discovers_all(files.len(), ngram_min_count, map_min_count),
        lists_counts(counts.bigram@, corpus_counts(files, map_min_count).bigrams),
        is_frequent_list(list, counts.bigram@, ngram_min_count),
    ensures
        forall|i: int|
            0 <= i < list.len() && (#[trigger] list[i]).0 == key ==> list[i].1
                == total_occurrences::<Bigram>(files, key, files.len() as int),
        (exists|i: int| 0 <= i < list.len() && (#[trigger] list[i]).0 == key)
            <==> total_occurrences::<Bigram>(files, key, files.len() as int) >= ngram_min_count,
{
    let recount = corpus_counts(files, map_min_count).bigrams;
    let given = counts.bigram@;
    frequent_bigrams_are_exact(files, ngram_min_count, map_min_count, key);
    assert forall|i: int| 0 <= i < list.len() && (#[trigger] list[i]).0 == key implies list[i].1
        == total_occurrences::<Bigram>(files, key, files.len() as int) by {
        assert(given.contains(list[i]));
        let place = given.index_of(list[i]);
        assert(given[place] == list[i]);
    }
    if total_occurrences::<Bigram>(files, key, files.len() as int) >= ngram_min_count {
        let pair = (key, recount[key] as u64);
        assert(recount.contains_key(key));
        assert(given.contains(pair));
        let place = given.index_of(pair);
        assert(given[place] == pair);
        assert(list.contains(given[place]));
        let found = list.index_of(pair);
        assert(list[found].0 == key);
    }
}

/// The dictionary of triples is exact, as that of pairs is.
pub proof fn released_trigrams_are_exact(
    list: Seq<(u128, u64)>,
    counts: OrderCounts,
    files: Seq<Seq<Seq<u32>>>,
    ngram_min_count: u64,
    map_min_count: u32,
    key: u128,
)
    requires
        discovers_all(files.len(), ngram_min_count, map_min_count),
        lists_counts(counts.trigram@, corpus_counts(files, map_min_count).trigrams),
        is_frequent_list(list, counts.trigram@, ngram_min_count),
    ensures
        forall|i: int|
            0 <= i < list.len() && (#[trigger] list[i]).0 == key ==> list[i].1
                == total_occurrences::<Trigram>(files, key, files.len() as int),
        (exists|i: int| 0 <= i < list.len() && (#[trigger] list[i]).0 == key)
            <==> total_occurrences::<Trigram>(files, key, files.len() as int) >= ngram_min_count,
{
    let recount = corpus_counts(files, map_min_count).trigrams;
    let given = counts.trigram@;
    frequent_trigrams_are_exact(files, ngram_min_count, map_min_count, key);
    assert forall|i: int| 0 <= i < list.len() && (#[trigger] list[i]).0 == key implies list[i].1
        == total_occurrences::<Trigram>(files, key, files.len() as int) by {
        assert(given.contains(list[i]));
        let place = given.index_of(list[i]);
        assert(given[place] == list[i]);
    }
    if total_occurrences::<Trigram>(files, key, files.len() as int) >= ngram_min_count {
        let triple = (key, recount[key] as u64);
        assert(recount.contains_key(key));
        assert(given.contains(triple));
        let place = given.index_of(triple);
        assert(given[place] == triple);
        assert(list.contains(given[place]));
        let found = list.index_of(triple);
        assert(list[found].0 == key);
    }
}

/// The name of an order.
pub open spec fn order_text(order: u8) -> Seq<char> {
    if order == 1 {
        "unigram"@
    } else if order == 2 {
        "bigram"@
    } else if order == 3 {
        "trigram"@
    } else {
        "ngram"@
    }
}

/// The name of an order.
pub fn order_name(order: u8) -> (name: &'static str)
    ensures
        name@ == order_text(order),
{
    match order {
        1 => "unigram",
        2 => "bigram",
        3 => "trigram",
        _ => "ngram",
    }
}

/// What the names of the shards of an order begin with.
pub fn shard_prefix(order: u8) -> (prefix: String)
    ensures
        prefix@ == "mozc-"@ + order_text(order),
{
    let mut prefix = "mozc-".to_owned();
    prefix.append(order_name(order));
    prefix
}

/// The contents of files of others that are copied to the release.
pub struct ThirdPartyFiles {
    pub mozc_id_def: Vec<u8>,
    pub mozc_license: Vec<u8>,
    pub ipadic_copying: Vec<u8>,
    pub ipadic_notice: Vec<u8>,
}

/// The rows of the three dictionaries.
pub struct PricedRows {
    pub unigrams: Vec<MozcRow>,
    pub bigrams: Vec<MozcRow>,
    pub trigrams: Vec<MozcRow>,
}

/// The numbers that the costs of the rows follow from: for each row the negative logarithm of its
/// count by the total of its order, scaled and rounded.
pub struct ScaledCosts {
    pub unigrams: Vec<i64>,
    pub bigrams: Vec<i64>,
    pub trigrams: Vec<i64>,
}

/// The rows have their costs.
pub open spec fn are_priced(
    priced_rows: Seq<MozcRow>,
    rows: Seq<CountedRow>,
    total: u64,
    scaled: Seq<i64>,
) -> bool {
    &&& priced_rows.len() == rows.len()
    &&& forall|i: int|
        0 <= i < rows.len() ==> (#[trigger] priced_rows[i])@ == priced(
            rows[i]@,
            total as nat,
            scaled[i] as int,
        )
}

/// The rows of each of the three dictionaries have their costs, by the total of its order.
pub open spec fn are_release_prices(
    result: PricedRows,
    rows: ReleaseRows,
    counts: OrderCounts,
    scaled: ScaledCosts,
) -> bool {
    &&& are_priced(result.unigrams@, rows.unigrams@, counts.unigram_total, scaled.unigrams@)
    &&& are_priced(result.bigrams@, rows.bigrams@, counts.bigram_total, scaled.bigrams@)
    &&& are_priced(result.trigrams@, rows.trigrams@, counts.trigram_total, scaled.trigrams@)
}

/// Gives the rows of the three dictionaries their costs.
pub fn price_release(rows: ReleaseRows, counts: &OrderCounts, scaled: &ScaledCosts) -> (result:
    PricedRows)
    requires
        rows.unigrams@.len() == scaled.unigrams@.len(),
        rows.bigrams@.len() == scaled.bigrams@.len(),
        rows.trigrams@.len() == scaled.trigrams@.len(),
    ensures
        are_priced(
            result.unigrams@,
            rows.unigrams@,
            counts.unigram_total,
            scaled.unigrams@,
        ),
        are_priced(result.bigrams@, rows.bigrams@, counts.bigram_total, scaled.bigrams@),
        are_priced(result.trigrams@, rows.trigrams@, counts.trigram_total, scaled.trigrams@),
        are_release_prices(result, rows, *counts, *scaled),
{
    PricedRows {
        unigrams: price_rows(rows.unigrams, counts.unigram_total, &scaled.unigrams),
        bigrams: price_rows(rows.bigrams, counts.bigram_total, &scaled.bigrams),
        trigrams: price_rows(rows.trigrams, counts.trigram_total, &scaled.trigrams),
    }
}

/// The files from `start` on are the shards of an order.
pub open spec fn are_shards(
    files: Seq<OutputFile>,
    start: int,
    order: u8,
    rows: Seq<RowView>,
    size: nat,
) -> bool {
    forall|part: int|
        0 <= part < shard_count(rows.len(), size) ==> #[trigger] is_shard_of(
            files,
            start,
            order,
            rows,
            size,
            part,
        )
}

/// A file is a shard of an order.
pub open spec fn is_shard_of(
    files: Seq<OutputFile>,
    start: int,
    order: u8,
    rows: Seq<RowView>,
    size: nat,
    part: int,
) -> bool {
    is_shard_file(
        files[start + part],
        "mozc-"@ + order_text(order),
        ""@,
        Some(order),
        rows,
        size,
        part as nat,
    )
}

/// The files of a release: the shards of the three orders, the files of others, and a
/// description.
pub open spec fn are_release_files(
    files: Seq<OutputFile>,
    rows: PricedRows,
    third_party: ThirdPartyFiles,
    readme: Seq<char>,
    size: nat,
) -> bool {
    let first = shard_count(rows.unigrams@.len(), size) as int;
    let second = first + shard_count(rows.bigrams@.len(), size);
    let third = second + shard_count(rows.trigrams@.len(), size);
    &&& files.len() == third + 5
    &&& are_shards(files, 0, 1, views(rows.unigrams@), size)
    &&& are_shards(files, first, 2, views(rows.bigrams@), size)
    &&& are_shards(files, second, 3, views(rows.trigrams@), size)
    &&& is_file(files[third], "mozc-id.def"@, ""@, third_party.mozc_id_def@)
    &&& is_file(files[third + 1], "MOZC-LICENSE"@, ""@, third_party.mozc_license@)
    &&& is_file(files[third + 2], "IPADIC-COPYING"@, ""@, third_party.ipadic_copying@)
    &&& is_file(files[third + 3], "IPADIC-NOTICE"@, ""@, third_party.ipadic_notice@)
    &&& is_file(
        files[third + 4],
        "MOZC-DICTIONARY-README.md"@,
        ""@,
        vstd::utf8::encode_utf8(readme),
    )
}

/// Adds the shards of an order. Nothing exactly where the compressor makes no frame of one.
fn add_shards(files: &mut Vec<OutputFile>, order: u8, rows: &[MozcRow], size: usize) -> (result:
    Option<()>)
    requires
        size > 0,
    ensures
        result is Some <==> can_be_packed(views(rows@), size as nat),
        rows@.len() == 0 ==> result is Some,
        result is Some ==> final(files)@.len() == old(files)@.len() + shard_count(
            rows@.len(),
            size as nat,
        ),
        result is Some ==> forall|i: int|
            0 <= i < old(files)@.len() ==> #[trigger] final(files)@[i] == old(files)@[i],
        result is Some ==> are_shards(
            final(files)@,
            old(files)@.len() as int,
            order,
            views(rows@),
            size as nat,
        ),
{
    let prefix = shard_prefix(order);
    let mut shards = match shard_files(prefix.as_str(), "", Some(order), rows, size) {
        Some(shards) => shards,
        None => {
            return None;
        },
    };
    let ghost added = shards@;
    let ghost start = files@.len() as int;
    files.append(&mut shards);
    proof {
        assert forall|part: int|
            0 <= part < shard_count(views(rows@).len(), size as nat) implies #[trigger] is_shard_of(
            files@,
            start,
            order,
            views(rows@),
            size as nat,
            part,
        ) by {
            assert(files@[start + part] == added[part]);
        }
    }
    Some(())
}

/// Shards stay where they are when files are added behind them.
proof fn shards_stay(
    before: Seq<OutputFile>,
    after: Seq<OutputFile>,
    start: int,
    order: u8,
    rows: Seq<RowView>,
    size: nat,
)
    requires
        0 <= start,
        start + shard_count(rows.len(), size) <= before.len() <= after.len(),
        forall|i: int| 0 <= i < before.len() ==> #[trigger] after[i] == before[i],
        are_shards(before, start, order, rows, size),
    ensures
        are_shards(after, start, order, rows, size),
{
    assert forall|part: int| 0 <= part < shard_count(rows.len(), size) implies #[trigger]
        is_shard_of(after, start, order, rows, size, part) by {
        assert(is_shard_of(before, start, order, rows, size, part));
        assert(after[start + part] == before[start + part]);
    }
}

/// Makes the files of a release, but for its manifest and the list of digests. Nothing exactly
/// where the compressor makes no frame of a shard.
pub fn write_release_files(
    rows: &PricedRows,
    third_party: ThirdPartyFiles,
    readme: &str,
    entries_per_shard: usize,
) -> (result: Option<Vec<OutputFile>>)
    requires
        entries_per_shard > 0,
    ensures
        result is Some <==> {
            &&& can_be_packed(views(rows.unigrams@), entries_per_shard as nat)
            &&& can_be_packed(views(rows.bigrams@), entries_per_shard as nat)
            &&& can_be_packed(views(rows.trigrams@), entries_per_shard as nat)
        },
        rows.unigrams@.len() == 0 && rows.bigrams@.len() == 0 && rows.trigrams@.len() == 0
            ==> result is Some,
        result matches Some(files) ==> are_release_files(
            files@,
            *rows,
            third_party,
            readme@,
            entries_per_shard as nat,
        ),
{
    let mut files: Vec<OutputFile> = Vec::new();
    if add_shards(&mut files, 1, &rows.unigrams, entries_per_shard).is_none() {
        return None;
    }
    let ghost one = files@;
    if add_shards(&mut files, 2, &rows.bigrams, entries_per_shard).is_none() {
        return None;
    }
    let ghost two = files@;
    if add_shards(&mut files, 3, &rows.trigrams, entries_per_shard).is_none() {
        return None;
    }
    let ghost three = files@;
    files.push(output_file("mozc-id.def", "", third_party.mozc_id_def));
    files.push(output_file("MOZC-LICENSE", "", third_party.mozc_license));
    files.push(output_file("IPADIC-COPYING", "", third_party.ipadic_copying));
    files.push(output_file("IPADIC-NOTICE", "", third_party.ipadic_notice));
    files.push(output_file("MOZC-DICTIONARY-README.md", "", bytes_of(readme)));
    proof {
        let size = entries_per_shard as nat;
        let all = files@;
        assert forall|i: int| 0 <= i < one.len() implies #[trigger] all[i] == one[i] by {
            assert(two[i] == one[i]);
            assert(three[i] == two[i]);
        }
        assert forall|i: int| 0 <= i < two.len() implies #[trigger] all[i] == two[i] by {
            assert(three[i] == two[i]);
        }
        shards_stay(one, all, 0, 1, views(rows.unigrams@), size);
        shards_stay(two, all, one.len() as int, 2, views(rows.bigrams@), size);
        shards_stay(three, all, two.len() as int, 3, views(rows.trigrams@), size);
    }
    Some(files)
}

/// What is recorded of an order.
#[derive(Clone, Copy, Debug, PartialEq, Eq, Structural)]
pub struct OrderMetadata {
    pub order: u8,
    pub total_observations: u64,
    pub retained_entries: u64,
}

/// What is recorded of the orders.
pub fn order_metadata(counts: &OrderCounts, rows: &ReleaseRows) -> (orders: Vec<OrderMetadata>)
    ensures
        orders@ == seq![
            (OrderMetadata {
                order: 1,
                total_observations: counts.unigram_total,
                retained_entries: rows.unigrams@.len() as u64,
            }),
            (OrderMetadata {
                order: 2,
                total_observations: counts.bigram_total,
                retained_entries: rows.bigrams@.len() as u64,
            }),
            (OrderMetadata {
                order: 3,
                total_observations: counts.trigram_total,
                retained_entries: rows.trigrams@.len() as u64,
            }),
        ],
{
    let mut orders: Vec<OrderMetadata> = Vec::new();
    orders.push(
        OrderMetadata {
            order: 1,
            total_observations: counts.unigram_total,
            retained_entries: rows.unigrams.len() as u64,
        },
    );
    orders.push(
        OrderMetadata {
            order: 2,
            total_observations: counts.bigram_total,
            retained_entries: rows.bigrams.len() as u64,
        },
    );
    orders.push(
        OrderMetadata {
            order: 3,
            total_observations: counts.trigram_total,
            retained_entries: rows.trigrams.len() as u64,
        },
    );
    assert(orders@ =~= seq![orders@[0], orders@[1], orders@[2]]);
    orders
}

/// Why the counts in the dictionaries are exact, in words.
pub open spec fn guarantee_text(assets: nat, ngram_min_count: nat, map_min_count: nat) -> Seq<
    char,
> {
    "All retained n-grams are recounted over all "@ + decimal_of(assets)
        + " assets. Candidate discovery is lossless at count >= "@ + decimal_of(ngram_min_count)
        + " because "@ + decimal_of(ngram_min_count) + " > "@ + decimal_of(assets) + " * ("@
        + decimal_of(map_min_count) + " - 1)."@
}

/// Says why the counts in the dictionaries are exact.
pub fn exact_count_guarantee(assets: usize, ngram_min_count: u64, map_min_count: u32) -> (text:
    String)
    ensures
        text@ == guarantee_text(assets as nat, ngram_min_count as nat, map_min_count as nat),
{
    let mut text = "All retained n-grams are recounted over all ".to_owned();
    text.append(decimal(assets as u128).as_str());
    text.append(" assets. Candidate discovery is lossless at count >= ");
    text.append(decimal(ngram_min_count as u128).as_str());
    text.append(" because ");
    text.append(decimal(ngram_min_count as u128).as_str());
    text.append(" > ");
    text.append(decimal(assets as u128).as_str());
    text.append(" * (");
    text.append(decimal(map_min_count as u128).as_str());
    text.append(" - 1).");
    text
}

/// The JSON file that describes a release, without its extension.
pub const MANIFEST_NAME: &'static str = "ngram-manifest";

/// The file of the digests of a release.
pub const CHECKSUMS_NAME: &'static str = "NGRAM-SHA256SUMS";

/// The description of the dictionaries up to the scale of costs.
pub const README_FORMAT: &'static str = "# Mozc-format n-gram dictionaries\n\n\
Each decompressed `mozc-*-NNNNN.txt.zst` file uses Mozc's five-column system\n\
dictionary source format:\n\n\
```text\n\
reading<TAB>left_id<TAB>right_id<TAB>cost<TAB>surface\n\
```\n\n\
Bigram and trigram rows are phrase entries: the adjacent token readings and\n\
surfaces are concatenated, the first token supplies `left_id`, and the last\n\
token supplies `right_id`. Context IDs correspond to the included\n\
`mozc-id.def`. Costs are `-ln(count / observations) * ";

/// The description between the scale of costs and the threshold of unigrams.
pub const README_COSTS: &'static str = "` rounded and\n\
clamped to Mozc's positive 16-bit range.\n\n\
The complete corpus is scanned. Unigrams require count >= ";

/// The description between the two thresholds.
pub const README_THRESHOLDS: &'static str = ";\n\
bigrams and trigrams require count >= ";

/// The description between the thresholds and the name of the file that describes the release.
pub const README_RECOUNT: &'static str = ". Candidate n-grams are\n\
recounted exactly over every input asset before filtering. See\n\
`";

/// The description behind that name.
pub const README_SOURCES: &'static str = "` for source versions, totals, parameters, and checksums.\n\n\
These files are system dictionary *source* files, not Mozc user-dictionary\n\
four-column exports. They can be supplied to Mozc's dictionary build tooling\n\
alongside the matching `id.def`.\n";

/// The description of the dictionaries, with the scale of costs as it is shown.
pub fn dictionary_readme(unigram_min: u64, ngram_min: u64, cost_scale: &str) -> (text: String)
    ensures
        text@ == README_FORMAT@ + cost_scale@ + README_COSTS@ + decimal_of(unigram_min as nat)
            + README_THRESHOLDS@ + decimal_of(ngram_min as nat) + README_RECOUNT@ + json_file(
            MANIFEST_NAME@,
        ) + README_SOURCES@,
{
    let mut text = README_FORMAT.to_owned();
    text.append(cost_scale);
    text.append(README_COSTS);
    text.append(decimal(unigram_min as u128).as_str());
    text.append(README_THRESHOLDS);
    text.append(decimal(ngram_min as u128).as_str());
    text.append(README_RECOUNT);
    text.append(json_name(MANIFEST_NAME).as_str());
    text.append(README_SOURCES);
    text
}

} // verus!
