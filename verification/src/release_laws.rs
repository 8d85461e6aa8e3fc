//! What stands in the files of a release, by their names.

use crate::checksum::{hex_of, sha256_of};
use crate::compression::{contents_of, gzip_contents, zstd_contents, zstd_frame, Compression};
use crate::homophone::occurrences::numbered_lines;
use crate::id_def::{csv_record, id_on, IdFault};
use crate::jmdict::candidates::OutputView;
use crate::jmdict::release::{
    are_files_beside, option_fault, publishes_allowlist, row_of, source_name, BuildOptions,
    DictionaryKind, PresentFiles, ReleaseContents,
};
use crate::mozc::RowView;
use crate::ngram::pipeline::OrderCounts;
use crate::ngram::release::{
    are_release_files, are_release_prices, PricedRows, ReleaseRows, ScaledCosts, ThirdPartyFiles,
};
use crate::ngram::rows::priced;
use crate::output::{is_shard_file, shard_bytes, shard_count, OutputFile};
use crate::text::{decimal_of, trim, unsigned_value, zero_padded};
use vstd::prelude::*;

verus! {

/// One of the files has the name and the contents.
pub open spec fn is_released(
    files: Seq<OutputFile>,
    name: Seq<char>,
    contents: Seq<u8>,
) -> bool {
    exists|i: int|
        0 <= i < files.len() && (#[trigger] files[i]).asset.name@ == name && files[i].contents@
            == contents
}

/// A release of n-gram dictionaries has the files of others under these names.
pub proof fn licences_are_released(
    files: Seq<OutputFile>,
    rows: PricedRows,
    third_party: ThirdPartyFiles,
    readme: Seq<char>,
    size: nat,
)
    requires
        are_release_files(files, rows, third_party, readme, size),
    ensures
        is_released(files, "mozc-id.def"@, third_party.mozc_id_def@),
        is_released(files, "MOZC-LICENSE"@, third_party.mozc_license@),
        is_released(files, "IPADIC-COPYING"@, third_party.ipadic_copying@),
        is_released(files, "IPADIC-NOTICE"@, third_party.ipadic_notice@),
        is_released(files, "MOZC-DICTIONARY-README.md"@, vstd::utf8::encode_utf8(readme)),
{
    let third = shard_count(rows.unigrams@.len(), size) as int + shard_count(
        rows.bigrams@.len(),
        size,
    ) + shard_count(rows.trigrams@.len(), size);
    assert(files[third].asset@.name == files[third].asset.name@);
    assert(files[third + 1].asset@.name == files[third + 1].asset.name@);
    assert(files[third + 2].asset@.name == files[third + 2].asset.name@);
    assert(files[third + 3].asset@.name == files[third + 3].asset.name@);
    assert(files[third + 4].asset@.name == files[third + 4].asset.name@);
}

/// A release of an English dictionary has its source, its licence and, for loanwords that were let
/// through by a list, that list under these names.
pub proof fn sources_are_released(
    files: Seq<OutputFile>,
    start: int,
    options: BuildOptions,
    name: Seq<char>,
    contents: ReleaseContents,
)
    requires
        0 <= start,
        are_files_beside(files, start, options, name, contents),
    ensures
        is_released(files, name, contents.source@),
        is_released(files, "JMDICT-LICENSE.html"@, contents.license@),
        options.dictionary_kind == DictionaryKind::DirectLoanword
            && options.direct_loanword_allowlist is Some ==> is_released(
            files,
            "direct-loanword-allowlist.tsv"@,
            contents.allowlist->0@,
        ),
        files.len() == start + if options.dictionary_kind == DictionaryKind::DirectLoanword
            && options.direct_loanword_allowlist is Some {
            4int
        } else {
            3
        },
{
    assert(files[start].asset@.name == files[start].asset.name@);
    assert(files[start + 1].asset@.name == files[start + 1].asset.name@);
    if publishes_allowlist(options) {
        assert(files[start + 3].asset@.name == files[start + 3].asset.name@);
    }
}

/// A row of an English dictionary has one context on both sides, and the reading, the surface and
/// the cost of its entry.
pub proof fn english_rows_have_one_context(entry: OutputView, context_id: u16)
    ensures
        row_of(entry, context_id).left_id == context_id,
        row_of(entry, context_id).right_id == context_id,
        row_of(entry, context_id).reading == entry.reading,
        row_of(entry, context_id).surface == entry.surface,
        row_of(entry, context_id).cost == entry.cost,
{
}

/// The options of an English dictionary are taken where the files are there, a shard has rows, the
/// base cost lies between 1 and 32000, the source has an address, and the options for loanwords are
/// given for loanwords and not otherwise.
pub proof fn english_options_are_refused(options: BuildOptions, present: PresentFiles)
    ensures
        option_fault(options, present) is None <==> {
            &&& present.input && present.mozc_id_def && present.jmdict_license
            &&& options.entries_per_shard >= 1
            &&& 1 <= options.base_cost <= 32000
            &&& trim(options.source_url@).len() > 0
            &&& options.dictionary_kind == DictionaryKind::Generic ==> {
                &&& options.pronunciation_dictionary is None
                &&& options.pronunciation_dictionary_commit is None
                &&& options.pronunciation_dictionary_sha256 is None
                &&& options.direct_loanword_allowlist is None
            }
            &&& options.dictionary_kind == DictionaryKind::DirectLoanword ==> {
                &&& options.pronunciation_dictionary is Some
                &&& options.pronunciation_dictionary_commit is Some
                &&& options.pronunciation_dictionary_sha256 is Some
            }
        },
{
}

/// The source is released under its date without hyphens, or, where it has none, under the first
/// twelve digits of its digest.
pub proof fn sources_are_named(compressed: bool, created: Seq<char>, sha256: Seq<char>)
    ensures
        created.len() == 0 && !compressed ==> source_name(compressed, created, sha256)
            == "JMdict_e-"@ + sha256.take(12) + ".xml"@,
        created.len() == 0 && compressed ==> source_name(compressed, created, sha256)
            == "JMdict_e-"@ + sha256.take(12) + ".xml.gz"@,
        created.len() > 0 && !compressed ==> source_name(compressed, created, sha256)
            == "JMdict_e-"@ + created.filter(|c: char| c != '-') + ".xml"@,
        created.len() > 0 && compressed ==> source_name(compressed, created, sha256)
            == "JMdict_e-"@ + created.filter(|c: char| c != '-') + ".xml.gz"@,
{
}

/// A line of the list of contexts has a number of at most 65535, a space and the fields of a
/// feature. A blank line and one that begins with `#` say nothing.
pub proof fn contexts_stand_on_lines(
    line: Seq<char>,
    number: Seq<char>,
    feature: Seq<char>,
    fields: Seq<Seq<char>>,
)
    requires
        !number.contains(' '),
        number.len() > 0,
        number[0] != '#',
    ensures
        trim(line) == number.push(' ') + feature && unsigned_value(number) is Some
            && unsigned_value(number)->0 <= 65535 && csv_record(feature) == Some(Some(fields))
            ==> id_on(line) == Ok::<_, IdFault>(
            Some((unsigned_value(number)->0 as u16, fields)),
        ),
        trim(line) == number.push(' ') + feature && (unsigned_value(number) is None
            || unsigned_value(number)->0 > 65535) ==> id_on(line) is Err,
        trim(line) == number ==> id_on(line) is Err,
        trim(line).len() == 0 || trim(line)[0] == '#' ==> id_on(line) == Ok::<
            Option<(u16, Seq<Seq<char>>)>,
            IdFault,
        >(None),
{
    let shown = trim(line);
    if shown == number.push(' ') + feature {
        crate::jmdict::filter_laws::first_place_is_end(number, feature, ' ');
        assert(shown.take(number.len() as int) =~= number);
        assert(shown.skip(number.len() as int + 1) =~= feature);
        assert(shown[0] == number[0]);
    }
    if shown == number {
        no_first_place(number, ' ');
    }
}

proof fn no_first_place(text: Seq<char>, wanted: char)
    requires
        !text.contains(wanted),
    ensures
        crate::text::first_place(text, wanted) == text.len(),
    decreases text.len(),
{
    if text.len() > 0 {
        assert(text.contains(text[0]));
        assert forall|i: int| 0 <= i < text.len() - 1 implies text.drop_first()[i] != wanted by {
            assert(text.contains(text[i + 1]));
        }
        no_first_place(text.drop_first(), wanted);
    }
}

/// The records of a file stand on its lines that are not blank, each with the number of its line.
pub proof fn records_stand_on_lines(
    lines: Seq<Seq<char>>,
    count: int,
    number: int,
    line: Seq<char>,
)
    requires
        0 <= count <= lines.len(),
    ensures
        numbered_lines(lines, count).contains((number, line)) <==> 1 <= number <= count && line
            == lines[number - 1] && trim(line).len() > 0,
    decreases count,
{
    let all = numbered_lines(lines, count);
    if count > 0 {
        records_stand_on_lines(lines, count - 1, number, line);
        let before = numbered_lines(lines, count - 1);
        if trim(lines[count - 1]).len() > 0 {
            assert(all[before.len() as int] == (count, lines[count - 1]));
            if before.contains((number, line)) {
                assert(all[before.index_of((number, line))] == (number, line));
            }
            if all.contains((number, line)) {
                let i = all.index_of((number, line));
                if i < before.len() {
                    assert(before[i] == (number, line));
                }
            }
        }
    } else {
        assert(!all.contains((number, line)));
    }
}

/// Each row of a release is priced with its own number where its order has a total and the number
/// lies in the range of Mozc: the words by the total of words, the pairs by that of pairs and the
/// triples by that of triples.
pub proof fn rows_are_priced_by_order(
    result: PricedRows,
    rows: ReleaseRows,
    counts: OrderCounts,
    scaled: ScaledCosts,
    i: int,
)
    requires
        are_release_prices(result, rows, counts, scaled),
        0 <= i,
    ensures
        result.unigrams@.len() == rows.unigrams@.len(),
        result.bigrams@.len() == rows.bigrams@.len(),
        result.trigrams@.len() == rows.trigrams@.len(),
        i < rows.unigrams@.len() && rows.unigrams@[i]@.count > 0 ==> result.unigrams@[i]@.cost
            == in_price_range(counts.unigram_total, scaled.unigrams@[i]),
        i < rows.bigrams@.len() && rows.bigrams@[i]@.count > 0 ==> result.bigrams@[i]@.cost
            == in_price_range(counts.bigram_total, scaled.bigrams@[i]),
        i < rows.trigrams@.len() && rows.trigrams@[i]@.count > 0 ==> result.trigrams@[i]@.cost
            == in_price_range(counts.trigram_total, scaled.trigrams@[i]),
        i < rows.unigrams@.len() ==> result.unigrams@[i]@.reading == rows.unigrams@[i]@.reading
            && result.unigrams@[i]@.surface == rows.unigrams@[i]@.surface,
        i < rows.bigrams@.len() ==> result.bigrams@[i]@.reading == rows.bigrams@[i]@.reading
            && result.bigrams@[i]@.surface == rows.bigrams@[i]@.surface,
        i < rows.trigrams@.len() ==> result.trigrams@[i]@.reading == rows.trigrams@[i]@.reading
            && result.trigrams@[i]@.surface == rows.trigrams@[i]@.surface,
{
    if i < rows.unigrams@.len() {
        assert(result.unigrams@[i]@ == priced(
            rows.unigrams@[i]@,
            counts.unigram_total as nat,
            scaled.unigrams@[i] as int,
        ));
    }
    if i < rows.bigrams@.len() {
        assert(result.bigrams@[i]@ == priced(
            rows.bigrams@[i]@,
            counts.bigram_total as nat,
            scaled.bigrams@[i] as int,
        ));
    }
    if i < rows.trigrams@.len() {
        assert(result.trigrams@[i]@ == priced(
            rows.trigrams@[i]@,
            counts.trigram_total as nat,
            scaled.trigrams@[i] as int,
        ));
    }
}

/// The price of something that was counted: its number from 1 to 32767, or the highest where there
/// is no total.
pub open spec fn in_price_range(total: u64, scaled: i64) -> int {
    if total == 0 || scaled >= 32767 {
        32767
    } else if scaled <= 1 {
        1
    } else {
        scaled as int
    }
}

/// The file of a part of a dictionary is recorded under the prefix and the number of the part in
/// five digits at least, with the number of its rows, its size and its digest.
pub proof fn shards_are_recorded(
    file: OutputFile,
    prefix: Seq<char>,
    kind: Seq<char>,
    order: Option<u8>,
    rows: Seq<RowView>,
    size: nat,
    part: nat,
)
    requires
        is_shard_file(file, prefix, kind, order, rows, size, part),
        rows.len() <= u64::MAX,
        file.contents@.len() <= u64::MAX,
        part * size <= rows.len(),
    ensures
        file.asset.name@ == prefix + "-"@ + zero_padded(decimal_of(part), 5) + ".txt.zst"@,
        file.asset.kind@ == kind,
        file.asset.order == order,
        file.asset.entries == Some(
            (if part * size + size <= rows.len() {
                size
            } else {
                (rows.len() - part * size) as nat
            }) as u64,
        ),
        file.asset.bytes == file.contents@.len(),
        file.asset.sha256@ == hex_of(sha256_of(file.contents@)),
        zstd_frame(shard_bytes(rows, size, part), 10) == Some(file.contents@),
{
    let asset = file.asset@;
    assert(asset.name == file.asset.name@);
    assert(asset.kind == file.asset.kind@);
    assert(asset.order == file.asset.order);
    assert(asset.entries == file.asset.entries);
    assert(asset.bytes == file.asset.bytes);
    assert(asset.sha256 == file.asset.sha256@);
    let start = part * size;
    assert(start >= 0) by (nonlinear_arith)
        requires
            start == part * size,
            part >= 0,
            size >= 0,
    ;
}

/// A file is read as it is, as Zstandard frames or as gzip, by what it is said to be.
pub proof fn files_are_unpacked_by_kind(file: Seq<u8>)
    ensures
        contents_of(file, Compression::Plain) == Some(file),
        contents_of(file, Compression::Zstd) == zstd_contents(file),
        contents_of(file, Compression::Gzip) == gzip_contents(file),
{
}

} // verus!
