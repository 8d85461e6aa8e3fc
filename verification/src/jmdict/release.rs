//! A release of the hiragana-to-English dictionary: its options, its rows and its files.

use crate::id_def::IdDefError;
use crate::jmdict::candidates::{candidates_of, OutputEntry, OutputView};
use crate::jmdict::context::{generic_noun_id, is_noun_error, noun_id_from};
use crate::jmdict::document::{after_events, DocumentError, DocumentView};
use crate::jmdict::loanword::{
    is_filter_error, optional_pairs, pronunciations_on, DirectLoanwordFilter, FilterError,
    FilterView,
};
use crate::jmdict::selection::{are_rows, are_stats, parse_jmdict, ParseStats};
use crate::jmdict::xml::document_events;
use crate::mozc::{MozcRow, RowView};
use crate::output::{
    can_be_packed, is_file, is_shard_file, json_file, json_name, output_file, shard_count,
    shard_files, OutputFile,
};
use crate::text::{bytes_of, chars_of, lines_of, text_of, trim, trimmed};
use crate::views::{views, views_push};
use vstd::prelude::*;

verus! {

/// Which candidates a dictionary takes.
#[derive(Clone, Copy, Debug, PartialEq, Eq, Structural)]
pub enum DictionaryKind {
    /// All English glosses and source words.
    Generic,
    /// Only words that are pronounced like the whole reading.
    DirectLoanword,
}

impl DictionaryKind {
    /// The name of the kind.
    pub open spec fn text(self) -> Seq<char> {
        match self {
            DictionaryKind::Generic => "generic"@,
            DictionaryKind::DirectLoanword => "direct-loanword"@,
        }
    }

    /// The name of the kind.
    pub fn as_str(self) -> (name: &'static str)
        ensures
            name@ == self.text(),
    {
        match self {
            DictionaryKind::Generic => "generic",
            DictionaryKind::DirectLoanword => "direct-loanword",
        }
    }

    /// What the names of the shards begin with.
    pub open spec fn prefix_text(self) -> Seq<char> {
        match self {
            DictionaryKind::Generic => "mozc-english-unigram"@,
            DictionaryKind::DirectLoanword => "mozc-english-reading-unigram"@,
        }
    }

    /// What the names of the shards begin with.
    pub fn shard_prefix(self) -> (prefix: &'static str)
        ensures
            prefix@ == self.prefix_text(),
    {
        match self {
            DictionaryKind::Generic => "mozc-english-unigram",
            DictionaryKind::DirectLoanword => "mozc-english-reading-unigram",
        }
    }
}

/// How a dictionary is built, and what is recorded of its sources. Files are given by their
/// paths.
#[derive(Clone, Debug)]
pub struct BuildOptions {
    pub input: String,
    pub mozc_id_def: String,
    pub jmdict_license: String,
    pub output_dir: String,
    pub entries_per_shard: usize,
    pub base_cost: i32,
    pub dictionary_kind: DictionaryKind,
    pub pronunciation_dictionary: Option<String>,
    pub pronunciation_dictionary_commit: Option<String>,
    pub pronunciation_dictionary_sha256: Option<String>,
    pub direct_loanword_allowlist: Option<String>,
    pub source_url: String,
    pub source_etag: String,
    pub source_last_modified: String,
    pub pipeline_commit: String,
}

/// Which of the files that the options name are there.
#[derive(Clone, Copy, Debug)]
pub struct PresentFiles {
    pub input: bool,
    pub mozc_id_def: bool,
    pub jmdict_license: bool,
}

/// What is wrong with the options.
#[derive(Clone, Copy, Debug, PartialEq, Eq, Structural)]
pub enum OptionFault {
    NoInput,
    NoIdDef,
    NoLicense,
    ShardSize,
    BaseCost,
    SourceUrl,
    LoanwordOptions,
    NoPronunciations,
    NoPronunciationMetadata,
}

/// The first thing that is wrong with the options.
pub open spec fn option_fault(options: BuildOptions, present: PresentFiles) -> Option<OptionFault> {
    if !present.input {
        Some(OptionFault::NoInput)
    } else if !present.mozc_id_def {
        Some(OptionFault::NoIdDef)
    } else if !present.jmdict_license {
        Some(OptionFault::NoLicense)
    } else if options.entries_per_shard == 0 {
        Some(OptionFault::ShardSize)
    } else if !(1 <= options.base_cost <= 32000) {
        Some(OptionFault::BaseCost)
    } else if trim(options.source_url@).len() == 0 {
        Some(OptionFault::SourceUrl)
    } else {
        match options.dictionary_kind {
            DictionaryKind::Generic => if options.pronunciation_dictionary is Some
                || options.pronunciation_dictionary_commit is Some
                || options.pronunciation_dictionary_sha256 is Some
                || options.direct_loanword_allowlist is Some {
                Some(OptionFault::LoanwordOptions)
            } else {
                None
            },
            DictionaryKind::DirectLoanword => if options.pronunciation_dictionary is None {
                Some(OptionFault::NoPronunciations)
            } else if options.pronunciation_dictionary_commit is None
                || options.pronunciation_dictionary_sha256 is None {
                Some(OptionFault::NoPronunciationMetadata)
            } else {
                None
            },
        }
    }
}

/// Checks the options.
pub fn validate_options(options: &BuildOptions, present: PresentFiles) -> (result: Result<
    (),
    OptionFault,
>)
    ensures
        result == match option_fault(*options, present) {
            Some(fault) => Err(fault),
            None => Ok(()),
        },
{
    if !present.input {
        return Err(OptionFault::NoInput);
    }
    if !present.mozc_id_def {
        return Err(OptionFault::NoIdDef);
    }
    if !present.jmdict_license {
        return Err(OptionFault::NoLicense);
    }
    if options.entries_per_shard == 0 {
        return Err(OptionFault::ShardSize);
    }
    if options.base_cost < 1 || options.base_cost > 32000 {
        return Err(OptionFault::BaseCost);
    }
    if trimmed(options.source_url.as_str()).as_str().is_empty() {
        return Err(OptionFault::SourceUrl);
    }
    match options.dictionary_kind {
        DictionaryKind::Generic => {
            if options.pronunciation_dictionary.is_some()
                || options.pronunciation_dictionary_commit.is_some()
                || options.pronunciation_dictionary_sha256.is_some()
                || options.direct_loanword_allowlist.is_some() {
                return Err(OptionFault::LoanwordOptions);
            }
        },
        DictionaryKind::DirectLoanword => {
            if options.pronunciation_dictionary.is_none() {
                return Err(OptionFault::NoPronunciations);
            }
            if options.pronunciation_dictionary_commit.is_none()
                || options.pronunciation_dictionary_sha256.is_none() {
                return Err(OptionFault::NoPronunciationMetadata);
            }
        },
    }
    Ok(())
}

impl OptionFault {
    /// The fault in words.
    pub open spec fn text(self, options: BuildOptions) -> Seq<char> {
        match self {
            OptionFault::NoInput => "JMdict input does not exist: "@ + options.input@,
            OptionFault::NoIdDef => "Mozc id.def does not exist: "@ + options.mozc_id_def@,
            OptionFault::NoLicense => "JMdict licence does not exist: "@ + options.jmdict_license@,
            OptionFault::ShardSize => "--entries-per-shard must be positive"@,
            OptionFault::BaseCost => "--base-cost must be between 1 and 32000"@,
            OptionFault::SourceUrl => "--source-url must not be empty"@,
            OptionFault::LoanwordOptions => {
                "pronunciation and direct-loanword allowlist options require --dictionary-kind direct-loanword"@
            },
            OptionFault::NoPronunciations => {
                "--pronunciation-dictionary is required for direct-loanword output"@
            },
            OptionFault::NoPronunciationMetadata => {
                "direct-loanword output requires CMUdict commit and SHA-256 metadata"@
            },
        }
    }

    /// Says the fault in words.
    pub fn message(self, options: &BuildOptions) -> (message: String)
        ensures
            message@ == self.text(*options),
    {
        match self {
            OptionFault::NoInput => {
                let mut message = "JMdict input does not exist: ".to_owned();
                message.append(options.input.as_str());
                message
            },
            OptionFault::NoIdDef => {
                let mut message = "Mozc id.def does not exist: ".to_owned();
                message.append(options.mozc_id_def.as_str());
                message
            },
            OptionFault::NoLicense => {
                let mut message = "JMdict licence does not exist: ".to_owned();
                message.append(options.jmdict_license.as_str());
                message
            },
            OptionFault::ShardSize => "--entries-per-shard must be positive".to_owned(),
            OptionFault::BaseCost => "--base-cost must be between 1 and 32000".to_owned(),
            OptionFault::SourceUrl => "--source-url must not be empty".to_owned(),
            OptionFault::LoanwordOptions => {
                "pronunciation and direct-loanword allowlist options require --dictionary-kind direct-loanword".to_owned()
            },
            OptionFault::NoPronunciations => {
                "--pronunciation-dictionary is required for direct-loanword output".to_owned()
            },
            OptionFault::NoPronunciationMetadata => {
                "direct-loanword output requires CMUdict commit and SHA-256 metadata".to_owned()
            },
        }
    }
}

/// The contents of the files that a dictionary is built from. The document is not compressed.
#[derive(Clone, Debug)]
pub struct SourceFiles {
    pub document: Vec<u8>,
    pub mozc_id_def: String,
    pub pronunciation_dictionary: Option<String>,
    pub direct_loanword_allowlist: Option<String>,
}

/// Why a dictionary cannot be built.
#[derive(Debug)]
pub enum BuildError {
    Options(OptionFault),
    IdDef(IdDefError),
    Filter(FilterError),
    Document(DocumentError),
    NoEntries,
}

/// A dictionary: its rows, and what was counted while they were made.
pub struct DictionaryBuild {
    pub rows: Vec<MozcRow>,
    pub stats: ParseStats,
}

/// The row of an entry, with one context ID on both sides.
pub open spec fn row_of(entry: OutputView, context_id: u16) -> RowView {
    RowView {
        reading: entry.reading,
        left_id: context_id,
        right_id: context_id,
        cost: entry.cost,
        surface: entry.surface,
    }
}

/// The rows of entries.
pub open spec fn rows_of(entries: Seq<OutputView>, context_id: u16) -> Seq<RowView> {
    Seq::new(entries.len(), |i: int| row_of(entries[i], context_id))
}

/// Makes the rows of entries.
pub fn dictionary_rows(entries: Vec<OutputEntry>, context_id: u16) -> (rows: Vec<MozcRow>)
    ensures
        views(rows@) == rows_of(views(entries@), context_id),
{
    let ghost all = views(entries@);
    let mut rows: Vec<MozcRow> = Vec::new();
    assert(views(rows@) =~= rows_of(all, context_id).take(0));
    for entry in it: entries
        invariant
            views(it.seq()) == all,
            views(rows@) == rows_of(all, context_id).take(it.index()),
    {
        assert(all[it.index()] == entry@);
        let row = MozcRow {
            reading: entry.reading,
            left_id: context_id,
            right_id: context_id,
            cost: entry.cost,
            surface: entry.surface,
        };
        proof {
            views_push(rows@, row);
            assert(rows_of(all, context_id).take(it.index() + 1) =~= rows_of(
                all,
                context_id,
            ).take(it.index()).push(row@));
        }
        rows.push(row);
    }
    assert(rows_of(all, context_id).take(all.len() as int) =~= rows_of(all, context_id));
    rows
}

/// The contents of a text that need not be there.
pub open spec fn optional_contents(text: Option<String>) -> Option<Seq<char>> {
    match text {
        Some(text) => Some(text@),
        None => None,
    }
}

/// The filter of a kind of dictionary: none for a generic one.
pub open spec fn filter_of(kind: DictionaryKind, files: SourceFiles) -> Result<
    Option<FilterView>,
    (),
> {
    match kind {
        DictionaryKind::Generic => Ok(None),
        DictionaryKind::DirectLoanword => match files.pronunciation_dictionary {
            Some(text) => match (
                pronunciations_on(lines_of(text@)),
                optional_pairs(optional_contents(files.direct_loanword_allowlist)),
            ) {
                (Ok(pronunciations), Ok(allowlist)) => Ok(
                    Some(FilterView { pronunciations, allowlist }),
                ),
                _ => Err(()),
            },
            None => Err(()),
        },
    }
}

fn load_filter(kind: DictionaryKind, files: &SourceFiles) -> (result: Result<
    Option<DirectLoanwordFilter>,
    BuildError,
>)
    ensures
        match result {
            Ok(Some(filter)) => filter_of(kind, *files) == Ok::<_, ()>(Some(filter@)),
            Ok(None) => filter_of(kind, *files) == Ok::<Option<FilterView>, ()>(None),
            Err(error) => kind == DictionaryKind::DirectLoanword && filter_of(kind, *files) is Err
                && match error {
                BuildError::Filter(error) => files.pronunciation_dictionary is Some
                    && is_filter_error(
                    error,
                    files.pronunciation_dictionary->0@,
                    optional_contents(files.direct_loanword_allowlist),
                ),
                BuildError::Options(fault) => fault == OptionFault::NoPronunciations
                    && files.pronunciation_dictionary is None,
                _ => false,
            },
        },
{
    match kind {
        DictionaryKind::Generic => Ok(None),
        DictionaryKind::DirectLoanword => match &files.pronunciation_dictionary {
            Some(text) => {
                let allowlist: Option<&str> = match &files.direct_loanword_allowlist {
                    Some(allowlist) => Some(allowlist.as_str()),
                    None => None,
                };
                match DirectLoanwordFilter::load(text.as_str(), allowlist) {
                    Ok(filter) => {
                        assert(filter_of(kind, *files)->Ok_0->0 =~= filter@);
                        Ok(Some(filter))
                    },
                    Err(error) => Err(BuildError::Filter(error)),
                }
            },
            None => Err(BuildError::Options(OptionFault::NoPronunciations)),
        },
    }
}

/// The rows are those of the dictionary that the files give.
pub open spec fn is_dictionary_of(
    rows: Seq<RowView>,
    stats: ParseStats,
    context_id: u16,
    document: DocumentView,
    base_cost: int,
    filter: Option<FilterView>,
) -> bool {
    let candidates = candidates_of(document.entries, base_cost, document.entries.len() as int);
    &&& exists|entries: Seq<OutputView>|
        are_rows(entries, candidates, filter) && rows == #[trigger] rows_of(entries, context_id)
    &&& are_stats(stats, document, candidates, filter)
}

/// The dictionary that the files give has no rows.
pub open spec fn gives_nothing(
    document: DocumentView,
    base_cost: int,
    filter: Option<FilterView>,
) -> bool {
    are_rows(
        Seq::empty(),
        candidates_of(document.entries, base_cost, document.entries.len() as int),
        filter,
    )
}

/// Builds the rows of a dictionary.
pub fn build(options: &BuildOptions, present: PresentFiles, files: &SourceFiles) -> (result: Result<
    DictionaryBuild,
    BuildError,
>)
    ensures
        match result {
            Ok(built) => {
                &&& option_fault(*options, present) is None
                &&& noun_id_from(lines_of(files.mozc_id_def@), 0, None) is Ok
                &&& filter_of(options.dictionary_kind, *files) is Ok
                &&& after_events(document_events(files.document@)) is Ok
                &&& built.rows@.len() > 0
                &&& is_dictionary_of(
                    views(built.rows@),
                    built.stats,
                    noun_id_from(lines_of(files.mozc_id_def@), 0, None)->Ok_0,
                    after_events(document_events(files.document@))->Ok_0,
                    options.base_cost as int,
                    filter_of(options.dictionary_kind, *files)->Ok_0,
                )
            },
            Err(BuildError::Options(fault)) => match option_fault(*options, present) {
                Some(found) => fault == found,
                None => {
                    &&& fault == OptionFault::NoPronunciations
                    &&& noun_id_from(lines_of(files.mozc_id_def@), 0, None) is Ok
                    &&& options.dictionary_kind == DictionaryKind::DirectLoanword
                    &&& files.pronunciation_dictionary is None
                },
            },
            Err(BuildError::IdDef(error)) => {
                &&& option_fault(*options, present) is None
                &&& is_noun_error(error, lines_of(files.mozc_id_def@))
            },
            Err(BuildError::Filter(error)) => {
                &&& option_fault(*options, present) is None
                &&& noun_id_from(lines_of(files.mozc_id_def@), 0, None) is Ok
                &&& options.dictionary_kind == DictionaryKind::DirectLoanword
                &&& files.pronunciation_dictionary is Some
                &&& is_filter_error(
                    error,
                    files.pronunciation_dictionary->0@,
                    optional_contents(files.direct_loanword_allowlist),
                )
            },
            Err(BuildError::Document(error)) => {
                &&& option_fault(*options, present) is None
                &&& noun_id_from(lines_of(files.mozc_id_def@), 0, None) is Ok
                &&& filter_of(options.dictionary_kind, *files) is Ok
                &&& after_events(document_events(files.document@)) == Err::<DocumentView, _>(
                    error@,
                )
            },
            Err(BuildError::NoEntries) => {
                &&& option_fault(*options, present) is None
                &&& noun_id_from(lines_of(files.mozc_id_def@), 0, None) is Ok
                &&& filter_of(options.dictionary_kind, *files) is Ok
                &&& after_events(document_events(files.document@)) is Ok
                &&& gives_nothing(
                    after_events(document_events(files.document@))->Ok_0,
                    options.base_cost as int,
                    filter_of(options.dictionary_kind, *files)->Ok_0,
                )
            },
        },
{
    match validate_options(options, present) {
        Ok(()) => {},
        Err(fault) => {
            return Err(BuildError::Options(fault));
        },
    }
    let context_id = match generic_noun_id(files.mozc_id_def.as_str()) {
        Ok(id) => id,
        Err(error) => {
            return Err(BuildError::IdDef(error));
        },
    };
    let filter = match load_filter(options.dictionary_kind, files) {
        Ok(filter) => filter,
        Err(error) => {
            return Err(error);
        },
    };
    let (entries, stats) = match parse_jmdict(&files.document, options.base_cost, filter.as_ref()) {
        Ok(parsed) => parsed,
        Err(error) => {
            return Err(BuildError::Document(error));
        },
    };
    if entries.len() == 0 {
        assert(views(entries@) =~= Seq::empty());
        return Err(BuildError::NoEntries);
    }
    let ghost given = views(entries@);
    let rows = dictionary_rows(entries, context_id);
    assert(views(rows@) == rows_of(given, context_id));
    assert(views(rows@).len() == given.len());
    Ok(DictionaryBuild { rows, stats })
}

/// The version of a source in the name of its file: its date without hyphens, or the first
/// digits of its digest where it is not dated.
pub open spec fn version_text(created: Seq<char>, sha256: Seq<char>) -> Seq<char> {
    if created.len() == 0 {
        sha256.take(12)
    } else {
        created.filter(|c: char| c != '-')
    }
}

/// The name under which the source is published.
pub open spec fn source_name(compressed: bool, created: Seq<char>, sha256: Seq<char>) -> Seq<char> {
    "JMdict_e-"@ + version_text(created, sha256) + if compressed {
        ".xml.gz"@
    } else {
        ".xml"@
    }
}

fn without_hyphens(text: &str) -> (result: String)
    ensures
        result@ == text@.filter(|c: char| c != '-'),
{
    let ghost wanted = |c: char| c != '-';
    let mut result = String::new();
    proof {
        reveal(Seq::filter);
    }
    for c in it: text.chars()
        invariant
            it.seq() == text@,
            wanted == (|c: char| c != '-'),
            result@ == text@.take(it.index()).filter(wanted),
    {
        proof {
            reveal(Seq::filter);
            assert(text@.take(it.index() + 1).drop_last() =~= text@.take(it.index()));
        }
        if c != '-' {
            result.push(c);
        }
    }
    assert(text@.take(text@.len() as int) =~= text@);
    result
}

/// The name under which the source is published.
pub fn source_asset_name(compressed: bool, created: &str, sha256: &str) -> (name: String)
    requires
        created@.len() == 0 ==> sha256@.len() >= 12,
    ensures
        name@ == source_name(compressed, created@, sha256@),
{
    let mut name = "JMdict_e-".to_owned();
    if created.is_empty() {
        let digits = chars_of(sha256);
        let short = text_of(&digits, 0, 12);
        assert(short@ =~= sha256@.take(12));
        name.append(short.as_str());
    } else {
        name.append(without_hyphens(created).as_str());
    }
    if compressed {
        name.append(".xml.gz");
    } else {
        name.append(".xml");
    }
    name
}

/// The contents of the files beside the shards: the source, its licence, and the allowlist of a
/// dictionary of loanwords.
pub struct ReleaseContents {
    pub source: Vec<u8>,
    pub license: Vec<u8>,
    pub allowlist: Option<Vec<u8>>,
}

/// A dictionary of loanwords with an allowlist publishes it.
pub open spec fn publishes_allowlist(options: BuildOptions) -> bool {
    options.dictionary_kind == DictionaryKind::DirectLoanword
        && options.direct_loanword_allowlist is Some
}

/// The files of a release from `start` on are those beside the shards.
pub open spec fn are_files_beside(
    files: Seq<OutputFile>,
    start: int,
    options: BuildOptions,
    source_name: Seq<char>,
    contents: ReleaseContents,
) -> bool {
    &&& is_file(files[start], source_name, "source"@, contents.source@)
    &&& is_file(files[start + 1], "JMDICT-LICENSE.html"@, "license"@, contents.license@)
    &&& is_file(
        files[start + 2],
        "ENGLISH-DICTIONARY-README.md"@,
        "documentation"@,
        vstd::utf8::encode_utf8(readme_of(options.dictionary_kind)),
    )
    &&& if publishes_allowlist(options) {
        &&& files.len() == start + 4
        &&& is_file(
            files[start + 3],
            "direct-loanword-allowlist.tsv"@,
            "policy"@,
            contents.allowlist->0@,
        )
    } else {
        files.len() == start + 3
    }
}

/// Makes the shards of a dictionary. Nothing exactly where the compressor makes no frame of one.
pub fn write_dictionary_shards(rows: &[MozcRow], kind: DictionaryKind, entries_per_shard: usize) -> (
result: Option<Vec<OutputFile>>)
    requires
        entries_per_shard > 0,
    ensures
        result is Some <==> can_be_packed(views(rows@), entries_per_shard as nat),
        rows@.len() == 0 ==> result is Some,
        result matches Some(files) ==> files@.len() == shard_count(
            rows@.len(),
            entries_per_shard as nat,
        ),
        result matches Some(files) ==> forall|part: int|
            0 <= part < files@.len() ==> is_shard_file(
                #[trigger] files@[part],
                kind.prefix_text(),
                "dictionary"@,
                None,
                views(rows@),
                entries_per_shard as nat,
                part as nat,
            ),
{
    shard_files(kind.shard_prefix(), "dictionary", None, rows, entries_per_shard)
}

/// Makes the files of a release: the shards, the source, its licence, a description, and, for a
/// dictionary of loanwords, the allowlist that it was made with. Nothing exactly where the
/// compressor makes no frame of a shard.
pub fn write_release_files(
    options: &BuildOptions,
    rows: &[MozcRow],
    source_name: &str,
    contents: ReleaseContents,
) -> (result: Option<Vec<OutputFile>>)
    requires
        options.entries_per_shard > 0,
        publishes_allowlist(*options) ==> contents.allowlist is Some,
    ensures
        result is Some <==> can_be_packed(views(rows@), options.entries_per_shard as nat),
        rows@.len() == 0 ==> result is Some,
        result matches Some(files) ==> are_files_beside(
            files@,
            shard_count(rows@.len(), options.entries_per_shard as nat) as int,
            *options,
            source_name@,
            contents,
        ),
        result matches Some(files) ==> forall|part: int|
            0 <= part < shard_count(rows@.len(), options.entries_per_shard as nat)
                ==> is_shard_file(
                #[trigger] files@[part],
                options.dictionary_kind.prefix_text(),
                "dictionary"@,
                None,
                views(rows@),
                options.entries_per_shard as nat,
                part as nat,
            ),
{
    let shards = write_dictionary_shards(rows, options.dictionary_kind, options.entries_per_shard);
    let mut files = match shards {
        Some(files) => files,
        None => {
            return None;
        },
    };
    let ghost shards = files@;
    let ghost start = files@.len() as int;
    files.push(output_file(source_name, "source", contents.source));
    files.push(output_file("JMDICT-LICENSE.html", "license", contents.license));
    files.push(
        output_file(
            "ENGLISH-DICTIONARY-README.md",
            "documentation",
            bytes_of(dictionary_readme(options.dictionary_kind).as_str()),
        ),
    );
    if options.dictionary_kind == DictionaryKind::DirectLoanword
        && options.direct_loanword_allowlist.is_some() {
        if let Some(allowlist) = contents.allowlist {
            files.push(output_file("direct-loanword-allowlist.tsv", "policy", allowlist));
        }
    }
    assert forall|part: int| 0 <= part < start implies #[trigger] files@[part]
        == shards[part] by {}
    Some(files)
}

/// What the manifest records of the options.
#[derive(Clone, Debug)]
pub struct Parameters {
    pub dictionary_kind: &'static str,
    pub pronunciation_dictionary: Option<&'static str>,
    pub pronunciation_dictionary_commit: Option<String>,
    pub pronunciation_dictionary_sha256: Option<String>,
    pub direct_loanword_allowlist: Option<&'static str>,
    pub base_cost: i32,
    pub entries_per_shard: usize,
}

/// What the manifest records of the options.
pub fn parameters(options: &BuildOptions) -> (recorded: Parameters)
    ensures
        recorded.dictionary_kind@ == options.dictionary_kind.text(),
        match options.dictionary_kind {
            DictionaryKind::Generic => recorded.pronunciation_dictionary is None
                && recorded.direct_loanword_allowlist is None,
            DictionaryKind::DirectLoanword => {
                &&& recorded.pronunciation_dictionary is Some
                &&& recorded.pronunciation_dictionary->0@ == "CMUdict"@
                &&& recorded.direct_loanword_allowlist is Some
                &&& recorded.direct_loanword_allowlist->0@ == "direct-loanword-allowlist.tsv"@
            },
        },
        optional_contents(recorded.pronunciation_dictionary_commit) == optional_contents(
            options.pronunciation_dictionary_commit,
        ),
        optional_contents(recorded.pronunciation_dictionary_sha256) == optional_contents(
            options.pronunciation_dictionary_sha256,
        ),
        recorded.base_cost == options.base_cost,
        recorded.entries_per_shard == options.entries_per_shard,
{
    let (pronunciations, allowlist) = match options.dictionary_kind {
        DictionaryKind::Generic => (None, None),
        DictionaryKind::DirectLoanword => (Some("CMUdict"), Some("direct-loanword-allowlist.tsv")),
    };
    Parameters {
        dictionary_kind: options.dictionary_kind.as_str(),
        pronunciation_dictionary: pronunciations,
        pronunciation_dictionary_commit: copied(&options.pronunciation_dictionary_commit),
        pronunciation_dictionary_sha256: copied(&options.pronunciation_dictionary_sha256),
        direct_loanword_allowlist: allowlist,
        base_cost: options.base_cost,
        entries_per_shard: options.entries_per_shard,
    }
}

fn copied(text: &Option<String>) -> (copy: Option<String>)
    ensures
        optional_contents(copy) == optional_contents(*text),
{
    match text {
        Some(text) => Some(text.clone()),
        None => None,
    }
}

/// The JSON file that describes a release, without its extension.
pub const MANIFEST_NAME: &'static str = "english-dictionary-manifest";

/// The file of the digests of a release.
pub const CHECKSUMS_NAME: &'static str = "ENGLISH-DICTIONARY-SHA256SUMS";

/// The description of a dictionary of all glosses, up to the name of the file that describes the
/// release.
pub const GENERIC_README: &'static str = "# Hiragana-to-English Mozc dictionary\n\n\
This directory contains English conversion candidates extracted from the\n\
English-only JMdict distribution. Only readings written entirely with\n\
katakana-block characters are selected; dictionary keys are normalized with\n\
NFKC and converted to hiragana. English `gloss` values and complete English\n\
`lsource` values become candidate surfaces.\n\n\
Each `mozc-english-unigram-*.txt.zst` file expands to Mozc's five-column\n\
system-dictionary source format:\n\n\
```text\n\
reading<TAB>left_id<TAB>right_id<TAB>cost<TAB>surface\n\
```\n\n\
JMdict priority markers and gloss order determine candidate costs. See\n\
`";

/// The description of a dictionary of all glosses, behind that name.
pub const GENERIC_SOURCES: &'static str = "` for the exact source checksum, selection\n\
parameters, counts, and generated asset checksums. JMdict attribution and\n\
licence terms are provided in `JMDICT-LICENSE.html`.\n";

/// The description of a dictionary of loanwords, up to the name of the file that describes the
/// release.
pub const LOANWORD_README: &'static str = "# Hiragana-to-English direct-loanword Mozc dictionary\n\n\
This directory contains conservative English loanword candidates extracted\n\
from the English-only JMdict distribution. A candidate must be a complete\n\
CMUdict pronunciation match for the full Japanese reading, or an exact entry\n\
in the direct-loanword allowlist. Gloss explanations, partial phrases, and\n\
parenthetical notes are not emitted.\n\n\
Each `mozc-english-reading-unigram-*.txt.zst` file expands to Mozc's\n\
five-column system-dictionary source format. See\n\
`";

/// The description of a dictionary of loanwords, behind that name.
pub const LOANWORD_SOURCES: &'static str = "` for the pronunciation source, selection\n\
parameters, rejection counts, and generated asset checksums. The exact\n\
compound exceptions are maintained in `direct-loanword-allowlist.tsv`.\n";

/// The description of a dictionary.
pub open spec fn readme_of(kind: DictionaryKind) -> Seq<char> {
    match kind {
        DictionaryKind::Generic => GENERIC_README@ + json_file(MANIFEST_NAME@) + GENERIC_SOURCES@,
        DictionaryKind::DirectLoanword => LOANWORD_README@ + json_file(MANIFEST_NAME@)
            + LOANWORD_SOURCES@,
    }
}

/// The description of a dictionary.
pub fn dictionary_readme(kind: DictionaryKind) -> (text: String)
    ensures
        text@ == readme_of(kind),
{
    let (start, end) = match kind {
        DictionaryKind::Generic => (GENERIC_README, GENERIC_SOURCES),
        DictionaryKind::DirectLoanword => (LOANWORD_README, LOANWORD_SOURCES),
    };
    let mut text = start.to_owned();
    text.append(json_name(MANIFEST_NAME).as_str());
    text.append(end);
    text
}

} // verus!
