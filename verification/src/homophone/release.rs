//! A release of the homophone corpus: its options, its groups and their occurrences.

use crate::compression::zstd_frame;
use crate::homophone::annotation::AnnotatedTokenSequenceBuilder;
use crate::homophone::candidates::{
    are_candidates, CandidateStats, HomophoneCounts, ReadingCandidates,
};
use crate::homophone::groups::{
    all_kept, are_groups, build_groups, can_be_grouped, comes_from, count_sum, is_group, is_kept,
    kept_places, GroupSummary,
};
use crate::homophone::occurrences::{
    all_show, are_named, can_be_annotated, can_be_counted, collect_statistics, corpus_occurrences,
    corpus_words, sentence_total, stands_in_some, write_occurrences, BuildStats, CorpusRecord,
    Occurrence, RecordView,
};
use crate::homophone::recount::{group_sum, kept_counts_within, recount_agrees};
use crate::output::{is_packed_file, packed_file, OutputFile};
use crate::paths::{find_missing, first_missing, is_sorted_from, sort_paths};
use crate::sorted::SortedMap;
use crate::text::{decimal, decimal_of, texts};
use crate::views::views;
use vstd::prelude::*;

verus! {

/// The file of the groups.
pub const HOMOPHONE_GROUPS_ASSET: &'static str = "homophone-groups.jsonl.zst";

/// The file of the occurrences.
pub const HOMOPHONE_OCCURRENCES_ASSET: &'static str = "homophone-occurrences.jsonl.zst";

/// The JSON file that describes the release, without its extension.
pub const HOMOPHONE_MANIFEST_ASSET: &'static str = "homophone-manifest";

/// The file of the digests.
pub const HOMOPHONE_CHECKSUMS_ASSET: &'static str = "HOMOPHONE-SHA256SUMS";

/// How the groups are made, and what is recorded of their sources. Files are given by their
/// paths.
#[derive(Clone, Debug)]
pub struct HomophoneBuildOptions {
    pub inputs: Vec<String>,
    pub vibrato_dictionary: String,
    pub output_dir: String,
    pub min_group_size: usize,
    pub min_candidate_count: u64,
    pub vibrato_dictionary_version: String,
    pub pipeline_commit: String,
}

/// Which of the files that the options name are there. Inputs are given by their paths, in any
/// order.
#[derive(Clone, Debug)]
pub struct PresentFiles {
    pub inputs: Vec<String>,
    pub vibrato_dictionary: bool,
}

/// What is wrong with the options.
#[derive(Clone, Copy, Debug, PartialEq, Eq, Structural)]
pub enum OptionFault {
    NoInputs,
    MissingInput(usize),
    MissingDictionary,
    GroupSize,
    CandidateCount,
}

/// The first thing that is wrong with the options.
pub open spec fn option_fault(
    options: HomophoneBuildOptions,
    present: PresentFiles,
) -> Option<OptionFault> {
    let missing = first_missing(texts(options.inputs@), texts(present.inputs@), 0);
    if options.inputs@.len() == 0 {
        Some(OptionFault::NoInputs)
    } else if missing < options.inputs@.len() {
        Some(OptionFault::MissingInput(missing as usize))
    } else if !present.vibrato_dictionary {
        Some(OptionFault::MissingDictionary)
    } else if options.min_group_size < 2 {
        Some(OptionFault::GroupSize)
    } else if options.min_candidate_count == 0 {
        Some(OptionFault::CandidateCount)
    } else {
        None
    }
}

/// Whether the options are the same but for the order of the inputs.
pub open spec fn same_but_for_order(
    options: HomophoneBuildOptions,
    before: HomophoneBuildOptions,
) -> bool {
    &&& is_sorted_from(options.inputs@, before.inputs@)
    &&& options == (HomophoneBuildOptions { inputs: options.inputs, ..before })
}

/// Puts the inputs in the order of their paths and checks the options. A missing input is named
/// by its place after the sorting.
pub fn validate_options(options: &mut HomophoneBuildOptions, present: &PresentFiles) -> (result:
    Result<(), OptionFault>)
    ensures
        same_but_for_order(*final(options), *old(options)),
        result == match option_fault(*final(options), *present) {
            Some(fault) => Err(fault),
            None => Ok(()),
        },
{
    sort_paths(&mut options.inputs);
    check_options(options, present)
}

/// Checks the options as they are. A missing input is named by its place.
pub fn check_options(options: &HomophoneBuildOptions, present: &PresentFiles) -> (result: Result<
    (),
    OptionFault,
>)
    ensures
        result == match option_fault(*options, *present) {
            Some(fault) => Err(fault),
            None => Ok(()),
        },
{
    if options.inputs.len() == 0 {
        return Err(OptionFault::NoInputs);
    }
    if let Some(missing) = find_missing(&options.inputs, &present.inputs) {
        return Err(OptionFault::MissingInput(missing));
    }
    if !present.vibrato_dictionary {
        return Err(OptionFault::MissingDictionary);
    }
    if options.min_group_size < 2 {
        return Err(OptionFault::GroupSize);
    }
    if options.min_candidate_count == 0 {
        return Err(OptionFault::CandidateCount);
    }
    Ok(())
}

impl OptionFault {
    /// The fault in words.
    pub open spec fn text(self, options: HomophoneBuildOptions) -> Seq<char> {
        match self {
            OptionFault::NoInputs => "at least one --input is required"@,
            OptionFault::MissingInput(i) => "input does not exist: "@ + options.inputs@[i as int]@,
            OptionFault::MissingDictionary => "Vibrato dictionary does not exist: "@
                + options.vibrato_dictionary@,
            OptionFault::GroupSize => "--min-group-size must be at least 2"@,
            OptionFault::CandidateCount => "--min-candidate-count must be positive"@,
        }
    }

    /// Says the fault in words.
    pub fn message(self, options: &HomophoneBuildOptions) -> (message: String)
        requires
            self matches OptionFault::MissingInput(i) ==> i < options.inputs@.len(),
        ensures
            message@ == self.text(*options),
    {
        match self {
            OptionFault::NoInputs => "at least one --input is required".to_owned(),
            OptionFault::MissingInput(i) => {
                let mut message = "input does not exist: ".to_owned();
                message.append(options.inputs[i].as_str());
                message
            },
            OptionFault::MissingDictionary => {
                let mut message = "Vibrato dictionary does not exist: ".to_owned();
                message.append(options.vibrato_dictionary.as_str());
                message
            },
            OptionFault::GroupSize => "--min-group-size must be at least 2".to_owned(),
            OptionFault::CandidateCount => "--min-candidate-count must be positive".to_owned(),
        }
    }
}

/// Why no groups can be made.
#[derive(Clone, Copy, Debug, PartialEq, Eq, Structural)]
pub enum HomophoneError {
    Options(OptionFault),
    /// A count does not fit in 64 bits.
    Overflow,
    /// The occurrences are not as many as the groups say.
    Recount { expected: u64, found: u64 },
}

impl HomophoneError {
    /// The error in words.
    pub open spec fn text(self, options: HomophoneBuildOptions) -> Seq<char> {
        match self {
            HomophoneError::Options(fault) => fault.text(options),
            HomophoneError::Overflow => "too many words to count"@,
            HomophoneError::Recount { expected, found } => {
                "occurrence recount mismatch: group index has "@ + decimal_of(expected as nat)
                    + ", output has "@ + decimal_of(found as nat)
            },
        }
    }

    /// Says the error in words.
    pub fn message(self, options: &HomophoneBuildOptions) -> (message: String)
        requires
            self matches HomophoneError::Options(OptionFault::MissingInput(i)) ==> i
                < options.inputs@.len(),
        ensures
            message@ == self.text(*options),
    {
        match self {
            HomophoneError::Options(fault) => fault.message(options),
            HomophoneError::Overflow => "too many words to count".to_owned(),
            HomophoneError::Recount { expected, found } => {
                let mut message = "occurrence recount mismatch: group index has ".to_owned();
                message.append(decimal(expected as u128).as_str());
                message.append(", output has ");
                message.append(decimal(found as u128).as_str());
                message
            },
        }
    }
}

/// The groups of a corpus with their occurrences, and what was counted.
pub struct HomophoneBuild {
    pub groups: Vec<GroupSummary>,
    pub occurrences: Vec<Occurrence>,
    pub stats: BuildStats,
    pub candidate_forms: u64,
    pub group_occurrences: u64,
}

/// The number of surfaces in the first `count` groups.
pub open spec fn form_sum(groups: Seq<GroupSummary>, count: int) -> nat
    decreases count,
{
    if count <= 0 {
        0
    } else {
        form_sum(groups, count - 1) + groups[count - 1].candidate_count as nat
    }
}

/// The surfaces of each reading were counted in the words.
pub open spec fn counted_in(
    counts: Seq<ReadingCandidates>,
    records: Seq<RecordView>,
    tokenizer: vibrato::Tokenizer,
) -> bool {
    let words = corpus_words(records, tokenizer, records.len() as int);
    &&& forall|i: int|
        0 <= i < counts.len() ==> are_candidates(
            (#[trigger] counts[i]).candidates,
            words,
            counts[i].reading@,
        )
    &&& forall|i: int, j: int|
        0 <= i < j < counts.len() ==> (#[trigger] counts[i]).reading@ != (
        #[trigger] counts[j]).reading@
    &&& forall|i: int|
        0 <= i < words.len() ==> has_reading(counts, (#[trigger] words[i]).token.reading)
}

/// One of the readings is this.
pub open spec fn has_reading(counts: Seq<ReadingCandidates>, reading: Seq<char>) -> bool {
    exists|i: int| 0 <= i < counts.len() && (#[trigger] counts[i]).reading@ == reading
}

/// The groups are those of the words of a corpus.
pub open spec fn are_groups_of(
    groups: Seq<GroupSummary>,
    records: Seq<RecordView>,
    tokenizer: vibrato::Tokenizer,
    min_group_size: usize,
    min_candidate_count: u64,
) -> bool {
    exists|counts: Seq<ReadingCandidates>| #[trigger]
        counted_in(counts, records, tokenizer) && are_groups(
            groups,
            counts,
            min_group_size,
            min_candidate_count,
        )
}

/// Surfaces that come at least once each are no more than their counts add up to.
proof fn kept_within_counts(map: SortedMap<CandidateStats>, min_count: u64, length: int)
    requires
        min_count > 0,
    ensures
        kept_places(map, min_count, length).len() <= count_sum(
            map,
            kept_places(map, min_count, length),
        ),
    decreases length,
{
    if length > 0 {
        kept_within_counts(map, min_count, length - 1);
        let before = kept_places(map, min_count, length - 1);
        if is_kept(map, length - 1, min_count) {
            assert(before.push(length - 1).drop_last() =~= before);
        }
    }
}

/// Groups have no more surfaces than occurrences.
proof fn forms_within(
    groups: Seq<GroupSummary>,
    counts: Seq<ReadingCandidates>,
    min_group_size: usize,
    min_count: u64,
    count: int,
)
    requires
        min_count > 0,
        are_groups(groups, counts, min_group_size, min_count),
        0 <= count <= groups.len(),
    ensures
        form_sum(groups, count) <= group_sum(groups, count),
        form_sum(groups, count) <= form_sum(groups, groups.len() as int),
        group_sum(groups, count) <= group_sum(groups, groups.len() as int),
    decreases count,
{
    sums_grow(groups, count, groups.len() as int);
    if count > 0 {
        forms_within(groups, counts, min_group_size, min_count, count - 1);
        let group = groups[count - 1];
        assert(comes_from(group, counts, min_group_size, min_count));
        let i = choose|i: int|
            0 <= i < counts.len() && is_group(group, #[trigger] counts[i], min_count)
                && group.candidate_count >= min_group_size;
        let map = counts[i].candidates;
        kept_within_counts(map, min_count, map.keys@.len() as int);
    }
}

proof fn sums_grow(groups: Seq<GroupSummary>, count: int, more: int)
    requires
        0 <= count <= more,
    ensures
        form_sum(groups, count) <= form_sum(groups, more),
        group_sum(groups, count) <= group_sum(groups, more),
    decreases more - count,
{
    if count < more {
        sums_grow(groups, count, more - 1);
    }
}

fn sum_up(groups: &[GroupSummary]) -> (sums: (u64, u64))
    requires
        form_sum(groups@, groups@.len() as int) <= u64::MAX,
        group_sum(groups@, groups@.len() as int) <= u64::MAX,
    ensures
        sums.0 == form_sum(groups@, groups@.len() as int),
        sums.1 == group_sum(groups@, groups@.len() as int),
{
    let mut forms: u64 = 0;
    let mut total: u64 = 0;
    let mut i: usize = 0;
    while i < groups.len()
        invariant
            form_sum(groups@, groups@.len() as int) <= u64::MAX,
            group_sum(groups@, groups@.len() as int) <= u64::MAX,
            i <= groups@.len(),
            forms == form_sum(groups@, i as int),
            total == group_sum(groups@, i as int),
        decreases groups@.len() - i,
    {
        proof {
            sums_grow(groups@, i + 1, groups@.len() as int);
        }
        forms += groups[i].candidate_count as u64;
        total += groups[i].total_occurrences;
        i += 1;
    }
    (forms, total)
}

/// What was counted is what the words of the corpus give.
proof fn counts_are_counted(
    counts: HomophoneCounts,
    list: Seq<ReadingCandidates>,
    records: Seq<RecordView>,
    tokenizer: vibrato::Tokenizer,
    min_count: u64,
)
    requires
        counts.counts(corpus_words(records, tokenizer, records.len() as int)),
        corpus_words(records, tokenizer, records.len() as int).len() <= u64::MAX,
        list.len() == counts.spec_readings().len(),
        forall|i: int|
            0 <= i < list.len() ==> (#[trigger] list[i]).reading@ == counts.spec_readings()[i]
                && list[i].candidates == counts.spec_candidates()[i],
    ensures
        counted_in(list, records, tokenizer),
        can_be_grouped(list, min_count),
{
    let words = corpus_words(records, tokenizer, records.len() as int);
    assert forall|i: int| 0 <= i < list.len() implies are_candidates(
        (#[trigger] list[i]).candidates,
        words,
        list[i].reading@,
    ) && list[i].candidates.well_formed() && count_sum(
        list[i].candidates,
        all_kept(list[i].candidates, min_count),
    ) <= u64::MAX by {
        assert(are_candidates(counts.spec_candidates()[i], words, counts.spec_readings()[i]));
        kept_counts_within(list[i].candidates, words, list[i].reading@, min_count);
    }
    assert forall|i: int, j: int| 0 <= i < j < list.len() implies (#[trigger] list[i]).reading@
        != (#[trigger] list[j]).reading@ by {
        assert(counts.spec_readings()[i] != counts.spec_readings()[j]);
    }
    assert forall|i: int| 0 <= i < words.len() implies has_reading(
        list,
        (#[trigger] words[i]).token.reading,
    ) by {
        let reading = words[i].token.reading;
        assert(counts.spec_readings().contains(reading));
        let place = counts.spec_readings().index_of(reading);
        assert(list[place].reading@ == reading);
    }
}

/// Makes the groups of a corpus and collects the occurrences of their words. The occurrences are
/// always as many as the groups say.
pub fn build_homophones(
    options: &HomophoneBuildOptions,
    present: &PresentFiles,
    tokenizer: &vibrato::Tokenizer,
    records: &[CorpusRecord],
) -> (result: Result<HomophoneBuild, HomophoneError>)
    requires
        can_be_annotated(views(records@), *tokenizer),
    ensures
        match result {
            Ok(built) => {
                let all = views(records@);
                &&& option_fault(*options, *present) is None
                &&& can_be_counted(all, *tokenizer)
                &&& are_groups_of(
                    built.groups@,
                    all,
                    *tokenizer,
                    options.min_group_size,
                    options.min_candidate_count,
                )
                &&& all_show(
                    built.occurrences@,
                    corpus_occurrences(built.groups@, all, *tokenizer, all.len() as int),
                )
                &&& forall|i: int|
                    0 <= i < built.occurrences@.len() ==> stands_in_some(
                        #[trigger] built.occurrences@[i],
                        all,
                    )
                &&& built.stats.documents == all.len()
                &&& built.stats.sentences == sentence_total(all, all.len() as int)
                &&& built.stats.valid_tokens == corpus_words(
                    all,
                    *tokenizer,
                    all.len() as int,
                ).len()
                &&& built.candidate_forms == form_sum(built.groups@, built.groups@.len() as int)
                &&& built.group_occurrences == group_sum(
                    built.groups@,
                    built.groups@.len() as int,
                )
                &&& built.group_occurrences == built.occurrences@.len()
            },
            Err(HomophoneError::Options(fault)) => option_fault(*options, *present) == Some(fault),
            Err(HomophoneError::Overflow) => {
                &&& option_fault(*options, *present) is None
                &&& !can_be_counted(views(records@), *tokenizer)
            },
            Err(HomophoneError::Recount { .. }) => false,
        },
{
    match check_options(options, present) {
        Ok(()) => {},
        Err(fault) => {
            return Err(HomophoneError::Options(fault));
        },
    }
    let ghost all = views(records@);
    let builder = AnnotatedTokenSequenceBuilder::new(tokenizer);
    let (counts, stats) = match collect_statistics(records, &builder) {
        Some(collected) => collected,
        None => {
            return Err(HomophoneError::Overflow);
        },
    };
    let ghost collected = counts;
    let list = counts.into_readings();
    let ghost readings = list@;
    proof {
        counts_are_counted(collected, readings, all, *tokenizer, options.min_candidate_count);
    }
    let groups = build_groups(list, options.min_group_size, options.min_candidate_count);
    proof {
        forms_within(
            groups@,
            readings,
            options.min_group_size,
            options.min_candidate_count,
            groups@.len() as int,
        );
        recount_agrees(
            groups@,
            readings,
            all,
            *tokenizer,
            options.min_group_size,
            options.min_candidate_count,
        );
        assert(are_named(groups@)) by {
            assert forall|i: int| 0 <= i < groups@.len() implies (
            #[trigger] groups@[i]).group_id@ == "homophone:"@ + groups@[i].reading@ by {
                assert(comes_from(
                    groups@[i],
                    readings,
                    options.min_group_size,
                    options.min_candidate_count,
                ));
            }
        }
    }
    let (candidate_forms, group_occurrences) = sum_up(&groups);
    let occurrences = write_occurrences(&groups, records, &builder);
    if occurrences.len() as u64 != group_occurrences {
        return Err(
            HomophoneError::Recount {
                expected: group_occurrences,
                found: occurrences.len() as u64,
            },
        );
    }
    Ok(HomophoneBuild { groups, occurrences, stats, candidate_forms, group_occurrences })
}

/// The level at which the files are compressed.
pub const ASSET_LEVEL: i32 = 3;

/// The two files of a release, nothing where one of them could not be made.
pub fn file_pair(groups: Option<OutputFile>, occurrences: Option<OutputFile>) -> (pair: Option<
    (OutputFile, OutputFile),
>)
    ensures
        pair == match (groups, occurrences) {
            (Some(groups), Some(occurrences)) => Some((groups, occurrences)),
            _ => None,
        },
{
    match (groups, occurrences) {
        (Some(groups), Some(occurrences)) => Some((groups, occurrences)),
        _ => None,
    }
}

/// Makes the files of the groups and of the occurrences from their lines of JSON. Nothing exactly
/// where the compressor makes no frame of one of them.
pub fn release_files(built: &HomophoneBuild, groups: &[u8], occurrences: &[u8]) -> (result: Option<
    (OutputFile, OutputFile),
>)
    ensures
        match result {
            Some((first, second)) => {
                &&& is_packed_file(
                    first,
                    HOMOPHONE_GROUPS_ASSET@,
                    built.groups@.len() as u64,
                    groups@,
                    ASSET_LEVEL as int,
                )
                &&& is_packed_file(
                    second,
                    HOMOPHONE_OCCURRENCES_ASSET@,
                    built.occurrences@.len() as u64,
                    occurrences@,
                    ASSET_LEVEL as int,
                )
            },
            None => {
                ||| zstd_frame(groups@, ASSET_LEVEL as int) is None
                ||| zstd_frame(occurrences@, ASSET_LEVEL as int) is None
            },
        },
{
    let first = packed_file(
        HOMOPHONE_GROUPS_ASSET,
        built.groups.len() as u64,
        groups,
        ASSET_LEVEL,
    );
    let second = packed_file(
        HOMOPHONE_OCCURRENCES_ASSET,
        built.occurrences.len() as u64,
        occurrences,
        ASSET_LEVEL,
    );
    file_pair(first, second)
}

} // verus!
