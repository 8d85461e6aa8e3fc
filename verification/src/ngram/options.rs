//! How the n-gram dictionaries are built, and which options are refused.

use crate::ngram::exactness::discovers_all;
use crate::paths::{find_missing, first_missing, is_sorted_from, sort_paths};
use crate::text::{decimal, decimal_of, texts};
use vstd::prelude::*;

verus! {

/// How the dictionaries are built, and what is recorded of their sources. Files are given by
/// their paths. The scale of costs is a real number, which is kept beside the options.
#[derive(Clone, Debug)]
pub struct BuildOptions {
    pub inputs: Vec<String>,
    pub vibrato_dictionary: String,
    pub mozc_id_def: String,
    pub mozc_license: String,
    pub ipadic_copying: String,
    pub ipadic_notice: String,
    pub output_dir: String,
    pub work_dir: String,
    pub unigram_min_count: u64,
    pub ngram_min_count: u64,
    pub map_min_count: u32,
    pub entries_per_shard: usize,
    pub mozc_commit: String,
    pub vibrato_dictionary_version: String,
    pub pipeline_commit: String,
}

/// A file that is read or copied, beside the corpus itself.
#[derive(Clone, Copy, Debug, PartialEq, Eq, Structural)]
pub enum SourceFile {
    VibratoDictionary,
    MozcIdDef,
    MozcLicense,
    IpadicCopying,
    IpadicNotice,
}

impl SourceFile {
    /// What the file is called.
    pub open spec fn text(self) -> Seq<char> {
        match self {
            SourceFile::VibratoDictionary => "Vibrato dictionary"@,
            SourceFile::MozcIdDef => "Mozc id.def"@,
            SourceFile::MozcLicense => "Mozc license"@,
            SourceFile::IpadicCopying => "IPADIC COPYING"@,
            SourceFile::IpadicNotice => "IPADIC NOTICE"@,
        }
    }

    /// What the file is called.
    pub fn label(self) -> (label: &'static str)
        ensures
            label@ == self.text(),
    {
        match self {
            SourceFile::VibratoDictionary => "Vibrato dictionary",
            SourceFile::MozcIdDef => "Mozc id.def",
            SourceFile::MozcLicense => "Mozc license",
            SourceFile::IpadicCopying => "IPADIC COPYING",
            SourceFile::IpadicNotice => "IPADIC NOTICE",
        }
    }

    /// The path that the options give for the file.
    pub open spec fn path_in(self, options: BuildOptions) -> Seq<char> {
        match self {
            SourceFile::VibratoDictionary => options.vibrato_dictionary@,
            SourceFile::MozcIdDef => options.mozc_id_def@,
            SourceFile::MozcLicense => options.mozc_license@,
            SourceFile::IpadicCopying => options.ipadic_copying@,
            SourceFile::IpadicNotice => options.ipadic_notice@,
        }
    }

    /// The path that the options give for the file.
    pub fn path(self, options: &BuildOptions) -> (path: &str)
        ensures
            path@ == self.path_in(*options),
    {
        match self {
            SourceFile::VibratoDictionary => options.vibrato_dictionary.as_str(),
            SourceFile::MozcIdDef => options.mozc_id_def.as_str(),
            SourceFile::MozcLicense => options.mozc_license.as_str(),
            SourceFile::IpadicCopying => options.ipadic_copying.as_str(),
            SourceFile::IpadicNotice => options.ipadic_notice.as_str(),
        }
    }
}

/// Which of the files that the options name are there. Inputs are given by their paths, in any
/// order.
#[derive(Clone, Debug)]
pub struct PresentFiles {
    pub inputs: Vec<String>,
    pub vibrato_dictionary: bool,
    pub mozc_id_def: bool,
    pub mozc_license: bool,
    pub ipadic_copying: bool,
    pub ipadic_notice: bool,
}

/// What is wrong with the options.
#[derive(Clone, Copy, Debug, PartialEq, Eq, Structural)]
pub enum OptionFault {
    NoInputs,
    MissingInput(usize),
    MissingFile(SourceFile),
    Thresholds,
    MapMinCount,
    Discovery,
    CostScale,
    ShardSize,
}

/// The largest count of an n-gram that no input repeats `map_min_count` times.
pub open spec fn undiscovered(inputs: nat, map_min_count: u32) -> nat {
    (inputs * (map_min_count - 1)) as nat
}

/// The largest count of an n-gram that no input repeats `map_min_count` times.
pub fn maximum_undiscovered(inputs: usize, map_min_count: u32) -> (maximum: u128)
    requires
        map_min_count > 0,
    ensures
        maximum == undiscovered(inputs as nat, map_min_count),
{
    assert(inputs * (map_min_count - 1) <= 0xFFFF_FFFF_FFFF_FFFF * 0xFFFF_FFFF
        && inputs * (map_min_count - 1) >= 0) by (nonlinear_arith)
        requires
            0 <= inputs <= 0xFFFF_FFFF_FFFF_FFFF,
            0 < map_min_count <= 0xFFFF_FFFF,
    ;
    inputs as u128 * (map_min_count - 1) as u128
}

/// The first thing that is wrong with the options.
pub open spec fn option_fault(
    options: BuildOptions,
    present: PresentFiles,
    scale_is_valid: bool,
) -> Option<OptionFault> {
    let missing = first_missing(texts(options.inputs@), texts(present.inputs@), 0);
    if options.inputs@.len() == 0 {
        Some(OptionFault::NoInputs)
    } else if missing < options.inputs@.len() {
        Some(OptionFault::MissingInput(missing as usize))
    } else if !present.vibrato_dictionary {
        Some(OptionFault::MissingFile(SourceFile::VibratoDictionary))
    } else if !present.mozc_id_def {
        Some(OptionFault::MissingFile(SourceFile::MozcIdDef))
    } else if !present.mozc_license {
        Some(OptionFault::MissingFile(SourceFile::MozcLicense))
    } else if !present.ipadic_copying {
        Some(OptionFault::MissingFile(SourceFile::IpadicCopying))
    } else if !present.ipadic_notice {
        Some(OptionFault::MissingFile(SourceFile::IpadicNotice))
    } else if options.unigram_min_count == 0 || options.ngram_min_count == 0 {
        Some(OptionFault::Thresholds)
    } else if options.map_min_count < 2 {
        Some(OptionFault::MapMinCount)
    } else if options.ngram_min_count <= undiscovered(
        options.inputs@.len(),
        options.map_min_count,
    ) {
        Some(OptionFault::Discovery)
    } else if !scale_is_valid {
        Some(OptionFault::CostScale)
    } else if options.entries_per_shard == 0 {
        Some(OptionFault::ShardSize)
    } else {
        None
    }
}

/// Whether the options are the same but for the order of the inputs.
pub open spec fn same_but_for_order(options: BuildOptions, before: BuildOptions) -> bool {
    &&& is_sorted_from(options.inputs@, before.inputs@)
    &&& options == (BuildOptions { inputs: options.inputs, ..before })
}

/// Puts the inputs in the order of their paths and checks the options: with valid ones every
/// n-gram that comes often enough is found. `scale_is_valid` tells whether the scale of costs is
/// a finite positive number. A missing input is named by its place after the sorting.
pub fn validate_options(
    options: &mut BuildOptions,
    present: &PresentFiles,
    scale_is_valid: bool,
) -> (result: Result<(), OptionFault>)
    ensures
        same_but_for_order(*final(options), *old(options)),
        result == match option_fault(*final(options), *present, scale_is_valid) {
            Some(fault) => Err(fault),
            None => Ok(()),
        },
        result is Ok ==> discovers_all(
            final(options).inputs@.len(),
            final(options).ngram_min_count,
            final(options).map_min_count,
        ),
{
    sort_paths(&mut options.inputs);
    check_options(options, present, scale_is_valid)
}

/// Checks the options as they are. A missing input is named by its place.
pub fn check_options(options: &BuildOptions, present: &PresentFiles, scale_is_valid: bool) -> (
result: Result<(), OptionFault>)
    ensures
        result == match option_fault(*options, *present, scale_is_valid) {
            Some(fault) => Err(fault),
            None => Ok(()),
        },
        result is Ok ==> discovers_all(
            options.inputs@.len(),
            options.ngram_min_count,
            options.map_min_count,
        ),
{
    if options.inputs.len() == 0 {
        return Err(OptionFault::NoInputs);
    }
    if let Some(missing) = find_missing(&options.inputs, &present.inputs) {
        return Err(OptionFault::MissingInput(missing));
    }
    if !present.vibrato_dictionary {
        return Err(OptionFault::MissingFile(SourceFile::VibratoDictionary));
    }
    if !present.mozc_id_def {
        return Err(OptionFault::MissingFile(SourceFile::MozcIdDef));
    }
    if !present.mozc_license {
        return Err(OptionFault::MissingFile(SourceFile::MozcLicense));
    }
    if !present.ipadic_copying {
        return Err(OptionFault::MissingFile(SourceFile::IpadicCopying));
    }
    if !present.ipadic_notice {
        return Err(OptionFault::MissingFile(SourceFile::IpadicNotice));
    }
    if options.unigram_min_count == 0 || options.ngram_min_count == 0 {
        return Err(OptionFault::Thresholds);
    }
    if options.map_min_count < 2 {
        return Err(OptionFault::MapMinCount);
    }
    let maximum = maximum_undiscovered(options.inputs.len(), options.map_min_count);
    if options.ngram_min_count as u128 <= maximum {
        return Err(OptionFault::Discovery);
    }
    if !scale_is_valid {
        return Err(OptionFault::CostScale);
    }
    if options.entries_per_shard == 0 {
        return Err(OptionFault::ShardSize);
    }
    proof {
        let inputs = options.inputs@.len();
        let repeats = options.map_min_count;
        assert(inputs * (repeats - 1) >= 0) by (nonlinear_arith)
            requires
                inputs >= 0,
                repeats >= 1,
        ;
    }
    Ok(())
}

impl OptionFault {
    /// The fault in words.
    pub open spec fn text(self, options: BuildOptions) -> Seq<char> {
        match self {
            OptionFault::NoInputs => "at least one --input is required"@,
            OptionFault::MissingInput(i) => "input does not exist: "@ + options.inputs@[i as int]@,
            OptionFault::MissingFile(file) => file.text() + " does not exist: "@ + file.path_in(
                options,
            ),
            OptionFault::Thresholds => "frequency thresholds must be positive"@,
            OptionFault::MapMinCount => "--map-min-count must be at least 2"@,
            OptionFault::Discovery => "ngram threshold "@ + decimal_of(
                options.ngram_min_count as nat,
            ) + " does not guarantee exact candidate discovery across "@ + decimal_of(
                options.inputs@.len(),
            ) + " assets; it must be greater than "@ + decimal_of(
                undiscovered(options.inputs@.len(), options.map_min_count),
            ),
            OptionFault::CostScale => "--cost-scale must be finite and positive"@,
            OptionFault::ShardSize => "--entries-per-shard must be positive"@,
        }
    }

    /// Says the fault in words.
    pub fn message(self, options: &BuildOptions) -> (message: String)
        requires
            self matches OptionFault::MissingInput(i) ==> i < options.inputs@.len(),
            self is Discovery ==> options.map_min_count > 0,
        ensures
            message@ == self.text(*options),
    {
        match self {
            OptionFault::NoInputs => "at least one --input is required".to_owned(),
            OptionFault::MissingInput(i) => {
                let mut message = "input does not exist: ".to_owned();
                message.append(options.inputs[i].as_str());
                message
            },
            OptionFault::MissingFile(file) => {
                let mut message = file.label().to_owned();
                message.append(" does not exist: ");
                message.append(file.path(options));
                message
            },
            OptionFault::Thresholds => "frequency thresholds must be positive".to_owned(),
            OptionFault::MapMinCount => "--map-min-count must be at least 2".to_owned(),
            OptionFault::Discovery => {
                let mut message = "ngram threshold ".to_owned();
                message.append(decimal(options.ngram_min_count as u128).as_str());
                message.append(" does not guarantee exact candidate discovery across ");
                message.append(decimal(options.inputs.len() as u128).as_str());
                message.append(" assets; it must be greater than ");
                message.append(
                    decimal(
                        maximum_undiscovered(options.inputs.len(), options.map_min_count),
                    ).as_str(),
                );
                message
            },
            OptionFault::CostScale => "--cost-scale must be finite and positive".to_owned(),
            OptionFault::ShardSize => "--entries-per-shard must be positive".to_owned(),
        }
    }
}

} // verus!
