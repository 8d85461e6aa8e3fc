use japanese_corpus::compression::{read_contents, Compression};
use japanese_corpus::homophone::annotation::{annotate, AnnotatedTokenSequenceBuilder};
use japanese_corpus::homophone::candidates::{CandidateStats, HomophoneCounts, ReadingCandidates};
use japanese_corpus::homophone::groups::{build_groups, find_group, group_of};
use japanese_corpus::homophone::occurrences::{
    collect_statistics, record_lines, write_occurrences, CorpusRecord,
};
use japanese_corpus::homophone::release::{
    build_homophones, file_pair, release_files, validate_options, HomophoneBuildOptions, HomophoneError, OptionFault,
    PresentFiles, HOMOPHONE_MANIFEST_ASSET,
};
use japanese_corpus::ngram::tokenizer::Morpheme;
use japanese_corpus::output::{json_name, output_file};
use japanese_corpus::sorted::SortedMap;

const LEXICON: &str = "猫,0,0,100,名詞,一般,*,*,*,*,猫,ネコ,ネコ\n\
が,0,0,100,助詞,格助詞,一般,*,*,*,が,ガ,ガ\n\
交渉,0,0,100,名詞,サ変接続,*,*,*,*,交渉,コウショウ,コーショー\n\
高尚,0,0,100,名詞,形容動詞語幹,*,*,*,*,高尚,コウショウ,コーショー\n";

fn tokenizer() -> vibrato::Tokenizer {
    let dictionary = vibrato::SystemDictionaryBuilder::from_readers(
        LEXICON.as_bytes(),
        "1 1\n0 0 0\n".as_bytes(),
        "DEFAULT 0 0 1\n".as_bytes(),
        "DEFAULT,0,0,10000,記号,一般,*,*,*,*,*\n".as_bytes(),
    )
    .unwrap();
    vibrato::Tokenizer::new(dictionary)
}

fn options() -> HomophoneBuildOptions {
    HomophoneBuildOptions {
        inputs: vec!["corpus.jsonl.zst".to_owned()],
        vibrato_dictionary: "system.dic".to_owned(),
        output_dir: "output".to_owned(),
        min_group_size: 2,
        min_candidate_count: 1,
        vibrato_dictionary_version: String::new(),
        pipeline_commit: String::new(),
    }
}

fn all_present() -> PresentFiles {
    PresentFiles {
        inputs: vec!["corpus.jsonl.zst".to_owned()],
        vibrato_dictionary: true,
    }
}

fn record(source: &str, document_id: &str, text: &str) -> CorpusRecord {
    CorpusRecord {
        source: source.to_owned(),
        document_id: document_id.to_owned(),
        title: "title".to_owned(),
        url: "https://example.test/".to_owned(),
        text: text.to_owned(),
    }
}

fn records() -> Vec<CorpusRecord> {
    vec![
        record("wiki", "doc-1", "猫。 高尚が交渉! "),
        record("news", "doc-2", "猫が交渉"),
    ]
}

fn counts() -> Vec<ReadingCandidates> {
    let mut candidates = SortedMap::new();
    candidates.slot("交渉", CandidateStats::with_count(2));
    candidates.slot("高尚", CandidateStats::with_count(1));
    vec![ReadingCandidates {
        reading: "こうしょう".to_owned(),
        candidates,
    }]
}

#[test]
fn groups_require_distinct_surface_forms() {
    let groups = build_groups(counts(), 2, 1);
    let place = find_group(&groups, "こうしょう").unwrap();
    assert_eq!(groups[place].candidate_count, 2);
    assert_eq!(groups[place].total_occurrences, 3);
}

#[test]
fn candidate_frequency_filter_is_applied_before_grouping() {
    assert!(build_groups(counts(), 2, 2).is_empty());
}

#[test]
fn groups_are_sorted_by_reading() {
    let mut all = counts();
    let mut candidates = SortedMap::new();
    candidates.slot("神", CandidateStats::with_count(1));
    candidates.slot("髪", CandidateStats::with_count(1));
    candidates.slot("紙", CandidateStats::with_count(9));
    all.push(ReadingCandidates {
        reading: "かみ".to_owned(),
        candidates,
    });
    let groups = build_groups(all, 2, 1);
    let readings: Vec<&str> = groups.iter().map(|group| group.reading.as_str()).collect();
    assert_eq!(readings, vec!["かみ", "こうしょう"]);
    assert_eq!(groups[0].group_id, "homophone:かみ");
    let surfaces: Vec<&str> = groups[0]
        .candidates
        .iter()
        .map(|candidate| candidate.surface.as_str())
        .collect();
    assert_eq!(surfaces, vec!["神", "紙", "髪"]);
    assert_eq!(find_group(&groups, "ねこ"), None);
    assert!(group_of(counts().remove(0), 3, 1).is_none());
}

#[test]
fn sorted_maps_keep_their_order() {
    let mut map = SortedMap::new();
    assert_eq!(map.slot("b", 1u64), 0);
    assert_eq!(map.slot("a", 2), 0);
    assert_eq!(map.slot("b", 3), 1);
    assert_eq!(map.len(), 2);
    assert_eq!(map.values, vec![2, 1]);
    assert_eq!(map.find("a"), Some(0));
    assert_eq!(map.find("c"), None);
    assert!(HomophoneCounts::new().into_readings().is_empty());
}

#[test]
fn words_are_annotated() {
    let word = |surface: &str, feature: &str, start, end| Morpheme {
        surface: surface.to_owned(),
        feature: feature.to_owned(),
        start,
        end,
    };
    let tokens = annotate(&[
        word("交渉", "名詞,サ変接続,*,*,*,*,交渉,コウショウ,コーショー", 0, 2),
        word("。", "記号,句点,*,*,*,*,。,。,。", 2, 3),
        word("ねこ", "名詞", 3, 5),
    ]);
    assert_eq!(tokens.len(), 2);
    assert_eq!(tokens[0].reading, "こうしょう");
    assert_eq!(tokens[0].subpos, "サ変接続");
    assert_eq!(tokens[1].lemma, "ねこ");
    assert_eq!((tokens[1].start, tokens[1].end), (3, 5));
}

#[test]
fn homophones_are_collected_with_their_contexts() {
    let tokenizer = tokenizer();
    let built = build_homophones(&options(), &all_present(), &tokenizer, &records())
        .ok()
        .unwrap();
    assert_eq!(built.stats.documents, 2);
    assert_eq!(built.stats.sentences, 3);
    assert_eq!(built.stats.valid_tokens, 7);
    assert_eq!(built.candidate_forms, 2);
    assert_eq!(built.group_occurrences, 3);
    assert_eq!(built.groups.len(), 1);
    let candidate = &built.groups[0].candidates[0];
    assert_eq!(candidate.surface, "交渉");
    assert_eq!(candidate.occurrence_count, 2);
    assert_eq!(candidate.lemmas, vec!["交渉"]);
    assert_eq!(candidate.parts_of_speech, vec!["名詞/サ変接続/*"]);
    assert_eq!(candidate.source_counts.keys, vec!["news", "wiki"]);
    assert_eq!(candidate.source_counts.values, vec![1, 1]);

    assert_eq!(built.occurrences.len(), 3);
    let occurrence = &built.occurrences[1];
    assert_eq!(occurrence.group_id, "homophone:こうしょう");
    assert_eq!(occurrence.surface, "交渉");
    assert_eq!(occurrence.sentence_id, "doc-1:s000001");
    assert_eq!(occurrence.sentence, "高尚が交渉");
    assert_eq!((occurrence.sentence_start, occurrence.sentence_end), (3, 8));
    assert_eq!((occurrence.target_start, occurrence.target_end), (6, 8));
    assert_eq!(occurrence.token_index, 2);
    assert_eq!(occurrence.left_context, "高尚が");
    assert_eq!(occurrence.right_context, "");
    let text: Vec<char> = records()[0].text.chars().collect();
    let target: String = text[occurrence.target_start..occurrence.target_end].iter().collect();
    assert_eq!(target, occurrence.surface);
}

#[test]
fn occurrences_are_of_grouped_words() {
    let tokenizer = tokenizer();
    let builder = AnnotatedTokenSequenceBuilder::new(&tokenizer);
    assert_eq!(builder.tokenize("猫が").len(), 2);
    let (counts, stats) = collect_statistics(&records(), &builder).unwrap();
    assert_eq!(stats.valid_tokens, 7);
    let groups = build_groups(counts.into_readings(), 2, 2);
    assert!(groups.is_empty());
    assert!(write_occurrences(&groups, &records(), &builder).is_empty());
}

#[test]
fn homophone_options_are_checked_in_order() {
    let check = |change: &dyn Fn(&mut HomophoneBuildOptions, &mut PresentFiles)| {
        let mut options = options();
        let mut present = all_present();
        change(&mut options, &mut present);
        let fault = validate_options(&mut options, &present).unwrap_err();
        (fault, fault.message(&options))
    };
    let (fault, _) = check(&|options, present| {
        options.inputs.clear();
        present.inputs.clear();
    });
    assert_eq!(fault, OptionFault::NoInputs);
    let (fault, message) = check(&|_, present| present.inputs.clear());
    assert_eq!(fault, OptionFault::MissingInput(0));
    assert_eq!(message, "input does not exist: corpus.jsonl.zst");
    let (_, message) = check(&|_, present| present.vibrato_dictionary = false);
    assert_eq!(message, "Vibrato dictionary does not exist: system.dic");
    let (_, message) = check(&|options, _| options.min_group_size = 1);
    assert_eq!(message, "--min-group-size must be at least 2");
    let (_, message) = check(&|options, _| options.min_candidate_count = 0);
    assert_eq!(message, "--min-candidate-count must be positive");
    let mut wrong = options();
    wrong.min_group_size = 0;
    let error = build_homophones(&wrong, &all_present(), &tokenizer(), &[]).err().unwrap();
    assert_eq!(error, HomophoneError::Options(OptionFault::GroupSize));
    let recount = HomophoneError::Recount {
        expected: 3,
        found: 2,
    };
    assert_eq!(
        recount.message(&wrong),
        "occurrence recount mismatch: group index has 3, output has 2"
    );
    assert!(json_name(HOMOPHONE_MANIFEST_ASSET).ends_with(".json"));
}

#[test]
fn homophone_inputs_are_sorted() {
    let mut given = options();
    given.inputs = vec!["b/c".to_owned(), "a".to_owned(), "b".to_owned()];
    let mut present = all_present();
    present.inputs = given.inputs.clone();
    assert_eq!(validate_options(&mut given, &present), Ok(()));
    assert_eq!(given.inputs, ["a", "b", "b/c"]);
    given.inputs.reverse();
    present.inputs.remove(0);
    assert_eq!(
        validate_options(&mut given, &present),
        Err(OptionFault::MissingInput(2))
    );
    assert_eq!(
        OptionFault::MissingInput(2).message(&given),
        "input does not exist: b/c"
    );
}

#[test]
fn homophone_files_are_compressed() {
    let tokenizer = tokenizer();
    let built = build_homophones(&options(), &all_present(), &tokenizer, &records())
        .ok()
        .unwrap();
    let (groups, occurrences) = release_files(&built, b"{}\n", b"[]\n").unwrap();
    assert_eq!(groups.asset.name, "homophone-groups.jsonl.zst");
    assert_eq!(groups.asset.entries, Some(1));
    assert_eq!(occurrences.asset.entries, Some(3));
    assert_eq!(
        read_contents(occurrences.contents, Compression::Zstd).unwrap(),
        b"[]\n"
    );
}

#[test]
fn blank_lines_are_no_records() {
    assert_eq!(
        record_lines("a\n \u{3000}\r\n\nb"),
        vec![(1, "a".to_owned()), (4, "b".to_owned())]
    );
}

#[test]
fn both_homophone_files_are_needed() {
    let file = |name: &str| Some(output_file(name, "", vec![]));
    let (groups, occurrences) = file_pair(file("a"), file("b")).unwrap();
    assert_eq!(groups.asset.name, "a");
    assert_eq!(occurrences.asset.name, "b");
    assert!(file_pair(file("a"), None).is_none());
    assert!(file_pair(None, file("b")).is_none());
}
