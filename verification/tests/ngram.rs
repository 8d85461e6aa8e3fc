use japanese_corpus::compression::{read_contents, Compression};
use japanese_corpus::id_def::IdDefError;
use japanese_corpus::kana::katakana_to_hiragana;
use japanese_corpus::ngram::corpus::Corpus;
use japanese_corpus::ngram::counts::{Candidates, Recount};
use japanese_corpus::ngram::exactness::count_corpus;
use japanese_corpus::ngram::id_map::MozcIdMap;
use japanese_corpus::ngram::options::{
    check_options, maximum_undiscovered, validate_options, BuildOptions, OptionFault, PresentFiles, SourceFile,
};
use japanese_corpus::ngram::packing::{
    pack_bigram, pack_trigram, unpack_bigram, unpack_trigram,
};
use japanese_corpus::ngram::pipeline::{token_file, tokenize_corpus, CountFault};
use japanese_corpus::ngram::release::{
    build, dictionary_readme, exact_count_guarantee, order_metadata, order_name, price_release,
    shard_prefix, write_release_files, BuildError, OrderMetadata, ScaledCosts, ThirdPartyFiles,
    MANIFEST_NAME,
};
use japanese_corpus::ngram::rows::{frequent_keys, mozc_cost, CountedRow};
use japanese_corpus::ngram::scan::{scan_tokens, ScanError};
use japanese_corpus::ngram::sentences::{split_sentence_spans, split_sentences};
use japanese_corpus::ngram::tokenizer::{
    contains_japanese_letter, contains_kanji, is_kana, token_sequences, valid_dictionary_text,
    valid_reading, Morpheme, TokenSequenceBuilder, MAX_TOKEN_FIELD_BYTES,
};
use japanese_corpus::ngram::tokens::TokenKey;
use japanese_corpus::ngram::vocabulary::{make_vocabulary, MISSING_VOCAB_ID};
use japanese_corpus::order::Rank;
use japanese_corpus::output::json_name;
use japanese_corpus::paths::{compare_paths, same_path};

const ID_DEF: &str = "10 名詞,一般,*,*,*,*,*\n\
20 名詞,固有名詞,人名,姓,*,*,山田\n\
25 名詞,接尾,一般,*,*,*,*\n\
30 動詞,自立,*,*,*,*,*\n\
31 助動詞,*,*,*,*,*,*\n\
40 助詞,格助詞,一般,*,*,*,*\n";

const LEXICON: &str = "猫,0,0,100,名詞,一般,*,*,*,*,猫,ネコ,ネコ\n\
が,0,0,100,助詞,格助詞,一般,*,*,*,が,ガ,ガ\n\
走る,0,0,100,動詞,自立,*,*,*,*,走る,ハシル,ハシル\n\
走り,0,0,100,動詞,自立,*,*,*,*,走る,ハシリ,ハシリ\n\
ます,0,0,100,助動詞,*,*,*,*,*,ます,マス,マス\n\
山田,0,0,100,名詞,固有名詞,人名,姓,*,*,山田,ヤマダ,ヤマダ\n\
家,0,0,100,名詞,接尾,一般,*,*,*,家,カ,カ\n";

fn tokenizer() -> vibrato::Tokenizer {
    let dictionary = vibrato::SystemDictionaryBuilder::from_readers(
        LEXICON.as_bytes(),
        "1 1\n0 0 0\n".as_bytes(),
        "DEFAULT 0 0 1\n".as_bytes(),
        "DEFAULT,0,0,10000,記号,一般,*,*,*,*,*\n".as_bytes(),
    )
    .unwrap();
    vibrato::Tokenizer::new(dictionary)
}

fn options(inputs: usize) -> BuildOptions {
    BuildOptions {
        inputs: (0..inputs).map(|n| format!("{n}")).collect(),
        vibrato_dictionary: "system.dic".to_owned(),
        mozc_id_def: "id.def".to_owned(),
        mozc_license: String::new(),
        ipadic_copying: String::new(),
        ipadic_notice: String::new(),
        output_dir: String::new(),
        work_dir: String::new(),
        unigram_min_count: 2,
        ngram_min_count: 3,
        map_min_count: 2,
        entries_per_shard: 10,
        mozc_commit: String::new(),
        vibrato_dictionary_version: String::new(),
        pipeline_commit: String::new(),
    }
}

fn all_present(inputs: usize) -> PresentFiles {
    PresentFiles {
        inputs: (0..inputs).map(|n| format!("{n}")).collect(),
        vibrato_dictionary: true,
        mozc_id_def: true,
        mozc_license: true,
        ipadic_copying: true,
        ipadic_notice: true,
    }
}

fn corpus() -> Vec<Vec<String>> {
    let text = "猫が走ります。猫が走ります！\n猫が走ります";
    vec![
        vec![text.to_owned(), "山田家が走る".to_owned()],
        vec![text.to_owned()],
    ]
}

fn scaled(count: u64, total: u64) -> i64 {
    (-(count as f64 / total as f64).ln() * 800.0).round() as i64
}

fn key(surface: &str, reading: &str, left_id: u16, right_id: u16) -> TokenKey {
    TokenKey {
        surface: surface.to_owned(),
        reading: reading.to_owned(),
        left_id,
        right_id,
    }
}

fn shown(token: &TokenKey) -> (&str, &str, u16, u16) {
    (&token.surface, &token.reading, token.left_id, token.right_id)
}

fn word(surface: &str, feature: &str) -> Morpheme {
    Morpheme {
        surface: surface.to_owned(),
        feature: feature.to_owned(),
        start: 0,
        end: 0,
    }
}

#[test]
fn packed_ids_round_trip() {
    assert_eq!(unpack_bigram(pack_bigram(1, u32::MAX)), (1, u32::MAX));
    assert_eq!(
        unpack_trigram(pack_trigram(4, 5, u32::MAX)),
        (4, 5, u32::MAX)
    );
}

#[test]
fn packed_ids_are_ordered() {
    assert_eq!(pack_bigram(1, 2), 0x1_0000_0002);
    assert_eq!(pack_trigram(1, 2, 3), 0x1_0000_0002_0000_0003);
    assert!(pack_bigram(1, u32::MAX) < pack_bigram(2, 0));
}

#[test]
fn exact_discovery_bound_is_enforced() {
    let mut options = options(16);
    options.unigram_min_count = 16;
    options.ngram_min_count = 16;
    let maximum_undiscovered =
        maximum_undiscovered(options.inputs.len(), options.map_min_count) as u64;
    assert_eq!(
        maximum_undiscovered,
        options.inputs.len() as u64 * u64::from(options.map_min_count - 1)
    );
    assert!(options.ngram_min_count <= maximum_undiscovered);
    let fault = validate_options(&mut options, &all_present(16), true).unwrap_err();
    assert_eq!(fault, OptionFault::Discovery);
    assert_eq!(
        fault.message(&options),
        "ngram threshold 16 does not guarantee exact candidate discovery across 16 assets; \
         it must be greater than 16"
    );
    options.ngram_min_count = maximum_undiscovered + 1;
    assert!(options.ngram_min_count > maximum_undiscovered);
    assert_eq!(validate_options(&mut options, &all_present(16), true), Ok(()));
}

#[test]
fn ngram_inputs_are_sorted_by_path() {
    let mut given = options(2);
    given.inputs = vec![
        "b//d".to_owned(),
        "b-c".to_owned(),
        "../a".to_owned(),
        "b/c".to_owned(),
        "/z".to_owned(),
        "./y".to_owned(),
    ];
    given.ngram_min_count = 7;
    let mut present = all_present(2);
    present.inputs = given.inputs.clone();
    assert_eq!(validate_options(&mut given, &present, true), Ok(()));
    assert_eq!(given.inputs, ["/z", "./y", "../a", "b/c", "b//d", "b-c"]);
    assert_eq!(given.ngram_min_count, 7);
    assert_eq!(check_options(&given, &present, true), Ok(()));
    assert_eq!(
        check_options(&given, &all_present(2), true),
        Err(OptionFault::MissingInput(0))
    );
}

#[test]
fn paths_are_ordered_part_by_part() {
    assert_eq!(compare_paths("a/b", "a-b"), Rank::Before);
    assert_eq!(compare_paths("a/b", "a/b/c"), Rank::Before);
    assert_eq!(compare_paths("a/b", "/a"), Rank::After);
    assert_eq!(compare_paths("a/./b//c/", "a/b/c"), Rank::Same);
    assert_eq!(compare_paths("./a", "a"), Rank::Before);
    assert_eq!(compare_paths("", "a"), Rank::Before);
    assert!(same_path("/a/.", "/a"));
    assert!(!same_path("./a", "a"));
    assert!(!same_path("a/../b", "b"));
}

#[test]
fn ngram_options_are_checked_in_order() {
    let check = |change: &dyn Fn(&mut BuildOptions, &mut PresentFiles)| {
        let mut options = options(2);
        let mut present = all_present(2);
        change(&mut options, &mut present);
        let fault = validate_options(&mut options, &present, true).unwrap_err();
        (fault, fault.message(&options))
    };
    let (fault, _) = check(&|options, present| {
        options.inputs.clear();
        present.inputs.clear();
    });
    assert_eq!(fault, OptionFault::NoInputs);
    let (fault, message) = check(&|_, present| present.inputs.truncate(1));
    assert_eq!(fault, OptionFault::MissingInput(1));
    assert_eq!(message, "input does not exist: 1");
    let (fault, message) = check(&|_, present| present.vibrato_dictionary = false);
    assert_eq!(fault, OptionFault::MissingFile(SourceFile::VibratoDictionary));
    assert_eq!(message, "Vibrato dictionary does not exist: system.dic");
    let (_, message) = check(&|_, present| present.mozc_id_def = false);
    assert_eq!(message, "Mozc id.def does not exist: id.def");
    let (fault, _) = check(&|options, _| options.unigram_min_count = 0);
    assert_eq!(fault, OptionFault::Thresholds);
    let (_, message) = check(&|options, _| options.map_min_count = 1);
    assert_eq!(message, "--map-min-count must be at least 2");
    let (_, message) = check(&|options, _| options.entries_per_shard = 0);
    assert_eq!(message, "--entries-per-shard must be positive");
    assert_eq!(
        validate_options(&mut options(2), &all_present(2), false),
        Err(OptionFault::CostScale)
    );
}

#[test]
fn frequent_items_have_lower_cost() {
    let cost = |count: u64, total: u64| mozc_cost(count, total, scaled(count, total));
    assert!(cost(100, 1000) < cost(10, 1000));
    assert_eq!(cost(0, 1000), 32767);
}

#[test]
fn costs_stay_in_range() {
    assert_eq!(mozc_cost(10, 1000, scaled(10, 1000)), 3684);
    assert_eq!(mozc_cost(1000, 1000, scaled(1000, 1000)), 1);
    assert_eq!(mozc_cost(1, 0, 5), 32767);
    assert_eq!(mozc_cost(1, 2, 40_000), 32767);
    assert_eq!(mozc_cost(1, 2, -40_000), 1);
}

#[test]
fn sentence_boundaries_do_not_cross_documents() {
    assert_eq!(
        split_sentences("今日は晴れ。明日も晴れ！\n最終行"),
        vec!["今日は晴れ", "明日も晴れ", "最終行"]
    );
}

#[test]
fn sentences_are_trimmed() {
    assert_eq!(split_sentences("  。 \u{3000}a b?。\t"), vec!["a b"]);
    assert!(split_sentences("").is_empty());
    let chars: Vec<char> = " 猫。 犬 ".chars().collect();
    let spans: Vec<(usize, usize)> = split_sentence_spans(&chars)
        .iter()
        .map(|span| (span.start, span.end))
        .collect();
    assert_eq!(spans, vec![(1, 2), (4, 5)]);
}

#[test]
fn katakana_readings_are_normalized() {
    assert_eq!(katakana_to_hiragana("ガッコーヽ"), "がっこーゝ");
}

#[test]
fn id_def_exact_and_fallback_matching() {
    let text = "10 名詞,一般,*,*,*,*,*\n20 名詞,固有名詞,人名,姓,*,*,山田\n";
    let map = MozcIdMap::load(text).unwrap();
    assert_eq!(
        map.resolve("名詞,固有名詞,人名,姓,*,*,山田,ヤマダ,ヤマダ"),
        20
    );
    assert_eq!(map.resolve("UNK"), 10);
}

#[test]
fn id_maps_need_a_noun() {
    assert!(matches!(
        MozcIdMap::load("1 動詞,自立,*,*,*,*,*\n"),
        Err(IdDefError::NoGenericNoun)
    ));
    let error = MozcIdMap::load("# none\n").err().unwrap();
    assert_eq!(error.message(), "Mozc id.def is empty");
    let error = MozcIdMap::load("1 名詞,一般\n").err().unwrap();
    assert_eq!(error.message(), "id.def line 1 has 2 fields instead of 7");
    let error = MozcIdMap::load("\n1\n").err().unwrap();
    assert_eq!(error.message(), "malformed id.def line 2: 1");
    let error = MozcIdMap::load("70000 名詞,一般\n").err().unwrap();
    assert_eq!(error.message(), "invalid context ID at id.def line 1");
    let quoted = MozcIdMap::load("7 \"名詞\",一般,*,*,*,*,*\n").unwrap();
    assert_eq!(quoted.resolve("UNK"), 7);
}

#[test]
fn letters_are_told_apart() {
    assert!(is_kana('ア') && is_kana('ん') && !is_kana('猫'));
    assert!(contains_kanji("a猫") && !contains_kanji("ねこ"));
    assert!(contains_japanese_letter("aねb") && !contains_japanese_letter("cat"));
    assert!(valid_dictionary_text("猫") && !valid_dictionary_text(""));
    assert!(!valid_dictionary_text("a\tb"));
    assert!(valid_dictionary_text(&"x".repeat(256)));
    assert!(!valid_dictionary_text(&"x".repeat(257)));
    assert!(valid_reading("ねこ") && !valid_reading("cat"));
}

#[test]
fn words_are_merged_into_units() {
    let ids = MozcIdMap::load(ID_DEF).unwrap();
    let sequences = token_sequences(
        &[
            word("走り", "動詞,自立,*,*,*,*,走る,ハシリ,ハシリ"),
            word("ます", "助動詞,*,*,*,*,*,ます,マス,マス"),
            word("。", "記号,句点,*,*,*,*,。,。,。"),
            word("山田", "名詞,固有名詞,人名,姓,*,*,山田,ヤマダ,ヤマダ"),
            word("家", "名詞,接尾,一般,*,*,*,家,カ,カ"),
            word("ねこ", "名詞,一般,*,*,*,*,*"),
            word("cat", "名詞,一般,*,*,*,*,*"),
        ],
        &ids,
    );
    let shown: Vec<Vec<(&str, &str, u16, u16)>> = sequences
        .iter()
        .map(|sequence| sequence.iter().map(shown).collect())
        .collect();
    assert_eq!(
        shown,
        vec![
            vec![("走ります", "はしります", 30, 31)],
            vec![("山田家", "やまだけ", 20, 25), ("ねこ", "ねこ", 10, 10)],
        ]
    );
}

#[test]
fn units_stay_within_the_limit() {
    let ids = MozcIdMap::load(ID_DEF).unwrap();
    let sounds = "ア".repeat(84);
    let feature = format!("名詞,接尾,一般,*,*,*,家,{sounds},{sounds}");
    let long = || word("家", &feature);
    let short = || word("家", "名詞,接尾,一般,*,*,*,家,ア,ア");
    let sequences = token_sequences(&[long(), short(), short(), long(), long()], &ids);
    assert_eq!(sequences.len(), 1);
    let lengths: Vec<usize> = sequences[0].iter().map(|token| token.reading.len()).collect();
    assert_eq!(lengths, [255, 255, 252]);
    assert_eq!(sequences[0][0].surface, "家家");
    assert!(lengths.iter().all(|length| *length <= MAX_TOKEN_FIELD_BYTES));
    assert!(lengths.iter().sum::<usize>() < 1024);
}

#[test]
fn sentences_are_analyzed() {
    let tokenizer = tokenizer();
    let ids = MozcIdMap::load(ID_DEF).unwrap();
    let builder = TokenSequenceBuilder::new(&tokenizer, &ids);
    let sequences = builder.tokenize("猫が走ります");
    assert_eq!(sequences.len(), 1);
    let surfaces: Vec<&str> = sequences[0]
        .iter()
        .map(|token| token.surface.as_str())
        .collect();
    assert_eq!(surfaces, vec!["猫", "が", "走ります"]);
    assert!(builder.tokenize("cat").is_empty());
}

#[test]
fn tokens_are_numbered_as_they_come() {
    let tokenizer = tokenizer();
    let ids = MozcIdMap::load(ID_DEF).unwrap();
    let builder = TokenSequenceBuilder::new(&tokenizer, &ids);
    let mut corpus = Corpus::new();
    let records = vec!["猫が走る。猫x走る".to_owned(), "猫が".to_owned()];
    assert_eq!(
        corpus.tokenize_input(&records, &builder).unwrap(),
        "0 1 2\n0\n2\n0 1\n"
    );
    let stats = corpus.stats();
    assert_eq!(stats.documents, 2);
    assert_eq!(stats.sentences, 4);
    assert_eq!(stats.valid_tokens, 7);
    let (tokens, counts) = corpus.into_parts();
    assert_eq!(shown(&tokens[0]), ("猫", "ねこ", 10, 10));
    assert_eq!(counts, vec![3, 2, 2]);
}

#[test]
fn vocabularies_are_sorted_and_frequent() {
    let raw = vec![key("い", "い", 1, 1), key("あ", "あ", 1, 1), key("う", "う", 1, 1)];
    let vocabulary = make_vocabulary(&raw, &[5, 3, 1], 2).unwrap();
    let surfaces: Vec<&str> = vocabulary
        .tokens
        .iter()
        .map(|token| token.surface.as_str())
        .collect();
    assert_eq!(surfaces, vec!["あ", "い"]);
    assert_eq!(vocabulary.counts, vec![3, 5]);
    assert_eq!(vocabulary.raw_to_vocab, vec![1, 0, MISSING_VOCAB_ID]);
}

#[test]
fn token_files_are_scanned() {
    let runs = scan_tokens("0 1 2\n2\n1 1\n", &[7, 8, MISSING_VOCAB_ID]).unwrap();
    assert_eq!(runs, vec![vec![7, 8], vec![8, 8]]);
    let error = scan_tokens("0 x\n", &[7]).unwrap_err();
    assert!(matches!(error, ScanError::Number(_)));
    let error = scan_tokens("0 1\n", &[7]).unwrap_err();
    assert!(matches!(error, ScanError::OutOfRange(1)));
}

#[test]
fn candidates_come_often_in_some_file() {
    let mut candidates = Candidates::new();
    candidates.discover_file(&[vec![1, 2, 3], vec![1, 2]], 2);
    assert_eq!(candidates.lens(), (1, 0));
    candidates.discover_file(&[vec![1, 2, 3], vec![1, 2, 3]], 2);
    assert_eq!(candidates.lens(), (2, 1));
    let mut recount = Recount::new(candidates);
    recount.count_file(&[vec![1, 2, 3, 4]]);
    assert_eq!(recount.totals(), (3, 2));
    assert_eq!(recount.trigram_counts(), vec![(pack_trigram(1, 2, 3), 1)]);
}

#[test]
fn frequent_ngrams_are_counted_exactly() {
    let files = vec![
        vec![vec![1, 2], vec![1, 2], vec![3, 4]],
        vec![vec![1, 2, 3]],
        vec![vec![3, 4], vec![1, 2]],
    ];
    let recount = count_corpus(&files, 2);
    let list = recount.bigram_counts();
    assert_eq!(list, vec![(pack_bigram(1, 2), 4)]);
    assert_eq!(recount.totals(), (7, 1));
    assert_eq!(frequent_keys(&list, 4), list);
    assert!(frequent_keys(&list, 5).is_empty());
}

#[test]
fn ngram_keys_are_sorted() {
    let list = vec![(9u64, 3), (2, 1), (5, 4)];
    assert_eq!(frequent_keys(&list, 2), vec![(5, 4), (9, 3)]);
}

#[test]
fn ngram_dictionaries_are_built() {
    let tokenizer = tokenizer();
    let files = corpus();
    let built = build(&options(2), &all_present(2), true, ID_DEF, &tokenizer, &files)
        .ok()
        .unwrap();
    assert_eq!(built.counted.stats.documents, 3);
    assert_eq!(built.counted.stats.sentences, 7);
    assert_eq!(built.counted.stats.valid_tokens, 21);
    assert_eq!(built.counted.raw_unique_tokens, 5);
    let shown = |rows: &[CountedRow]| -> Vec<(String, u16, u16, String, u64)> {
        let mut shown: Vec<(String, u16, u16, String, u64)> = rows
            .iter()
            .map(|row| {
                let (reading, surface) = (row.reading.clone(), row.surface.clone());
                (reading, row.left_id, row.right_id, surface, row.count)
            })
            .collect();
        shown.sort();
        shown
    };
    let row = |reading: &str, left_id, right_id, surface: &str, count| {
        (reading.to_owned(), left_id, right_id, surface.to_owned(), count)
    };
    assert_eq!(
        shown(&built.rows.unigrams),
        vec![
            row("が", 40, 40, "が", 7),
            row("ねこ", 10, 10, "猫", 6),
            row("はしります", 30, 31, "走ります", 6),
        ]
    );
    assert_eq!(
        shown(&built.rows.bigrams),
        vec![
            row("がはしります", 40, 31, "が走ります", 6),
            row("ねこが", 10, 40, "猫が", 6),
        ]
    );
    assert_eq!(
        shown(&built.rows.trigrams),
        vec![row("ねこがはしります", 10, 31, "猫が走ります", 6)]
    );
    let metadata = |order, total_observations, retained_entries| OrderMetadata {
        order,
        total_observations,
        retained_entries,
    };
    assert_eq!(
        order_metadata(&built.counted.counts, &built.rows),
        vec![metadata(1, 21, 3), metadata(2, 12, 2), metadata(3, 6, 1)]
    );

    let counts = &built.counted.counts;
    let price = |rows: &[CountedRow], total| -> Vec<i64> {
        rows.iter().map(|row| scaled(row.count, total)).collect()
    };
    let scaled = ScaledCosts {
        unigrams: price(&built.rows.unigrams, counts.unigram_total),
        bigrams: price(&built.rows.bigrams, counts.bigram_total),
        trigrams: price(&built.rows.trigrams, counts.trigram_total),
    };
    let priced = price_release(built.rows, counts, &scaled);
    assert_eq!(priced.trigrams[0].cost, 1);
    assert_eq!(priced.bigrams[0].cost, 555);
    let third_party = ThirdPartyFiles {
        mozc_id_def: ID_DEF.as_bytes().to_vec(),
        mozc_license: b"licence".to_vec(),
        ipadic_copying: b"copying".to_vec(),
        ipadic_notice: b"notice".to_vec(),
    };
    let mut released = write_release_files(&priced, third_party, "readme", 1).unwrap();
    let names: Vec<&str> = released
        .iter()
        .map(|file| file.asset.name.as_str())
        .collect();
    assert_eq!(
        names,
        vec![
            "mozc-unigram-00000.txt.zst",
            "mozc-unigram-00001.txt.zst",
            "mozc-unigram-00002.txt.zst",
            "mozc-bigram-00000.txt.zst",
            "mozc-bigram-00001.txt.zst",
            "mozc-trigram-00000.txt.zst",
            "mozc-id.def",
            "MOZC-LICENSE",
            "IPADIC-COPYING",
            "IPADIC-NOTICE",
            "MOZC-DICTIONARY-README.md",
        ]
    );
    assert_eq!(released[5].asset.order, Some(3));
    assert_eq!(released[5].asset.entries, Some(1));
    let trigram = released.remove(5).contents;
    let text = read_contents(trigram, Compression::Zstd).unwrap();
    assert_eq!(text, "ねこがはしります\t10\t31\t1\t猫が走ります\n".as_bytes());
}

#[test]
fn ngram_builds_say_what_is_wrong() {
    let tokenizer = tokenizer();
    let files = corpus();
    let error = build(&options(2), &all_present(2), false, ID_DEF, &tokenizer, &files)
        .err()
        .unwrap();
    assert!(matches!(error, BuildError::Options(OptionFault::CostScale)));
    let error = build(&options(2), &all_present(2), true, "", &tokenizer, &files)
        .err()
        .unwrap();
    assert!(matches!(error, BuildError::IdDef(IdDefError::NoEntries)));
    assert_eq!(CountFault::Overflow.message(), "raw token ID overflow");
    assert_eq!(CountFault::VocabularySize.message(), "vocabulary exceeds u32 IDs");
}

#[test]
fn token_files_read_back() {
    let tokenizer = tokenizer();
    let ids = MozcIdMap::load(ID_DEF).unwrap();
    let builder = TokenSequenceBuilder::new(&tokenizer, &ids);
    let (corpus, token_files) = tokenize_corpus(&corpus(), &builder).unwrap();
    let (tokens, _) = corpus.into_parts();
    let same: Vec<u32> = (0..tokens.len() as u32).collect();
    assert_eq!(
        scan_tokens(&token_files[0], &same).unwrap(),
        vec![vec![0, 1, 2], vec![0, 1, 2], vec![0, 1, 2], vec![3, 1, 4]]
    );
}

#[test]
fn ngram_releases_are_described() {
    assert_eq!(order_name(2), "bigram");
    assert_eq!(shard_prefix(3), "mozc-trigram");
    assert_eq!(
        exact_count_guarantee(16, 17, 2),
        "All retained n-grams are recounted over all 16 assets. Candidate discovery is \
         lossless at count >= 17 because 17 > 16 * (2 - 1)."
    );
    let readme = dictionary_readme(16, 17, "800");
    assert!(readme.contains("Costs are `-ln(count / observations) * 800` rounded"));
    assert!(readme.contains("Unigrams require count >= 16;\nbigrams and trigrams require count >= 17."));
    assert!(readme.contains(&format!("`{}` for source versions", json_name(MANIFEST_NAME))));
}

#[test]
fn token_files_are_numbered() {
    let (name, contents) = token_file(7, "0 1\n");
    assert_eq!(name, "tokens-00007.txt.zst");
    assert_eq!(
        read_contents(contents.unwrap(), Compression::Zstd).unwrap(),
        b"0 1\n"
    );
}

#[test]
fn ngrams_do_not_cross_sentences() {
    let tokenizer = tokenizer();
    let ids = MozcIdMap::load(ID_DEF).unwrap();
    let builder = TokenSequenceBuilder::new(&tokenizer, &ids);
    let totals = |records: &[&str]| {
        let records: Vec<String> = records.iter().map(|text| (*text).to_owned()).collect();
        let (corpus, token_files) = tokenize_corpus(&[records], &builder).unwrap();
        let (tokens, _) = corpus.into_parts();
        let same: Vec<u32> = (0..tokens.len() as u32).collect();
        let runs = scan_tokens(&token_files[0], &same).unwrap();
        count_corpus(&[runs], 2).totals()
    };
    assert_eq!(totals(&["猫。が", "猫", "が\n走る"]), (0, 0));
    assert_eq!(totals(&["猫が。猫が走る", "猫が"]), (4, 1));
}

#[test]
fn sentences_of_joined_texts_add_up() {
    let parts = ["", "猫が走る", " 山田 。家\n", "！？", "a!b"];
    for first in parts {
        for second in parts {
            for end in ['\n', '。', '！', '？', '!', '?'] {
                let mut expected = split_sentences(first);
                expected.extend(split_sentences(second));
                assert_eq!(split_sentences(&format!("{first}{end}{second}")), expected);
            }
        }
    }
    assert_eq!(split_sentences("猫。 家 ?"), ["猫", "家"]);
}
