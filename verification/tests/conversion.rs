use japanese_corpus::compression::{read_contents, Compression};
use japanese_corpus::conversion::dictionary::{
    normalize_reading, Dictionary, DictionaryEntry, DictionaryError, EntryFault,
};
use japanese_corpus::conversion::loading::{
    collect_dictionary_files, is_dictionary_filename, load_dictionary_text, load_reader,
    order_from_path, parse_line, Column, DictionaryFile, FoundPath, LineFault, LoadError,
    NamedFile,
};
use japanese_corpus::conversion::search::{
    limit_candidates, Candidate, ConvertError, ConvertOptions, Converter, DEFAULT_UNKNOWN_COST,
};
use japanese_corpus::paths::same_path;

fn entry(reading: &str, surface: &str, cost: i32, order: u8) -> DictionaryEntry {
    DictionaryEntry {
        reading: reading.to_owned(),
        surface: surface.to_owned(),
        left_id: 10,
        right_id: 10,
        cost,
        order,
    }
}

fn converter(entries: Vec<DictionaryEntry>) -> Converter {
    Converter::new(Dictionary::from_entries(entries).unwrap())
}

fn texts(candidates: &[Candidate]) -> Vec<&str> {
    candidates.iter().map(|item| item.text.as_str()).collect()
}

#[test]
fn phrase_entries_supply_context() {
    let converter = converter(vec![
        entry("わたし", "私", 100, 1),
        entry("は", "は", 100, 1),
        entry("がっこう", "学校", 100, 1),
        entry("わたしは", "私は", 50, 2),
        entry("はがっこう", "歯学校", 500, 2),
    ]);
    let candidates = converter.convert("わたしはがっこう", 3).unwrap();
    assert_eq!(candidates[0].text, "私は学校");
    assert_eq!(candidates[0].cost, 150);
    assert_eq!(candidates[0].segments.len(), 2);
    assert_eq!(candidates[0].segments[0].order, 2);
}

#[test]
fn homophones_are_returned_in_cost_order() {
    let converter = converter(vec![
        entry("はし", "箸", 200, 1),
        entry("はし", "橋", 100, 1),
        entry("はし", "端", 300, 1),
    ]);
    let candidates = converter.convert("はし", 3).unwrap();
    assert_eq!(texts(&candidates), vec!["橋", "箸", "端"]);
}

#[test]
fn katakana_and_halfwidth_input_are_normalized() {
    let converter = converter(vec![entry("がっこう", "学校", 100, 1)]);
    assert_eq!(normalize_reading("ｶﾞｯｺｳ"), "がっこう");
    assert_eq!(converter.convert("ガッコウ", 1).unwrap()[0].text, "学校");
    assert_eq!(converter.convert("ｶﾞｯｺｳ", 1).unwrap()[0].text, "学校");
}

#[test]
fn unknown_characters_are_copied() {
    let converter = converter(vec![entry("きょう", "今日", 100, 1)]);
    let candidate = &converter.convert("きょう!", 1).unwrap()[0];
    assert_eq!(candidate.text, "今日!");
    assert!(candidate.segments.last().unwrap().is_unknown());
}

#[test]
fn duplicate_surface_keeps_the_cheapest_entry() {
    let dictionary = Dictionary::from_entries(vec![
        entry("きょう", "今日", 500, 1),
        entry("きょう", "今日", 100, 2),
    ])
    .unwrap();
    assert_eq!(dictionary.len(), 1);
    assert_eq!(dictionary.entries()[0].cost, 100);
    assert_eq!(dictionary.entries()[0].order, 2);
}

#[test]
fn parses_mozc_five_column_text() {
    let dictionary = load_dictionary_text("きょう\t10\t20\t123\t今日\n", 1).unwrap();
    assert_eq!(dictionary.len(), 1);
    assert_eq!(dictionary.entries()[0].left_id, 10);
    assert_eq!(dictionary.entries()[0].right_id, 20);
}

fn named(name: &str) -> NamedFile {
    NamedFile {
        path: format!("shards/{name}"),
        name: Some(name.to_owned()),
    }
}

fn file(name: &str, contents: Vec<u8>) -> DictionaryFile {
    let compression = if name.ends_with(".zst") {
        Compression::Zstd
    } else {
        Compression::Plain
    };
    let contents = read_contents(contents, compression).unwrap();
    DictionaryFile {
        file: named(name),
        text: String::from_utf8(contents).unwrap(),
    }
}

#[test]
fn loads_plain_and_zstd_shards_from_a_directory() {
    let found = vec![FoundPath::Directory(vec![
        named("mozc-unigram-00000.txt"),
        named("README.md"),
        named("mozc-english-unigram-00000.txt"),
        named("mozc-bigram-00000.txt.zst"),
    ])];
    let files = collect_dictionary_files(found).unwrap();
    assert_eq!(files.len(), 3);

    let compressed =
        zstd::stream::encode_all("きょうは\t10\t20\t50\t今日は\n".as_bytes(), 1).unwrap();
    let dictionary = Dictionary::load_dir(vec![
        file(
            "mozc-unigram-00000.txt",
            "きょう\t10\t10\t100\t今日\n".as_bytes().to_vec(),
        ),
        file(
            "mozc-english-unigram-00000.txt",
            "こんぴゅーた\t10\t10\t12000\tcomputer\n".as_bytes().to_vec(),
        ),
        file("mozc-bigram-00000.txt.zst", compressed),
        file("README.md", b"no dictionary".to_vec()),
    ])
    .unwrap();
    assert_eq!(dictionary.len(), 3);
    let converter = Converter::new(dictionary);
    assert_eq!(converter.convert("きょうは", 1).unwrap()[0].text, "今日は");
    assert_eq!(
        converter.convert("コンピュータ", 1).unwrap()[0].text,
        "computer"
    );
}

#[test]
fn directories_need_dictionary_files() {
    let error = Dictionary::load_dir(vec![file("README.md", vec![])]).unwrap_err();
    assert!(matches!(error, LoadError::NoFiles));
}

#[test]
fn malformed_rows_are_rejected() {
    let error = load_dictionary_text("きょう\t10\t20\t今日\n", 1).unwrap_err();
    assert!(error.message().contains("expected 5"));
}

#[test]
fn empty_input_has_one_empty_candidate() {
    let converter = converter(vec![entry("あ", "亜", 100, 1)]);
    let candidates = converter.convert("", 3).unwrap();
    assert_eq!(
        candidates,
        vec![Candidate {
            text: String::new(),
            cost: 0,
            segments: vec![]
        }]
    );
}

#[test]
fn normalization_of_readings_is_idempotent() {
    let once = normalize_reading("ヴｧイｵﾘﾝ");
    assert_eq!(once, "ゔぁいおりん");
    assert_eq!(normalize_reading(&once), once);
}

#[test]
fn nothing_costs_less_than_the_first_candidate() {
    let converter = converter(vec![
        entry("にほん", "日本", 300, 1),
        entry("に", "二", 50, 1),
        entry("ほん", "本", 60, 1),
        entry("にほんご", "日本語", 200, 2),
        entry("ご", "語", 70, 1),
    ]);
    let candidates = converter.convert("にほんご", 5).unwrap();
    assert_eq!(candidates[0].text, "二本語");
    assert_eq!(candidates[0].cost, 180);
    assert_eq!(texts(&candidates)[..3], ["二本語", "日本語", "二本ご"][..]);
    for pair in candidates.windows(2) {
        assert!(pair[0].cost <= pair[1].cost);
    }
    for candidate in &candidates {
        let reading: String = candidate
            .segments
            .iter()
            .map(|segment| segment.reading.as_str())
            .collect();
        let surface: String = candidate
            .segments
            .iter()
            .map(|segment| segment.surface.as_str())
            .collect();
        let cost: i64 = candidate.segments.iter().map(|segment| segment.cost).sum();
        assert_eq!(reading, "にほんご");
        assert_eq!(surface, candidate.text);
        assert_eq!(cost, candidate.cost);
    }
}

#[test]
fn unknown_characters_have_the_default_cost() {
    let converter = converter(vec![entry("あ", "亜", 100, 1)]);
    let candidates = converter.convert("xあ", 1).unwrap();
    assert_eq!(candidates[0].text, "x亜");
    assert_eq!(candidates[0].cost, DEFAULT_UNKNOWN_COST + 100);
}

#[test]
fn conversion_options_are_checked() {
    let converter = converter(vec![entry("あ", "亜", 100, 1)]);
    let options = |candidate_limit, beam_width, unknown_cost| ConvertOptions {
        candidate_limit,
        beam_width,
        unknown_cost,
    };
    let error = |options: ConvertOptions, input: &str| {
        converter.convert_with_options(input, &options).unwrap_err()
    };
    assert_eq!(error(options(0, 1, 1), "あ"), ConvertError::ZeroCandidateLimit);
    assert_eq!(error(options(2, 1, 1), "あ"), ConvertError::NarrowBeam);
    assert_eq!(
        error(options(1, 1, 0), "あ"),
        ConvertError::UnknownCostNotPositive
    );
    assert_eq!(
        error(options(1, 1, 1), "あ\u{7}"),
        ConvertError::ControlCharacter
    );
    assert_eq!(
        ConvertError::NarrowBeam.message(),
        "beam_width must be at least candidate_limit"
    );
    let copied = converter.convert_with_options("あ", &options(1, 1, 7)).unwrap();
    assert_eq!(texts(&copied), vec!["あ"]);
    let found = converter.convert_with_options("あ", &options(1, 1, 700)).unwrap();
    assert_eq!(texts(&found), vec!["亜"]);
}

#[test]
fn beams_are_wider_than_limits() {
    assert_eq!(limit_candidates(1).beam_width, 64);
    assert_eq!(limit_candidates(9).beam_width, 72);
    assert_eq!(limit_candidates(usize::MAX).beam_width, usize::MAX);
    assert_eq!(limit_candidates(1).unknown_cost, DEFAULT_UNKNOWN_COST);
}

#[test]
fn entries_of_a_reading_come_cheapest_first() {
    let dictionary = Dictionary::from_entries(vec![
        entry("かみ", "髪", 300, 1),
        entry("カミ", "神", 100, 1),
        entry("か", "蚊", 10, 1),
    ])
    .unwrap();
    let found: Vec<&str> = dictionary
        .lookup("かみ")
        .iter()
        .map(|entry| entry.surface.as_str())
        .collect();
    assert_eq!(found, vec!["神", "髪"]);
    assert!(dictionary.lookup("かみさま").is_empty());
    assert!(!dictionary.is_empty());
}

#[test]
fn invalid_entries_are_refused() {
    let fault = |entry: DictionaryEntry| Dictionary::from_entries(vec![entry]).unwrap_err();
    assert_eq!(
        fault(entry("", "亜", 1, 1)),
        DictionaryError::InvalidEntry(EntryFault::EmptyField)
    );
    assert_eq!(
        fault(entry("あ", "亜", -1, 1)),
        DictionaryError::InvalidEntry(EntryFault::NegativeCost)
    );
    assert_eq!(
        fault(entry("あ", "亜", 1, 4)),
        DictionaryError::InvalidEntry(EntryFault::OrderOutOfRange)
    );
    assert_eq!(
        fault(entry("あ", "亜\u{7}", 1, 1)),
        DictionaryError::InvalidEntry(EntryFault::ControlCharacter)
    );
    let none = Dictionary::from_entries(vec![]).unwrap_err();
    assert_eq!(none, DictionaryError::NoEntries);
    assert_eq!(none.message(), "dictionary contains no entries");
}

#[test]
fn lines_are_read_by_column() {
    assert_eq!(parse_line("", 1), Ok(None));
    assert_eq!(parse_line("# comment", 1), Ok(None));
    assert_eq!(
        parse_line("あ\t1\t2\t3\t亜", 2),
        Ok(Some(DictionaryEntry {
            reading: "あ".to_owned(),
            surface: "亜".to_owned(),
            left_id: 1,
            right_id: 2,
            cost: 3,
            order: 2,
        }))
    );
    assert_eq!(
        parse_line("あ\t65536\t2\t3\t亜", 1),
        Err(LineFault::Number(Column::LeftId, "65536".to_owned()))
    );
    assert_eq!(
        parse_line("あ\t1\tx\t3\t亜", 1),
        Err(LineFault::Number(Column::RightId, "x".to_owned()))
    );
    assert_eq!(
        parse_line("あ\t1\t2\t2147483648\t亜", 1),
        Err(LineFault::Number(Column::Cost, "2147483648".to_owned()))
    );
    assert_eq!(
        parse_line("あ\t1\t2\t-5\t亜", 1),
        Err(LineFault::Entry(EntryFault::NegativeCost))
    );
}

#[test]
fn load_errors_name_the_line() {
    let mut entries = vec![entry("う", "鵜", 1, 1)];
    let text = "あ\t1\t2\t3\t亜\nい\t\"x\t2\t3\t胃\nえ\t1\t2\t3\t絵\n";
    let error = load_reader(text, "a.txt", 1, &mut entries).unwrap_err();
    assert_eq!(entries.len(), 2);
    assert_eq!(entries[0].surface, "鵜");
    assert_eq!(entries[1].surface, "亜");
    assert_eq!(error.message(), "a.txt:2: invalid left_id value \"\\\"x\"");
    assert_eq!(error.cause(), None);
    let error = load_reader("\r\n\t1\t2\t3\t亜\n", "a.txt", 1, &mut entries).unwrap_err();
    assert_eq!(entries.len(), 2);
    assert_eq!(error.message(), "a.txt:2");
    assert_eq!(
        error.cause().unwrap(),
        "reading and surface must not be empty"
    );
    load_reader("え\t1\t2\t3\t絵\n", "a.txt", 2, &mut entries).unwrap();
    assert_eq!(entries[2].surface, "絵");
    assert_eq!(entries[2].order, 2);
}

#[test]
fn collected_files_are_sorted_and_come_once() {
    let shown = |path: &str| NamedFile {
        path: path.to_owned(),
        name: Some("mozc-unigram-00000.txt".to_owned()),
    };
    let files = collect_dictionary_files(vec![
        FoundPath::File(shown("b/mozc-unigram-00000.txt")),
        FoundPath::File(shown("a-c/mozc-unigram-00000.txt")),
        FoundPath::Directory(vec![shown("b//mozc-unigram-00000.txt")]),
        FoundPath::File(shown("a/c/mozc-unigram-00000.txt")),
    ])
    .unwrap();
    assert_eq!(files.len(), 3);
    assert_eq!(files[0].path, "a/c/mozc-unigram-00000.txt");
    assert_eq!(files[1].path, "a-c/mozc-unigram-00000.txt");
    assert!(same_path(&files[2].path, "b/mozc-unigram-00000.txt"));
    let bad = |name: &str| DictionaryFile {
        file: named(name),
        text: "あ".to_owned(),
    };
    let error = Dictionary::load_dir(vec![
        bad("mozc-unigram-00001.txt"),
        bad("mozc-unigram-00000.txt"),
    ])
    .unwrap_err();
    assert!(error.message().contains("mozc-unigram-00000.txt:1"));
}

#[test]
fn dictionary_files_are_told_by_name() {
    assert!(is_dictionary_filename("mozc-unigram-00000.txt"));
    assert!(is_dictionary_filename("mozc-english-unigram-00000.txt.zst"));
    assert!(!is_dictionary_filename("mozc-unigram.txt"));
    assert!(!is_dictionary_filename("unigram-00000.txt"));
    assert!(!is_dictionary_filename("mozc-trigram-00000.json"));
    assert_eq!(order_from_path("mozc-unigram-00000.txt"), Some(1));
    assert_eq!(order_from_path("mozc-bigram-00000.txt"), Some(2));
    assert_eq!(order_from_path("mozc-trigram-00000.txt"), Some(3));
    assert_eq!(order_from_path("mozc-00000.txt"), None);
}

#[test]
fn paths_that_give_no_dictionary_are_refused() {
    let error = collect_dictionary_files(vec![FoundPath::Missing("a/b".to_owned())]).unwrap_err();
    assert_eq!(error.message(), "dictionary path does not exist: a/b");
    let error = collect_dictionary_files(vec![FoundPath::File(named("words.txt"))]).unwrap_err();
    assert_eq!(
        error.message(),
        "cannot infer n-gram order from dictionary filename: shards/words.txt"
    );
    let nameless = NamedFile {
        path: "shards/?".to_owned(),
        name: None,
    };
    let error = collect_dictionary_files(vec![FoundPath::File(nameless.clone())]).unwrap_err();
    assert_eq!(
        error.message(),
        "dictionary filename is not UTF-8: shards/?"
    );
    let error = collect_dictionary_files(vec![FoundPath::Directory(vec![nameless])]).unwrap_err();
    assert_eq!(error, LoadError::NoFiles);
}

#[test]
fn files_without_entries_are_counted() {
    let empty = DictionaryFile {
        file: named("mozc-unigram-00000.txt"),
        text: "# nothing\n".to_owned(),
    };
    let error = Dictionary::load_paths(&[empty.clone(), empty]).unwrap_err();
    assert_eq!(
        error.message(),
        "no usable entries were loaded from 2 dictionary file(s)"
    );
    assert_eq!(error.cause().unwrap(), "dictionary contains no entries");
    let unnamed = DictionaryFile {
        file: named("words.txt"),
        text: String::new(),
    };
    assert_eq!(
        Dictionary::load_paths(&[unnamed]).unwrap_err(),
        LoadError::UnknownOrder {
            path: "shards/words.txt".to_owned()
        }
    );
}

#[test]
fn broken_frames_are_refused() {
    assert_eq!(read_contents(b"no frame".to_vec(), Compression::Zstd), None);
    assert_eq!(read_contents(b"no member".to_vec(), Compression::Gzip), None);
    assert_eq!(
        read_contents(b"plain".to_vec(), Compression::Plain),
        Some(b"plain".to_vec())
    );
}

#[test]
fn no_text_comes_twice_and_none_is_missing() {
    let converter = converter(vec![
        entry("あい", "藍色", 10, 1),
        entry("あい", "相", 20, 1),
        entry("あ", "藍", 15, 1),
        entry("い", "色", 15, 1),
    ]);
    let candidates = converter.convert("あい", 10).unwrap();
    assert_eq!(texts(&candidates), ["藍色", "相", "あ色", "藍い", "あい"]);
    assert_eq!(candidates[0].cost, 10);
    assert_eq!(candidates[0].segments.len(), 1);
    let exact = ConvertOptions {
        candidate_limit: 6,
        beam_width: 6,
        unknown_cost: 50_000,
    };
    let same = converter.convert_with_options("あい", &exact).unwrap();
    assert_eq!(same, candidates);
    let narrow = ConvertOptions {
        candidate_limit: 3,
        beam_width: 3,
        unknown_cost: 5,
    };
    let candidates = converter.convert_with_options("あい", &narrow).unwrap();
    assert_eq!(texts(&candidates), ["藍色", "あい", "相"]);
}

#[test]
fn ties_go_to_known_words_and_fewer_segments() {
    let converter = converter(vec![
        entry("あ", "亜", 100, 1),
        entry("い", "胃", 100, 1),
        entry("あい", "愛", 200, 1),
    ]);
    let options = ConvertOptions {
        candidate_limit: 5,
        beam_width: 8,
        unknown_cost: 100,
    };
    let candidates = converter.convert_with_options("あ", &options).unwrap();
    assert_eq!(texts(&candidates), ["亜", "あ"]);
    let candidates = converter.convert_with_options("あい", &options).unwrap();
    assert_eq!(texts(&candidates), ["愛", "亜胃", "あ胃", "亜い", "あい"]);
}

#[test]
fn dictionaries_do_not_depend_on_order_or_repetition() {
    let given = vec![
        entry("はし", "橋", 20, 1),
        entry("はし", "箸", 10, 2),
        entry("ハシ", "橋", 5, 1),
        entry("あ", "亜", 1, 1),
    ];
    let first = Dictionary::from_entries(given.clone()).unwrap();
    let mut other = given.clone();
    other.reverse();
    other.push(entry("はし", "箸", 10, 2));
    let second = Dictionary::from_entries(other).unwrap();
    assert_eq!(first.entries(), second.entries());
    let again = Dictionary::from_entries(first.entries().to_vec()).unwrap();
    assert_eq!(first.entries(), again.entries());
    let mut faulty = given;
    faulty.insert(0, entry("あ", "", 1, 1));
    faulty.push(entry("あ", "亜", -1, 1));
    assert_eq!(
        Dictionary::from_entries(faulty.clone()).unwrap_err(),
        DictionaryError::InvalidEntry(EntryFault::EmptyField)
    );
    faulty.reverse();
    assert_eq!(
        Dictionary::from_entries(faulty).unwrap_err(),
        DictionaryError::InvalidEntry(EntryFault::NegativeCost)
    );
}

#[test]
fn loading_does_not_depend_on_order_or_repetition() {
    let words = DictionaryFile {
        file: named("mozc-unigram-00000.txt"),
        text: "あ\t1\t1\t3\t亜\n".to_owned(),
    };
    let pairs = DictionaryFile {
        file: named("mozc-bigram-00000.txt"),
        text: "あ\t1\t1\t2\t亜\nい\t1\t1\t2\t胃\n".to_owned(),
    };
    let first = Dictionary::load_paths(&[words.clone(), pairs.clone()]).unwrap();
    let second = Dictionary::load_paths(&[pairs.clone(), words.clone(), pairs.clone()]).unwrap();
    assert_eq!(first.entries(), second.entries());
    assert_eq!(first.len(), 2);
    let broken = DictionaryFile {
        file: named("mozc-unigram-00001.txt"),
        text: "x\n".to_owned(),
    };
    assert!(Dictionary::load_paths(&[words.clone(), broken.clone(), pairs.clone()]).is_err());
    assert!(Dictionary::load_paths(&[broken, pairs, words]).is_err());
}

#[test]
fn normalized_readings_stay_normalized() {
    let check = |text: &str| {
        let once = normalize_reading(text);
        assert_eq!(normalize_reading(&once), once);
        assert!(!once
            .chars()
            .any(|c| matches!(c, '\u{30A1}'..='\u{30F6}' | '\u{30FD}'..='\u{30FE}')));
    };
    for character in '\u{1}'..='\u{FFFF}' {
        for mark in ["", "\u{3099}", "\u{309A}"] {
            check(&format!("{character}{mark}"));
        }
    }
    for first in '\u{3041}'..='\u{30FF}' {
        for marks in ["\u{309A}\u{3099}", "\u{3099}\u{3099}", "\u{0323}\u{3099}", "ー\u{3099}"] {
            check(&format!("{first}{marks}"));
        }
    }
    assert_eq!(normalize_reading("ヷワ\u{3099}ウ\u{3099}"), "ヷヷゔ");
    let dictionary = Dictionary::from_entries(vec![entry("ｳﾞ", "v", 1, 1)]).unwrap();
    assert_eq!(dictionary.entries()[0].reading, "ゔ");
    let again = Dictionary::from_entries(dictionary.entries().to_vec()).unwrap();
    assert_eq!(again.entries(), dictionary.entries());
}
