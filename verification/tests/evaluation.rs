use japanese_corpus::conversion::ajimee::{
    accuracy_at_1, cer, character_distance, evaluate, load_items, min_cer, ErrorRate,
    EvaluationError, EvaluationItem, ItemFault, MetricError,
};
use japanese_corpus::conversion::dictionary::{Dictionary, DictionaryEntry};
use japanese_corpus::conversion::search::{ConvertError, Converter};

fn entry(reading: &str, surface: &str) -> DictionaryEntry {
    DictionaryEntry {
        reading: reading.into(),
        surface: surface.into(),
        left_id: 1,
        right_id: 1,
        cost: 100,
        order: 1,
    }
}

fn converter() -> Converter {
    let entries = vec![entry("きょう", "今日"), entry("はし", "橋")];
    Converter::new(Dictionary::from_entries(entries).unwrap())
}

fn value(rate: ErrorRate) -> f64 {
    rate.distance as f64 / rate.length as f64
}

fn item(index: &str, context: &str, input: &str, expected: &[&str]) -> EvaluationItem {
    EvaluationItem {
        index: index.into(),
        context_text: context.into(),
        input: input.into(),
        expected_output: expected.iter().map(|text| (*text).to_owned()).collect(),
    }
}

#[test]
fn official_metrics_use_exact_match_and_best_reference() {
    let references = vec!["橋".to_owned(), "箸".to_owned()];
    assert!(accuracy_at_1(&references, "橋"));
    assert!(!accuracy_at_1(&references, "端"));
    assert_eq!(value(min_cer(&references, "橋").unwrap()), 0.0);
    assert_eq!(value(min_cer(&references, "端").unwrap()), 1.0);
}

#[test]
fn character_error_rate_uses_unicode_characters() {
    assert_eq!(character_distance("コンピュータ", "こんぴゅーた"), 5);
    assert_eq!(character_distance("今日です", "今日"), 2);
    assert_eq!(value(cer("今日です", "今日").unwrap()), 0.5);
}

#[test]
fn evaluation_is_stratified_by_context() {
    let items = vec![
        item("1", "", "きょう", &["今日"]),
        item("2", "渡る", "はし", &["箸", "橋"]),
    ];
    let summary = evaluate(&converter(), &items).unwrap();
    assert_eq!(summary.overall.items, 2);
    assert_eq!(summary.overall.correct_at_1, 2);
    let accuracy = summary.overall.correct_at_1 as f64 / summary.overall.items as f64;
    assert_eq!(accuracy, 1.0);
    assert_eq!(summary.with_context.items, 1);
    assert_eq!(summary.without_context.items, 1);
}

#[test]
fn dataset_validation_rejects_missing_references() {
    let error = load_items(vec![item("1", "", "てすと", &[])]).unwrap_err();
    assert!(error.message().contains("no expected output"));
}

#[test]
fn distances_are_symmetric_and_bounded() {
    for (left, right, distance) in [
        ("", "", 0),
        ("", "かな", 2),
        ("kitten", "sitting", 3),
        ("かな漢字", "かん字", 2),
        ("abc", "abc", 0),
    ] {
        assert_eq!(character_distance(left, right), distance);
        assert_eq!(character_distance(right, left), distance);
    }
}

#[test]
fn rates_are_compared_as_fractions() {
    let rate = |distance, length| ErrorRate { distance, length };
    assert!(rate(1, 3).below(rate(1, 2)));
    assert!(!rate(1, 2).below(rate(2, 4)));
    assert!(!rate(usize::MAX, 1).below(rate(usize::MAX - 1, 1)));
    let references = vec!["今日です".to_owned(), "今日".to_owned()];
    assert_eq!(min_cer(&references, "今月").unwrap(), rate(1, 2));
}

#[test]
fn rates_need_references() {
    assert_eq!(cer("", "x"), Err(MetricError::EmptyReference));
    assert_eq!(min_cer(&[], "x"), Err(MetricError::NoReference));
    assert_eq!(
        min_cer(&["x".to_owned(), String::new()], "x"),
        Err(MetricError::EmptyReference)
    );
    assert_eq!(
        MetricError::NoReference.message(),
        "cannot calculate MinCER without a reference"
    );
}

#[test]
fn datasets_are_validated() {
    let message = |items| load_items(items).unwrap_err().message();
    assert_eq!(message(vec![]), "AJIMEE-Bench dataset contains no items");
    assert_eq!(
        message(vec![item("7", "", "あ", &["あ", ""])]),
        "AJIMEE-Bench item 7 has an empty expected output"
    );
    let items = vec![item("1", "", "あ", &["あ"])];
    assert_eq!(load_items(items.clone()).unwrap(), items);
}

#[test]
fn evaluation_stops_at_the_first_fault() {
    let fault = |items: &[EvaluationItem]| evaluate(&converter(), items).unwrap_err();
    assert_eq!(
        fault(&[]).message(),
        "AJIMEE-Bench dataset contains no items"
    );
    let error = fault(&[item("1", "", "きょう", &["今日"]), item("2", "", "はし", &[])]);
    assert_eq!(
        error.message(),
        "AJIMEE-Bench item 2 has no expected output"
    );
    match fault(&[item("3", "", "\u{7}", &["x"])]) {
        EvaluationError::Item { index, fault } => {
            assert_eq!(index, "3");
            assert_eq!(fault, ItemFault::Convert(ConvertError::ControlCharacter));
        }
        EvaluationError::NoItems => panic!("there are items"),
    }
    let error = fault(&[item("4", "", "はし", &[""])]);
    assert_eq!(
        error.message(),
        "cannot calculate CER for an empty reference"
    );
}

#[test]
fn wrong_conversions_have_rates() {
    let items = vec![item("1", "", "きょう", &["京都"]), item("2", "x", "はし", &["橋"])];
    let summary = evaluate(&converter(), &items).unwrap();
    assert_eq!(summary.overall.correct_at_1, 1);
    let rate = |distance, length| ErrorRate { distance, length };
    assert_eq!(summary.overall.min_cer, vec![rate(2, 2), rate(0, 1)]);
    assert_eq!(summary.without_context.min_cer, vec![rate(2, 2)]);
    assert_eq!(summary.with_context.min_cer, vec![rate(0, 1)]);
}

#[test]
fn detours_are_not_shorter() {
    for (left, middle, right) in [
        ("かな", "漢字", "仮名"),
        ("", "abc", "abd"),
        ("kitten", "sitting", "sit"),
        ("abc", "", "xyz"),
    ] {
        assert!(
            character_distance(left, right)
                <= character_distance(left, middle) + character_distance(middle, right)
        );
    }
    assert_eq!(character_distance("kitten", "sit"), 4);
    assert_eq!(character_distance("sitting", "sit"), 4);
}

#[test]
fn contexts_do_not_change_conversions() {
    let plain = vec![
        item("1", "", "きょう", &["今日"]),
        item("2", "", "はし", &["箸"]),
    ];
    let mut given = plain.clone();
    given[1].context_text = "渡る".to_owned();
    let first = evaluate(&converter(), &plain).unwrap();
    let second = evaluate(&converter(), &given).unwrap();
    assert_eq!(first.overall, second.overall);
    assert_eq!(first.overall.correct_at_1, 1);
    assert_eq!(first.with_context.items, 0);
    assert_eq!(second.with_context.items, 1);
}

#[test]
fn distances_count_the_fewest_edits() {
    let text = "かな漢字";
    let edits: [(&str, usize); 4] = [
        ("かな漢文", 1),
        ("かな漢字文", 1),
        ("かな字", 1),
        ("さな漢", 2),
    ];
    for (edited, count) in edits {
        assert_eq!(character_distance(text, edited), count);
    }
    assert_eq!(character_distance("ab", "ba"), 2);
    assert_eq!(character_distance("abcdef", "azced"), 3);
}
