use japanese_corpus::checksum::{asset_for_file, checksums, hex, sha256_hex};
use japanese_corpus::compression::{read_contents, Compression};
use japanese_corpus::conversion::loading::load_dictionary_text;
use japanese_corpus::index::TextIndex;
use japanese_corpus::kana::katakana_to_hiragana;
use japanese_corpus::mozc::{shard_at, write_row, MozcRow};
use japanese_corpus::order::{compare_text, Rank};
use japanese_corpus::output::{
    checksum_file, framed_file, output_file, packed_file, shard_file, shard_files, sort_assets,
};
use japanese_corpus::text::{
    decimal, join, lines, padded_decimal, parse_i32, parse_unsigned, signed_decimal, split,
    split_once, trimmed, words,
};

fn row(reading: &str, cost: i32, surface: &str) -> MozcRow {
    MozcRow {
        reading: reading.to_owned(),
        left_id: 1,
        right_id: 2,
        cost,
        surface: surface.to_owned(),
    }
}

fn rows() -> Vec<MozcRow> {
    vec![
        row("かみ", 10, "神"),
        row("かみ", 20, "紙"),
        row("いぬ", 30, "犬"),
    ]
}

#[test]
fn digests_are_hexadecimal() {
    assert_eq!(hex(&[0, 10, 255]), "000aff");
    assert_eq!(
        sha256_hex(b"abc"),
        "ba7816bf8f01cfea414140de5dae2223b00361a396177a9cb410ff61f20015ad"
    );
}

#[test]
fn files_are_recorded_and_listed() {
    let asset = asset_for_file("b.txt", "source", Some(2), Some(7), b"abc");
    assert_eq!(asset.bytes, 3);
    assert_eq!(asset.sha256, sha256_hex(b"abc"));
    let line = format!("{}  b.txt\n", sha256_hex(b"abc"));
    assert_eq!(checksums(&[asset.clone()]), line);
    let manifest = output_file("a.txt", "metadata", b"{}".to_vec());
    let (listed, text) = checksum_file(vec![asset], manifest.asset);
    let names: Vec<&str> = listed.iter().map(|asset| asset.name.as_str()).collect();
    assert_eq!(names, vec!["a.txt", "b.txt"]);
    assert_eq!(text, format!("{}  a.txt\n{line}", sha256_hex(b"{}")));
    assert!(sort_assets(vec![]).is_empty());
}

#[test]
fn rows_have_five_columns() {
    let mut text = String::new();
    write_row(&mut text, &row("かみ", 10, "神"));
    assert_eq!(text, "かみ\t1\t2\t10\t神\n");
}

#[test]
fn shards_hold_all_rows_in_order() {
    let rows = rows();
    let first = shard_at("mozc", &rows, 2, 0).unwrap();
    assert_eq!(first.name, "mozc-00000.txt.zst");
    assert_eq!(first.entries, 2);
    let second = shard_at("mozc", &rows, 2, 1).unwrap();
    assert_eq!(second.text, "いぬ\t1\t2\t30\t犬\n");
    assert_eq!(shard_at("mozc", &rows, 2, 2), None);
    let file = shard_file("dictionary", None, &second, Some(vec![1, 2])).unwrap();
    assert_eq!(file.asset.entries, Some(1));
    assert_eq!(file.contents, vec![1, 2]);
    assert!(shard_file("dictionary", None, &second, None).is_none());
}

#[test]
fn written_shards_are_loaded_again() {
    let rows = rows();
    let files = shard_files("mozc-unigram", "", Some(1), &rows, 2).unwrap();
    assert_eq!(files.len(), 2);
    assert!(shard_files("mozc-unigram", "", Some(1), &[], 2).unwrap().is_empty());
    let mut costs = Vec::new();
    for file in files {
        assert_eq!(file.asset.bytes, file.contents.len() as u64);
        let text = String::from_utf8(read_contents(file.contents, Compression::Zstd).unwrap());
        let dictionary = load_dictionary_text(&text.unwrap(), 1).unwrap();
        for reading in ["かみ", "いぬ"] {
            for entry in dictionary.lookup(reading) {
                costs.push((entry.surface.clone(), entry.cost));
            }
        }
    }
    let cost = |surface: &str, cost: i32| (surface.to_owned(), cost);
    assert_eq!(costs, vec![cost("神", 10), cost("紙", 20), cost("犬", 30)]);
}

#[test]
fn packed_files_hold_their_contents() {
    let packed = packed_file("a.zst", 3, b"abcabc", 3).unwrap();
    assert_eq!(packed.asset.entries, Some(3));
    assert_eq!(packed.asset.sha256, sha256_hex(&packed.contents));
    assert_eq!(
        read_contents(packed.contents, Compression::Zstd).unwrap(),
        b"abcabc"
    );
    let framed = framed_file("a.zst", 3, Some(vec![7])).unwrap();
    assert_eq!(framed.contents, vec![7]);
    assert_eq!(framed.asset.bytes, 1);
    assert!(framed_file("a.zst", 3, None).is_none());
}

#[test]
fn plain_files_are_taken_as_they_are() {
    assert_eq!(read_contents(vec![1], Compression::Plain), Some(vec![1]));
    assert_eq!(read_contents(vec![1], Compression::Zstd), None);
    assert_eq!(read_contents(vec![1], Compression::Gzip), None);
}

#[test]
fn numbers_read_back() {
    for number in [0, 7, 10, 4_294_967_295] {
        assert_eq!(parse_unsigned(&decimal(number as u128), u64::MAX), Some(number));
    }
    assert_eq!(decimal(u128::MAX), u128::MAX.to_string());
    assert_eq!(signed_decimal(i32::MIN), "-2147483648");
    assert_eq!(padded_decimal(42, 5), "00042");
    assert_eq!(padded_decimal(123_456, 5), "123456");
    assert_eq!(parse_unsigned("+5", 9), Some(5));
    assert_eq!(parse_unsigned("10", 9), None);
    assert_eq!(parse_unsigned("-1", 9), None);
    assert_eq!(parse_unsigned("", 9), None);
    assert_eq!(parse_i32("-2147483648"), Some(i32::MIN));
    assert_eq!(parse_i32("2147483648"), None);
}

#[test]
fn texts_are_taken_apart() {
    assert_eq!(split("a,,b", ','), vec!["a", "", "b"]);
    assert_eq!(split_once("a b c", ' '), Some(("a".to_owned(), "b c".to_owned())));
    assert_eq!(split_once("abc", ' '), None);
    assert_eq!(lines("a\r\n\nb"), vec!["a", "", "b"]);
    assert_eq!(words(" a\u{3000}b ", true), vec!["a\u{3000}b"]);
    assert_eq!(words(" a\u{3000}b ", false), vec!["a", "b"]);
    assert_eq!(trimmed("\u{3000}a b\n"), "a b");
    assert_eq!(join(&["a".to_owned(), "b".to_owned()], "\u{1f}"), "a\u{1f}b");
    assert_eq!(compare_text("神", "紙"), Rank::Before);
}

#[test]
fn hiragana_stays_hiragana() {
    let once = katakana_to_hiragana("ガッコーヽ学校");
    assert_eq!(katakana_to_hiragana(&once), once);
}

#[test]
fn indexes_number_texts_once() {
    let mut index = TextIndex::new();
    assert_eq!(index.intern("a".to_owned()), 0);
    assert_eq!(index.intern("b".to_owned()), 1);
    assert_eq!(index.intern("a".to_owned()), 0);
    assert_eq!(index.find("b"), Some(1));
    assert_eq!(index.find("c"), None);
    assert_eq!(index.into_keys(), vec!["a", "b"]);
}
