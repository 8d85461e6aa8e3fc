use std::io::Write;

use japanese_corpus::compression::{read_contents, Compression};
use japanese_corpus::id_def::IdDefError;
use japanese_corpus::jmdict::candidates::{candidate_cost, priority_penalty, OutputEntry};
use japanese_corpus::jmdict::context::generic_noun_id;
use japanese_corpus::jmdict::document::{read_document, Document, DocumentError};
use japanese_corpus::jmdict::loanword::{
    lexical_direct_surface, valid_direct_surface, DirectLoanwordFilter, FilterError, Rejection,
};
use japanese_corpus::jmdict::pronunciation::{pronunciation_matches, pronunciation_to_romaji};
use japanese_corpus::jmdict::readings::{
    expand_long_vowels, is_katakana_reading, kana_vowel, normalize_reading, valid_surface,
};
use japanese_corpus::jmdict::release::{
    build, dictionary_readme, parameters, source_asset_name, validate_options,
    write_release_files, BuildError, BuildOptions, DictionaryKind, OptionFault, PresentFiles,
    ReleaseContents, SourceFiles, CHECKSUMS_NAME, MANIFEST_NAME,
};
use japanese_corpus::jmdict::selection::{keep_cheapest, keep_preferred_case, parse_jmdict};
use japanese_corpus::jmdict::words::{function_words, is_listed, numeric_surface_words};
use japanese_corpus::jmdict::xml::XmlEvent;
use japanese_corpus::output::{assets_of, checksum_file, json_name, output_file, sort_assets};

const ID_DEF: &str = "0 BOS/EOS,*,*,*,*,*,*\n10 名詞,一般,*,*,*,*,*\n11 名詞,固有名詞,*,*,*,*,*\n";

const DOCUMENT: &str = r#"<?xml version="1.0" encoding="UTF-8"?>
<!-- JMdict created: 2026-07-22 -->
<JMdict>
<entry><ent_seq>1</ent_seq>
<r_ele><reb>アート</reb><re_pri>gai1</re_pri></r_ele>
<sense><gloss>art</gloss></sense>
<sense><gloss>ART</gloss><gloss g_type="expl">explanatory gloss</gloss></sense>
</entry>
<entry><ent_seq>2</ent_seq>
<r_ele><reb>コンピュータ</reb><re_pri>gai1</re_pri></r_ele>
<r_ele><reb>コンピューター</reb><re_pri>ichi1</re_pri></r_ele>
<sense><gloss xml:lang="eng">computer</gloss><gloss xml:lang="ger">Rechner</gloss></sense>
</entry>
<entry><ent_seq>3</ent_seq>
<r_ele><reb>センス</reb><re_pri>gai1</re_pri></r_ele>
<sense><lsource xml:lang="eng">sense</lsource><lsource ls_type="part">part</lsource></sense>
</entry>
<entry><ent_seq>4</ent_seq>
<r_ele><reb>テスト</reb></r_ele>
<r_ele><reb>テスティング</reb></r_ele>
<sense><stagr>テスト</stagr><gloss>test</gloss></sense>
<sense><stagr>テスティング</stagr><gloss>testing</gloss></sense>
</entry>
<entry><ent_seq>5</ent_seq>
<r_ele><reb>アート</reb></r_ele>
<sense><gloss>artwork</gloss><gloss>fine arts</gloss></sense>
</entry>
<entry><ent_seq>6</ent_seq>
<r_ele><reb>ひらがな</reb></r_ele>
<sense><gloss>hiragana</gloss></sense>
</entry>
</JMdict>
"#;

fn options(kind: DictionaryKind) -> BuildOptions {
    let direct = kind == DictionaryKind::DirectLoanword;
    let given = |text: &str| if direct { Some(text.to_owned()) } else { None };
    BuildOptions {
        input: "JMdict_e.xml".to_owned(),
        mozc_id_def: "id.def".to_owned(),
        jmdict_license: "licence.html".to_owned(),
        output_dir: "output".to_owned(),
        entries_per_shard: 100,
        base_cost: 12_000,
        dictionary_kind: kind,
        pronunciation_dictionary: given("cmudict.dict"),
        pronunciation_dictionary_commit: given("fixture"),
        pronunciation_dictionary_sha256: given("fixture-sha256"),
        direct_loanword_allowlist: given("allowlist.tsv"),
        source_url: "https://example.test/JMdict_e.gz".to_owned(),
        source_etag: "fixture".to_owned(),
        source_last_modified: "2026-07-22".to_owned(),
        pipeline_commit: "deadbeef".to_owned(),
    }
}

fn all_present() -> PresentFiles {
    PresentFiles {
        input: true,
        mozc_id_def: true,
        jmdict_license: true,
    }
}

fn files(document: &str) -> SourceFiles {
    SourceFiles {
        document: document.as_bytes().to_vec(),
        mozc_id_def: ID_DEF.to_owned(),
        pronunciation_dictionary: None,
        direct_loanword_allowlist: None,
    }
}

fn unpacked(contents: Vec<u8>) -> String {
    String::from_utf8(read_contents(contents, Compression::Zstd).unwrap()).unwrap()
}

#[test]
fn normalizes_katakana_and_halfwidth_to_hiragana() {
    assert_eq!(normalize_reading("コンピューター"), "こんぴゅーたー");
    assert_eq!(normalize_reading("ｱｰﾄ"), "あーと");
    assert_eq!(
        normalize_reading("ヷヸヹヺヿ"),
        "わ\u{3099}ゐ\u{3099}ゑ\u{3099}を\u{3099}こと"
    );
}

#[test]
fn builds_ranked_dictionary_and_metadata() {
    let options = options(DictionaryKind::Generic);
    let built = build(&options, all_present(), &files(DOCUMENT)).ok().unwrap();
    let source = DOCUMENT.as_bytes().to_vec();
    let sha256 = japanese_corpus::checksum::sha256_hex(&source);
    let name = source_asset_name(false, &built.stats.source_created, &sha256);
    let contents = ReleaseContents {
        source,
        license: b"licence".to_vec(),
        allowlist: None,
    };
    let mut released = write_release_files(&options, &built.rows, &name, contents).unwrap();
    assert_eq!(released.len(), 4);
    let assets = sort_assets(assets_of(&released));
    let shard = released.remove(0);
    assert_eq!(shard.asset.name, "mozc-english-unigram-00000.txt.zst");
    assert_eq!(shard.asset.entries, Some(9));
    let text = unpacked(shard.contents);
    assert!(text.contains("あーと\t10\t10\t12500\tart\n"));
    assert!(text.contains("こんぴゅーた\t10\t10\t12500\tcomputer\n"));
    assert!(text.contains("こんぴゅーたー\t10\t10\t12500\tcomputer\n"));
    assert!(text.contains("せんす\t10\t10\t12000\tsense\n"));
    assert!(text.contains("てすと\t10\t10\t18500\ttest\n"));
    assert!(text.contains("てすてぃんぐ\t10\t10\t18520\ttesting\n"));
    assert!(text.contains("あーと\t10\t10\t18501\tfine arts\n"));
    assert!(!text.contains("explanatory gloss"));
    assert!(!text.contains("ひらがな"));

    let cost = |surface: &str| {
        text.lines()
            .find(|line| line.ends_with(&format!("\t{surface}")))
            .and_then(|line| line.split('\t').nth(3))
            .and_then(|cost| cost.parse::<i32>().ok())
            .unwrap()
    };
    assert!(cost("art") < cost("ART"));

    assert_eq!(built.stats.source_created, "2026-07-22");
    assert_eq!(built.stats.jmdict_entries, 6);
    assert_eq!(built.stats.katakana_entries, 5);
    assert_eq!(built.stats.unique_readings, 6);
    assert_eq!(built.rows.len(), 9);

    let manifest = output_file(&json_name(MANIFEST_NAME), "metadata", b"{}\n".to_vec());
    let (listed, checksums) = checksum_file(assets, manifest.asset);
    assert_eq!(listed.len(), 5);
    assert!(checksums.contains(MANIFEST_NAME));
    assert!(checksums.contains("JMdict_e-20260722.xml"));
    assert_eq!(CHECKSUMS_NAME, "ENGLISH-DICTIONARY-SHA256SUMS");
}

const LOANWORDS: &str = r#"<?xml version="1.0" encoding="UTF-8"?>
<!-- JMdict created: 2026-08-14 -->
<JMdict>
<entry><r_ele><reb>ギャラリー</reb><re_pri>gai1</re_pri></r_ele>
<sense><gloss>art gallery</gloss><gloss>corridor</gloss><gloss>gallery</gloss>
<gloss>upper gallery (in a theatre)</gloss></sense></entry>
<entry><r_ele><reb>アート</reb><re_pri>gai1</re_pri></r_ele>
<sense><gloss>art</gloss></sense>
<sense><gloss>assisted reproductive technologies</gloss><gloss>ART</gloss></sense></entry>
<entry><r_ele><reb>カー</reb><re_pri>gai1</re_pri></r_ele><sense><gloss>car</gloss></sense></entry>
<entry><r_ele><reb>アイスクリーム</reb><re_pri>gai1</re_pri></r_ele>
<sense><gloss>ice cream</gloss></sense></entry>
<entry><r_ele><reb>アートギャラリー</reb><re_pri>gai1</re_pri></r_ele>
<sense><gloss>art gallery</gloss></sense></entry>
<entry><r_ele><reb>アイアイオーティー</reb><re_pri>gai1</re_pri></r_ele>
<sense><gloss>IIoT</gloss></sense></entry>
</JMdict>
"#;

const PRONUNCIATIONS: &str = ";;; comment\n\
art  AA1 R T\n\
car  K AA1 R\n\
corridor  K AO1 R AH0 D ER0\n\
gallery  G AE1 L ER0 IY0\n\
gallery(2)  G AE1 L R IY0\n";

const ALLOWLIST: &str = "# reading\tsurface\treason\n\
アイスクリーム\tice cream\tcompound\n\
アートギャラリー\tart gallery\tcompound\n\
アイアイオーティー\tIIoT\tacronym\n";

#[test]
fn direct_loanword_mode_keeps_only_full_natural_matches() {
    let options = options(DictionaryKind::DirectLoanword);
    let mut sources = files(LOANWORDS);
    sources.pronunciation_dictionary = Some(PRONUNCIATIONS.to_owned());
    sources.direct_loanword_allowlist = Some(ALLOWLIST.to_owned());
    let built = build(&options, all_present(), &sources).ok().unwrap();
    let contents = ReleaseContents {
        source: LOANWORDS.as_bytes().to_vec(),
        license: b"fixture".to_vec(),
        allowlist: Some(ALLOWLIST.as_bytes().to_vec()),
    };
    let mut released =
        write_release_files(&options, &built.rows, "JMdict_e-20260814.xml", contents).unwrap();
    assert_eq!(released.len(), 5);
    assert_eq!(released[4].asset.name, "direct-loanword-allowlist.tsv");
    assert_eq!(released[4].asset.kind, "policy");
    let shard = released.remove(0);
    assert_eq!(shard.asset.name, "mozc-english-reading-unigram-00000.txt.zst");
    let text = unpacked(shard.contents);
    assert!(text.contains("ぎゃらりー\t10\t10\t12502\tgallery\n"));
    assert!(text.contains("あーと\t10\t10\t12500\tart\n"));
    assert!(text.contains("かー\t10\t10\t12500\tcar\n"));
    assert!(text.contains("あいすくりーむ\t10\t10\t12500\tice cream\n"));
    assert!(text.contains("あーとぎゃらりー\t10\t10\t12500\tart gallery\n"));
    assert!(text.contains("あいあいおーてぃー\t10\t10\t12500\tIIoT\n"));
    for rejected in [
        "art gallery",
        "corridor",
        "upper gallery (in a theatre)",
        "assisted reproductive technologies",
        "ART",
    ] {
        if rejected == "art gallery" {
            assert_eq!(
                text.lines()
                    .filter(|line| line.ends_with("\tart gallery"))
                    .count(),
                1
            );
            assert!(text
                .lines()
                .any(|line| line.starts_with("あーとぎゃらりー\t")));
        } else {
            assert!(
                !text
                    .lines()
                    .any(|line| line.ends_with(&format!("\t{rejected}"))),
                "{rejected}"
            );
        }
    }
    let recorded = parameters(&options);
    assert_eq!(recorded.dictionary_kind, "direct-loanword");
    assert_eq!(recorded.pronunciation_dictionary, Some("CMUdict"));
    assert_eq!(
        recorded.pronunciation_dictionary_commit,
        Some("fixture".to_owned())
    );
    assert_eq!(
        recorded.direct_loanword_allowlist,
        Some("direct-loanword-allowlist.tsv")
    );
    let rejected = &built.stats.rejected_candidates;
    assert!(rejected.get(Rejection::CompoundNotAllowlisted) > 0);
    assert_eq!(rejected.get(Rejection::InvalidSurface), 1);
    assert_eq!(rejected.get(Rejection::PronunciationMismatch), 1);
    let names: Vec<&str> = rejected
        .entries()
        .iter()
        .map(|(reason, _)| reason.name())
        .collect();
    assert!(names.contains(&"compound-not-allowlisted"));
}

#[test]
fn readings_are_told_apart() {
    assert!(is_katakana_reading("コンピューター"));
    assert!(!is_katakana_reading("コンピュータ1"));
    assert!(!is_katakana_reading(""));
    assert!(valid_surface("ice cream"));
    assert!(!valid_surface("a\tb"));
    assert!(!valid_surface(&"x".repeat(5000)));
}

#[test]
fn long_vowels_are_spelled_out() {
    assert_eq!(expand_long_vowels("かー"), "かあ");
    assert_eq!(expand_long_vowels("こーひー"), "こおひい");
    assert_eq!(expand_long_vowels("ーあんー"), "あんあ");
    assert_eq!(kana_vowel('か'), Some('あ'));
    assert_eq!(kana_vowel('x'), None);
}

#[test]
fn pronunciations_are_spelled_as_kana() {
    let phones = |text: &str| -> Vec<String> {
        text.split_whitespace().map(str::to_owned).collect()
    };
    assert_eq!(pronunciation_to_romaji(&phones("K AA1 R")).unwrap(), "kaa");
    assert_eq!(pronunciation_to_romaji(&phones("XX")), None);
    assert!(pronunciation_matches("かー", &phones("K AA1 R")));
    assert!(pronunciation_matches("あーと", &phones("AA1 R T")));
    assert!(!pronunciation_matches("かっと", &phones("K AA1 R")));
}

#[test]
fn direct_surfaces_are_words() {
    assert!(valid_direct_surface("ice cream"));
    assert!(!valid_direct_surface(" ice"));
    assert!(!valid_direct_surface("ice  cream"));
    assert!(!valid_direct_surface("-ice"));
    assert!(!valid_direct_surface("café"));
    assert!(lexical_direct_surface("computer"));
    assert!(!lexical_direct_surface("of"));
    assert!(!lexical_direct_surface("twenty"));
    assert!(is_listed(&numeric_surface_words(), "seven"));
    assert!(is_listed(&function_words(), "the"));
    assert!(!is_listed(&function_words(), "computer"));
}

#[test]
fn filters_say_why_they_reject() {
    let filter = DirectLoanwordFilter::load(PRONUNCIATIONS, Some(ALLOWLIST)).ok().unwrap();
    assert_eq!(filter.check("かー", "car"), Ok(()));
    assert_eq!(filter.check("カー", "CAR"), Ok(()));
    assert_eq!(filter.check("あいすくりーむ", "ICE CREAM"), Ok(()));
    assert_eq!(filter.check("かー", "c@r"), Err(Rejection::InvalidSurface));
    assert_eq!(filter.check("ざ", "the"), Err(Rejection::NonLexicalSurface));
    assert_eq!(
        filter.check("ぎゃらりー", "art gallery"),
        Err(Rejection::CompoundNotAllowlisted)
    );
    assert_eq!(
        filter.check("ねこ", "cat"),
        Err(Rejection::MissingPronunciation)
    );
    assert_eq!(
        filter.check("あーと", "car"),
        Err(Rejection::PronunciationMismatch)
    );
    let plain = DirectLoanwordFilter::load(PRONUNCIATIONS, None).ok().unwrap();
    assert_eq!(
        plain.check("あいすくりーむ", "ice cream"),
        Err(Rejection::CompoundNotAllowlisted)
    );
}

#[test]
fn filters_need_well_formed_files() {
    let error = DirectLoanwordFilter::load("art AA1 R T\ncar\n", None).err().unwrap();
    assert_eq!(error.message(), "invalid CMUdict line 2: car");
    let error = DirectLoanwordFilter::load("", Some("a\tb\n")).err().unwrap();
    assert_eq!(error, FilterError::Allowlist { line_number: 1 });
    assert_eq!(
        error.message(),
        "invalid direct-loanword allowlist line 1: expected reading<TAB>surface<TAB>reason"
    );
}

#[test]
fn costs_rise_with_penalties() {
    assert_eq!(candidate_cost(12_000, 0, 500, 2), 12_502);
    assert_eq!(candidate_cost(32_000, 6_000, 500, 0), 32_767);
    let penalty = |marks: &[&str]| {
        let marks: Vec<String> = marks.iter().map(|mark| (*mark).to_owned()).collect();
        priority_penalty(&marks)
    };
    assert_eq!(penalty(&[]), 6_000);
    assert_eq!(penalty(&["gai2"]), 2_000);
    assert_eq!(penalty(&["nf12", "gai2"]), 1_100);
    assert_eq!(penalty(&["nf99"]), 4_900);
    assert_eq!(penalty(&["nfx", "other"]), 6_000);
    assert_eq!(penalty(&["spec1", "nf48"]), 0);
}

fn row(reading: &str, surface: &str, cost: i32) -> OutputEntry {
    OutputEntry {
        reading: reading.to_owned(),
        surface: surface.to_owned(),
        cost,
    }
}

#[test]
fn rows_are_kept_once() {
    let rows = keep_cheapest(vec![row("b", "x", 5), row("a", "y", 3), row("b", "x", 2)]);
    assert_eq!(rows, vec![row("a", "y", 3), row("b", "x", 2)]);
    let rows = keep_preferred_case(vec![row("a", "ART", 5), row("a", "Art", 5), row("a", "art", 5)]);
    assert_eq!(rows, vec![row("a", "art", 5)]);
    let rows = keep_preferred_case(vec![row("a", "ART", 4), row("a", "art", 5)]);
    assert_eq!(rows, vec![row("a", "ART", 4)]);
}

#[test]
fn context_ids_stand_for_nouns() {
    assert_eq!(generic_noun_id(ID_DEF).unwrap(), 10);
    assert_eq!(generic_noun_id("5 名詞,固有名詞,*,*,*,*,*\n").unwrap(), 5);
    let message = |text: &str| generic_noun_id(text).unwrap_err().message();
    assert_eq!(message("5\n"), "malformed id.def line 1: 5");
    assert_eq!(message("\nx 名詞\n"), "invalid context ID at id.def line 2");
    assert!(matches!(
        generic_noun_id("1 動詞,*,*,*,*,*,*\n"),
        Err(IdDefError::NoNoun)
    ));
}

#[test]
fn documents_are_read_event_by_event() {
    let mut document = Document::new();
    let start = |name: &str| XmlEvent::Start {
        name: name.as_bytes().to_vec(),
        attributes: vec![],
    };
    let end = |name: &str| XmlEvent::End {
        name: name.as_bytes().to_vec(),
    };
    for event in [
        start("entry"),
        start("r_ele"),
        start("reb"),
        XmlEvent::Text("カ&#12540;".as_bytes().to_vec()),
        end("reb"),
        end("r_ele"),
        start("sense"),
        start("gloss"),
        XmlEvent::CData(b"car &amp;".to_vec()),
        end("gloss"),
        end("sense"),
        end("entry"),
    ] {
        assert!(document.apply(&event).is_ok());
    }
    let broken = XmlEvent::Text(b"&nothing;".to_vec());
    assert!(document.apply(&start("gloss")).is_ok());
    assert!(document.apply(&broken).is_err());
    let malformed = XmlEvent::Start {
        name: b"gloss".to_vec(),
        attributes: vec![None],
    };
    assert!(document.apply(&malformed).is_err());
}

#[test]
fn documents_that_break_off_are_refused() {
    assert!(read_document(b"<JMdict></JMdict>").is_ok());
    assert!(matches!(
        read_document(b"<JMdict></entry>"),
        Err(DocumentError::Markup(_))
    ));
    let (rows, stats) = parse_jmdict(LOANWORDS.as_bytes(), 100, None).ok().unwrap();
    assert_eq!(stats.jmdict_entries, 6);
    assert!(rows.iter().all(|row| row.cost >= 600 && row.cost < 700));
}

#[test]
fn sources_are_named_by_date_or_digest() {
    assert_eq!(
        source_asset_name(true, "2026-07-22", ""),
        "JMdict_e-20260722.xml.gz"
    );
    assert_eq!(
        source_asset_name(false, "", "0123456789abcdef"),
        "JMdict_e-0123456789ab.xml"
    );
}

#[test]
fn options_are_checked_in_order() {
    let check = |change: &dyn Fn(&mut BuildOptions, &mut PresentFiles)| {
        let mut options = options(DictionaryKind::Generic);
        let mut present = all_present();
        change(&mut options, &mut present);
        let fault = validate_options(&options, present).unwrap_err();
        (fault, fault.message(&options))
    };
    let (fault, message) = check(&|_, present| present.input = false);
    assert_eq!(fault, OptionFault::NoInput);
    assert_eq!(message, "JMdict input does not exist: JMdict_e.xml");
    let (_, message) = check(&|_, present| present.mozc_id_def = false);
    assert_eq!(message, "Mozc id.def does not exist: id.def");
    let (_, message) = check(&|_, present| present.jmdict_license = false);
    assert_eq!(message, "JMdict licence does not exist: licence.html");
    let (_, message) = check(&|options, _| options.entries_per_shard = 0);
    assert_eq!(message, "--entries-per-shard must be positive");
    let (_, message) = check(&|options, _| options.base_cost = 32_001);
    assert_eq!(message, "--base-cost must be between 1 and 32000");
    let (_, message) = check(&|options, _| options.source_url = " \u{3000}".to_owned());
    assert_eq!(message, "--source-url must not be empty");
    let (fault, _) =
        check(&|options, _| options.direct_loanword_allowlist = Some("x".to_owned()));
    assert_eq!(fault, OptionFault::LoanwordOptions);
    let (fault, _) =
        check(&|options, _| options.dictionary_kind = DictionaryKind::DirectLoanword);
    assert_eq!(fault, OptionFault::NoPronunciations);
    let (fault, _) = check(&|options, _| {
        options.dictionary_kind = DictionaryKind::DirectLoanword;
        options.pronunciation_dictionary = Some("x".to_owned());
    });
    assert_eq!(fault, OptionFault::NoPronunciationMetadata);
}

#[test]
fn documents_without_katakana_give_nothing() {
    let options = options(DictionaryKind::Generic);
    let error = build(&options, all_present(), &files("<JMdict/>")).err().unwrap();
    assert!(matches!(error, BuildError::NoEntries));
    let error = build(&options, all_present(), &files("<JMdict")).err().unwrap();
    assert!(matches!(error, BuildError::Document(_)));
    let mut sources = files(DOCUMENT);
    sources.mozc_id_def = String::new();
    let error = build(&options, all_present(), &sources).err().unwrap();
    assert!(matches!(error, BuildError::IdDef(IdDefError::NoNoun)));
}

#[test]
fn descriptions_name_their_files() {
    let generic = dictionary_readme(DictionaryKind::Generic);
    assert!(generic.starts_with("# Hiragana-to-English Mozc dictionary\n\n"));
    assert!(generic.contains(&format!("`{}`", json_name(MANIFEST_NAME))));
    let direct = dictionary_readme(DictionaryKind::DirectLoanword);
    assert!(direct.ends_with("are maintained in `direct-loanword-allowlist.tsv`.\n"));
    assert_eq!(DictionaryKind::Generic.as_str(), "generic");
}

#[test]
fn gzip_files_are_unpacked() {
    let mut encoder =
        flate2::write::GzEncoder::new(Vec::new(), flate2::Compression::default());
    encoder.write_all(DOCUMENT.as_bytes()).unwrap();
    let packed = encoder.finish().unwrap();
    assert_ne!(packed, DOCUMENT.as_bytes());
    let document = read_contents(packed, Compression::Gzip).unwrap();
    assert_eq!(document, DOCUMENT.as_bytes());
}

#[test]
fn stress_is_not_spelled() {
    let romaji = |text: &str| {
        let phones: Vec<String> = text.split(',').map(str::to_owned).collect();
        pronunciation_to_romaji(&phones)
    };
    assert_eq!(romaji("B,EY1,S").unwrap(), "beis");
    assert_eq!(romaji("B,EY0,S"), romaji("B,EY,S"));
    assert_eq!(romaji("B2,EY12,S0"), romaji("B,EY,S"));
    assert_eq!(romaji("DH,AH0"), None);
    assert_eq!(romaji("B,EY1,DH"), None);
    assert_eq!(romaji("B,DH,EY1"), None);
    assert_eq!(romaji("B,EY3"), None);
    assert_eq!(romaji("K IY").unwrap(), "kii");
}
