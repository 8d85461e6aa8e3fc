//! From sentences to sequences of tokens.

use crate::kana::{hiragana_of, katakana_to_hiragana};
use crate::ngram::id_map::{resolved, IdMapView, MozcIdMap};
use crate::ngram::tokens::{TokenKey, TokenView};
use crate::text::{
    byte_count, byte_count_adds, byte_length, contains_control, has_control, same_text, split,
    split_on, split_on_not_empty, texts,
};
use crate::views::{views, views_push};
use vstd::prelude::*;

verus! {

/// The limit for the surface and for the reading of a token. Three tokens must stay below Mozc's
/// limit of 1024 bytes for a key even where their readings are put together.
pub const MAX_TOKEN_FIELD_BYTES: usize = 256;

#[verifier::external_type_specification]
#[verifier::external_body]
pub struct ExTokenizer(vibrato::Tokenizer);

/// A word that the morphological analysis finds: its surface, its feature and its range in the
/// sentence, in characters.
pub struct Morpheme {
    pub surface: String,
    pub feature: String,
    pub start: usize,
    pub end: usize,
}

#[verifier::ext_equal]
pub struct MorphemeView {
    pub surface: Seq<char>,
    pub feature: Seq<char>,
    pub start: int,
    pub end: int,
}

impl View for Morpheme {
    type V = MorphemeView;

    open spec fn view(&self) -> MorphemeView {
        MorphemeView {
            surface: self.surface@,
            feature: self.feature@,
            start: self.start as int,
            end: self.end as int,
        }
    }
}

/// The words that a tokenizer finds in a sentence. Nothing where the words of its dictionary,
/// those for unknown words among them, do not cover the sentence, or where a sum of their costs
/// does not fit in 32 bits.
pub uninterp spec fn analysis_of(
    tokenizer: vibrato::Tokenizer,
    sentence: Seq<char>,
) -> Option<Seq<MorphemeView>>;

/// The tokenizer comes to an end with the sentence.
pub open spec fn can_be_analyzed(tokenizer: vibrato::Tokenizer, sentence: Seq<char>) -> bool {
    analysis_of(tokenizer, sentence) is Some
}

/// The tokenizer comes to an end with each of the sentences.
pub open spec fn can_all_be_analyzed(
    tokenizer: vibrato::Tokenizer,
    sentences: Seq<Seq<char>>,
) -> bool {
    forall|i: int|
        0 <= i < sentences.len() ==> can_be_analyzed(tokenizer, #[trigger] sentences[i])
}

/// The words that a tokenizer finds in a sentence with which it comes to an end.
pub open spec fn morphemes_of(
    tokenizer: vibrato::Tokenizer,
    sentence: Seq<char>,
) -> Seq<MorphemeView> {
    analysis_of(tokenizer, sentence)->Some_0
}

/// `vibrato::Tokenizer::new_worker`, `Worker::reset_sentence` and `Worker::tokenize`: the words
/// are a function of the tokenizer and the sentence. The surface of each is what stands in its
/// range. The analysis panics where the dictionary has neither a word nor an entry for unknown
/// words to go on with, and where a sum of costs overflows, so these sentences are left out.
#[verifier::external_body]
pub(crate) fn analyze(tokenizer: &vibrato::Tokenizer, sentence: &str) -> (words: Vec<Morpheme>)
    requires
        can_be_analyzed(*tokenizer, sentence@),
    ensures
        analysis_of(*tokenizer, sentence@) == Some(views(words@)),
        forall|i: int|
            0 <= i < words@.len() ==> {
                &&& (#[trigger] words@[i]).start <= words@[i].end <= sentence@.len()
                &&& words@[i].surface@ == sentence@.subrange(
                    words@[i].start as int,
                    words@[i].end as int,
                )
            },
{
    let mut worker = tokenizer.new_worker();
    worker.reset_sentence(sentence);
    worker.tokenize();
    let words = worker.token_iter().map(
        |word| Morpheme {
            surface: word.surface().to_owned(),
            feature: word.feature().to_owned(),
            start: word.range_char().start,
            end: word.range_char().end,
        },
    );
    words.collect()
}

/// Hiragana and katakana.
pub open spec fn is_kana_char(c: char) -> bool {
    '\u{3041}' <= c <= '\u{309F}' || '\u{30A0}' <= c <= '\u{30FF}'
}

/// Whether a character is hiragana or katakana.
pub fn is_kana(character: char) -> (found: bool)
    ensures
        found == is_kana_char(character),
{
    match character {
        '\u{3041}'..='\u{309F}' | '\u{30A0}'..='\u{30FF}' => true,
        _ => false,
    }
}

/// Kanji, by their blocks.
pub open spec fn is_kanji_char(c: char) -> bool {
    '\u{3400}' <= c <= '\u{4DBF}' || '\u{4E00}' <= c <= '\u{9FFF}' || '\u{F900}' <= c <= '\u{FAFF}'
}

/// A letter of Japanese: kana, kanji, and the marks that stand for kanji.
pub open spec fn is_japanese_letter(c: char) -> bool {
    is_kana_char(c) || is_kanji_char(c) || c == '々' || c == '〆'
}

/// Whether a text contains a letter of Japanese.
pub fn contains_japanese_letter(input: &str) -> (found: bool)
    ensures
        found == (exists|i: int| 0 <= i < input@.len() && is_japanese_letter(#[trigger] input@[i])),
{
    for c in it: input.chars()
        invariant
            it.seq() == input@,
            forall|i: int| 0 <= i < it.index() ==> !is_japanese_letter(#[trigger] input@[i]),
    {
        match c {
            '\u{3041}'..='\u{309F}'
            | '\u{30A0}'..='\u{30FF}'
            | '\u{3400}'..='\u{4DBF}'
            | '\u{4E00}'..='\u{9FFF}'
            | '\u{F900}'..='\u{FAFF}'
            | '々'
            | '〆' => {
                assert(is_japanese_letter(input@[it.index()]));
                return true;
            },
            _ => {
                assert(!is_japanese_letter(input@[it.index()]));
            },
        }
    }
    false
}

/// Whether a text contains kanji.
pub fn contains_kanji(input: &str) -> (found: bool)
    ensures
        found == has_kanji(input@),
{
    for c in it: input.chars()
        invariant
            it.seq() == input@,
            forall|i: int| 0 <= i < it.index() ==> !is_kanji_char(#[trigger] input@[i]),
    {
        match c {
            '\u{3400}'..='\u{4DBF}' | '\u{4E00}'..='\u{9FFF}' | '\u{F900}'..='\u{FAFF}' => {
                assert(is_kanji_char(input@[it.index()]));
                return true;
            },
            _ => {
                assert(!is_kanji_char(input@[it.index()]));
            },
        }
    }
    false
}

/// The text contains kanji.
pub open spec fn has_kanji(text: Seq<char>) -> bool {
    exists|i: int| 0 <= i < text.len() && is_kanji_char(#[trigger] text[i])
}

/// The text contains a letter of Japanese.
pub open spec fn has_japanese_letter(text: Seq<char>) -> bool {
    exists|i: int| 0 <= i < text.len() && is_japanese_letter(#[trigger] text[i])
}

/// The text is all kana.
pub open spec fn is_kana_text(text: Seq<char>) -> bool {
    forall|i: int| 0 <= i < text.len() ==> is_kana_char(#[trigger] text[i])
}

fn all_kana(input: &str) -> (all: bool)
    ensures
        all == is_kana_text(input@),
{
    for c in it: input.chars()
        invariant
            it.seq() == input@,
            forall|i: int| 0 <= i < it.index() ==> is_kana_char(#[trigger] input@[i]),
    {
        if !is_kana(c) {
            assert(!is_kana_char(input@[it.index()]));
            return false;
        }
    }
    true
}

/// A text that can stand in a dictionary: not empty, not too long, without control characters.
pub open spec fn is_dictionary_text(text: Seq<char>) -> bool {
    text.len() > 0 && byte_count(text) <= MAX_TOKEN_FIELD_BYTES && !has_control(text)
}

/// Whether a text can stand in a dictionary.
pub fn valid_dictionary_text(input: &str) -> (valid: bool)
    ensures
        valid == is_dictionary_text(input@),
{
    !input.is_empty() && byte_length(input) <= MAX_TOKEN_FIELD_BYTES && !contains_control(input)
}

/// A sound of hiragana, or a long vowel mark.
pub open spec fn is_reading_char(c: char) -> bool {
    '\u{3041}' <= c <= '\u{309F}' || c == 'ー'
}

/// A reading that can stand in a dictionary: it has a sound in it.
pub open spec fn is_reading(text: Seq<char>) -> bool {
    &&& exists|i: int| 0 <= i < text.len() && is_reading_char(#[trigger] text[i])
    &&& is_dictionary_text(text)
}

/// Whether a reading can stand in a dictionary.
pub fn valid_reading(input: &str) -> (valid: bool)
    ensures
        valid == is_reading(input@),
{
    let mut sound = false;
    for c in it: input.chars()
        invariant
            it.seq() == input@,
            sound == (exists|i: int| 0 <= i < it.index() && is_reading_char(#[trigger] input@[i])),
    {
        match c {
            '\u{3041}'..='\u{309F}' | 'ー' => {
                assert(is_reading_char(input@[it.index()]));
                sound = true;
            },
            _ => {
                assert(!is_reading_char(input@[it.index()]));
            },
        }
    }
    sound && valid_dictionary_text(input)
}

/// A field of a feature, or what stands for it where the feature is too short.
pub open spec fn field_or(parts: Seq<Seq<char>>, i: int, default: Seq<char>) -> Seq<char> {
    if i < parts.len() {
        parts[i]
    } else {
        default
    }
}

/// A field of a feature, or what stands for it where the feature is too short.
pub fn field(parts: &[String], i: usize, default: &str) -> (field: String)
    ensures
        field@ == field_or(texts(parts@), i as int, default@),
{
    if i < parts.len() {
        parts[i].clone()
    } else {
        default.to_owned()
    }
}

/// The reading of a word in hiragana: that of its feature, or, where it has none, the word
/// itself if it is written in kana.
pub open spec fn word_reading(word: MorphemeView) -> Option<Seq<char>> {
    let raw = field_or(split_on(word.feature, ','), 7, "*"@);
    if raw != "*"@ {
        Some(hiragana_of(raw))
    } else if is_kana_text(word.surface) {
        Some(hiragana_of(word.surface))
    } else {
        None
    }
}

/// The reading of a word that is counted: symbols are not, nor words without Japanese letters or
/// with a surface or a reading that cannot stand in a dictionary.
pub open spec fn counted_reading(word: MorphemeView) -> Option<Seq<char>> {
    match word_reading(word) {
        Some(reading) => if split_on(word.feature, ',')[0] == "記号"@ || !has_japanese_letter(
            word.surface,
        ) || !is_dictionary_text(word.surface) || !is_reading(reading) {
            None
        } else {
            Some(reading)
        },
        None => None,
    }
}

/// The reading of a word, nothing where the word is not counted.
pub fn reading_of(word: &Morpheme, parts: &[String]) -> (reading: Option<String>)
    requires
        texts(parts@) == split_on(word.feature@, ','),
    ensures
        match reading {
            Some(reading) => counted_reading(word@) == Some(reading@),
            None => counted_reading(word@) is None,
        },
{
    let surface = word.surface.as_str();
    let raw = field(parts, 7, "*");
    let reading = if !same_text(raw.as_str(), "*") {
        katakana_to_hiragana(raw.as_str())
    } else if all_kana(surface) {
        katakana_to_hiragana(surface)
    } else {
        return None;
    };
    proof {
        split_on_not_empty(word.feature@, ',');
        assert(texts(parts@)[0] == parts@[0]@);
    }
    if same_text(parts[0].as_str(), "記号") || !contains_japanese_letter(surface)
        || !valid_dictionary_text(surface) || !valid_reading(reading.as_str()) {
        return None;
    }
    Some(reading)
}

/// A counted word with the parts of its feature that merging looks at.
pub struct MorphToken {
    pub key: TokenKey,
    pub pos: String,
    pub subpos: String,
    pub subsubpos: String,
}

#[verifier::ext_equal]
pub struct MorphView {
    pub key: TokenView,
    pub pos: Seq<char>,
    pub subpos: Seq<char>,
    pub subsubpos: Seq<char>,
}

impl View for MorphToken {
    type V = MorphView;

    open spec fn view(&self) -> MorphView {
        MorphView {
            key: self.key@,
            pos: self.pos@,
            subpos: self.subpos@,
            subsubpos: self.subsubpos@,
        }
    }
}

/// The counted word, nothing where it is not counted.
pub open spec fn counted_word(word: MorphemeView, ids: IdMapView) -> Option<MorphView> {
    let parts = split_on(word.feature, ',');
    match counted_reading(word) {
        Some(reading) => {
            let id = resolved(ids.entries, ids.generic_noun_id, word.feature);
            Some(
                MorphView {
                    key: TokenView { surface: word.surface, reading, left_id: id, right_id: id },
                    pos: parts[0],
                    subpos: field_or(parts, 1, "UNK"@),
                    subsubpos: field_or(parts, 2, "UNK"@),
                },
            )
        },
        None => None,
    }
}

fn count_word(word: &Morpheme, ids: &MozcIdMap) -> (token: Option<MorphToken>)
    ensures
        match token {
            Some(token) => counted_word(word@, ids@) == Some(token@),
            None => counted_word(word@, ids@) is None,
        },
{
    let parts = split(word.feature.as_str(), ',');
    match reading_of(word, &parts) {
        Some(reading) => {
            proof {
                split_on_not_empty(word.feature@, ',');
                assert(texts(parts@)[0] == parts@[0]@);
            }
            let id = ids.resolve(word.feature.as_str());
            let token = MorphToken {
                key: TokenKey {
                    surface: word.surface.clone(),
                    reading,
                    left_id: id,
                    right_id: id,
                },
                pos: parts[0].clone(),
                subpos: field(&parts, 1, "UNK"),
                subsubpos: field(&parts, 2, "UNK"),
            };
            Some(token)
        },
        None => None,
    }
}

/// The words since the last one that is not counted.
pub open spec fn open_run(words: Seq<MorphemeView>, ids: IdMapView) -> Seq<MorphView>
    decreases words.len(),
{
    if words.len() == 0 {
        Seq::empty()
    } else {
        match counted_word(words.last(), ids) {
            Some(word) => open_run(words.drop_last(), ids).push(word),
            None => Seq::empty(),
        }
    }
}

/// The sequences of tokens, with one more run of words, if it has any.
pub open spec fn with_run(
    sequences: Seq<Seq<TokenView>>,
    run: Seq<MorphView>,
) -> Seq<Seq<TokenView>> {
    if run.len() == 0 {
        sequences
    } else {
        sequences.push(merged_from(run, 0))
    }
}

/// The sequences of tokens that a word that is not counted ends.
pub open spec fn ended_sequences(words: Seq<MorphemeView>, ids: IdMapView) -> Seq<Seq<TokenView>>
    decreases words.len(),
{
    if words.len() == 0 {
        Seq::empty()
    } else {
        let before = words.drop_last();
        match counted_word(words.last(), ids) {
            Some(_) => ended_sequences(before, ids),
            None => with_run(ended_sequences(before, ids), open_run(before, ids)),
        }
    }
}

/// The sequences of tokens of a sentence: its runs of counted words, merged to units.
pub open spec fn sequences_of(words: Seq<MorphemeView>, ids: IdMapView) -> Seq<Seq<TokenView>> {
    with_run(ended_sequences(words, ids), open_run(words, ids))
}

/// A word that is not a unit of its own behind another: an auxiliary behind a verb or another
/// auxiliary, a conjunctive particle, or a suffix.
pub open spec fn joins(previous: MorphView, current: MorphView) -> bool {
    ||| current.pos == "助動詞"@ && (previous.pos == "動詞"@ || previous.pos == "助動詞"@)
    ||| current.subpos == "接続助詞"@
    ||| current.subpos == "接尾"@
}

fn is_joined(previous: &MorphToken, current: &MorphToken) -> (joined: bool)
    ensures
        joined == joins(previous@, current@),
{
    (same_text(current.pos.as_str(), "助動詞") && (same_text(previous.pos.as_str(), "動詞")
        || same_text(previous.pos.as_str(), "助動詞"))) || same_text(
        current.subpos.as_str(),
        "接続助詞",
    ) || same_text(current.subpos.as_str(), "接尾")
}

/// The reading of a word in a unit: `家` behind the name of a person is read `け`.
pub open spec fn reading_behind(previous: MorphView, current: MorphView) -> Seq<char> {
    if current.key.surface == "家"@ && current.key.reading == "か"@ && previous.subsubpos
        == "人名"@ {
        seq!['け']
    } else {
        current.key.reading
    }
}

/// The words from `start` up to `end` as one token.
pub open spec fn unit(run: Seq<MorphView>, start: int, end: int) -> TokenView
    decreases end - start,
{
    if end <= start + 1 {
        run[start].key
    } else {
        let before = unit(run, start, end - 1);
        let last = run[end - 1];
        TokenView {
            surface: before.surface + last.key.surface,
            reading: before.reading + reading_behind(run[end - 2], last),
            left_id: before.left_id,
            right_id: last.key.right_id,
        }
    }
}

/// The surface and the reading of a token stay within the limit.
pub open spec fn is_within_limit(token: TokenView) -> bool {
    byte_count(token.surface) <= MAX_TOKEN_FIELD_BYTES && byte_count(token.reading)
        <= MAX_TOKEN_FIELD_BYTES
}

/// The unit from `start` up to `end` goes on: the next word is not a unit of its own, and there is
/// room for it.
pub open spec fn goes_on(run: Seq<MorphView>, start: int, end: int) -> bool {
    &&& 0 < end < run.len()
    &&& joins(run[end - 1], run[end])
    &&& is_within_limit(unit(run, start, end + 1))
}

/// Where the unit that starts at `start` and reaches to `end` at least ends.
pub open spec fn unit_end(run: Seq<MorphView>, start: int, end: int) -> int
    decreases run.len() - end,
{
    if goes_on(run, start, end) {
        unit_end(run, start, end + 1)
    } else {
        end
    }
}

/// The units from `start` on.
pub open spec fn merged_from(run: Seq<MorphView>, start: int) -> Seq<TokenView>
    decreases run.len() - start,
{
    if start >= run.len() {
        Seq::empty()
    } else {
        proof {
            unit_end_within(run, start, start + 1);
        }
        seq![unit(run, start, unit_end(run, start, start + 1))] + merged_from(
            run,
            unit_end(run, start, start + 1),
        )
    }
}

/// Units end behind their start, within the run.
pub proof fn unit_end_within(run: Seq<MorphView>, start: int, end: int)
    requires
        end <= run.len(),
    ensures
        end <= unit_end(run, start, end) <= run.len(),
    decreases run.len() - end,
{
    if goes_on(run, start, end) {
        unit_end_within(run, start, end + 1);
    }
}

/// The token with one more word, nothing where the word is a unit of its own or there is no room
/// for it.
fn extend_unit(key: &TokenKey, previous: &MorphToken, current: &MorphToken) -> (longer: Option<
    TokenKey,
>)
    ensures
        ({
            let joined = TokenView {
                surface: key@.surface + current@.key.surface,
                reading: key@.reading + reading_behind(previous@, current@),
                left_id: key@.left_id,
                right_id: current@.key.right_id,
            };
            match longer {
                Some(longer) => {
                    &&& joins(previous@, current@)
                    &&& is_within_limit(joined)
                    &&& longer@ == joined
                },
                None => !joins(previous@, current@) || !is_within_limit(joined),
            }
        }),
{
    if !is_joined(previous, current) {
        return None;
    }
    let mut longer = key.duplicate();
    longer.surface.append(current.key.surface.as_str());
    if same_text(current.key.surface.as_str(), "家") && same_text(
        current.key.reading.as_str(),
        "か",
    ) && same_text(previous.subsubpos.as_str(), "人名") {
        longer.reading.push('け');
        assert(longer.reading@ =~= key.reading@ + seq!['け']);
    } else {
        longer.reading.append(current.key.reading.as_str());
    }
    longer.right_id = current.key.right_id;
    if byte_length(longer.surface.as_str()) > MAX_TOKEN_FIELD_BYTES || byte_length(
        longer.reading.as_str(),
    ) > MAX_TOKEN_FIELD_BYTES {
        return None;
    }
    Some(longer)
}

/// Merges words to units.
pub fn merge_terms(tokens: &[MorphToken]) -> (units: Vec<TokenKey>)
    ensures
        views(units@) == merged_from(views(tokens@), 0),
{
    let ghost run = views(tokens@);
    let mut units: Vec<TokenKey> = Vec::new();
    let mut index: usize = 0;
    assert(views(units@) + merged_from(run, 0) =~= merged_from(run, 0));
    while index < tokens.len()
        invariant
            run == views(tokens@),
            index <= tokens@.len(),
            views(units@) + merged_from(run, index as int) == merged_from(run, 0),
        decreases tokens@.len() - index,
    {
        let mut key = tokens[index].key.duplicate();
        let mut next: usize = index + 1;
        assert(run[index as int] == tokens@[index as int]@);
        while next < tokens.len()
            invariant
                run == views(tokens@),
                index < next <= tokens@.len(),
                key@ == unit(run, index as int, next as int),
                unit_end(run, index as int, index + 1) == unit_end(run, index as int, next as int),
            ensures
                unit_end(run, index as int, next as int) == next,
            decreases tokens@.len() - next,
        {
            assert(run[next as int] == tokens@[next as int]@);
            assert(run[next - 1] == tokens@[next - 1]@);
            let longer = match extend_unit(&key, &tokens[next - 1], &tokens[next]) {
                Some(longer) => longer,
                None => {
                    break;
                },
            };
            key = longer;
            next += 1;
            assert(key@ =~= unit(run, index as int, next as int));
        }
        proof {
            views_push(units@, key);
            let rest = merged_from(run, next as int);
            assert(views(units@).push(key@) + rest =~= views(units@) + (seq![key@] + rest));
        }
        units.push(key);
        index = next;
    }
    assert(views(units@) + merged_from(run, index as int) =~= views(units@));
    units
}

/// All tokens of sequences stay within the limit.
pub open spec fn all_within_limit(sequences: Seq<Seq<TokenView>>) -> bool {
    forall|i: int, j: int|
        0 <= i < sequences.len() && 0 <= j < sequences[i].len() ==> is_within_limit(
            #[trigger] sequences[i][j],
        )
}

/// All words of a run stay within the limit.
spec fn is_short_run(run: Seq<MorphView>) -> bool {
    forall|i: int| 0 <= i < run.len() ==> is_within_limit((#[trigger] run[i]).key)
}

proof fn unit_stays_within(run: Seq<MorphView>, start: int, end: int)
    requires
        0 <= start < end <= run.len(),
        is_within_limit(unit(run, start, end)),
    ensures
        is_within_limit(unit(run, start, unit_end(run, start, end))),
    decreases run.len() - end,
{
    if goes_on(run, start, end) {
        unit_stays_within(run, start, end + 1);
    }
}

proof fn units_stay_within(run: Seq<MorphView>, start: int)
    requires
        0 <= start,
        is_short_run(run),
    ensures
        forall|i: int|
            0 <= i < merged_from(run, start).len() ==> is_within_limit(
                #[trigger] merged_from(run, start)[i],
            ),
    decreases run.len() - start,
{
    if start < run.len() {
        let end = unit_end(run, start, start + 1);
        unit_end_within(run, start, start + 1);
        assert(unit(run, start, start + 1) == run[start].key);
        unit_stays_within(run, start, start + 1);
        units_stay_within(run, end);
        let all = merged_from(run, start);
        assert forall|i: int| 0 <= i < all.len() implies is_within_limit(#[trigger] all[i]) by {
            if i > 0 {
                assert(all[i] == merged_from(run, end)[i - 1]);
            }
        }
    }
}

proof fn open_run_is_short(words: Seq<MorphemeView>, ids: IdMapView)
    ensures
        is_short_run(open_run(words, ids)),
    decreases words.len(),
{
    if words.len() > 0 {
        open_run_is_short(words.drop_last(), ids);
    }
}

proof fn ended_stay_within(words: Seq<MorphemeView>, ids: IdMapView)
    ensures
        all_within_limit(ended_sequences(words, ids)),
    decreases words.len(),
{
    if words.len() > 0 {
        let before = words.drop_last();
        ended_stay_within(before, ids);
        open_run_is_short(before, ids);
        units_stay_within(open_run(before, ids), 0);
    }
}

/// The surface and the reading of every token that is counted stay within the limit, merged words
/// included.
pub proof fn tokens_stay_within(words: Seq<MorphemeView>, ids: IdMapView)
    ensures
        all_within_limit(sequences_of(words, ids)),
{
    ended_stay_within(words, ids);
    open_run_is_short(words, ids);
    units_stay_within(open_run(words, ids), 0);
}

/// The views of sequences of tokens.
pub open spec fn sequence_views(sequences: Seq<Vec<TokenKey>>) -> Seq<Seq<TokenView>> {
    Seq::new(sequences.len(), |i: int| views(sequences[i]@))
}

fn flush_contiguous(tokens: &mut Vec<MorphToken>, output: &mut Vec<Vec<TokenKey>>)
    ensures
        sequence_views(final(output)@) == with_run(
            sequence_views(old(output)@),
            views(old(tokens)@),
        ),
        final(tokens)@.len() == 0,
{
    if tokens.len() == 0 {
        return;
    }
    let ghost before = output@;
    let units = merge_terms(tokens);
    output.push(units);
    assert(sequence_views(output@) =~= sequence_views(before).push(views(units@)));
    tokens.clear();
}

/// The sequences of tokens that the words of a sentence give.
pub fn token_sequences(words: &[Morpheme], ids: &MozcIdMap) -> (sequences: Vec<Vec<TokenKey>>)
    ensures
        sequence_views(sequences@) == sequences_of(views(words@), ids@),
        all_within_limit(sequence_views(sequences@)),
{
    let ghost all = views(words@);
    let mut sequences: Vec<Vec<TokenKey>> = Vec::new();
    let mut contiguous: Vec<MorphToken> = Vec::new();
    let mut i: usize = 0;
    assert(all.take(0) =~= Seq::empty());
    assert(sequence_views(sequences@) =~= Seq::empty());
    assert(views(contiguous@) =~= Seq::empty());
    while i < words.len()
        invariant
            all == views(words@),
            i <= words@.len(),
            sequence_views(sequences@) == ended_sequences(all.take(i as int), ids@),
            views(contiguous@) == open_run(all.take(i as int), ids@),
        decreases words@.len() - i,
    {
        proof {
            assert(all.take(i + 1).drop_last() =~= all.take(i as int));
            assert(all.take(i + 1).last() == words@[i as int]@);
        }
        match count_word(&words[i], ids) {
            Some(token) => {
                proof {
                    views_push(contiguous@, token);
                }
                contiguous.push(token);
            },
            None => {
                flush_contiguous(&mut contiguous, &mut sequences);
                assert(views(contiguous@) =~= Seq::empty());
            },
        }
        i += 1;
    }
    assert(all.take(i as int) =~= all);
    flush_contiguous(&mut contiguous, &mut sequences);
    proof {
        tokens_stay_within(all, ids@);
    }
    sequences
}

/// Makes sequences of tokens of sentences.
pub struct TokenSequenceBuilder<'a> {
    tokenizer: &'a vibrato::Tokenizer,
    id_map: &'a MozcIdMap,
}

impl<'a> TokenSequenceBuilder<'a> {
    /// The tokenizer.
    pub closed spec fn spec_tokenizer(&self) -> vibrato::Tokenizer {
        *self.tokenizer
    }

    /// The context IDs.
    pub closed spec fn spec_ids(&self) -> IdMapView {
        self.id_map@
    }

    /// Makes sequences with a tokenizer and context IDs.
    pub fn new(tokenizer: &'a vibrato::Tokenizer, id_map: &'a MozcIdMap) -> (builder: Self)
        ensures
            builder.spec_tokenizer() == *tokenizer,
            builder.spec_ids() == id_map@,
    {
        TokenSequenceBuilder { tokenizer, id_map }
    }

    /// The sequences of tokens of a sentence.
    pub fn tokenize(&self, sentence: &str) -> (sequences: Vec<Vec<TokenKey>>)
        requires
            can_be_analyzed(self.spec_tokenizer(), sentence@),
        ensures
            sequence_views(sequences@) == sequences_of(
                morphemes_of(self.spec_tokenizer(), sentence@),
                self.spec_ids(),
            ),
            all_within_limit(sequence_views(sequences@)),
    {
        let words = analyze(self.tokenizer, sentence);
        token_sequences(&words, self.id_map)
    }
}

/// The surfaces of tokens, one after the other.
pub open spec fn token_text(tokens: Seq<TokenView>) -> Seq<char>
    decreases tokens.len(),
{
    if tokens.len() == 0 {
        Seq::empty()
    } else {
        tokens[0].surface + token_text(tokens.drop_first())
    }
}

/// The surfaces of words from `start` up to `end`, one after the other.
pub open spec fn word_text(run: Seq<MorphView>, start: int, end: int) -> Seq<char>
    decreases end - start,
{
    if end <= start {
        Seq::empty()
    } else {
        word_text(run, start, end - 1) + run[end - 1].key.surface
    }
}

proof fn word_text_splits(run: Seq<MorphView>, start: int, middle: int, end: int)
    requires
        start <= middle <= end,
    ensures
        word_text(run, start, end) == word_text(run, start, middle) + word_text(run, middle, end),
    decreases end - middle,
{
    if middle < end {
        word_text_splits(run, start, middle, end - 1);
        assert(word_text(run, start, middle) + word_text(run, middle, end - 1)
            + run[end - 1].key.surface =~= word_text(run, start, middle) + (word_text(
            run,
            middle,
            end - 1,
        ) + run[end - 1].key.surface));
    } else {
        assert(word_text(run, start, end) =~= word_text(run, start, middle) + word_text(
            run,
            middle,
            end,
        ));
    }
}

proof fn unit_text(run: Seq<MorphView>, start: int, end: int)
    requires
        start < end,
    ensures
        unit(run, start, end).surface == word_text(run, start, end),
        unit(run, start, end).left_id == run[start].key.left_id,
        end > start + 1 ==> unit(run, start, end).right_id == run[end - 1].key.right_id,
    decreases end - start,
{
    if end > start + 1 {
        unit_text(run, start, end - 1);
    } else {
        assert(word_text(run, start, start) =~= Seq::empty());
        assert(word_text(run, start, end) =~= run[start].key.surface);
    }
}

/// Merging words to units keeps their text.
pub proof fn merging_keeps_text(run: Seq<MorphView>, start: int)
    requires
        0 <= start <= run.len(),
    ensures
        token_text(merged_from(run, start)) == word_text(run, start, run.len() as int),
    decreases run.len() - start,
{
    if start < run.len() {
        unit_end_within(run, start, start + 1);
        let end = unit_end(run, start, start + 1);
        merging_keeps_text(run, end);
        unit_text(run, start, end);
        word_text_splits(run, start, end, run.len() as int);
        let units = merged_from(run, start);
        assert(units.drop_first() =~= merged_from(run, end));
    }
}

/// The readings of three tokens in a row, put together, stay below 1024 bytes.
pub proof fn three_tokens_stay_below(words: Seq<MorphemeView>, ids: IdMapView, i: int, j: int)
    requires
        0 <= i < sequences_of(words, ids).len(),
        0 <= j,
        j + 2 < sequences_of(words, ids)[i].len(),
    ensures
        byte_count(
            sequences_of(words, ids)[i][j].reading + sequences_of(words, ids)[i][j + 1].reading
                + sequences_of(words, ids)[i][j + 2].reading,
        ) < 1024,
{
    let tokens = sequences_of(words, ids)[i];
    tokens_stay_within(words, ids);
    assert(is_within_limit(tokens[j]) && is_within_limit(tokens[j + 1]) && is_within_limit(
        tokens[j + 2],
    ));
    byte_count_adds(tokens[j].reading, tokens[j + 1].reading);
    byte_count_adds(tokens[j].reading + tokens[j + 1].reading, tokens[j + 2].reading);
}

/// No sequence of tokens is empty.
pub proof fn sequences_are_never_empty(words: Seq<MorphemeView>, ids: IdMapView)
    ensures
        forall|i: int|
            0 <= i < sequences_of(words, ids).len() ==> (#[trigger] sequences_of(
                words,
                ids,
            )[i]).len() > 0,
        forall|i: int|
            0 <= i < ended_sequences(words, ids).len() ==> (#[trigger] ended_sequences(
                words,
                ids,
            )[i]).len() > 0,
    decreases words.len(),
{
    let run = open_run(words, ids);
    if run.len() > 0 {
        unit_end_within(run, 0, 1);
        assert(merged_from(run, 0).len() > 0);
    }
    if words.len() > 0 {
        let before = words.drop_last();
        sequences_are_never_empty(before, ids);
        match counted_word(words.last(), ids) {
            Some(_) => {
                assert(ended_sequences(words, ids) == ended_sequences(before, ids));
            },
            None => {
                assert(ended_sequences(words, ids) == sequences_of(before, ids));
            },
        }
    }
}

} // verus!
