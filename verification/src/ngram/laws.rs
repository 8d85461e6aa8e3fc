//! How words become tokens, said of their features and characters.

use crate::kana::hiragana_of;
use crate::ngram::id_map::IdMapView;
use crate::ngram::sentences::{
    is_boundary, open_start, sentence_spans, sentences_add, sentences_of, shown_span,
};
use crate::ngram::tokenizer::{
    counted_reading, counted_word, ended_sequences, goes_on, is_japanese_letter, is_kana_char,
    is_reading_char, joins, merged_from, open_run, sequences_of, unit, unit_end, unit_end_within,
    MorphView, MorphemeView,
};
use crate::text::{byte_count, has_control, is_control, split_on, split_on_not_empty, trim};
use vstd::prelude::*;

verus! {

/// A field of the feature of a word; `UNK` where it has no such field.
pub open spec fn feature_field(word: MorphemeView, i: int) -> Seq<char> {
    if i < split_on(word.feature, ',').len() {
        split_on(word.feature, ',')[i]
    } else {
        "UNK"@
    }
}

/// The surfaces of the words from `start` up to `end`, one after the other.
pub open spec fn surfaces(words: Seq<MorphemeView>, start: int, end: int) -> Seq<char>
    decreases end - start,
{
    if end <= start {
        Seq::empty()
    } else {
        surfaces(words, start, end - 1) + words[end - 1].surface
    }
}

/// The readings of the words from `start` up to `end`, one after the other. Behind the name of a
/// person `家` is read `け` where it would be `か`.
pub open spec fn readings(words: Seq<MorphemeView>, start: int, end: int) -> Seq<char>
    decreases end - start,
{
    if end <= start {
        Seq::empty()
    } else {
        let reading = counted_reading(words[end - 1])->0;
        readings(words, start, end - 1) + if end - 1 > start && words[end - 1].surface == "家"@
            && reading == "か"@ && feature_field(words[end - 2], 2) == "人名"@ {
            "け"@
        } else {
            reading
        }
    }
}

/// The places where a run is cut into units.
spec fn are_cuts(run: Seq<MorphView>, start: int, cuts: Seq<int>) -> bool {
    let units = merged_from(run, start);
    &&& cuts.len() == units.len() + 1
    &&& cuts[0] == start
    &&& cuts.last() == run.len()
    &&& forall|k: int|
        0 <= k < units.len() ==> {
            &&& start <= #[trigger] cuts[k] < cuts[k + 1] <= run.len()
            &&& units[k] == unit(run, cuts[k], cuts[k + 1])
            &&& !goes_on(run, cuts[k], cuts[k + 1])
            &&& forall|p: int| cuts[k] < p < cuts[k + 1] ==> #[trigger] goes_on(run, cuts[k], p)
        }
}

proof fn unit_goes_on(run: Seq<MorphView>, start: int, end: int)
    requires
        start < end <= run.len(),
    ensures
        !goes_on(run, start, unit_end(run, start, end)),
        forall|p: int|
            end <= p < unit_end(run, start, end) ==> #[trigger] goes_on(run, start, p),
    decreases run.len() - end,
{
    if goes_on(run, start, end) {
        unit_goes_on(run, start, end + 1);
    }
}

proof fn run_is_cut(run: Seq<MorphView>, start: int) -> (cuts: Seq<int>)
    requires
        0 <= start <= run.len(),
    ensures
        are_cuts(run, start, cuts),
    decreases run.len() - start,
{
    if start >= run.len() {
        seq![start]
    } else {
        let end = unit_end(run, start, start + 1);
        unit_end_within(run, start, start + 1);
        unit_goes_on(run, start, start + 1);
        let rest = run_is_cut(run, end);
        let cuts = seq![start] + rest;
        let units = merged_from(run, start);
        let more = merged_from(run, end);
        assert(units =~= seq![unit(run, start, end)] + more);
        assert forall|k: int| 0 <= k < units.len() implies {
            &&& start <= #[trigger] cuts[k] < cuts[k + 1] <= run.len()
            &&& units[k] == unit(run, cuts[k], cuts[k + 1])
            &&& !goes_on(run, cuts[k], cuts[k + 1])
            &&& forall|p: int| cuts[k] < p < cuts[k + 1] ==> #[trigger] goes_on(run, cuts[k], p)
        } by {
            if k > 0 {
                assert(cuts[k] == rest[k - 1]);
                assert(cuts[k + 1] == rest[k]);
                assert(units[k] == more[k - 1]);
            } else {
                assert(cuts[1] == rest[0]);
            }
        }
        assert(cuts.last() == rest.last());
        cuts
    }
}

proof fn open_run_of_counted(words: Seq<MorphemeView>, ids: IdMapView)
    requires
        forall|i: int| 0 <= i < words.len() ==> counted_word(#[trigger] words[i], ids) is Some,
    ensures
        open_run(words, ids).len() == words.len(),
        forall|i: int|
            0 <= i < words.len() ==> Some(#[trigger] open_run(words, ids)[i]) == counted_word(
                words[i],
                ids,
            ),
        ended_sequences(words, ids).len() == 0,
    decreases words.len(),
{
    if words.len() > 0 {
        let before = words.drop_last();
        assert(forall|i: int| 0 <= i < before.len() ==> before[i] == words[i]);
        assert(counted_word(words[words.len() - 1], ids) is Some);
        open_run_of_counted(before, ids);
    }
}

proof fn unit_of_words(
    words: Seq<MorphemeView>,
    ids: IdMapView,
    run: Seq<MorphView>,
    start: int,
    end: int,
)
    requires
        0 <= start < end <= words.len(),
        run.len() == words.len(),
        forall|i: int|
            0 <= i < words.len() ==> Some(#[trigger] run[i]) == counted_word(words[i], ids),
    ensures
        unit(run, start, end).surface == surfaces(words, start, end),
        unit(run, start, end).reading == readings(words, start, end),
        unit(run, start, end).left_id == run[start].key.left_id,
        unit(run, start, end).right_id == run[end - 1].key.right_id,
    decreases end - start,
{
    reveal_strlit("け");
    assert("け"@ =~= seq!['け']);
    assert(Some(run[end - 1]) == counted_word(words[end - 1], ids));
    if end > start + 1 {
        unit_of_words(words, ids, run, start, end - 1);
        assert(Some(run[end - 2]) == counted_word(words[end - 2], ids));
        split_on_not_empty(words[end - 2].feature, ',');
    } else {
        assert(surfaces(words, start, start) =~= Seq::empty());
        assert(readings(words, start, start) =~= Seq::empty());
        assert(surfaces(words, start, end) =~= words[start].surface);
        assert(readings(words, start, end) =~= counted_reading(words[start])->0);
    }
}

/// The three kinds of words that are no units of their own behind another.
proof fn joined_words_are_literal(
    previous: MorphemeView,
    current: MorphemeView,
    ids: IdMapView,
    first: MorphView,
    second: MorphView,
)
    requires
        counted_word(previous, ids) == Some(first),
        counted_word(current, ids) == Some(second),
    ensures
        joins(first, second) <==> {
            ||| feature_field(current, 1) == "接続助詞"@
            ||| feature_field(current, 1) == "接尾"@
            ||| feature_field(current, 0) == "助動詞"@ && (feature_field(previous, 0) == "動詞"@
                || feature_field(previous, 0) == "助動詞"@)
        },
{
    split_on_not_empty(previous.feature, ',');
    split_on_not_empty(current.feature, ',');
}

/// Counted words in a row become one sequence of tokens, cut between some of the words. A token
/// is made of the words between two cuts, with the left context of the first and the right context
/// of the last.
///
/// There is no cut before a conjunctive particle, before a suffix, nor before an auxiliary that
/// stands behind a verb or another auxiliary, as long as the token with it has at most 256 bytes of
/// surface and of reading. There is one before every other word.
#[verifier::rlimit(60)]
pub proof fn words_become_tokens(words: Seq<MorphemeView>, ids: IdMapView) -> (cuts: Seq<int>)
    requires
        words.len() > 0,
        forall|i: int| 0 <= i < words.len() ==> counted_word(#[trigger] words[i], ids) is Some,
    ensures
        sequences_of(words, ids).len() == 1,
        cuts.len() == sequences_of(words, ids)[0].len() + 1,
        cuts[0] == 0,
        cuts.last() == words.len(),
        forall|k: int|
            0 <= k < sequences_of(words, ids)[0].len() ==> {
                let token = sequences_of(words, ids)[0][k];
                &&& 0 <= #[trigger] cuts[k] < cuts[k + 1] <= words.len()
                &&& token.surface == surfaces(words, cuts[k], cuts[k + 1])
                &&& token.reading == readings(words, cuts[k], cuts[k + 1])
                &&& token.left_id == (counted_word(words[cuts[k]], ids)->0).key.left_id
                &&& token.right_id == (counted_word(words[cuts[k + 1] - 1], ids)->0).key.right_id
            },
        forall|k: int, p: int|
            #![trigger cuts[k], words[p]]
            0 <= k < sequences_of(words, ids)[0].len() && cuts[k] < p <= cuts[k + 1] && p
                < words.len() ==> {
                let behind = {
                    ||| feature_field(words[p], 1) == "接続助詞"@
                    ||| feature_field(words[p], 1) == "接尾"@
                    ||| feature_field(words[p], 0) == "助動詞"@ && (feature_field(words[p - 1], 0)
                        == "動詞"@ || feature_field(words[p - 1], 0) == "助動詞"@)
                };
                let fits = byte_count(surfaces(words, cuts[k], p + 1)) <= 256 && byte_count(
                    readings(words, cuts[k], p + 1),
                ) <= 256;
                (p < cuts[k + 1]) == (behind && fits)
            },
{
    open_run_of_counted(words, ids);
    let run = open_run(words, ids);
    let cuts = run_is_cut(run, 0);
    let units = merged_from(run, 0);
    assert(sequences_of(words, ids) =~= seq![units]);
    assert forall|k: int| 0 <= k < units.len() implies {
        &&& 0 <= #[trigger] cuts[k] < cuts[k + 1] <= words.len()
        &&& units[k].surface == surfaces(words, cuts[k], cuts[k + 1])
        &&& units[k].reading == readings(words, cuts[k], cuts[k + 1])
        &&& units[k].left_id == (counted_word(words[cuts[k]], ids)->0).key.left_id
        &&& units[k].right_id == (counted_word(words[cuts[k + 1] - 1], ids)->0).key.right_id
    } by {
        unit_of_words(words, ids, run, cuts[k], cuts[k + 1]);
        assert(Some(run[cuts[k]]) == counted_word(words[cuts[k]], ids));
        assert(Some(run[cuts[k + 1] - 1]) == counted_word(words[cuts[k + 1] - 1], ids));
    }
    assert forall|k: int, p: int|
        #![trigger cuts[k], words[p]]
        0 <= k < units.len() && cuts[k] < p <= cuts[k + 1] && p < words.len() implies {
        let behind = {
            ||| feature_field(words[p], 1) == "接続助詞"@
            ||| feature_field(words[p], 1) == "接尾"@
            ||| feature_field(words[p], 0) == "助動詞"@ && (feature_field(words[p - 1], 0)
                == "動詞"@ || feature_field(words[p - 1], 0) == "助動詞"@)
        };
        let fits = byte_count(surfaces(words, cuts[k], p + 1)) <= 256 && byte_count(
            readings(words, cuts[k], p + 1),
        ) <= 256;
        (p < cuts[k + 1]) == (behind && fits)
    } by {
        assert(cuts[k] < cuts[k + 1]);
        unit_of_words(words, ids, run, cuts[k], p + 1);
        assert(Some(run[p]) == counted_word(words[p], ids));
        assert(Some(run[p - 1]) == counted_word(words[p - 1], ids));
        joined_words_are_literal(words[p - 1], words[p], ids, run[p - 1], run[p]);
        if p < cuts[k + 1] {
            assert(goes_on(run, cuts[k], p));
        } else {
            assert(!goes_on(run, cuts[k], cuts[k + 1]));
        }
    }
    cuts
}

/// A word that is not counted parts what stands before it from what stands behind it.
pub proof fn uncounted_words_part_tokens(
    before: Seq<MorphemeView>,
    word: MorphemeView,
    behind: Seq<MorphemeView>,
    ids: IdMapView,
)
    requires
        counted_word(word, ids) is None,
    ensures
        sequences_of(before.push(word) + behind, ids) == sequences_of(before, ids) + sequences_of(
            behind,
            ids,
        ),
{
    parted_by_word(before, word, behind, ids);
    let whole = before.push(word) + behind;
    assert(sequences_of(whole, ids) =~= sequences_of(before, ids) + sequences_of(behind, ids));
}

proof fn parted_by_word(
    before: Seq<MorphemeView>,
    word: MorphemeView,
    behind: Seq<MorphemeView>,
    ids: IdMapView,
)
    requires
        counted_word(word, ids) is None,
    ensures
        open_run(before.push(word) + behind, ids) == open_run(behind, ids),
        ended_sequences(before.push(word) + behind, ids) == sequences_of(before, ids)
            + ended_sequences(behind, ids),
    decreases behind.len(),
{
    let whole = before.push(word) + behind;
    if behind.len() == 0 {
        assert(whole =~= before.push(word));
        assert(whole.drop_last() =~= before);
        assert(ended_sequences(whole, ids) =~= sequences_of(before, ids) + ended_sequences(
            behind,
            ids,
        ));
    } else {
        let shorter = behind.drop_last();
        parted_by_word(before, word, shorter, ids);
        assert(whole.drop_last() =~= before.push(word) + shorter);
        assert(whole.last() == behind.last());
        assert(ended_sequences(whole, ids) =~= sequences_of(before, ids) + ended_sequences(
            behind,
            ids,
        ));
    }
}

/// What a word is read as, before its katakana become hiragana: the eighth field of its feature,
/// or, where that is missing or `*`, the word itself.
pub open spec fn raw_reading(word: MorphemeView) -> Seq<char> {
    let fields = split_on(word.feature, ',');
    if fields.len() > 7 && fields[7] != "*"@ {
        fields[7]
    } else {
        word.surface
    }
}

/// A word is counted where it is no symbol, has a Japanese letter in it, has a reading or is all
/// kana, and neither its surface nor its reading is empty, has more than 256 bytes or a control
/// character, and the reading has a hiragana or a long vowel mark in it.
pub proof fn words_are_counted(word: MorphemeView, ids: IdMapView)
    ensures
        counted_word(word, ids) is Some <==> {
            let fields = split_on(word.feature, ',');
            let reading = hiragana_of(raw_reading(word));
            &&& fields[0] != "記号"@
            &&& (fields.len() > 7 && fields[7] != "*"@) || forall|i: int|
                0 <= i < word.surface.len() ==> '\u{3041}' <= #[trigger] word.surface[i]
                    <= '\u{30FF}'
            &&& exists|i: int|
                0 <= i < word.surface.len() && ({
                    let c = #[trigger] word.surface[i];
                    ||| '\u{3041}' <= c <= '\u{309F}'
                    ||| '\u{30A0}' <= c <= '\u{30FF}'
                    ||| '\u{3400}' <= c <= '\u{4DBF}'
                    ||| '\u{4E00}' <= c <= '\u{9FFF}'
                    ||| '\u{F900}' <= c <= '\u{FAFF}'
                    ||| c == '々'
                    ||| c == '〆'
                })
            &&& byte_count(word.surface) <= 256
            &&& forall|i: int|
                0 <= i < word.surface.len() ==> !((#[trigger] word.surface[i]) <= '\u{1F}'
                    || '\u{7F}' <= word.surface[i] <= '\u{9F}')
            &&& exists|i: int|
                0 <= i < reading.len() && ('\u{3041}' <= #[trigger] reading[i] <= '\u{309F}'
                    || reading[i] == 'ー')
            &&& byte_count(reading) <= 256
            &&& forall|i: int|
                0 <= i < reading.len() ==> !((#[trigger] reading[i]) <= '\u{1F}' || '\u{7F}'
                    <= reading[i] <= '\u{9F}')
        },
        counted_word(word, ids) matches Some(counted) ==> {
            &&& counted.key.surface == word.surface
            &&& counted.key.reading == hiragana_of(raw_reading(word))
            &&& counted.key.left_id == counted.key.right_id
        },
{
    let fields = split_on(word.feature, ',');
    let reading = hiragana_of(raw_reading(word));
    split_on_not_empty(word.feature, ',');
    controls_are_literal(word.surface);
    controls_are_literal(reading);
    let surface = word.surface;
    assert(crate::ngram::tokenizer::is_kana_text(surface) <==> forall|i: int|
        0 <= i < surface.len() ==> '\u{3041}' <= #[trigger] surface[i] <= '\u{30FF}') by {
        if crate::ngram::tokenizer::is_kana_text(surface) {
            assert forall|i: int| 0 <= i < surface.len() implies '\u{3041}' <= #[trigger] surface[i]
                <= '\u{30FF}' by {
                assert(is_kana_char(surface[i]));
            }
        } else {
            let i = choose|i: int| 0 <= i < surface.len() && !is_kana_char(#[trigger] surface[i]);
            assert(!('\u{3041}' <= surface[i] <= '\u{30FF}'));
        }
    }
    if crate::ngram::tokenizer::has_japanese_letter(surface) {
        let i = choose|i: int| 0 <= i < surface.len() && is_japanese_letter(#[trigger] surface[i]);
        assert(is_japanese_letter(surface[i]));
    }
    assert forall|i: int| 0 <= i < surface.len() implies (is_japanese_letter(
        #[trigger] surface[i],
    ) <==> ({
        let c = surface[i];
        ||| '\u{3041}' <= c <= '\u{309F}'
        ||| '\u{30A0}' <= c <= '\u{30FF}'
        ||| '\u{3400}' <= c <= '\u{4DBF}'
        ||| '\u{4E00}' <= c <= '\u{9FFF}'
        ||| '\u{F900}' <= c <= '\u{FAFF}'
        ||| c == '々'
        ||| c == '〆'
    })) by {}
    assert forall|i: int| 0 <= i < reading.len() implies (is_reading_char(#[trigger] reading[i])
        <==> '\u{3041}' <= reading[i] <= '\u{309F}' || reading[i] == 'ー') by {}
}

/// The control characters are those from U+0000 to U+001F and from U+007F to U+009F.
pub proof fn controls_are_literal(text: Seq<char>)
    ensures
        has_control(text) <==> !(forall|i: int|
            0 <= i < text.len() ==> !((#[trigger] text[i]) <= '\u{1F}' || '\u{7F}' <= text[i]
                <= '\u{9F}')),
{
    if has_control(text) {
        let i = choose|i: int| 0 <= i < text.len() && is_control(#[trigger] text[i]);
        assert(text[i] <= '\u{1F}' || '\u{7F}' <= text[i] <= '\u{9F}');
    } else {
        assert forall|i: int| 0 <= i < text.len() implies !((#[trigger] text[i]) <= '\u{1F}'
            || '\u{7F}' <= text[i] <= '\u{9F}') by {
            assert(!is_control(text[i]));
        }
    }
}

/// A text without the end of a line and without any of the marks 。！？!? is one sentence, without
/// the white space around it, or none where there is nothing else.
pub proof fn plain_texts_are_one_sentence(text: Seq<char>)
    requires
        forall|i: int|
            0 <= i < text.len() ==> {
                let c = #[trigger] text[i];
                c != '\n' && c != '。' && c != '！' && c != '？' && c != '!' && c != '?'
            },
    ensures
        sentences_of(text) == if trim(text).len() == 0 {
            Seq::<Seq<char>>::empty()
        } else {
            seq![trim(text)]
        },
{
    nothing_ended(text);
    assert(text.subrange(0, text.len() as int) =~= text);
    crate::ngram::sentences::sentences_respect_boundaries(text);
    trimmed_range(text);
    if trim(text).len() > 0 {
        let spans = sentence_spans(text);
        assert(spans =~= shown_span(text, 0, text.len() as int));
        assert(sentences_of(text) =~= seq![trim(text)]);
    } else {
        assert(sentences_of(text) =~= Seq::<Seq<char>>::empty());
    }
}

proof fn nothing_ended(text: Seq<char>)
    requires
        forall|i: int| 0 <= i < text.len() ==> !is_boundary(#[trigger] text[i]),
    ensures
        open_start(text) == 0,
        crate::ngram::sentences::ended_spans(text).len() == 0,
    decreases text.len(),
{
    if text.len() > 0 {
        let shorter = text.drop_last();
        assert(forall|i: int| 0 <= i < shorter.len() ==> shorter[i] == text[i]);
        assert(!is_boundary(text[text.len() - 1]));
        nothing_ended(shorter);
    }
}

proof fn trimmed_range(text: Seq<char>)
    ensures
        trim(text).len() > 0 ==> ({
            let start = text.len() - crate::text::trim_start(text).len();
            &&& 0 <= start <= start + trim(text).len() <= text.len()
            &&& text.subrange(start, start + trim(text).len()) == trim(text)
        }),
{
    let rest = crate::text::trim_start(text);
    crate::text_laws::trim_start_is_suffix(text);
    crate::text_laws::trim_end_is_prefix(rest);
    let start = text.len() - rest.len();
    assert(text.subrange(start, start + trim(text).len()) =~= trim(text));
}

/// The end of a line and each of the marks 。！？!? part a text: what stands before it and what
/// stands behind it are split each by itself.
pub proof fn marks_part_sentences(first: Seq<char>, mark: char, second: Seq<char>)
    requires
        mark == '\n' || mark == '。' || mark == '！' || mark == '？' || mark == '!' || mark == '?',
    ensures
        sentences_of(first.push(mark) + second) == sentences_of(first) + sentences_of(second),
{
    sentences_add(first, mark, second);
}

} // verus!
