//! Readings and surfaces: what may stand in a dictionary, and how a reading is normalized.

use crate::kana::{hiragana_of, katakana_to_hiragana, nfc, nfc_of, nfkd, nfkd_of};
use crate::text::{byte_count, byte_length, contains_control, has_control};
use vstd::prelude::*;

verus! {

/// No field of the dictionary is longer, in bytes.
pub const MAX_FIELD_BYTES: usize = 256;

/// The reading decomposed, with its katakana as hiragana, and composed again.
pub open spec fn normalized(reading: Seq<char>) -> Seq<char> {
    nfc_of(hiragana_of(nfkd_of(reading)))
}

/// Normalizes a reading to composed hiragana.
pub fn normalize_reading(input: &str) -> (result: String)
    ensures
        result@ == normalized(input@),
{
    let decomposed = nfkd(input);
    let hiragana = katakana_to_hiragana(decomposed.as_str());
    nfc(hiragana.as_str())
}

/// A character of the katakana block.
pub open spec fn is_katakana(c: char) -> bool {
    '\u{30A0}' <= c <= '\u{30FF}'
}

/// The reading is written entirely with characters of the katakana block.
pub open spec fn is_katakana_text(reading: Seq<char>) -> bool {
    reading.len() > 0 && forall|i: int| 0 <= i < reading.len() ==> is_katakana(#[trigger] reading[i])
}

/// Whether the reading is written entirely with characters of the katakana block.
pub fn is_katakana_reading(input: &str) -> (found: bool)
    ensures
        found == is_katakana_text(input@),
{
    let mut empty = true;
    for c in it: input.chars()
        invariant
            it.seq() == input@,
            empty == (it.index() == 0),
            forall|i: int| 0 <= i < it.index() ==> is_katakana(#[trigger] input@[i]),
    {
        empty = false;
        match c {
            '\u{30A0}'..='\u{30FF}' => {},
            _ => {
                assert(!is_katakana(input@[it.index()]));
                return false;
            },
        }
    }
    !empty
}

/// A surface that can stand in a dictionary: not empty, not too long, without control characters.
pub open spec fn is_valid_surface(surface: Seq<char>) -> bool {
    surface.len() > 0 && byte_count(surface) <= MAX_FIELD_BYTES && !has_control(surface)
}

/// Whether the surface can stand in a dictionary.
pub fn valid_surface(input: &str) -> (valid: bool)
    ensures
        valid == is_valid_surface(input@),
{
    !input.is_empty() && byte_length(input) <= MAX_FIELD_BYTES && !contains_control(input)
}

/// The vowel that a hiragana ends with, as a hiragana.
pub open spec fn vowel_of(c: char) -> Option<char> {
    match c {
        'あ' | 'か' | 'が' | 'さ' | 'ざ' | 'た' | 'だ' | 'な' | 'は' | 'ば' | 'ぱ' | 'ま'
        | 'や' | 'ら' | 'わ' | 'ぁ' | 'ゃ' => Some('あ'),
        'い' | 'き' | 'ぎ' | 'し' | 'じ' | 'ち' | 'ぢ' | 'に' | 'ひ' | 'び' | 'ぴ' | 'み'
        | 'り' | 'ゐ' | 'ぃ' => Some('い'),
        'う' | 'く' | 'ぐ' | 'す' | 'ず' | 'つ' | 'づ' | 'ぬ' | 'ふ' | 'ぶ' | 'ぷ' | 'む'
        | 'ゆ' | 'る' | 'ゔ' | 'ぅ' | 'ゅ' => Some('う'),
        'え' | 'け' | 'げ' | 'せ' | 'ぜ' | 'て' | 'で' | 'ね' | 'へ' | 'べ' | 'ぺ' | 'め'
        | 'れ' | 'ゑ' | 'ぇ' => Some('え'),
        'お' | 'こ' | 'ご' | 'そ' | 'ぞ' | 'と' | 'ど' | 'の' | 'ほ' | 'ぼ' | 'ぽ' | 'も'
        | 'よ' | 'ろ' | 'を' | 'ぉ' | 'ょ' => Some('お'),
        _ => None,
    }
}

/// The vowel that a hiragana ends with.
pub fn kana_vowel(character: char) -> (vowel: Option<char>)
    ensures
        vowel == vowel_of(character),
{
    match character {
        'あ' | 'か' | 'が' | 'さ' | 'ざ' | 'た' | 'だ' | 'な' | 'は' | 'ば' | 'ぱ' | 'ま'
        | 'や' | 'ら' | 'わ' | 'ぁ' | 'ゃ' => Some('あ'),
        'い' | 'き' | 'ぎ' | 'し' | 'じ' | 'ち' | 'ぢ' | 'に' | 'ひ' | 'び' | 'ぴ' | 'み'
        | 'り' | 'ゐ' | 'ぃ' => Some('い'),
        'う' | 'く' | 'ぐ' | 'す' | 'ず' | 'つ' | 'づ' | 'ぬ' | 'ふ' | 'ぶ' | 'ぷ' | 'む'
        | 'ゆ' | 'る' | 'ゔ' | 'ぅ' | 'ゅ' => Some('う'),
        'え' | 'け' | 'げ' | 'せ' | 'ぜ' | 'て' | 'で' | 'ね' | 'へ' | 'べ' | 'ぺ' | 'め'
        | 'れ' | 'ゑ' | 'ぇ' => Some('え'),
        'お' | 'こ' | 'ご' | 'そ' | 'ぞ' | 'と' | 'ど' | 'の' | 'ほ' | 'ぼ' | 'ぽ' | 'も'
        | 'よ' | 'ろ' | 'を' | 'ぉ' | 'ょ' => Some('お'),
        _ => None,
    }
}

/// The last vowel of the text: that of the last character that ends with one.
pub open spec fn last_vowel(text: Seq<char>) -> Option<char>
    decreases text.len(),
{
    if text.len() == 0 {
        None
    } else {
        match vowel_of(text.last()) {
            Some(vowel) => Some(vowel),
            None => last_vowel(text.drop_last()),
        }
    }
}

/// The text with each long vowel mark as the last vowel before it. A mark that follows no vowel
/// is dropped.
pub open spec fn with_vowels(text: Seq<char>) -> Seq<char>
    decreases text.len(),
{
    if text.len() == 0 {
        text
    } else {
        let before = with_vowels(text.drop_last());
        if text.last() != 'ー' {
            before.push(text.last())
        } else {
            match last_vowel(text.drop_last()) {
                Some(vowel) => before.push(vowel),
                None => before,
            }
        }
    }
}

/// Writes each long vowel mark as the vowel that it lengthens.
pub fn expand_long_vowels(input: &str) -> (result: String)
    ensures
        result@ == with_vowels(input@),
{
    let mut output = String::new();
    let mut previous: Option<char> = None;
    assert(input@.take(0) =~= Seq::empty());
    for c in it: input.chars()
        invariant
            it.seq() == input@,
            output@ == with_vowels(input@.take(it.index())),
            previous == last_vowel(input@.take(it.index())),
    {
        assert(input@.take(it.index() + 1).drop_last() =~= input@.take(it.index()));
        if c == 'ー' {
            if let Some(vowel) = previous {
                output.push(vowel);
            }
        } else {
            output.push(c);
            if let Some(vowel) = kana_vowel(c) {
                previous = Some(vowel);
            }
        }
    }
    assert(input@.take(input@.len() as int) =~= input@);
    output
}

/// No long vowel mark is left when each is written as a vowel.
pub proof fn no_long_vowels_left(text: Seq<char>)
    ensures
        !with_vowels(text).contains('ー'),
    decreases text.len(),
{
    if text.len() > 0 {
        no_long_vowels_left(text.drop_last());
        let before = with_vowels(text.drop_last());
        vowels_are_no_marks(text.drop_last());
        assert forall|i: int| 0 <= i < with_vowels(text).len() implies #[trigger] with_vowels(
            text,
        )[i] != 'ー' by {
            if i < before.len() {
                assert(with_vowels(text)[i] == before[i]);
                assert(before.contains(before[i]));
            }
        }
    }
}

proof fn vowels_are_no_marks(text: Seq<char>)
    ensures
        last_vowel(text) != Some('ー'),
    decreases text.len(),
{
    if text.len() > 0 {
        vowels_are_no_marks(text.drop_last());
    }
}

} // verus!
