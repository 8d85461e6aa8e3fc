//! Kana, and the Unicode normalization forms that readings go through.

use unicode_normalization::UnicodeNormalization;
use vstd::prelude::*;

verus! {

/// The text in Unicode normalization form KC.
pub uninterp spec fn nfkc_of(text: Seq<char>) -> Seq<char>;

/// The text in Unicode normalization form KD.
pub uninterp spec fn nfkd_of(text: Seq<char>) -> Seq<char>;

/// The text in Unicode normalization form C.
pub uninterp spec fn nfc_of(text: Seq<char>) -> Seq<char>;

/// `UnicodeNormalization::nfkc` of the `unicode_normalization` crate: the characters that its
/// iterator yields are a function of the text alone. What they make up, with its katakana as
/// hiragana, is still of this form and stays as it is: the tables of the crate take hiragana apart
/// and put them together with the marks for voiced sounds as they do the katakana of the same
/// places. Only `ワ`, `ヰ`, `ヱ` and `ヲ` go together with such a mark where their hiragana do not,
/// and in a text of this form they have done so and are not among the katakana that change.
#[verifier::external_body]
pub(crate) fn nfkc(text: &str) -> (result: String)
    ensures
        result@ == nfkc_of(text@),
        nfkc_of(hiragana_of(result@)) == hiragana_of(result@),
{
    text.nfkc().collect()
}

/// `UnicodeNormalization::nfkd` of the `unicode_normalization` crate: the characters that its
/// iterator yields are a function of the text alone.
#[verifier::external_body]
pub(crate) fn nfkd(text: &str) -> (result: String)
    ensures
        result@ == nfkd_of(text@),
{
    text.nfkd().collect()
}

/// `UnicodeNormalization::nfc` of the `unicode_normalization` crate: the characters that its
/// iterator yields are a function of the text alone.
#[verifier::external_body]
pub(crate) fn nfc(text: &str) -> (result: String)
    ensures
        result@ == nfc_of(text@),
{
    text.nfc().collect()
}

/// Katakana that have a hiragana at the same place of its block.
pub open spec fn is_shifted_katakana(c: char) -> bool {
    '\u{30A1}' <= c <= '\u{30F6}' || '\u{30FD}' <= c <= '\u{30FE}'
}

/// The hiragana at the same place of its block; any other character stays.
pub open spec fn hiragana_char(c: char) -> char {
    if is_shifted_katakana(c) {
        (c as u32 - 0x60) as char
    } else {
        c
    }
}

/// The text with its katakana as hiragana.
pub open spec fn hiragana_of(text: Seq<char>) -> Seq<char> {
    Seq::new(text.len(), |i: int| hiragana_char(text[i]))
}

/// Converts the katakana of the text to hiragana.
pub fn katakana_to_hiragana(input: &str) -> (result: String)
    ensures
        result@ == hiragana_of(input@),
{
    let mut result = String::new();
    for c in it: input.chars()
        invariant
            it.seq() == input@,
            result@ == hiragana_of(input@.take(it.index())),
    {
        let mapped = match c {
            '\u{30A1}'..='\u{30F6}' | '\u{30FD}'..='\u{30FE}' => {
                match char::from_u32(c as u32 - 0x60) {
                    Some(hiragana) => hiragana,
                    None => c,
                }
            },
            _ => c,
        };
        result.push(mapped);
        assert(hiragana_of(input@.take(it.index() + 1)) =~= hiragana_of(
            input@.take(it.index()),
        ).push(hiragana_char(c)));
    }
    assert(input@.take(input@.len() as int) =~= input@);
    result
}

/// Hiragana keep their place: converting a text twice is converting it once.
pub proof fn hiragana_idempotent(text: Seq<char>)
    ensures
        hiragana_of(hiragana_of(text)) == hiragana_of(text),
{
    assert forall|i: int| 0 <= i < text.len() implies hiragana_char(hiragana_char(text[i]))
        == hiragana_char(text[i]) by {}
    assert(hiragana_of(hiragana_of(text)) =~= hiragana_of(text));
}

/// The katakana from U+30A1 to U+30F6, U+30FD and U+30FE move 0x60 places down, and no other
/// character changes.
pub proof fn katakana_move_down(text: Seq<char>, i: int)
    requires
        0 <= i < text.len(),
    ensures
        hiragana_of(text).len() == text.len(),
        0x30A1 <= text[i] as int <= 0x30F6 || text[i] == '\u{30FD}' || text[i] == '\u{30FE}'
            ==> hiragana_of(text)[i] as int == text[i] as int - 0x60,
        !(0x30A1 <= text[i] as int <= 0x30F6 || text[i] == '\u{30FD}' || text[i] == '\u{30FE}')
            ==> hiragana_of(text)[i] == text[i],
{
}

} // verus!
