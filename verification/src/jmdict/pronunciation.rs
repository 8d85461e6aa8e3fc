//! How an English pronunciation sounds in Japanese: from the phones of the CMU pronouncing
//! dictionary to romaji, and from there to kana.

use crate::jmdict::readings::{expand_long_vowels, normalize_reading, normalized, with_vowels};
use crate::text::{chars_of, join, joined, same_text, text_of, texts, texts_push};
use vstd::prelude::*;

verus! {

/// The romaji of a vowel.
pub open spec fn vowel_sound(phone: Seq<char>) -> Option<Seq<char>> {
    if phone == "AA"@ {
        Some("aa"@)
    } else if phone == "AE"@ {
        Some("a"@)
    } else if phone == "AH"@ {
        Some("o"@)
    } else if phone == "AO"@ {
        Some("o"@)
    } else if phone == "AW"@ {
        Some("au"@)
    } else if phone == "AY"@ {
        Some("ai"@)
    } else if phone == "EH"@ {
        Some("e"@)
    } else if phone == "ER"@ {
        Some("aa"@)
    } else if phone == "EY"@ {
        Some("ei"@)
    } else if phone == "IH"@ {
        Some("i"@)
    } else if phone == "IY"@ {
        Some("ii"@)
    } else if phone == "OW"@ {
        Some("ou"@)
    } else if phone == "OY"@ {
        Some("oi"@)
    } else if phone == "UH"@ {
        Some("u"@)
    } else if phone == "UW"@ {
        Some("uu"@)
    } else {
        None
    }
}

/// The romaji of a vowel.
fn map_vowel(phone: &str) -> (result: Option<&'static str>)
    ensures
        match result {
            Some(found) => vowel_sound(phone@) == Some(found@),
            None => vowel_sound(phone@) is None,
        },
{
    if same_text(phone, "AA") {
        Some("aa")
    } else if same_text(phone, "AE") {
        Some("a")
    } else if same_text(phone, "AH") {
        Some("o")
    } else if same_text(phone, "AO") {
        Some("o")
    } else if same_text(phone, "AW") {
        Some("au")
    } else if same_text(phone, "AY") {
        Some("ai")
    } else if same_text(phone, "EH") {
        Some("e")
    } else if same_text(phone, "ER") {
        Some("aa")
    } else if same_text(phone, "EY") {
        Some("ei")
    } else if same_text(phone, "IH") {
        Some("i")
    } else if same_text(phone, "IY") {
        Some("ii")
    } else if same_text(phone, "OW") {
        Some("ou")
    } else if same_text(phone, "OY") {
        Some("oi")
    } else if same_text(phone, "UH") {
        Some("u")
    } else if same_text(phone, "UW") {
        Some("uu")
    } else {
        None
    }
}

/// The romaji of a consonant.
pub open spec fn consonant_sound(phone: Seq<char>) -> Option<Seq<char>> {
    if phone == "P"@ {
        Some("p"@)
    } else if phone == "B"@ {
        Some("b"@)
    } else if phone == "M"@ {
        Some("m"@)
    } else if phone == "F"@ {
        Some("f"@)
    } else if phone == "V"@ {
        Some("v"@)
    } else if phone == "T"@ {
        Some("t"@)
    } else if phone == "D"@ {
        Some("d"@)
    } else if phone == "K"@ {
        Some("k"@)
    } else if phone == "G"@ {
        Some("g"@)
    } else if phone == "S"@ {
        Some("s"@)
    } else if phone == "Z"@ {
        Some("z"@)
    } else if phone == "SH"@ {
        Some("sh"@)
    } else if phone == "ZH"@ {
        Some("j"@)
    } else if phone == "CH"@ {
        Some("ch"@)
    } else if phone == "JH"@ {
        Some("j"@)
    } else if phone == "N"@ {
        Some("n"@)
    } else if phone == "NG"@ {
        Some("ng"@)
    } else if phone == "HH"@ {
        Some("h"@)
    } else if phone == "L"@ {
        Some("r"@)
    } else if phone == "R"@ {
        Some("r"@)
    } else if phone == "W"@ {
        Some("w"@)
    } else if phone == "Y"@ {
        Some("y"@)
    } else if phone == "TH"@ {
        Some("s"@)
    } else {
        None
    }
}

/// The romaji of a consonant.
fn map_consonant(phone: &str) -> (result: Option<&'static str>)
    ensures
        match result {
            Some(found) => consonant_sound(phone@) == Some(found@),
            None => consonant_sound(phone@) is None,
        },
{
    if same_text(phone, "P") {
        Some("p")
    } else if same_text(phone, "B") {
        Some("b")
    } else if same_text(phone, "M") {
        Some("m")
    } else if same_text(phone, "F") {
        Some("f")
    } else if same_text(phone, "V") {
        Some("v")
    } else if same_text(phone, "T") {
        Some("t")
    } else if same_text(phone, "D") {
        Some("d")
    } else if same_text(phone, "K") {
        Some("k")
    } else if same_text(phone, "G") {
        Some("g")
    } else if same_text(phone, "S") {
        Some("s")
    } else if same_text(phone, "Z") {
        Some("z")
    } else if same_text(phone, "SH") {
        Some("sh")
    } else if same_text(phone, "ZH") {
        Some("j")
    } else if same_text(phone, "CH") {
        Some("ch")
    } else if same_text(phone, "JH") {
        Some("j")
    } else if same_text(phone, "N") {
        Some("n")
    } else if same_text(phone, "NG") {
        Some("ng")
    } else if same_text(phone, "HH") {
        Some("h")
    } else if same_text(phone, "L") {
        Some("r")
    } else if same_text(phone, "R") {
        Some("r")
    } else if same_text(phone, "W") {
        Some("w")
    } else if same_text(phone, "Y") {
        Some("y")
    } else if same_text(phone, "TH") {
        Some("s")
    } else {
        None
    }
}

/// The romaji of the words whose Japanese form is settled, by their phones.
pub open spec fn settled_romaji(key: Seq<char>) -> Option<Seq<char>> {
    if key == "G AE L ER IY"@ {
        Some("gyararii"@)
    } else if key == "K AA R"@ {
        Some("kaa"@)
    } else if key == "AA R T"@ {
        Some("aato"@)
    } else if key == "AY S"@ {
        Some("aisu"@)
    } else if key == "AY D AH L"@ {
        Some("aidoru"@)
    } else if key == "K AH M P Y UW T ER"@ {
        Some("konpyuutaa"@)
    } else if key == "K IY"@ {
        Some("kii"@)
    } else if key == "HH OW L D ER"@ {
        Some("horudaa"@)
    } else if key == "K R IY M"@ {
        Some("kuriimu"@)
    } else if key == "S M AA R T F OW N"@ {
        Some("sumaatofon"@)
    } else if key == "G AE S AH L IY N"@ {
        Some("gasorin"@)
    } else if key == "S T AE N D"@ {
        Some("sutando"@)
    } else if key == "OW P AH N"@ {
        Some("oopun"@)
    } else if key == "K AE M P IH NG"@ {
        Some("kyanpingu"@)
    } else if key == "M AY"@ {
        Some("mai"@)
    } else if key == "T AY M"@ {
        Some("taimu"@)
    } else if key == "S EY L"@ {
        Some("seeru"@)
    } else if key == "P ER S IH N AH L"@ {
        Some("paasonaru"@)
    } else if key == "AE S K IY"@ {
        Some("asukii"@)
    } else {
        None
    }
}

/// The romaji of a word whose Japanese form is settled.
fn override_value(key: &str) -> (result: Option<&'static str>)
    ensures
        match result {
            Some(found) => settled_romaji(key@) == Some(found@),
            None => settled_romaji(key@) is None,
        },
{
    if same_text(key, "G AE L ER IY") {
        Some("gyararii")
    } else if same_text(key, "K AA R") {
        Some("kaa")
    } else if same_text(key, "AA R T") {
        Some("aato")
    } else if same_text(key, "AY S") {
        Some("aisu")
    } else if same_text(key, "AY D AH L") {
        Some("aidoru")
    } else if same_text(key, "K AH M P Y UW T ER") {
        Some("konpyuutaa")
    } else if same_text(key, "K IY") {
        Some("kii")
    } else if same_text(key, "HH OW L D ER") {
        Some("horudaa")
    } else if same_text(key, "K R IY M") {
        Some("kuriimu")
    } else if same_text(key, "S M AA R T F OW N") {
        Some("sumaatofon")
    } else if same_text(key, "G AE S AH L IY N") {
        Some("gasorin")
    } else if same_text(key, "S T AE N D") {
        Some("sutando")
    } else if same_text(key, "OW P AH N") {
        Some("oopun")
    } else if same_text(key, "K AE M P IH NG") {
        Some("kyanpingu")
    } else if same_text(key, "M AY") {
        Some("mai")
    } else if same_text(key, "T AY M") {
        Some("taimu")
    } else if same_text(key, "S EY L") {
        Some("seeru")
    } else if same_text(key, "P ER S IH N AH L") {
        Some("paasonaru")
    } else if same_text(key, "AE S K IY") {
        Some("asukii")
    } else {
        None
    }
}

/// A phone without the digits for its stress.
pub open spec fn unstressed(phone: Seq<char>) -> Seq<char>
    decreases phone.len(),
{
    if phone.len() > 0 && (phone.last() == '0' || phone.last() == '1' || phone.last() == '2') {
        unstressed(phone.drop_last())
    } else {
        phone
    }
}

/// The phones without the digits for their stress.
pub open spec fn all_unstressed(phones: Seq<Seq<char>>) -> Seq<Seq<char>> {
    Seq::new(phones.len(), |i: int| unstressed(phones[i]))
}

fn without_stress(phone: &str) -> (result: String)
    ensures
        result@ == unstressed(phone@),
{
    let chars = chars_of(phone);
    let mut end: usize = chars.len();
    assert(phone@.take(end as int) =~= phone@);
    while end > 0 && (chars[end - 1] == '0' || chars[end - 1] == '1' || chars[end - 1] == '2')
        invariant
            chars@ == phone@,
            end <= phone@.len(),
            unstressed(phone@) == unstressed(phone@.take(end as int)),
        decreases end,
    {
        assert(phone@.take(end as int).drop_last() =~= phone@.take(end - 1));
        end -= 1;
    }
    assert(phone@.take(end as int) =~= phone@.subrange(0, end as int));
    text_of(&chars, 0, end)
}

/// The first place from `index` on where a vowel stands, or the end of the phones.
pub open spec fn next_vowel(phones: Seq<Seq<char>>, index: int) -> int
    decreases phones.len() - index,
{
    if index >= phones.len() || vowel_sound(phones[index]) is Some {
        index
    } else {
        next_vowel(phones, index + 1)
    }
}

/// A vowel stands where it is looked for, or at the end.
pub proof fn next_vowel_within(phones: Seq<Seq<char>>, index: int)
    requires
        index <= phones.len(),
    ensures
        index <= next_vowel(phones, index) <= phones.len(),
        next_vowel(phones, index) < phones.len() ==> vowel_sound(
            phones[next_vowel(phones, index)],
        ) is Some,
    decreases phones.len() - index,
{
    if index < phones.len() && vowel_sound(phones[index]) is None {
        next_vowel_within(phones, index + 1);
    }
}

/// A consonant that no vowel follows before the end of the word.
pub open spec fn closing_sound(phone: Seq<char>) -> Option<Seq<char>> {
    if phone == "R"@ {
        Some(Seq::empty())
    } else if phone == "N"@ || phone == "NG"@ {
        Some("n"@)
    } else if phone == "L"@ {
        Some("ru"@)
    } else if phone == "M"@ {
        Some("mu"@)
    } else {
        consonant_sound(phone)
    }
}

/// A consonant with another one behind it before the next vowel.
pub open spec fn inner_sound(phone: Seq<char>) -> Option<Seq<char>> {
    if phone == "R"@ {
        Some(Seq::empty())
    } else {
        match consonant_sound(phone) {
            Some(sound) => Some(sound.push('u')),
            None => None,
        }
    }
}

/// The sounds of the phones from `start` up to `end`, one after the other; the consonants that
/// end a word are `closing`. Nothing where a phone has none.
pub open spec fn sounds_between(
    phones: Seq<Seq<char>>,
    start: int,
    end: int,
    closing: bool,
) -> Option<Seq<char>>
    decreases end - start,
{
    if end <= start {
        Some(Seq::empty())
    } else {
        let sound = if closing {
            closing_sound(phones[end - 1])
        } else {
            inner_sound(phones[end - 1])
        };
        match (sounds_between(phones, start, end - 1, closing), sound) {
            (Some(before), Some(last)) => Some(before + last),
            _ => None,
        }
    }
}

/// The sound of the last consonant before the vowel at `end`; the consonants start at `start`.
/// A lone `G` or `K` before `AE` is palatalized.
pub open spec fn onset(phones: Seq<Seq<char>>, start: int, end: int) -> Option<Seq<char>> {
    let last = phones[end - 1];
    match consonant_sound(last) {
        Some(sound) => if phones[end] == "AE"@ && end == start + 1 && (last == "G"@ || last
            == "K"@) {
            Some(sound.push('y'))
        } else {
            Some(sound)
        },
        None => None,
    }
}

/// An `R` behind something, with no vowel after it, is not heard.
pub open spec fn is_silent(phones: Seq<Seq<char>>, index: int, heard: Seq<char>) -> bool {
    &&& phones[index] == "R"@
    &&& heard.len() > 0
    &&& index + 1 == phones.len() || vowel_sound(phones[index + 1]) is None
}

/// The romaji of the whole word, of which the phones before `index` gave `heard`.
pub open spec fn romaji_after(
    phones: Seq<Seq<char>>,
    index: int,
    heard: Seq<char>,
) -> Option<Seq<char>>
    decreases phones.len() - index,
{
    if index >= phones.len() {
        Some(heard)
    } else if is_silent(phones, index, heard) {
        romaji_after(phones, index + 1, heard)
    } else if vowel_sound(phones[index]) is Some {
        romaji_after(phones, index + 1, heard + vowel_sound(phones[index])->0)
    } else {
        let end = next_vowel(phones, index);
        if end <= index || end >= phones.len() {
            match sounds_between(phones, index, phones.len() as int, true) {
                Some(sounds) => Some(heard + sounds),
                None => None,
            }
        } else {
            match (sounds_between(phones, index, end - 1, false), onset(phones, index, end)) {
                (Some(sounds), Some(sound)) => romaji_after(
                    phones,
                    end + 1,
                    heard + sounds + sound + vowel_sound(phones[end])->0,
                ),
                _ => None,
            }
        }
    }
}

/// The romaji of a pronunciation: settled words first, all others phone by phone.
pub open spec fn romaji_of(phones: Seq<Seq<char>>) -> Option<Seq<char>> {
    let plain = all_unstressed(phones);
    match settled_romaji(joined(plain, " "@)) {
        Some(romaji) => Some(romaji),
        None => romaji_after(plain, 0, Seq::empty()),
    }
}

proof fn unstressed_twice(phone: Seq<char>)
    ensures
        unstressed(unstressed(phone)) == unstressed(phone),
    decreases phone.len(),
{
    if phone.len() > 0 && (phone.last() == '0' || phone.last() == '1' || phone.last() == '2') {
        unstressed_twice(phone.drop_last());
    }
}

/// The digits for stress do not change the romaji: pronunciations that differ in nothing else
/// have the same.
pub proof fn stress_is_not_heard(left: Seq<Seq<char>>, right: Seq<Seq<char>>)
    ensures
        all_unstressed(left) == all_unstressed(right) ==> romaji_of(left) == romaji_of(right),
        romaji_of(all_unstressed(left)) == romaji_of(left),
{
    assert forall|i: int| 0 <= i < left.len() implies unstressed(
        unstressed(#[trigger] left[i]),
    ) == unstressed(left[i]) by {
        unstressed_twice(left[i]);
    }
    assert(all_unstressed(all_unstressed(left)) =~= all_unstressed(left));
}

/// The phone is a vowel or a consonant of the lists.
pub open spec fn is_phone(phone: Seq<char>) -> bool {
    vowel_sound(phone) is Some || consonant_sound(phone) is Some
}

/// The phones from `start` up to `end` are all in the lists.
pub open spec fn are_phones(phones: Seq<Seq<char>>, start: int, end: int) -> bool {
    forall|i: int| start <= i < end ==> is_phone(#[trigger] phones[i])
}

proof fn next_vowel_is_first(phones: Seq<Seq<char>>, index: int)
    requires
        0 <= index <= phones.len(),
    ensures
        forall|i: int|
            index <= i < next_vowel(phones, index) ==> vowel_sound(#[trigger] phones[i]) is None,
    decreases phones.len() - index,
{
    if index < phones.len() && vowel_sound(phones[index]) is None {
        next_vowel_is_first(phones, index + 1);
    }
}

proof fn sounds_of_phones(phones: Seq<Seq<char>>, start: int, end: int, closing: bool)
    requires
        0 <= start,
        end <= phones.len(),
        forall|i: int| start <= i < end ==> vowel_sound(#[trigger] phones[i]) is None,
    ensures
        sounds_between(phones, start, end, closing) is Some <==> are_phones(phones, start, end),
    decreases end - start,
{
    if start < end {
        sounds_of_phones(phones, start, end - 1, closing);
        assert(is_phone(phones[end - 1]) <==> consonant_sound(phones[end - 1]) is Some);
        assert(are_phones(phones, start, end) <==> are_phones(phones, start, end - 1) && is_phone(
            phones[end - 1],
        ));
    }
}

proof fn romaji_of_phones(phones: Seq<Seq<char>>, index: int, heard: Seq<char>)
    requires
        0 <= index <= phones.len(),
    ensures
        romaji_after(phones, index, heard) is Some <==> are_phones(
            phones,
            index,
            phones.len() as int,
        ),
    decreases phones.len() - index,
{
    if index < phones.len() {
        let length = phones.len() as int;
        next_vowel_within(phones, index);
        next_vowel_is_first(phones, index);
        let end = next_vowel(phones, index);
        if is_silent(phones, index, heard) {
            romaji_of_phones(phones, index + 1, heard);
            assert(is_phone(phones[index]));
        } else if vowel_sound(phones[index]) is Some {
            romaji_of_phones(phones, index + 1, heard + vowel_sound(phones[index])->0);
            assert(is_phone(phones[index]));
        } else if end >= length {
            sounds_of_phones(phones, index, length, true);
        } else {
            sounds_of_phones(phones, index, end - 1, false);
            assert(is_phone(phones[end]));
            assert(is_phone(phones[end - 1]) <==> onset(phones, index, end) is Some);
            if sounds_between(phones, index, end - 1, false) is Some && onset(
                phones,
                index,
                end,
            ) is Some {
                let sounds = sounds_between(phones, index, end - 1, false)->0;
                let sound = onset(phones, index, end)->0;
                romaji_of_phones(
                    phones,
                    end + 1,
                    heard + sounds + sound + vowel_sound(phones[end])->0,
                );
            }
        }
    }
}

/// A pronunciation has romaji exactly where its word is settled or all its phones, without the
/// digits for stress, are in the lists.
pub proof fn listed_phones_are_spelled(phones: Seq<Seq<char>>)
    ensures
        romaji_of(phones) is Some <==> {
            ||| settled_romaji(joined(all_unstressed(phones), " "@)) is Some
            ||| are_phones(all_unstressed(phones), 0, phones.len() as int)
        },
{
    romaji_of_phones(all_unstressed(phones), 0, Seq::empty());
}

fn sounds(phones: &[String], start: usize, end: usize, closing: bool) -> (result: Option<String>)
    requires
        start <= end <= phones@.len(),
    ensures
        match result {
            Some(text) => sounds_between(texts(phones@), start as int, end as int, closing) == Some(
                text@,
            ),
            None => sounds_between(texts(phones@), start as int, end as int, closing) is None,
        },
{
    let ghost all = texts(phones@);
    let mut text = String::new();
    let mut i: usize = start;
    assert(text@ =~= Seq::empty());
    while i < end
        invariant
            all == texts(phones@),
            start <= i <= end <= phones@.len(),
            sounds_between(all, start as int, i as int, closing) == Some(text@),
        decreases end - i,
    {
        let phone = phones[i].as_str();
        assert(all[i as int] == phone@);
        let ghost before = text@;
        let sound: Option<&'static str> = if same_text(phone, "R") {
            Some("")
        } else if closing && (same_text(phone, "N") || same_text(phone, "NG")) {
            Some("n")
        } else if closing && same_text(phone, "L") {
            Some("ru")
        } else if closing && same_text(phone, "M") {
            Some("mu")
        } else {
            map_consonant(phone)
        };
        match sound {
            Some(sound) => {
                text.append(sound);
                if !closing && !same_text(phone, "R") {
                    text.push('u');
                }
                proof {
                    reveal_strlit("");
                    assert(""@ =~= Seq::empty());
                    assert(text@ =~= sounds_between(all, start as int, i + 1, closing)->0);
                }
            },
            None => {
                proof {
                    no_sounds_further(all, start as int, i + 1, end as int, closing);
                }
                return None;
            },
        }
        i += 1;
    }
    Some(text)
}

/// A phone without a sound leaves all longer stretches without one.
proof fn no_sounds_further(
    phones: Seq<Seq<char>>,
    start: int,
    middle: int,
    end: int,
    closing: bool,
)
    requires
        start <= middle <= end,
        sounds_between(phones, start, middle, closing) is None,
    ensures
        sounds_between(phones, start, end, closing) is None,
    decreases end - middle,
{
    if middle < end {
        no_sounds_further(phones, start, middle, end - 1, closing);
    }
}

fn find_vowel(phones: &[String], index: usize) -> (end: usize)
    requires
        index <= phones@.len(),
    ensures
        end == next_vowel(texts(phones@), index as int),
        index <= end <= phones@.len(),
{
    let mut end: usize = index;
    while end < phones.len() && map_vowel(phones[end].as_str()).is_none()
        invariant
            index <= end <= phones@.len(),
            next_vowel(texts(phones@), index as int) == next_vowel(texts(phones@), end as int),
        decreases phones@.len() - end,
    {
        assert(texts(phones@)[end as int] == phones@[end as int]@);
        end += 1;
    }
    assert(end < phones@.len() ==> texts(phones@)[end as int] == phones@[end as int]@);
    end
}

/// The romaji of a pronunciation, phone by phone.
fn spell(phones: &[String]) -> (result: Option<String>)
    ensures
        match result {
            Some(romaji) => romaji_after(texts(phones@), 0, Seq::empty()) == Some(romaji@),
            None => romaji_after(texts(phones@), 0, Seq::empty()) is None,
        },
{
    let ghost all = texts(phones@);
    let mut output = String::new();
    let mut index: usize = 0;
    assert(output@ =~= Seq::empty());
    while index < phones.len()
        invariant
            all == texts(phones@),
            index <= phones@.len(),
            romaji_after(all, 0, Seq::empty()) == romaji_after(all, index as int, output@),
        decreases phones@.len() - index,
    {
        let phone = phones[index].as_str();
        assert(all[index as int] == phone@);
        assert(index + 1 < phones@.len() ==> all[index + 1] == phones@[index + 1]@);
        if same_text(phone, "R") && !output.as_str().is_empty() && (index + 1 == phones.len()
            || map_vowel(phones[index + 1].as_str()).is_none()) {
            index += 1;
            continue;
        }
        if let Some(sound) = map_vowel(phone) {
            output.append(sound);
            index += 1;
            continue;
        }
        let end = find_vowel(phones, index);
        proof {
            next_vowel_within(all, index as int);
        }
        if end == phones.len() {
            return match sounds(phones, index, end, true) {
                Some(text) => {
                    output.append(text.as_str());
                    Some(output)
                },
                None => None,
            };
        }
        assert(all[end as int] == phones@[end as int]@);
        assert(all[end - 1] == phones@[end - 1]@);
        assert(end > index);
        let inner = sounds(phones, index, end - 1, false);
        let last = phones[end - 1].as_str();
        let onset_sound = map_consonant(last);
        let vowel_sound_here = map_vowel(phones[end].as_str());
        match (inner, onset_sound, vowel_sound_here) {
            (Some(inner), Some(onset_sound), Some(vowel_sound_here)) => {
                output.append(inner.as_str());
                output.append(onset_sound);
                if same_text(phones[end].as_str(), "AE") && end == index + 1 && (same_text(
                    last,
                    "G",
                ) || same_text(last, "K")) {
                    output.push('y');
                }
                output.append(vowel_sound_here);
                proof {
                    let sounded = sounds_between(all, index as int, end - 1, false)->0;
                    let sound = onset(all, index as int, end as int)->0;
                    assert(sounded + sound + vowel_sound(all[end as int])->0 =~= sounded + (sound
                        + vowel_sound(all[end as int])->0));
                }
            },
            _ => {
                return None;
            },
        }
        index = end + 1;
    }
    Some(output)
}

/// The romaji of a pronunciation, nothing where a phone is unknown.
pub fn pronunciation_to_romaji(phones: &[String]) -> (result: Option<String>)
    ensures
        match result {
            Some(romaji) => romaji_of(texts(phones@)) == Some(romaji@),
            None => romaji_of(texts(phones@)) is None,
        },
{
    let ghost all = texts(phones@);
    let mut plain: Vec<String> = Vec::new();
    let mut i: usize = 0;
    assert(texts(plain@) =~= all_unstressed(all).take(0));
    while i < phones.len()
        invariant
            all == texts(phones@),
            i <= phones@.len(),
            texts(plain@) == all_unstressed(all).take(i as int),
        decreases phones@.len() - i,
    {
        let phone = without_stress(phones[i].as_str());
        proof {
            texts_push(plain@, phone);
            assert(all[i as int] == phones@[i as int]@);
            assert(all_unstressed(all).take(i + 1) =~= all_unstressed(all).take(i as int).push(
                phone@,
            ));
        }
        plain.push(phone);
        i += 1;
    }
    assert(all_unstressed(all).take(i as int) =~= all_unstressed(all));
    let key = join(&plain, " ");
    match override_value(key.as_str()) {
        Some(romaji) => Some(romaji.to_owned()),
        None => spell(&plain),
    }
}

/// The katakana of romaji, nothing where the romaji cannot be read.
pub uninterp spec fn katakana_of(romaji: Seq<char>) -> Option<Seq<char>>;

/// `to_kana::kata`: the katakana that it gives, and whether it gives any, are a function of the
/// romaji alone. It calls itself once for each time that a consonant is repeated, which takes
/// room on the stack.
#[verifier::external_body]
fn kata(romaji: &str) -> (result: Option<String>)
    ensures
        match result {
            Some(katakana) => katakana_of(romaji@) == Some(katakana@),
            None => katakana_of(romaji@) is None,
        },
{
    to_kana::kata(romaji).ok()
}

/// The reading sounds like the kana.
pub open spec fn sounds_like(reading: Seq<char>, katakana: Seq<char>) -> bool {
    with_vowels(normalized(reading)) == with_vowels(normalized(katakana))
}

/// Whether a reading sounds like kana: both are normalized, and long vowels are written out.
pub fn reading_matches(reading: &str, katakana: &str) -> (same: bool)
    ensures
        same == sounds_like(reading@, katakana@),
{
    let expected = expand_long_vowels(normalize_reading(reading).as_str());
    let generated = expand_long_vowels(normalize_reading(katakana).as_str());
    same_text(expected.as_str(), generated.as_str())
}

/// The pronunciation, as it sounds in Japanese, is the whole reading.
pub open spec fn is_pronounced(reading: Seq<char>, phones: Seq<Seq<char>>) -> bool {
    match romaji_of(phones) {
        Some(romaji) => match katakana_of(romaji) {
            Some(katakana) => sounds_like(reading, katakana),
            None => false,
        },
        None => false,
    }
}

/// Whether the pronunciation, as it sounds in Japanese, is the whole reading.
pub fn pronunciation_matches(reading: &str, phones: &[String]) -> (matched: bool)
    ensures
        matched == is_pronounced(reading@, texts(phones@)),
{
    match pronunciation_to_romaji(phones) {
        Some(romaji) => match kata(romaji.as_str()) {
            Some(katakana) => reading_matches(reading, katakana.as_str()),
            None => false,
        },
        None => false,
    }
}

} // verus!
