//! Texts as sequences of code points: splitting, trimming, searching, and the decimal
//! notation of integers.

use vstd::prelude::*;

verus! {

/// `String::push` appends the character to the end of the text.
pub assume_specification[ String::push ](text: &mut String, character: char)
    ensures
        final(text)@ == old(text)@.push(character),
;

/// `char::from_u32` gives the character with the given code point, and nothing for a number
/// that is no Unicode scalar value.
pub assume_specification[ char::from_u32 ](i: u32) -> (result: Option<char>)
    ensures
        result is Some <==> (i <= 0xD7FF || 0xE000 <= i <= 0x10FFFF),
        result matches Some(character) ==> character == i as char,
;

/// The contents of each text of a sequence.
pub open spec fn texts(values: Seq<String>) -> Seq<Seq<char>> {
    Seq::new(values.len(), |i: int| values[i]@)
}

/// The contents of a sequence of texts after one more text was put at its end.
pub proof fn texts_push(values: Seq<String>, value: String)
    ensures
        texts(values.push(value)) == texts(values).push(value@),
{
    assert(texts(values.push(value)) =~= texts(values).push(value@));
}

/// The characters of a text.
pub fn chars_of(text: &str) -> (chars: Vec<char>)
    ensures
        chars@ == text@,
{
    let mut chars: Vec<char> = Vec::new();
    for character in it: text.chars()
        invariant
            it.seq() == text@,
            chars@ == text@.take(it.index()),
    {
        chars.push(character);
    }
    chars
}

/// The text of the characters from `start` up to `end`.
pub fn text_of(chars: &[char], start: usize, end: usize) -> (text: String)
    requires
        start <= end <= chars@.len(),
    ensures
        text@ == chars@.subrange(start as int, end as int),
{
    let mut text = String::new();
    let mut i: usize = start;
    while i < end
        invariant
            start <= i <= end <= chars@.len(),
            text@ == chars@.subrange(start as int, i as int),
        decreases end - i,
    {
        text.push(chars[i]);
        assert(chars@.subrange(start as int, i + 1) =~= chars@.subrange(
            start as int,
            i as int,
        ).push(chars@[i as int]));
        i += 1;
    }
    text
}

/// Whether two texts are equal.
pub fn same_text(left: &str, right: &str) -> (same: bool)
    ensures
        same == (left@ == right@),
{
    let left_bytes = left.as_bytes();
    let right_bytes = right.as_bytes();
    if left_bytes.len() != right_bytes.len() {
        return false;
    }
    let mut i: usize = 0;
    while i < left_bytes.len()
        invariant
            left_bytes@ == vstd::utf8::encode_utf8(left@),
            right_bytes@ == vstd::utf8::encode_utf8(right@),
            left_bytes@.len() == right_bytes@.len(),
            i <= left_bytes@.len(),
            forall|j: int| 0 <= j < i ==> left_bytes@[j] == right_bytes@[j],
        decreases left_bytes@.len() - i,
    {
        if left_bytes[i] != right_bytes[i] {
            return false;
        }
        i += 1;
    }
    proof {
        assert(left_bytes@ =~= right_bytes@);
        vstd::utf8::encode_utf8_decode_utf8(left@);
        vstd::utf8::encode_utf8_decode_utf8(right@);
    }
    true
}

/// Whether one of the texts is `wanted`.
pub fn any_text(values: &[String], wanted: &str) -> (found: bool)
    ensures
        found == texts(values@).contains(wanted@),
{
    let mut i: usize = 0;
    while i < values.len()
        invariant
            i <= values@.len(),
            forall|j: int| 0 <= j < i ==> values@[j]@ != wanted@,
        decreases values@.len() - i,
    {
        if same_text(values[i].as_str(), wanted) {
            assert(texts(values@)[i as int] == wanted@);
            return true;
        }
        i += 1;
    }
    false
}

/// The bytes of the text in UTF-8.
pub fn bytes_of(text: &str) -> (bytes: Vec<u8>)
    ensures
        bytes@ == vstd::utf8::encode_utf8(text@),
{
    let slice = text.as_bytes();
    let mut bytes: Vec<u8> = Vec::new();
    let mut i: usize = 0;
    while i < slice.len()
        invariant
            i <= slice@.len(),
            bytes@ == slice@.take(i as int),
        decreases slice@.len() - i,
    {
        bytes.push(slice[i]);
        assert(slice@.take(i + 1) =~= slice@.take(i as int).push(slice@[i as int]));
        i += 1;
    }
    assert(slice@.take(i as int) =~= slice@);
    bytes
}

/// The number of bytes of the text in UTF-8.
pub open spec fn byte_count(text: Seq<char>) -> nat {
    vstd::utf8::encode_utf8(text).len()
}

/// Two texts put together have the bytes of both.
pub proof fn byte_count_adds(first: Seq<char>, second: Seq<char>)
    ensures
        byte_count(first + second) == byte_count(first) + byte_count(second),
    decreases first.len(),
{
    if first.len() == 0 {
        assert(first + second =~= second);
    } else {
        byte_count_adds(first.drop_first(), second);
        assert((first + second).drop_first() =~= first.drop_first() + second);
        assert((first + second)[0] == first[0]);
    }
}

/// The length of the text in bytes.
pub fn byte_length(text: &str) -> (length: usize)
    ensures
        length == byte_count(text@),
{
    text.as_bytes().len()
}

/// Characters with the Unicode property White_Space.
pub open spec fn is_space(c: char) -> bool {
    ||| '\u{9}' <= c <= '\u{D}'
    ||| c == '\u{20}'
    ||| c == '\u{85}'
    ||| c == '\u{A0}'
    ||| c == '\u{1680}'
    ||| '\u{2000}' <= c <= '\u{200A}'
    ||| c == '\u{2028}'
    ||| c == '\u{2029}'
    ||| c == '\u{202F}'
    ||| c == '\u{205F}'
    ||| c == '\u{3000}'
}

/// Whether the character is white space.
pub fn space(c: char) -> (found: bool)
    ensures
        found == is_space(c),
{
    match c {
        '\u{9}'..='\u{D}' | '\u{20}' | '\u{85}' | '\u{A0}' | '\u{1680}' | '\u{2000}'..='\u{200A}'
        | '\u{2028}' | '\u{2029}' | '\u{202F}' | '\u{205F}' | '\u{3000}' => true,
        _ => false,
    }
}

/// Characters of the Unicode category Cc.
pub open spec fn is_control(c: char) -> bool {
    c <= '\u{1F}' || '\u{7F}' <= c <= '\u{9F}'
}

/// Whether the character is a control character.
pub fn control(c: char) -> (found: bool)
    ensures
        found == is_control(c),
{
    match c {
        '\u{0}'..='\u{1F}' | '\u{7F}'..='\u{9F}' => true,
        _ => false,
    }
}

/// Some character of the text is a control character.
pub open spec fn has_control(text: Seq<char>) -> bool {
    exists|i: int| 0 <= i < text.len() && is_control(#[trigger] text[i])
}

/// Whether the text contains a control character.
pub fn contains_control(text: &str) -> (found: bool)
    ensures
        found == has_control(text@),
{
    for c in it: text.chars()
        invariant
            it.seq() == text@,
            forall|j: int| 0 <= j < it.index() ==> !is_control(#[trigger] text@[j]),
    {
        if control(c) {
            assert(is_control(text@[it.index()]));
            return true;
        }
    }
    false
}

/// Whether the text contains the character.
pub fn contains_char(text: &str, wanted: char) -> (found: bool)
    ensures
        found == text@.contains(wanted),
{
    for c in it: text.chars()
        invariant
            it.seq() == text@,
            forall|j: int| 0 <= j < it.index() ==> text@[j] != wanted,
    {
        if c == wanted {
            assert(text@[it.index()] == wanted);
            return true;
        }
    }
    false
}

/// Whether the text begins with the character.
pub fn first_is(text: &str, wanted: char) -> (found: bool)
    ensures
        found == (text@.len() > 0 && text@[0] == wanted),
{
    for c in it: text.chars()
        invariant
            it.seq() == text@,
            it.index() == 0,
    {
        return c == wanted;
    }
    false
}

/// The text without the white space at its start.
pub open spec fn trim_start(text: Seq<char>) -> Seq<char>
    decreases text.len(),
{
    if text.len() > 0 && is_space(text[0]) {
        trim_start(text.drop_first())
    } else {
        text
    }
}

/// The text without the white space at its end.
pub open spec fn trim_end(text: Seq<char>) -> Seq<char>
    decreases text.len(),
{
    if text.len() > 0 && is_space(text.last()) {
        trim_end(text.drop_last())
    } else {
        text
    }
}

/// The text without the white space around it.
pub open spec fn trim(text: Seq<char>) -> Seq<char> {
    trim_end(trim_start(text))
}

/// The range that is left of `start..end` without the white space around it.
pub fn trim_range(chars: &[char], start: usize, end: usize) -> (range: (usize, usize))
    requires
        start <= end <= chars@.len(),
    ensures
        start <= range.0 <= range.1 <= end,
        end - range.0 == trim_start(chars@.subrange(start as int, end as int)).len(),
        chars@.subrange(range.0 as int, range.1 as int) == trim(
            chars@.subrange(start as int, end as int),
        ),
{
    let mut first: usize = start;
    while first < end && space(chars[first])
        invariant
            start <= first <= end <= chars@.len(),
            trim_start(chars@.subrange(start as int, end as int)) == trim_start(
                chars@.subrange(first as int, end as int),
            ),
        decreases end - first,
    {
        assert(chars@.subrange(first as int, end as int).drop_first() =~= chars@.subrange(
            first + 1,
            end as int,
        ));
        first += 1;
    }
    let ghost kept = chars@.subrange(first as int, end as int);
    assert(trim_start(kept) == kept);
    let mut last: usize = end;
    while first < last && space(chars[last - 1])
        invariant
            start <= first <= last <= end <= chars@.len(),
            trim_end(kept) == trim_end(chars@.subrange(first as int, last as int)),
        decreases last - first,
    {
        assert(chars@.subrange(first as int, last as int).drop_last() =~= chars@.subrange(
            first as int,
            last - 1,
        ));
        last -= 1;
    }
    (first, last)
}

/// The text without the white space around it.
pub fn trimmed(text: &str) -> (result: String)
    ensures
        result@ == trim(text@),
{
    let chars = chars_of(text);
    assert(chars@.subrange(0, chars@.len() as int) =~= text@);
    let (start, end) = trim_range(&chars, 0, chars.len());
    text_of(&chars, start, end)
}

/// The parts of the text between the occurrences of `separator`.
pub open spec fn split_on(text: Seq<char>, separator: char) -> Seq<Seq<char>>
    decreases text.len(),
{
    if text.len() == 0 {
        seq![text]
    } else {
        let before = split_on(text.drop_last(), separator);
        if text.last() == separator {
            before.push(Seq::empty())
        } else {
            before.drop_last().push(before.last().push(text.last()))
        }
    }
}

/// Splits the text at each occurrence of `separator`.
pub fn split(text: &str, separator: char) -> (parts: Vec<String>)
    ensures
        texts(parts@) == split_on(text@, separator),
{
    let mut parts: Vec<String> = Vec::new();
    let mut part = String::new();
    assert(text@.take(0) =~= part@);
    assert(texts(parts@).push(part@) =~= split_on(text@.take(0), separator));
    for c in it: text.chars()
        invariant
            it.seq() == text@,
            texts(parts@).push(part@) == split_on(text@.take(it.index()), separator),
    {
        let ghost done = text@.take(it.index());
        let ghost before = texts(parts@).push(part@);
        assert(text@.take(it.index() + 1) =~= done.push(c));
        assert(done.push(c).drop_last() =~= done);
        assert(before.drop_last() =~= texts(parts@));
        if c == separator {
            proof {
                texts_push(parts@, part);
            }
            parts.push(part);
            part = String::new();
        } else {
            part.push(c);
        }
    }
    assert(text@.take(text@.len() as int) =~= text@);
    proof {
        texts_push(parts@, part);
    }
    parts.push(part);
    parts
}

/// White space within ASCII.
pub open spec fn is_ascii_space(c: char) -> bool {
    c == ' ' || c == '\t' || c == '\n' || c == '\u{C}' || c == '\r'
}

/// White space, of all of Unicode or of ASCII alone.
pub open spec fn separates_words(c: char, ascii: bool) -> bool {
    if ascii {
        is_ascii_space(c)
    } else {
        is_space(c)
    }
}

/// The longest runs of characters that are not white space.
pub open spec fn words_of(text: Seq<char>, ascii: bool) -> Seq<Seq<char>>
    decreases text.len(),
{
    if text.len() == 0 {
        Seq::empty()
    } else {
        let before = words_of(text.drop_last(), ascii);
        if separates_words(text.last(), ascii) {
            before
        } else if text.len() > 1 && !separates_words(text[text.len() - 2], ascii) {
            before.drop_last().push(before.last().push(text.last()))
        } else {
            before.push(seq![text.last()])
        }
    }
}

/// The words of the text.
pub fn words(text: &str, ascii: bool) -> (found: Vec<String>)
    ensures
        texts(found@) == words_of(text@, ascii),
{
    let mut found: Vec<String> = Vec::new();
    let mut word = String::new();
    let mut open = false;
    assert(texts(found@) =~= words_of(text@.take(0), ascii));
    for c in it: text.chars()
        invariant
            it.seq() == text@,
            open == (it.index() > 0 && !separates_words(text@[it.index() - 1], ascii)),
            open ==> texts(found@).push(word@) == words_of(text@.take(it.index()), ascii),
            !open ==> texts(found@) == words_of(text@.take(it.index()), ascii) && word@.len() == 0,
    {
        let ghost done = text@.take(it.index());
        assert(text@.take(it.index() + 1) =~= done.push(c));
        assert(done.push(c).drop_last() =~= done);
        assert(texts(found@).push(word@).drop_last() =~= texts(found@));
        let separator = if ascii {
            c == ' ' || c == '\t' || c == '\n' || c == '\u{C}' || c == '\r'
        } else {
            space(c)
        };
        if separator {
            if open {
                proof {
                    texts_push(found@, word);
                }
                found.push(word);
                word = String::new();
                open = false;
            }
        } else {
            proof {
                if !open {
                    assert(word@.push(c) =~= seq![c]);
                }
            }
            word.push(c);
            open = true;
        }
    }
    assert(text@.take(text@.len() as int) =~= text@);
    if open {
        proof {
            texts_push(found@, word);
        }
        found.push(word);
    }
    found
}

/// The line without a carriage return at its end.
pub open spec fn without_return(line: Seq<char>) -> Seq<char> {
    if line.len() > 0 && line.last() == '\r' {
        line.drop_last()
    } else {
        line
    }
}

/// The lines of the text. A line ends at a line feed, or at a carriage return and a line feed;
/// the end of the last line may be missing.
pub open spec fn lines_of(text: Seq<char>) -> Seq<Seq<char>> {
    let parts = split_on(text, '\n');
    let ended = Seq::new((parts.len() - 1) as nat, |i: int| without_return(parts[i]));
    if parts.last().len() == 0 {
        ended
    } else {
        ended.push(parts.last())
    }
}

/// A text has at least one part.
pub proof fn split_on_not_empty(text: Seq<char>, separator: char)
    ensures
        split_on(text, separator).len() > 0,
    decreases text.len(),
{
    if text.len() > 0 {
        split_on_not_empty(text.drop_last(), separator);
    }
}

/// Splits the text into its lines.
pub fn lines(text: &str) -> (result: Vec<String>)
    ensures
        texts(result@) == lines_of(text@),
{
    let parts = split(text, '\n');
    proof {
        split_on_not_empty(text@, '\n');
    }
    let ghost ended = lines_of(text@).take(parts@.len() - 1);
    let mut result: Vec<String> = Vec::new();
    let mut i: usize = 0;
    while i < parts.len() - 1
        invariant
            texts(parts@) == split_on(text@, '\n'),
            parts@.len() > 0,
            i <= parts@.len() - 1,
            texts(result@) == Seq::new(i as nat, |j: int| without_return(parts@[j]@)),
        decreases parts@.len() - i,
    {
        let chars = chars_of(parts[i].as_str());
        let end = if chars.len() > 0 && chars[chars.len() - 1] == '\r' {
            chars.len() - 1
        } else {
            chars.len()
        };
        let line = text_of(&chars, 0, end);
        proof {
            assert(line@ =~= without_return(parts@[i as int]@));
            texts_push(result@, line);
        }
        result.push(line);
        assert(texts(result@) =~= Seq::new((i + 1) as nat, |j: int| without_return(parts@[j]@)));
        i += 1;
    }
    let last = &parts[parts.len() - 1];
    assert(last@ == split_on(text@, '\n').last());
    if !last.as_str().is_empty() {
        proof {
            texts_push(result@, *last);
        }
        result.push(last.clone());
    }
    assert(texts(result@) =~= lines_of(text@));
    result
}

/// The parts, one after the other, with `separator` between them.
pub open spec fn joined(parts: Seq<Seq<char>>, separator: Seq<char>) -> Seq<char>
    decreases parts.len(),
{
    if parts.len() == 0 {
        Seq::empty()
    } else if parts.len() == 1 {
        parts[0]
    } else {
        joined(parts.drop_last(), separator) + separator + parts.last()
    }
}

/// Joins the parts with `separator` between them.
pub fn join(parts: &[String], separator: &str) -> (result: String)
    ensures
        result@ == joined(texts(parts@), separator@),
{
    let mut result = String::new();
    let mut i: usize = 0;
    while i < parts.len()
        invariant
            i <= parts@.len(),
            result@ == joined(texts(parts@).take(i as int), separator@),
        decreases parts@.len() - i,
    {
        proof {
            let next = texts(parts@).take(i + 1);
            assert(next.drop_last() =~= texts(parts@).take(i as int));
        }
        if i > 0 {
            result.append(separator);
        }
        result.append(parts[i].as_str());
        assert(result@ =~= joined(texts(parts@).take(i + 1), separator@));
        i += 1;
    }
    assert(texts(parts@).take(i as int) =~= texts(parts@));
    result
}

/// `part` stands in `text` at `start`.
pub open spec fn occurs_at(text: Seq<char>, part: Seq<char>, start: int) -> bool {
    0 <= start && start + part.len() <= text.len() && text.subrange(start, start + part.len())
        == part
}

/// `part` stands somewhere in `text`.
pub open spec fn occurs_in(text: Seq<char>, part: Seq<char>) -> bool {
    exists|start: int| occurs_at(text, part, start)
}

/// `text` begins with `part`.
pub open spec fn begins_with(text: Seq<char>, part: Seq<char>) -> bool {
    occurs_at(text, part, 0)
}

/// `text` ends with `part`.
pub open spec fn finishes_with(text: Seq<char>, part: Seq<char>) -> bool {
    occurs_at(text, part, text.len() - part.len())
}

fn stands_at(text: &[char], part: &[char], start: usize) -> (found: bool)
    requires
        start <= text@.len(),
    ensures
        found == occurs_at(text@, part@, start as int),
{
    if text.len() - start < part.len() {
        return false;
    }
    let mut i: usize = 0;
    while i < part.len()
        invariant
            start + part@.len() <= text@.len() <= usize::MAX,
            i <= part@.len(),
            forall|j: int| 0 <= j < i ==> text@[start + j] == part@[j],
        decreases part@.len() - i,
    {
        if text[start + i] != part[i] {
            assert(text@.subrange(start as int, start + part@.len())[i as int] != part@[i as int]);
            return false;
        }
        i += 1;
    }
    assert(text@.subrange(start as int, start + part@.len()) =~= part@);
    true
}

/// Whether the text contains `part`.
pub fn contains_text(text: &str, part: &str) -> (found: bool)
    ensures
        found == occurs_in(text@, part@),
{
    let text_chars = chars_of(text);
    let part_chars = chars_of(part);
    let mut start: usize = 0;
    while start < text_chars.len()
        invariant
            text_chars@ == text@,
            part_chars@ == part@,
            start <= text@.len(),
            forall|i: int| 0 <= i < start ==> !occurs_at(text@, part@, i),
        decreases text@.len() - start,
    {
        if stands_at(&text_chars, &part_chars, start) {
            return true;
        }
        start += 1;
    }
    stands_at(&text_chars, &part_chars, start)
}

/// Whether the text begins with `part`.
pub fn starts_with(text: &str, part: &str) -> (found: bool)
    ensures
        found == begins_with(text@, part@),
{
    let text_chars = chars_of(text);
    let part_chars = chars_of(part);
    stands_at(&text_chars, &part_chars, 0)
}

/// Whether the text ends with `part`.
pub fn ends_with(text: &str, part: &str) -> (found: bool)
    ensures
        found == finishes_with(text@, part@),
{
    let text_chars = chars_of(text);
    let part_chars = chars_of(part);
    if text_chars.len() < part_chars.len() {
        return false;
    }
    stands_at(&text_chars, &part_chars, text_chars.len() - part_chars.len())
}

/// The place of the first `wanted` in the text, or the end of the text where there is none.
pub open spec fn first_place(text: Seq<char>, wanted: char) -> int
    decreases text.len(),
{
    if text.len() == 0 || text[0] == wanted {
        0
    } else {
        1 + first_place(text.drop_first(), wanted)
    }
}

/// The text before the first `separator` and the text after it.
pub open spec fn cut_once(text: Seq<char>, separator: char) -> Option<(Seq<char>, Seq<char>)> {
    let place = first_place(text, separator);
    if place < text.len() {
        Some((text.take(place), text.skip(place + 1)))
    } else {
        None
    }
}

proof fn first_place_is(text: Seq<char>, wanted: char, place: int)
    requires
        0 <= place <= text.len(),
        forall|i: int| 0 <= i < place ==> text[i] != wanted,
        place < text.len() ==> text[place] == wanted,
    ensures
        first_place(text, wanted) == place,
    decreases text.len(),
{
    if place > 0 {
        first_place_is(text.drop_first(), wanted, place - 1);
    }
}

/// Splits the text at the first `separator`.
pub fn split_once(text: &str, separator: char) -> (parts: Option<(String, String)>)
    ensures
        match parts {
            Some((before, after)) => cut_once(text@, separator) == Some((before@, after@)),
            None => cut_once(text@, separator) is None,
        },
{
    let chars = chars_of(text);
    let mut place: usize = 0;
    while place < chars.len() && chars[place] != separator
        invariant
            chars@ == text@,
            place <= chars@.len(),
            forall|i: int| 0 <= i < place ==> text@[i] != separator,
        decreases chars@.len() - place,
    {
        place += 1;
    }
    proof {
        first_place_is(text@, separator, place as int);
    }
    if place == chars.len() {
        return None;
    }
    let before = text_of(&chars, 0, place);
    let after = text_of(&chars, place + 1, chars.len());
    proof {
        assert(before@ =~= text@.take(place as int));
        assert(after@ =~= text@.skip(place + 1));
    }
    Some((before, after))
}

/// An upper-case ASCII letter becomes the lower-case one; any other character stays.
pub open spec fn lower(c: char) -> char {
    if 'A' <= c <= 'Z' {
        (c as u32 + 32) as char
    } else {
        c
    }
}

/// The text with its upper-case ASCII letters in lower case.
pub open spec fn lowercase(text: Seq<char>) -> Seq<char> {
    Seq::new(text.len(), |i: int| lower(text[i]))
}

/// Turns the upper-case ASCII letters of the text into lower case.
pub fn to_lowercase(text: &str) -> (result: String)
    ensures
        result@ == lowercase(text@),
{
    let mut result = String::new();
    for c in it: text.chars()
        invariant
            it.seq() == text@,
            result@ == lowercase(text@.take(it.index())),
    {
        let mapped = match c {
            'A'..='Z' => match char::from_u32(c as u32 + 32) {
                Some(small) => small,
                None => c,
            },
            _ => c,
        };
        result.push(mapped);
        assert(lowercase(text@.take(it.index() + 1)) =~= lowercase(text@.take(it.index())).push(
            lower(c),
        ));
    }
    assert(text@.take(text@.len() as int) =~= text@);
    result
}

/// ASCII digits.
pub open spec fn is_digit(c: char) -> bool {
    '0' <= c <= '9'
}

/// The decimal notation of a number.
pub open spec fn decimal_of(number: nat) -> Seq<char>
    decreases number,
{
    if number < 10 {
        seq![(48 + number) as char]
    } else {
        decimal_of(number / 10).push((48 + number % 10) as char)
    }
}

/// Writes the number in decimal notation.
pub fn decimal(number: u128) -> (result: String)
    ensures
        result@ == decimal_of(number as nat),
    decreases number,
{
    let digit = (48 + (number % 10) as u8) as char;
    if number < 10 {
        let mut result = String::new();
        result.push(digit);
        assert(result@ =~= decimal_of(number as nat));
        result
    } else {
        let mut result = decimal(number / 10);
        result.push(digit);
        result
    }
}

/// The decimal notation of an integer, with a minus sign before a negative one.
pub open spec fn signed_decimal_of(number: int) -> Seq<char> {
    if number < 0 {
        seq!['-'] + decimal_of((-number) as nat)
    } else {
        decimal_of(number as nat)
    }
}

/// Writes the integer in decimal notation.
pub fn signed_decimal(number: i32) -> (result: String)
    ensures
        result@ == signed_decimal_of(number as int),
{
    if number < 0 {
        let mut result = String::new();
        result.push('-');
        let digits = decimal((-(number as i64)) as u128);
        result.append(digits.as_str());
        assert(result@ =~= signed_decimal_of(number as int));
        result
    } else {
        decimal(number as u128)
    }
}

/// The text with zeros before it, so that it has at least `width` characters.
pub open spec fn zero_padded(text: Seq<char>, width: nat) -> Seq<char> {
    if text.len() < width {
        Seq::new((width - text.len()) as nat, |i: int| '0') + text
    } else {
        text
    }
}

/// Writes the number in decimal notation with at least `width` digits.
pub fn padded_decimal(number: u64, width: usize) -> (result: String)
    ensures
        result@ == zero_padded(decimal_of(number as nat), width as nat),
{
    let digits = decimal(number as u128);
    let length = chars_of(digits.as_str()).len();
    let mut result = String::new();
    let mut i: usize = length;
    while i < width
        invariant
            length <= i,
            i <= width || i == length,
            result@ == Seq::new((i - length) as nat, |j: int| '0'),
        decreases width - i,
    {
        result.push('0');
        assert(result@ =~= Seq::new((i + 1 - length) as nat, |j: int| '0'));
        i += 1;
    }
    result.append(digits.as_str());
    assert(result@ =~= zero_padded(decimal_of(number as nat), width as nat));
    result
}

/// The number that a sequence of digits denotes; nothing for an empty sequence or one with
/// another character in it.
pub open spec fn digits_value(digits: Seq<char>) -> Option<nat>
    decreases digits.len(),
{
    if digits.len() == 0 || !is_digit(digits.last()) {
        None
    } else if digits.len() == 1 {
        Some((digits[0] as int - 48) as nat)
    } else {
        match digits_value(digits.drop_last()) {
            Some(value) => Some((10 * value + (digits.last() as int - 48)) as nat),
            None => None,
        }
    }
}

/// The number that a text denotes: digits, which a plus sign may precede.
pub open spec fn unsigned_value(text: Seq<char>) -> Option<nat> {
    if text.len() > 0 && text[0] == '+' {
        digits_value(text.skip(1))
    } else {
        digits_value(text)
    }
}

/// The integer that a text denotes: digits, which a plus or a minus sign may precede.
pub open spec fn signed_value(text: Seq<char>) -> Option<int> {
    if text.len() > 0 && text[0] == '-' {
        match digits_value(text.skip(1)) {
            Some(value) => Some(-(value as int)),
            None => None,
        }
    } else {
        match unsigned_value(text) {
            Some(value) => Some(value as int),
            None => None,
        }
    }
}

/// A sequence of digits denotes no smaller number after more digits.
proof fn digits_value_grows(digits: Seq<char>, length: int)
    requires
        0 < length <= digits.len(),
    ensures
        digits_value(digits) matches Some(value) ==> digits_value(digits.take(length)) is Some
            && digits_value(digits.take(length))->0 <= value,
    decreases digits.len(),
{
    if length < digits.len() {
        digits_value_grows(digits.drop_last(), length);
        assert(digits.drop_last().take(length) =~= digits.take(length));
    } else {
        assert(digits.take(length) =~= digits);
    }
}

/// Reads the digits from `start` to the end as a number of at most `limit`.
fn read_digits(chars: &[char], start: usize, limit: u64) -> (result: Option<u64>)
    requires
        start <= chars@.len(),
    ensures
        match result {
            Some(value) => digits_value(chars@.skip(start as int)) == Some(value as nat) && value
                <= limit,
            None => digits_value(chars@.skip(start as int)) matches Some(value) ==> value > limit,
        },
{
    let ghost digits = chars@.skip(start as int);
    if start == chars.len() {
        return None;
    }
    let mut value: u64 = 0;
    let mut i: usize = start;
    while i < chars.len()
        invariant
            digits == chars@.skip(start as int),
            start <= i <= chars@.len(),
            i > start ==> digits_value(digits.take(i - start)) == Some(value as nat),
            i == start ==> value == 0,
            value <= limit,
        decreases chars@.len() - i,
    {
        let c = chars[i];
        proof {
            assert(digits[i - start] == c);
            assert(digits.take(i - start + 1).drop_last() =~= digits.take(i - start));
            assert(digits.take(i - start + 1).last() == c);
            digits_value_grows(digits, i - start + 1);
        }
        if !(c >= '0' && c <= '9') {
            return None;
        }
        let digit = (c as u32 - 48) as u64;
        match value.checked_mul(10) {
            None => {
                return None;
            },
            Some(tens) => match tens.checked_add(digit) {
                None => {
                    return None;
                },
                Some(next) => {
                    if next > limit {
                        return None;
                    }
                    value = next;
                },
            },
        }
        i += 1;
    }
    assert(digits.take(i - start) =~= digits);
    Some(value)
}

/// Reads the text as a number of at most `limit`.
pub fn parse_unsigned(text: &str, limit: u64) -> (result: Option<u64>)
    ensures
        match result {
            Some(value) => unsigned_value(text@) == Some(value as nat) && value <= limit,
            None => unsigned_value(text@) matches Some(value) ==> value > limit,
        },
{
    let chars = chars_of(text);
    assert(chars@.skip(0) =~= text@);
    if chars.len() > 0 && chars[0] == '+' {
        read_digits(&chars, 1, limit)
    } else {
        read_digits(&chars, 0, limit)
    }
}

/// Reads the text as a 32-bit integer.
pub fn parse_i32(text: &str) -> (result: Option<i32>)
    ensures
        match result {
            Some(value) => signed_value(text@) == Some(value as int),
            None => signed_value(text@) matches Some(value) ==> value < i32::MIN || value
                > i32::MAX,
        },
{
    let chars = chars_of(text);
    if chars.len() > 0 && chars[0] == '-' {
        match read_digits(&chars, 1, 2147483648) {
            Some(value) => Some((-(value as i64)) as i32),
            None => None,
        }
    } else {
        match parse_unsigned(text, 2147483647) {
            Some(value) => Some(value as i32),
            None => None,
        }
    }
}

} // verus!
