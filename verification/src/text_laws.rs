//! What the operations on texts come to, said of characters.

use crate::checksum::{checksum_lines, hex_of, AssetView};
use crate::mozc::{split_behind, split_single};
use crate::order::{text_rank, Rank};
use crate::text::{
    decimal_of, digits_value, is_space, joined, lines_of, lowercase, signed_decimal_of,
    signed_value, split_on, split_on_not_empty, trim, trim_end, trim_start, without_return,
    words_of, zero_padded,
};
use vstd::prelude::*;

verus! {

/// What is left without the white space at the start of a text is its end.
pub proof fn trim_start_is_suffix(text: Seq<char>)
    ensures
        trim_start(text).len() <= text.len(),
        trim_start(text) == text.skip(text.len() - trim_start(text).len()),
        forall|i: int| 0 <= i < text.len() - trim_start(text).len() ==> is_space(#[trigger] text[i]),
        trim_start(text).len() > 0 ==> !is_space(trim_start(text)[0]),
    decreases text.len(),
{
    if text.len() > 0 && is_space(text[0]) {
        let rest = text.drop_first();
        trim_start_is_suffix(rest);
        assert(trim_start(text) =~= text.skip(text.len() - trim_start(text).len()));
        assert forall|i: int|
            0 <= i < text.len() - trim_start(text).len() implies is_space(#[trigger] text[i]) by {
            if i > 0 {
                assert(rest[i - 1] == text[i]);
            }
        }
    } else {
        assert(trim_start(text) =~= text.skip(0));
    }
}

/// What is left without the white space at the end of a text is its start.
pub proof fn trim_end_is_prefix(text: Seq<char>)
    ensures
        trim_end(text).len() <= text.len(),
        trim_end(text) == text.take(trim_end(text).len() as int),
        forall|i: int| trim_end(text).len() <= i < text.len() ==> is_space(#[trigger] text[i]),
        trim_end(text).len() > 0 ==> !is_space(trim_end(text).last()),
    decreases text.len(),
{
    if text.len() > 0 && is_space(text.last()) {
        let rest = text.drop_last();
        trim_end_is_prefix(rest);
        assert(trim_end(text) =~= text.take(trim_end(text).len() as int));
        assert forall|i: int| trim_end(text).len() <= i < text.len() implies is_space(
            #[trigger] text[i],
        ) by {
            if i < rest.len() {
                assert(rest[i] == text[i]);
            }
        }
    } else {
        assert(trim_end(text) =~= text.take(text.len() as int));
    }
}

/// The white space of Unicode.
pub proof fn white_space_is_literal(c: char)
    ensures
        is_space(c) <==> {
            ||| 0x9 <= c as int <= 0xD
            ||| c == ' ' || c == '\u{85}' || c == '\u{A0}' || c == '\u{1680}'
            ||| 0x2000 <= c as int <= 0x200A
            ||| c == '\u{2028}' || c == '\u{2029}' || c == '\u{202F}' || c == '\u{205F}'
            ||| c == '\u{3000}'
        },
{
}

/// Trimming takes off the white space at both ends, all of it and nothing else.
pub proof fn trimming_takes_white_space(text: Seq<char>) -> (range: (int, int))
    ensures
        0 <= range.0 <= range.1 <= text.len(),
        trim(text) == text.subrange(range.0, range.1),
        forall|i: int| 0 <= i < range.0 || range.1 <= i < text.len() ==> is_space(
            #[trigger] text[i],
        ),
        trim(text).len() > 0 ==> !is_space(trim(text)[0]) && !is_space(trim(text).last()),
{
    let rest = trim_start(text);
    trim_start_is_suffix(text);
    trim_end_is_prefix(rest);
    let start = text.len() - rest.len();
    let end = start + trim(text).len();
    assert(trim(text) =~= text.subrange(start, end));
    assert forall|i: int| 0 <= i < start || end <= i < text.len() implies is_space(
        #[trigger] text[i],
    ) by {
        if i >= end {
            assert(rest[i - start] == text[i]);
        }
    }
    if trim(text).len() > 0 {
        assert(trim(text)[0] == rest[0]);
    }
    (start, end)
}

/// Where two texts differ first, the lesser character comes first; a text comes before those that
/// begin with it.
pub proof fn texts_are_ordered_by_first_difference(left: Seq<char>, right: Seq<char>, place: int)
    requires
        0 <= place <= left.len(),
        place <= right.len(),
        forall|i: int| 0 <= i < place ==> left[i] == right[i],
    ensures
        place < left.len() && place < right.len() && left[place] < right[place] ==> text_rank(
            left,
            right,
        ) == Rank::Before,
        place < left.len() && place < right.len() && left[place] > right[place] ==> text_rank(
            left,
            right,
        ) == Rank::After,
        place == left.len() && place < right.len() ==> text_rank(left, right) == Rank::Before,
        place < left.len() && place == right.len() ==> text_rank(left, right) == Rank::After,
        place == left.len() && place == right.len() ==> text_rank(left, right) == Rank::Same,
    decreases place,
{
    if place > 0 {
        assert(left[0] == right[0]);
        texts_are_ordered_by_first_difference(left.drop_first(), right.drop_first(), place - 1);
    }
}

/// The parts of a text hold no separator, and with separators between them they are the text.
pub proof fn parts_join_to_the_text(text: Seq<char>, separator: char)
    ensures
        joined(split_on(text, separator), seq![separator]) == text,
        forall|i: int|
            0 <= i < split_on(text, separator).len() ==> !(#[trigger] split_on(
                text,
                separator,
            )[i]).contains(separator),
    decreases text.len(),
{
    let parts = split_on(text, separator);
    if text.len() > 0 {
        let shorter = text.drop_last();
        let before = split_on(shorter, separator);
        split_on_not_empty(shorter, separator);
        parts_join_to_the_text(shorter, separator);
        if text.last() == separator {
            assert(parts.drop_last() =~= before);
            assert(joined(parts, seq![separator]) =~= text);
            assert forall|i: int| 0 <= i < parts.len() implies !(#[trigger] parts[i]).contains(
                separator,
            ) by {
                if i < before.len() {
                    assert(parts[i] == before[i]);
                }
            }
        } else {
            assert(parts.drop_last() =~= before.drop_last());
            assert(parts.len() == before.len());
            assert(parts.last() == before.last().push(text.last()));
            if before.len() == 1 {
                assert(before[0] == shorter);
                assert(joined(parts, seq![separator]) == parts[0]);
                assert(parts[0] =~= text);
            } else {
                let start = joined(before.drop_last(), seq![separator]) + seq![separator];
                assert(joined(before, seq![separator]) == start + before.last());
                assert(joined(parts, seq![separator]) == start + parts.last());
                assert(start + parts.last() =~= (start + before.last()).push(text.last()));
                assert(shorter.push(text.last()) =~= text);
            }
            assert forall|i: int| 0 <= i < parts.len() implies !(#[trigger] parts[i]).contains(
                separator,
            ) by {
                if i < before.len() - 1 {
                    assert(parts[i] == before[i]);
                } else {
                    let last = before[before.len() - 1];
                    assert(!last.contains(separator));
                    assert forall|k: int| 0 <= k < parts[i].len() implies parts[i][k]
                        != separator by {
                        if k < last.len() {
                            assert(last.contains(last[k]));
                        }
                    }
                }
            }
        }
    } else {
        assert(parts =~= seq![text]);
    }
}

/// A text without white space is one word, and white space parts words.
pub proof fn white_space_parts_words(first: Seq<char>, space: char, second: Seq<char>)
    requires
        is_space(space),
    ensures
        words_of(first.push(space) + second, false) == words_of(first, false) + words_of(
            second,
            false,
        ),
        second.len() > 0 && (forall|i: int| 0 <= i < second.len() ==> !is_space(
            #[trigger] second[i],
        )) ==> words_of(second, false) == seq![second],
        second.len() == 0 ==> words_of(second, false).len() == 0,
    decreases second.len(),
{
    let whole = first.push(space) + second;
    if second.len() == 0 {
        assert(whole =~= first.push(space));
        assert(whole.drop_last() =~= first);
        assert(words_of(whole, false) =~= words_of(first, false) + words_of(second, false));
    } else {
        let shorter = second.drop_last();
        white_space_parts_words(first, space, shorter);
        assert(whole.drop_last() =~= first.push(space) + shorter);
        assert(whole.last() == second.last());
        if second.len() == 1 {
            assert(whole[whole.len() - 2] == space);
            assert(second =~= seq![second.last()]);
        } else {
            assert(whole[whole.len() - 2] == second[second.len() - 2]);
            if !is_space(second[second.len() - 2]) {
                words_end_with_text(shorter);
            }
        }
        assert(words_of(whole, false) =~= words_of(first, false) + words_of(second, false));
        if forall|i: int| 0 <= i < second.len() ==> !is_space(#[trigger] second[i]) {
            assert forall|i: int| 0 <= i < shorter.len() implies !is_space(
                #[trigger] shorter[i],
            ) by {
                assert(shorter[i] == second[i]);
            }
            assert(!is_space(second[second.len() - 1]));
            if shorter.len() > 0 {
                assert(!is_space(second[second.len() - 2]));
                assert(words_of(shorter, false) == seq![shorter]);
                assert(shorter.push(second.last()) =~= second);
                assert(words_of(second, false) =~= seq![second]);
            } else {
                assert(words_of(second, false) =~= seq![second]);
            }
        }
    }
}

proof fn words_end_with_text(text: Seq<char>)
    requires
        text.len() > 0,
        !is_space(text.last()),
    ensures
        words_of(text, false).len() > 0,
    decreases text.len(),
{
    if text.len() > 1 && !is_space(text[text.len() - 2]) {
        words_end_with_text(text.drop_last());
    }
}

/// Lower case changes the letters from A to Z into those from a to z, and nothing else.
pub proof fn letters_become_small(text: Seq<char>, i: int)
    requires
        0 <= i < text.len(),
    ensures
        lowercase(text).len() == text.len(),
        'A' <= text[i] <= 'Z' ==> lowercase(text)[i] as int == text[i] as int + 32,
        !('A' <= text[i] <= 'Z') ==> lowercase(text)[i] == text[i],
{
}

/// Decimal notation has a digit for each power of ten, the lowest last, and a sign only before a
/// negative number.
pub proof fn numbers_have_digits(number: nat, digit: nat)
    requires
        digit < 10,
    ensures
        decimal_of(digit).len() == 1,
        decimal_of(digit)[0] as int == '0' as int + digit,
        number > 0 ==> decimal_of(10 * number + digit) == decimal_of(number) + decimal_of(digit),
        signed_decimal_of(number as int) == decimal_of(number),
        number > 0 ==> signed_decimal_of(-(number as int)) == seq!['-'] + decimal_of(number),
{
    if number > 0 {
        let whole = 10 * number + digit;
        assert(whole / 10 == number);
        assert(whole % 10 == digit);
        assert(decimal_of(whole) =~= decimal_of(number) + decimal_of(digit));
    }
}

/// Digits denote the number whose notation they are, with or without a sign before them.
pub proof fn digits_denote_numbers(digits: Seq<char>, digit: char)
    requires
        '0' <= digit <= '9',
    ensures
        digits_value(seq![digit]) == Some((digit as int - '0' as int) as nat),
        digits_value(digits) matches Some(value) ==> digits_value(digits.push(digit)) == Some(
            (10 * value + (digit as int - '0' as int)) as nat,
        ),
        digits_value(digits) matches Some(value) ==> signed_value(seq!['-'] + digits) == Some(
            -(value as int),
        ) && signed_value(seq!['+'] + digits) == Some(value as int),
{
    assert(seq![digit].last() == digit);
    if digits_value(digits) is Some {
        assert(digits.push(digit).drop_last() =~= digits);
        assert((seq!['-'] + digits).skip(1) =~= digits);
        assert((seq!['+'] + digits).skip(1) =~= digits);
    }
}

/// Zeros are put before a text until it is wide enough.
pub proof fn zeros_are_put_before(text: Seq<char>, width: nat)
    ensures
        zero_padded(text, width).len() == if text.len() < width {
            width
        } else {
            text.len()
        },
        zero_padded(text, width).skip(zero_padded(text, width).len() - text.len()) == text,
        forall|i: int|
            0 <= i < zero_padded(text, width).len() - text.len() ==> #[trigger] zero_padded(
                text,
                width,
            )[i] == '0',
{
    let padded = zero_padded(text, width);
    assert(padded.skip(padded.len() - text.len()) =~= text);
}

/// A line ends at a line feed, and a carriage return before it belongs to the end.
pub proof fn lines_end_at_line_feeds(line: Seq<char>, rest: Seq<char>)
    requires
        !line.contains('\n'),
    ensures
        lines_of(line.push('\n') + rest) == seq![
            (if line.len() > 0 && line.last() == '\r' {
                line.drop_last()
            } else {
                line
            }),
        ] + lines_of(rest),
        line.len() > 0 ==> lines_of(line) == seq![line],
        lines_of(Seq::<char>::empty()).len() == 0,
{
    split_single(line, '\n');
    first_part(line, rest, '\n');
    let parts = split_on(rest, '\n');
    let whole = split_on(line.push('\n') + rest, '\n');
    split_on_not_empty(rest, '\n');
    assert(whole =~= seq![line] + parts);
    assert(whole.last() == parts.last());
    let first = without_return(line);
    assert(lines_of(line.push('\n') + rest) =~= seq![first] + lines_of(rest));
    if line.len() > 0 {
        assert(lines_of(line) =~= seq![line]);
    }
    assert(split_on(Seq::<char>::empty(), '\n') =~= seq![Seq::<char>::empty()]);
}

proof fn first_part(part: Seq<char>, rest: Seq<char>, separator: char)
    requires
        !part.contains(separator),
    ensures
        split_on(part.push(separator) + rest, separator) == seq![part] + split_on(rest, separator),
    decreases rest.len(),
{
    let whole = part.push(separator) + rest;
    if rest.len() == 0 {
        split_behind(part, rest, separator);
        split_single(part, separator);
        assert(split_on(rest, separator) =~= seq![rest]);
        assert(split_on(whole, separator) =~= seq![part] + split_on(rest, separator));
    } else {
        let shorter = rest.drop_last();
        first_part(part, shorter, separator);
        split_on_not_empty(shorter, separator);
        assert(whole.drop_last() =~= part.push(separator) + shorter);
        assert(whole.last() == rest.last());
        assert(split_on(whole, separator) =~= seq![part] + split_on(rest, separator));
    }
}

/// The list of digests has a line for each file: the digest, two spaces and the name.
pub proof fn digests_are_listed(assets: Seq<AssetView>, asset: AssetView)
    ensures
        checksum_lines(assets.push(asset)) == checksum_lines(assets) + asset.sha256 + "  "@
            + asset.name + "\n"@,
        checksum_lines(Seq::<AssetView>::empty()).len() == 0,
{
    assert(assets.push(asset).drop_last() =~= assets);
}

/// A byte is written with two digits of sixteen, the upper one first.
pub proof fn bytes_have_two_digits(bytes: Seq<u8>, byte: u8)
    ensures
        hex_of(bytes.push(byte)) == hex_of(bytes) + seq![
            "0123456789abcdef"@[byte as int / 16],
            "0123456789abcdef"@[byte as int % 16],
        ],
{
    reveal_strlit("0123456789abcdef");
    let digits = "0123456789abcdef"@;
    assert(bytes.push(byte).drop_last() =~= bytes);
    assert(digits[0] == '0' && digits[1] == '1' && digits[2] == '2' && digits[3] == '3' && digits[4]
        == '4' && digits[5] == '5' && digits[6] == '6' && digits[7] == '7' && digits[8] == '8'
        && digits[9] == '9' && digits[10] == 'a' && digits[11] == 'b' && digits[12] == 'c'
        && digits[13] == 'd' && digits[14] == 'e' && digits[15] == 'f');
    assert(hex_of(bytes.push(byte)) =~= hex_of(bytes) + seq![
        digits[byte as int / 16],
        digits[byte as int % 16],
    ]);
}

} // verus!
