//! Which words the filter for loanwords lets through, said of their characters.

use crate::jmdict::loanword::{
    is_alphanumeric, is_direct_surface, is_formula, is_lexical, is_sign, last_place, pair_on,
    pairs_on, pronunciation_on, pronunciations_on, rejection, FilterView, Rejection,
};
use crate::jmdict::pronunciation::is_pronounced;
use crate::jmdict::readings::normalized;
use crate::jmdict::words::{grammatical_words, numerals};
use crate::mozc::{split_behind, split_single};
use crate::text::{
    begins_with, finishes_with, first_place, is_digit, is_space, lowercase, occurs_at, occurs_in,
    split_on, trim, trim_end, trim_start, words_of,
};
use crate::text_laws::{trim_end_is_prefix, trim_start_is_suffix};
use vstd::prelude::*;

verus! {

/// English letters and digits with single spaces or hyphens between them.
pub open spec fn is_plain(surface: Seq<char>) -> bool {
    &&& surface.len() > 0
    &&& surface[0] != ' ' && surface[0] != '-'
    &&& surface.last() != ' ' && surface.last() != '-'
    &&& forall|i: int|
        0 <= i < surface.len() ==> {
            let c = #[trigger] surface[i];
            'a' <= c <= 'z' || 'A' <= c <= 'Z' || '0' <= c <= '9' || c == ' ' || c == '-'
        }
    &&& forall|i: int|
        0 <= i < surface.len() - 1 ==> !((#[trigger] surface[i]) == ' ' && surface[i + 1] == ' ')
}

proof fn plain_is_direct(surface: Seq<char>)
    ensures
        is_direct_surface(surface) <==> is_plain(surface),
{
    reveal_strlit("  ");
    trim_start_is_suffix(surface);
    trim_end_is_prefix(trim_start(surface));
    if is_direct_surface(surface) {
        assert(trim_start(surface).len() == surface.len());
        assert(trim_start(surface) =~= surface);
        assert forall|i: int| 0 <= i < surface.len() - 1 implies !((#[trigger] surface[i]) == ' '
            && surface[i + 1] == ' ') by {
            if surface[i] == ' ' && surface[i + 1] == ' ' {
                assert(surface.subrange(i, i + 2) =~= "  "@);
                assert(occurs_at(surface, "  "@, i));
            }
        }
        assert forall|i: int| 0 <= i < surface.len() implies {
            let c = #[trigger] surface[i];
            'a' <= c <= 'z' || 'A' <= c <= 'Z' || '0' <= c <= '9' || c == ' ' || c == '-'
        } by {
            assert(is_alphanumeric(surface[i]) || surface[i] == ' ' || surface[i] == '-');
        }
    }
    if is_plain(surface) {
        assert(!is_space(surface[0]));
        assert(trim_start(surface) == surface);
        assert(!is_space(surface[surface.len() - 1]));
        assert(trim_end(surface) == surface);
        if occurs_in(surface, "  "@) {
            let start = choose|start: int| occurs_at(surface, "  "@, start);
            assert(surface.subrange(start, start + 2)[0] == "  "@[0]);
            assert(surface.subrange(start, start + 2)[1] == "  "@[1]);
            assert(surface[start] == ' ' && surface[start + 1] == ' ');
        }
    }
}

/// These are the numerals.
pub proof fn numerals_are_literal(word: Seq<char>)
    ensures
        numerals().contains(word) <==> {
            ||| word == "zero"@
            ||| word == "nought"@
            ||| word == "nil"@
            ||| word == "one"@
            ||| word == "two"@
            ||| word == "three"@
            ||| word == "four"@
            ||| word == "five"@
            ||| word == "six"@
            ||| word == "seven"@
            ||| word == "eight"@
            ||| word == "nine"@
            ||| word == "ten"@
            ||| word == "eleven"@
            ||| word == "twelve"@
            ||| word == "thirteen"@
            ||| word == "fourteen"@
            ||| word == "fifteen"@
            ||| word == "sixteen"@
            ||| word == "seventeen"@
            ||| word == "eighteen"@
            ||| word == "nineteen"@
            ||| word == "twenty"@
            ||| word == "thirty"@
            ||| word == "forty"@
            ||| word == "fifty"@
            ||| word == "sixty"@
            ||| word == "seventy"@
            ||| word == "eighty"@
            ||| word == "ninety"@
            ||| word == "hundred"@
            ||| word == "thousand"@
            ||| word == "million"@
            ||| word == "billion"@
            ||| word == "trillion"@
            ||| word == "first"@
            ||| word == "second"@
            ||| word == "third"@
            ||| word == "fourth"@
            ||| word == "fifth"@
            ||| word == "sixth"@
            ||| word == "seventh"@
            ||| word == "eighth"@
            ||| word == "ninth"@
            ||| word == "tenth"@
            ||| word == "eleventh"@
            ||| word == "twelfth"@
            ||| word == "thirteenth"@
            ||| word == "fourteenth"@
            ||| word == "fifteenth"@
            ||| word == "sixteenth"@
            ||| word == "seventeenth"@
            ||| word == "eighteenth"@
            ||| word == "nineteenth"@
            ||| word == "twentieth"@
        },
{
    let all = numerals();
    if all.contains(word) {
        let i = all.index_of(word);
        assert(all[i] == word);
        assert(0 <= i < 55);
    }
    assert(all[0] == "zero"@);
    assert(all[1] == "nought"@);
    assert(all[2] == "nil"@);
    assert(all[3] == "one"@);
    assert(all[4] == "two"@);
    assert(all[5] == "three"@);
    assert(all[6] == "four"@);
    assert(all[7] == "five"@);
    assert(all[8] == "six"@);
    assert(all[9] == "seven"@);
    assert(all[10] == "eight"@);
    assert(all[11] == "nine"@);
    assert(all[12] == "ten"@);
    assert(all[13] == "eleven"@);
    assert(all[14] == "twelve"@);
    assert(all[15] == "thirteen"@);
    assert(all[16] == "fourteen"@);
    assert(all[17] == "fifteen"@);
    assert(all[18] == "sixteen"@);
    assert(all[19] == "seventeen"@);
    assert(all[20] == "eighteen"@);
    assert(all[21] == "nineteen"@);
    assert(all[22] == "twenty"@);
    assert(all[23] == "thirty"@);
    assert(all[24] == "forty"@);
    assert(all[25] == "fifty"@);
    assert(all[26] == "sixty"@);
    assert(all[27] == "seventy"@);
    assert(all[28] == "eighty"@);
    assert(all[29] == "ninety"@);
    assert(all[30] == "hundred"@);
    assert(all[31] == "thousand"@);
    assert(all[32] == "million"@);
    assert(all[33] == "billion"@);
    assert(all[34] == "trillion"@);
    assert(all[35] == "first"@);
    assert(all[36] == "second"@);
    assert(all[37] == "third"@);
    assert(all[38] == "fourth"@);
    assert(all[39] == "fifth"@);
    assert(all[40] == "sixth"@);
    assert(all[41] == "seventh"@);
    assert(all[42] == "eighth"@);
    assert(all[43] == "ninth"@);
    assert(all[44] == "tenth"@);
    assert(all[45] == "eleventh"@);
    assert(all[46] == "twelfth"@);
    assert(all[47] == "thirteenth"@);
    assert(all[48] == "fourteenth"@);
    assert(all[49] == "fifteenth"@);
    assert(all[50] == "sixteenth"@);
    assert(all[51] == "seventeenth"@);
    assert(all[52] == "eighteenth"@);
    assert(all[53] == "nineteenth"@);
    assert(all[54] == "twentieth"@);
}

/// These are the function words.
pub proof fn function_words_are_literal(word: Seq<char>)
    ensures
        grammatical_words().contains(word) <==> {
            ||| word == "a"@
            ||| word == "an"@
            ||| word == "the"@
            ||| word == "and"@
            ||| word == "or"@
            ||| word == "but"@
            ||| word == "if"@
            ||| word == "then"@
            ||| word == "than"@
            ||| word == "to"@
            ||| word == "of"@
            ||| word == "in"@
            ||| word == "on"@
            ||| word == "at"@
            ||| word == "by"@
            ||| word == "for"@
            ||| word == "with"@
            ||| word == "from"@
            ||| word == "as"@
            ||| word == "is"@
            ||| word == "am"@
            ||| word == "are"@
            ||| word == "be"@
            ||| word == "was"@
            ||| word == "were"@
            ||| word == "been"@
            ||| word == "being"@
            ||| word == "do"@
            ||| word == "does"@
            ||| word == "did"@
            ||| word == "it"@
            ||| word == "this"@
            ||| word == "that"@
            ||| word == "these"@
            ||| word == "those"@
            ||| word == "here"@
            ||| word == "there"@
            ||| word == "who"@
            ||| word == "whom"@
            ||| word == "whose"@
            ||| word == "which"@
            ||| word == "what"@
            ||| word == "when"@
            ||| word == "where"@
            ||| word == "why"@
            ||| word == "how"@
            ||| word == "me"@
            ||| word == "my"@
            ||| word == "mine"@
            ||| word == "you"@
            ||| word == "your"@
            ||| word == "yours"@
            ||| word == "he"@
            ||| word == "him"@
            ||| word == "his"@
            ||| word == "she"@
            ||| word == "her"@
            ||| word == "hers"@
            ||| word == "we"@
            ||| word == "us"@
            ||| word == "our"@
            ||| word == "ours"@
            ||| word == "they"@
            ||| word == "them"@
            ||| word == "their"@
            ||| word == "theirs"@
            ||| word == "some"@
            ||| word == "any"@
            ||| word == "no"@
            ||| word == "not"@
            ||| word == "nor"@
        },
{
    let all = grammatical_words();
    if all.contains(word) {
        let i = all.index_of(word);
        assert(all[i] == word);
        assert(0 <= i < 71);
    }
    assert(all[0] == "a"@);
    assert(all[1] == "an"@);
    assert(all[2] == "the"@);
    assert(all[3] == "and"@);
    assert(all[4] == "or"@);
    assert(all[5] == "but"@);
    assert(all[6] == "if"@);
    assert(all[7] == "then"@);
    assert(all[8] == "than"@);
    assert(all[9] == "to"@);
    assert(all[10] == "of"@);
    assert(all[11] == "in"@);
    assert(all[12] == "on"@);
    assert(all[13] == "at"@);
    assert(all[14] == "by"@);
    assert(all[15] == "for"@);
    assert(all[16] == "with"@);
    assert(all[17] == "from"@);
    assert(all[18] == "as"@);
    assert(all[19] == "is"@);
    assert(all[20] == "am"@);
    assert(all[21] == "are"@);
    assert(all[22] == "be"@);
    assert(all[23] == "was"@);
    assert(all[24] == "were"@);
    assert(all[25] == "been"@);
    assert(all[26] == "being"@);
    assert(all[27] == "do"@);
    assert(all[28] == "does"@);
    assert(all[29] == "did"@);
    assert(all[30] == "it"@);
    assert(all[31] == "this"@);
    assert(all[32] == "that"@);
    assert(all[33] == "these"@);
    assert(all[34] == "those"@);
    assert(all[35] == "here"@);
    assert(all[36] == "there"@);
    assert(all[37] == "who"@);
    assert(all[38] == "whom"@);
    assert(all[39] == "whose"@);
    assert(all[40] == "which"@);
    assert(all[41] == "what"@);
    assert(all[42] == "when"@);
    assert(all[43] == "where"@);
    assert(all[44] == "why"@);
    assert(all[45] == "how"@);
    assert(all[46] == "me"@);
    assert(all[47] == "my"@);
    assert(all[48] == "mine"@);
    assert(all[49] == "you"@);
    assert(all[50] == "your"@);
    assert(all[51] == "yours"@);
    assert(all[52] == "he"@);
    assert(all[53] == "him"@);
    assert(all[54] == "his"@);
    assert(all[55] == "she"@);
    assert(all[56] == "her"@);
    assert(all[57] == "hers"@);
    assert(all[58] == "we"@);
    assert(all[59] == "us"@);
    assert(all[60] == "our"@);
    assert(all[61] == "ours"@);
    assert(all[62] == "they"@);
    assert(all[63] == "them"@);
    assert(all[64] == "their"@);
    assert(all[65] == "theirs"@);
    assert(all[66] == "some"@);
    assert(all[67] == "any"@);
    assert(all[68] == "no"@);
    assert(all[69] == "not"@);
    assert(all[70] == "nor"@);
}

/// A word: not a lone letter, no numeral, no function word, and neither a number nor a formula.
pub open spec fn is_word(surface: Seq<char>) -> bool {
    &&& !(surface.len() == 1 && ('a' <= surface[0] <= 'z' || 'A' <= surface[0] <= 'Z'))
    &&& !numerals().contains(lowercase(surface))
    &&& !grammatical_words().contains(lowercase(surface))
    &&& !((exists|i: int| 0 <= i < surface.len() && '0' <= #[trigger] surface[i] <= '9') && forall|
        i: int,
    |
        0 <= i < surface.len() ==> {
            let c = #[trigger] surface[i];
            '0' <= c <= '9' || c == '^' || c == '+' || c == '-' || c == '*' || c == '/' || c == '='
                || c == '.'
        })
}

proof fn word_is_lexical(surface: Seq<char>)
    ensures
        is_lexical(surface) <==> is_word(surface),
{
    let small = lowercase(surface);
    assert forall|i: int| 0 <= i < surface.len() implies (is_digit(#[trigger] small[i]) <==> '0'
        <= surface[i] <= '9') && (is_sign(small[i]) <==> ({
        let c = surface[i];
        c == '^' || c == '+' || c == '-' || c == '*' || c == '/' || c == '=' || c == '.'
    })) && (small[i] == surface[i] || 'A' <= surface[i] <= 'Z') by {}
    if is_formula(small) {
        let i = choose|i: int| 0 <= i < small.len() && is_digit(#[trigger] small[i]);
        assert('0' <= surface[i] <= '9');
        assert forall|i: int| 0 <= i < surface.len() implies {
            let c = #[trigger] surface[i];
            '0' <= c <= '9' || c == '^' || c == '+' || c == '-' || c == '*' || c == '/' || c == '='
                || c == '.'
        } by {
            assert(is_digit(small[i]) || is_sign(small[i]));
        }
    } else if (exists|i: int| 0 <= i < surface.len() && '0' <= #[trigger] surface[i] <= '9') && (
    forall|i: int|
        0 <= i < surface.len() ==> {
            let c = #[trigger] surface[i];
            '0' <= c <= '9' || c == '^' || c == '+' || c == '-' || c == '*' || c == '/' || c == '='
                || c == '.'
        }) {
        let i = choose|i: int| 0 <= i < surface.len() && '0' <= #[trigger] surface[i] <= '9';
        assert(is_digit(small[i]));
        assert forall|i: int| 0 <= i < small.len() implies is_digit(#[trigger] small[i])
            || is_sign(small[i]) by {
            let c = surface[i];
        }
        assert(is_formula(small));
    }
}

/// A surface is let through for a reading where it is plain and a word, and is listed with the
/// reading, or is a single word with a pronunciation that is the whole reading. Of several things
/// that are wrong the first is said.
pub proof fn surfaces_are_let_through(
    filter: FilterView,
    reading: Seq<char>,
    surface: Seq<char>,
)
    ensures
        ({
            let key = lowercase(surface);
            let listed = filter.allowlist.contains((normalized(reading), key));
            let compound = exists|i: int|
                0 <= i < surface.len() && (#[trigger] surface[i] == ' ' || surface[i] == '-');
            let known = filter.pronunciations.contains_key(key);
            let pronounced = known && exists|i: int|
                0 <= i < filter.pronunciations[key].len() && is_pronounced(
                    normalized(reading),
                    #[trigger] filter.pronunciations[key][i],
                );
            &&& rejection(filter, reading, surface) is None <==> is_plain(surface) && is_word(
                surface,
            ) && (listed || !compound && pronounced)
            &&& rejection(filter, reading, surface) == Some(Rejection::InvalidSurface)
                <==> !is_plain(surface)
            &&& rejection(filter, reading, surface) == Some(Rejection::NonLexicalSurface)
                <==> is_plain(surface) && !is_word(surface)
            &&& rejection(filter, reading, surface) == Some(Rejection::CompoundNotAllowlisted)
                <==> is_plain(surface) && is_word(surface) && !listed && compound
            &&& rejection(filter, reading, surface) == Some(Rejection::MissingPronunciation)
                <==> is_plain(surface) && is_word(surface) && !listed && !compound && !known
        }),
{
    plain_is_direct(surface);
    word_is_lexical(surface);
    if surface.contains(' ') {
        let i = surface.index_of(' ');
        assert(surface[i] == ' ');
    }
    if surface.contains('-') {
        let i = surface.index_of('-');
        assert(surface[i] == '-');
    }
}

pub(crate) proof fn first_place_is_end(text: Seq<char>, rest: Seq<char>, wanted: char)
    requires
        !text.contains(wanted),
    ensures
        first_place(text.push(wanted) + rest, wanted) == text.len(),
    decreases text.len(),
{
    let whole = text.push(wanted) + rest;
    if text.len() > 0 {
        let shorter = text.drop_first();
        assert forall|i: int| 0 <= i < shorter.len() implies shorter[i] != wanted by {
            assert(text.contains(text[i + 1]));
        }
        first_place_is_end(shorter, rest, wanted);
        assert(whole.drop_first() =~= shorter.push(wanted) + rest);
        assert(text.contains(text[0]));
        assert(whole[0] == text[0]);
    } else {
        assert(whole[0] == wanted);
    }
}

proof fn last_place_is_start(text: Seq<char>, rest: Seq<char>, wanted: char)
    requires
        !rest.contains(wanted),
    ensures
        last_place(text.push(wanted) + rest, wanted) == text.len(),
    decreases rest.len(),
{
    let whole = text.push(wanted) + rest;
    if rest.len() > 0 {
        let shorter = rest.drop_last();
        assert forall|i: int| 0 <= i < shorter.len() implies shorter[i] != wanted by {
            assert(rest.contains(rest[i]));
        }
        last_place_is_start(text, shorter, wanted);
        assert(whole.drop_last() =~= text.push(wanted) + shorter);
        assert(rest.contains(rest[rest.len() - 1]));
    } else {
        assert(whole =~= text.push(wanted));
    }
}

proof fn last_place_is_none(text: Seq<char>, wanted: char)
    requires
        !text.contains(wanted),
    ensures
        last_place(text, wanted) == -1,
    decreases text.len(),
{
    if text.len() > 0 {
        let shorter = text.drop_last();
        assert forall|i: int| 0 <= i < shorter.len() implies shorter[i] != wanted by {
            assert(text.contains(text[i]));
        }
        assert(text.contains(text[text.len() - 1]));
        last_place_is_none(shorter, wanted);
    }
}

/// A line of a pronouncing dictionary gives a word, in lower case, and the phones behind the first
/// space. What stands in parentheses at the end of the word is the number of a variant. A line that
/// is blank or begins with two semicolons gives nothing.
pub proof fn lines_give_pronunciations(
    line: Seq<char>,
    word: Seq<char>,
    variant: Seq<char>,
    sounds: Seq<char>,
)
    requires
        !word.contains(' '),
        !word.contains('('),
        !variant.contains(' '),
        !variant.contains('('),
        words_of(sounds, false).len() > 0,
        word.len() > 0,
        word[0] != ';',
    ensures
        trim(line) == word.push(' ') + sounds ==> pronunciation_on(line) == Some(
            Some((lowercase(word), words_of(sounds, false))),
        ),
        trim(line) == (word.push('(') + variant).push(')').push(' ') + sounds ==> pronunciation_on(
            line,
        ) == Some(Some((lowercase(word), words_of(sounds, false)))),
        trim(line).len() == 0 ==> pronunciation_on(line) == Some(None::<(Seq<char>, Seq<Seq<char>>)>),
        trim(line).len() >= 2 && trim(line)[0] == ';' && trim(line)[1] == ';' ==> pronunciation_on(
            line,
        ) == Some(None::<(Seq<char>, Seq<Seq<char>>)>),
{
    let shown = trim(line);
    reveal_strlit(";;");
    reveal_strlit(")");
    assert(";;"@[0] == ';' && ";;"@[1] == ';' && ")"@[0] == ')');
    if shown.len() >= 2 && shown[0] == ';' && shown[1] == ';' {
        assert(shown.subrange(0, 2) =~= ";;"@);
    }
    if begins_with(shown, ";;"@) {
        assert(shown.subrange(0, 2)[0] == shown[0]);
    }
    if shown == word.push(' ') + sounds {
        first_place_is_end(word, sounds, ' ');
        last_place_is_none(word, '(');
        assert(shown.take(word.len() as int) =~= word);
        assert(shown.skip(word.len() as int + 1) =~= sounds);
        assert(shown[0] == word[0]);
    }
    let longer = (word.push('(') + variant).push(')');
    if shown == longer.push(' ') + sounds {
        let close = variant.push(')');
        assert forall|i: int| 0 <= i < longer.len() implies longer[i] != ' ' by {
            if i < word.len() {
                assert(word.contains(word[i]));
            } else if word.len() < i < longer.len() - 1 {
                assert(variant.contains(variant[i - word.len() - 1]));
            }
        }
        assert forall|i: int| 0 <= i < close.len() implies close[i] != '(' by {
            if i < variant.len() {
                assert(variant.contains(variant[i]));
            }
        }
        first_place_is_end(longer, sounds, ' ');
        assert(longer =~= word.push('(') + close);
        last_place_is_start(word, close, '(');
        assert(shown.take(longer.len() as int) =~= longer);
        assert(shown.skip(longer.len() as int + 1) =~= sounds);
        assert(longer.skip(word.len() as int + 1) =~= close);
        assert(close.subrange(close.len() - 1, close.len() as int) =~= ")"@);
        assert(finishes_with(close, ")"@));
        assert(longer.take(word.len() as int) =~= word);
        assert(shown[0] == word[0]);
    }
}

/// A line of the allowlist has three fields with tabs between them: the reading, the surface and a
/// reason, none of them empty. It lists the reading in its normal form with the surface in lower
/// case. A blank line and one that begins with `#` list nothing.
pub proof fn lines_list_pairs(
    line: Seq<char>,
    reading: Seq<char>,
    surface: Seq<char>,
    reason: Seq<char>,
)
    requires
        !reading.contains('\t'),
        !surface.contains('\t'),
        !reason.contains('\t'),
        reading.len() > 0,
        surface.len() > 0,
        reason.len() > 0,
        reading[0] != '#',
    ensures
        trim(line) == reading.push('\t') + surface.push('\t') + reason ==> pair_on(line) == Some(
            Some((normalized(reading), lowercase(trim(surface)))),
        ),
        trim(line) == reading.push('\t') + surface ==> pair_on(line) is None,
        trim(line) == reading ==> pair_on(line) is None,
        trim(line).len() == 0 || trim(line)[0] == '#' ==> pair_on(line) == Some(
            None::<(Seq<char>, Seq<char>)>,
        ),
{
    let two = reading.push('\t') + surface;
    split_single(reading, '\t');
    split_behind(reading, surface, '\t');
    split_behind(two, reason, '\t');
    assert(reading.push('\t') + surface.push('\t') + reason =~= two.push('\t') + reason);
    let fields = split_on(two.push('\t') + reason, '\t');
    assert(fields =~= seq![reading, surface, reason]);
    assert(split_on(two, '\t') =~= seq![reading, surface]);
    assert((two.push('\t') + reason)[0] == reading[0]);
    assert(two[0] == reading[0]);
}

/// A pair is listed where some line lists it.
pub proof fn listed_pairs_stand_on_lines(lines: Seq<Seq<char>>, pair: (Seq<char>, Seq<char>))
    requires
        pairs_on(lines) is Ok,
    ensures
        (pairs_on(lines)->Ok_0).contains(pair) <==> exists|i: int|
            0 <= i < lines.len() && pair_on(#[trigger] lines[i]) == Some(Some(pair)),
    decreases lines.len(),
{
    if lines.len() > 0 {
        let shorter = lines.drop_last();
        listed_pairs_stand_on_lines(shorter, pair);
        assert(lines[lines.len() - 1] == lines.last());
        if exists|i: int| 0 <= i < shorter.len() && pair_on(#[trigger] shorter[i]) == Some(
            Some(pair),
        ) {
            let i = choose|i: int|
                0 <= i < shorter.len() && pair_on(#[trigger] shorter[i]) == Some(Some(pair));
            assert(lines[i] == shorter[i]);
        }
        if exists|i: int| 0 <= i < lines.len() && pair_on(#[trigger] lines[i]) == Some(Some(pair)) {
            let i = choose|i: int|
                0 <= i < lines.len() && pair_on(#[trigger] lines[i]) == Some(Some(pair));
            if i < shorter.len() {
                assert(shorter[i] == lines[i]);
            }
        }
    }
}

/// A word has a pronunciation where some line gives it.
pub proof fn pronunciations_stand_on_lines(
    lines: Seq<Seq<char>>,
    word: Seq<char>,
    phones: Seq<Seq<char>>,
)
    requires
        pronunciations_on(lines) is Ok,
    ensures
        ({
            let known = pronunciations_on(lines)->Ok_0;
            (known.contains_key(word) && known[word].contains(phones)) <==> exists|i: int|
                0 <= i < lines.len() && pronunciation_on(#[trigger] lines[i]) == Some(
                    Some((word, phones)),
                )
        }),
    decreases lines.len(),
{
    if lines.len() > 0 {
        let shorter = lines.drop_last();
        pronunciations_stand_on_lines(shorter, word, phones);
        let before = pronunciations_on(shorter)->Ok_0;
        assert(lines[lines.len() - 1] == lines.last());
        if exists|i: int|
            0 <= i < shorter.len() && pronunciation_on(#[trigger] shorter[i]) == Some(
                Some((word, phones)),
            ) {
            let i = choose|i: int|
                0 <= i < shorter.len() && pronunciation_on(#[trigger] shorter[i]) == Some(
                    Some((word, phones)),
                );
            assert(lines[i] == shorter[i]);
        }
        if exists|i: int|
            0 <= i < lines.len() && pronunciation_on(#[trigger] lines[i]) == Some(
                Some((word, phones)),
            ) {
            let i = choose|i: int|
                0 <= i < lines.len() && pronunciation_on(#[trigger] lines[i]) == Some(
                    Some((word, phones)),
                );
            if i < shorter.len() {
                assert(shorter[i] == lines[i]);
            }
        }
        match pronunciation_on(lines.last()) {
            Some(Some((other, sounds))) => {
                if other == word {
                    if before.contains_key(word) {
                        let list = before[word];
                        let longer = list.push(sounds);
                        if list.contains(phones) {
                            assert(longer[list.index_of(phones)] == phones);
                        }
                        if longer.contains(phones) {
                            let k = longer.index_of(phones);
                            if k < list.len() {
                                assert(list[k] == phones);
                            }
                        }
                        assert(longer[list.len() as int] == sounds);
                    } else {
                        assert(seq![sounds][0] == sounds);
                    }
                }
            },
            _ => {},
        }
    }
}

} // verus!
