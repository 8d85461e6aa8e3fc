//! Words that are not taken for loanwords.

use crate::text::same_text;
use vstd::prelude::*;

verus! {

/// The contents of each text of a list.
pub open spec fn contents(words: Seq<&'static str>) -> Seq<Seq<char>> {
    Seq::new(words.len(), |i: int| words[i]@)
}

/// Whether a word is one of the list.
pub fn is_listed(words: &[&'static str], wanted: &str) -> (found: bool)
    ensures
        found == contents(words@).contains(wanted@),
{
    let mut i: usize = 0;
    while i < words.len()
        invariant
            i <= words@.len(),
            forall|j: int| 0 <= j < i ==> words@[j]@ != wanted@,
        decreases words@.len() - i,
    {
        if same_text(words[i], wanted) {
            assert(contents(words@)[i as int] == wanted@);
            return true;
        }
        i += 1;
    }
    false
}

/// English numerals, cardinal and ordinal.
pub open spec fn numerals() -> Seq<Seq<char>> {
    seq![
        "zero"@, "nought"@, "nil"@, "one"@, "two"@, "three"@, "four"@, "five"@, "six"@, "seven"@,
        "eight"@, "nine"@, "ten"@, "eleven"@, "twelve"@, "thirteen"@, "fourteen"@, "fifteen"@,
        "sixteen"@, "seventeen"@, "eighteen"@, "nineteen"@, "twenty"@, "thirty"@, "forty"@,
        "fifty"@, "sixty"@, "seventy"@, "eighty"@, "ninety"@, "hundred"@, "thousand"@,
        "million"@, "billion"@, "trillion"@, "first"@, "second"@, "third"@, "fourth"@, "fifth"@,
        "sixth"@, "seventh"@, "eighth"@, "ninth"@, "tenth"@, "eleventh"@, "twelfth"@,
        "thirteenth"@, "fourteenth"@, "fifteenth"@, "sixteenth"@, "seventeenth"@, "eighteenth"@,
        "nineteenth"@, "twentieth"@,
    ]
}

/// English numerals, cardinal and ordinal.
pub fn numeric_surface_words() -> (words: Vec<&'static str>)
    ensures
        contents(words@) == numerals(),
{
    let words = vec![
        "zero", "nought", "nil", "one", "two", "three", "four", "five", "six", "seven", "eight",
        "nine", "ten", "eleven", "twelve", "thirteen", "fourteen", "fifteen", "sixteen",
        "seventeen", "eighteen", "nineteen", "twenty", "thirty", "forty", "fifty", "sixty",
        "seventy", "eighty", "ninety", "hundred", "thousand", "million", "billion", "trillion",
        "first", "second", "third", "fourth", "fifth", "sixth", "seventh", "eighth", "ninth",
        "tenth", "eleventh", "twelfth", "thirteenth", "fourteenth", "fifteenth", "sixteenth",
        "seventeenth", "eighteenth", "nineteenth", "twentieth",
    ];
    assert(contents(words@) =~= numerals());
    words
}

/// English function words.
pub open spec fn grammatical_words() -> Seq<Seq<char>> {
    seq![
        "a"@, "an"@, "the"@, "and"@, "or"@, "but"@, "if"@, "then"@, "than"@, "to"@, "of"@, "in"@,
        "on"@, "at"@, "by"@, "for"@, "with"@, "from"@, "as"@, "is"@, "am"@, "are"@, "be"@,
        "was"@, "were"@, "been"@, "being"@, "do"@, "does"@, "did"@, "it"@, "this"@, "that"@,
        "these"@, "those"@, "here"@, "there"@, "who"@, "whom"@, "whose"@, "which"@, "what"@,
        "when"@, "where"@, "why"@, "how"@, "me"@, "my"@, "mine"@, "you"@, "your"@, "yours"@,
        "he"@, "him"@, "his"@, "she"@, "her"@, "hers"@, "we"@, "us"@, "our"@, "ours"@, "they"@,
        "them"@, "their"@, "theirs"@, "some"@, "any"@, "no"@, "not"@, "nor"@,
    ]
}

/// English function words.
pub fn function_words() -> (words: Vec<&'static str>)
    ensures
        contents(words@) == grammatical_words(),
{
    let words = vec![
        "a", "an", "the", "and", "or", "but", "if", "then", "than", "to", "of", "in", "on", "at",
        "by", "for", "with", "from", "as", "is", "am", "are", "be", "was", "were", "been",
        "being", "do", "does", "did", "it", "this", "that", "these", "those", "here", "there",
        "who", "whom", "whose", "which", "what", "when", "where", "why", "how", "me", "my",
        "mine", "you", "your", "yours", "he", "him", "his", "she", "her", "hers", "we", "us",
        "our", "ours", "they", "them", "their", "theirs", "some", "any", "no", "not", "nor",
    ];
    assert(contents(words@) =~= grammatical_words());
    words
}

} // verus!
