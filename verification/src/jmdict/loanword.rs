//! Which English surfaces count as direct loanwords for a reading.

use crate::index::TextIndex;
use crate::jmdict::pronunciation::{is_pronounced, pronunciation_matches};
use crate::jmdict::readings::{normalize_reading, normalized};
use crate::jmdict::words::{
    function_words, grammatical_words, is_listed, numerals, numeric_surface_words,
};
use crate::text::{
    begins_with, chars_of, contains_char, contains_text, cut_once, decimal, decimal_of, ends_with,
    finishes_with, first_is, is_digit, lines, lines_of, lowercase, occurs_in, same_text, split,
    split_on, split_once, starts_with, text_of, texts, to_lowercase, trim, trimmed, words, words_of,
};
use vstd::prelude::*;

verus! {

/// The phones of each pronunciation of a list.
pub open spec fn phone_lists(lists: Seq<Vec<String>>) -> Seq<Seq<Seq<char>>> {
    Seq::new(lists.len(), |i: int| texts(lists[i]@))
}

/// The pronunciations with one more for a word.
pub open spec fn with_pronunciation(
    known: Map<Seq<char>, Seq<Seq<Seq<char>>>>,
    word: Seq<char>,
    phones: Seq<Seq<char>>,
) -> Map<Seq<char>, Seq<Seq<Seq<char>>>> {
    if known.contains_key(word) {
        known.insert(word, known[word].push(phones))
    } else {
        known.insert(word, seq![phones])
    }
}

/// The pronunciations of each word.
pub struct Pronunciations {
    words: TextIndex,
    groups: Vec<Vec<Vec<String>>>,
}

impl View for Pronunciations {
    type V = Map<Seq<char>, Seq<Seq<Seq<char>>>>;

    closed spec fn view(&self) -> Map<Seq<char>, Seq<Seq<Seq<char>>>> {
        Map::new(
            |word: Seq<char>| self.words@.contains(word),
            |word: Seq<char>| phone_lists(self.groups@[self.words@.index_of(word)]@),
        )
    }
}

impl Pronunciations {
    /// Each word has its group of pronunciations.
    pub closed spec fn well_formed(&self) -> bool {
        self.words.well_formed() && self.groups@.len() == self.words@.len()
    }

    /// No pronunciations.
    pub fn new() -> (known: Pronunciations)
        ensures
            known.well_formed(),
            known@ == Map::<Seq<char>, Seq<Seq<Seq<char>>>>::empty(),
    {
        let known = Pronunciations { words: TextIndex::new(), groups: Vec::new() };
        assert(known@ =~= Map::empty());
        known
    }

    /// Adds a pronunciation of a word.
    pub fn add(&mut self, word: String, phones: Vec<String>)
        requires
            old(self).well_formed(),
        ensures
            final(self).well_formed(),
            final(self)@ == with_pronunciation(old(self)@, word@, texts(phones@)),
    {
        let ghost before = *self;
        let ghost key = word@;
        let ghost sounds = texts(phones@);
        let place = self.words.intern(word);
        if place == self.groups.len() {
            self.groups.push(Vec::new());
        }
        let ghost group = self.groups@[place as int]@;
        self.groups[place].push(phones);
        proof {
            self.words.texts_are_distinct();
            before.words.texts_are_distinct();
            let after = self.groups@[place as int]@;
            assert(after == group.push(phones));
            assert(phone_lists(after) =~= phone_lists(group).push(sounds));
            assert forall|other: Seq<char>| self@.contains_key(other) implies self@[other]
                == with_pronunciation(before@, key, sounds)[other] by {
                let here = self.words@.index_of(other);
                if other == key {
                    assert(here == place);
                    if before.words@.contains(key) {
                        assert(before.words@.index_of(key) == place);
                    } else {
                        assert(phone_lists(group) =~= Seq::empty());
                    }
                } else {
                    assert(before.words@.contains(other)) by {
                        assert(before.words@[here] == other);
                    }
                    assert(before.words@.index_of(other) == here);
                }
            }
            assert forall|other: Seq<char>| #[trigger] self@.contains_key(other)
                == with_pronunciation(before@, key, sounds).contains_key(other) by {
                assert(self.words@.contains(key)) by {
                    assert(self.words@[place as int] == key);
                }
                if before.words@.contains(other) {
                    assert(self.words@[before.words@.index_of(other)] == other);
                }
                if self.words@.contains(other) && other != key {
                    assert(before.words@[self.words@.index_of(other)] == other);
                }
            }
            assert(self@ =~= with_pronunciation(before@, key, sounds));
        }
    }

    /// The pronunciations of a word.
    pub fn get(&self, word: &str) -> (found: Option<&Vec<Vec<String>>>)
        requires
            self.well_formed(),
        ensures
            match found {
                Some(lists) => self@.contains_key(word@) && phone_lists(lists@) == self@[word@],
                None => !self@.contains_key(word@),
            },
    {
        match self.words.find(word) {
            Some(place) => {
                proof {
                    self.words.texts_are_distinct();
                    assert(self.words@.contains(word@));
                    assert(self.words@.index_of(word@) == place);
                }
                Some(&self.groups[place])
            },
            None => None,
        }
    }
}

/// The place of the last `wanted` in the text, `-1` where there is none.
pub open spec fn last_place(text: Seq<char>, wanted: char) -> int
    decreases text.len(),
{
    if text.len() == 0 || text.last() == wanted {
        text.len() - 1
    } else {
        last_place(text.drop_last(), wanted)
    }
}

proof fn last_place_is(text: Seq<char>, wanted: char, place: int)
    requires
        -1 <= place < text.len(),
        place >= 0 ==> text[place] == wanted,
        forall|i: int| place < i < text.len() ==> text[i] != wanted,
    ensures
        last_place(text, wanted) == place,
    decreases text.len(),
{
    if place < text.len() - 1 {
        last_place_is(text.drop_last(), wanted, place);
    }
}

/// The word without the number of a variant in parentheses behind it.
pub open spec fn base_word(word: Seq<char>) -> Seq<char> {
    let place = last_place(word, '(');
    if place >= 0 && finishes_with(word.skip(place + 1), ")"@) {
        word.take(place)
    } else {
        word
    }
}

fn without_variant(word: &str) -> (result: String)
    ensures
        result@ == base_word(word@),
{
    let chars = chars_of(word);
    let mut place: usize = chars.len();
    while place > 0 && chars[place - 1] != '('
        invariant
            chars@ == word@,
            place <= word@.len(),
            forall|i: int| place <= i < word@.len() ==> word@[i] != '(',
        decreases place,
    {
        place -= 1;
    }
    let ghost last = last_place(word@, '(');
    proof {
        last_place_is(word@, '(', place - 1);
    }
    if place == 0 {
        return word.to_owned();
    }
    let suffix = text_of(&chars, place, chars.len());
    assert(suffix@ =~= word@.skip(last + 1));
    if ends_with(suffix.as_str(), ")") {
        let base = text_of(&chars, 0, place - 1);
        assert(base@ =~= word@.take(last));
        base
    } else {
        word.to_owned()
    }
}

/// What a line of a pronouncing dictionary says: a word and its phones, nothing where it is
/// empty or a comment. No line without a space is one.
pub open spec fn pronunciation_on(line: Seq<char>) -> Option<Option<(Seq<char>, Seq<Seq<char>>)>> {
    let shown = trim(line);
    if shown.len() == 0 || begins_with(shown, ";;"@) {
        Some(None)
    } else {
        match cut_once(shown, ' ') {
            Some((word, sounds)) => {
                let phones = words_of(sounds, false);
                if phones.len() > 0 {
                    Some(Some((lowercase(base_word(word)), phones)))
                } else {
                    Some(None)
                }
            },
            None => None,
        }
    }
}

/// The pronunciations that the lines give, or the number of the first line that is none.
pub open spec fn pronunciations_on(lines: Seq<Seq<char>>) -> Result<
    Map<Seq<char>, Seq<Seq<Seq<char>>>>,
    nat,
>
    decreases lines.len(),
{
    if lines.len() == 0 {
        Ok(Map::empty())
    } else {
        match pronunciations_on(lines.drop_last()) {
            Ok(known) => match pronunciation_on(lines.last()) {
                Some(Some((word, phones))) => Ok(with_pronunciation(known, word, phones)),
                Some(None) => Ok(known),
                None => Err(lines.len()),
            },
            Err(number) => Err(number),
        }
    }
}

/// A fault in an early line is the fault of all the lines.
proof fn first_pronunciation_fault(lines: Seq<Seq<char>>, count: int)
    requires
        0 <= count <= lines.len(),
        pronunciations_on(lines.take(count)) is Err,
    ensures
        pronunciations_on(lines) == pronunciations_on(lines.take(count)),
    decreases lines.len(),
{
    if count < lines.len() {
        assert(lines.drop_last().take(count) =~= lines.take(count));
        first_pronunciation_fault(lines.drop_last(), count);
    } else {
        assert(lines.take(count) =~= lines);
    }
}

/// A pair of the allowlist on a line: the normalized reading and the surface in lower case;
/// nothing where the line is empty or a comment. No line without three filled fields is one.
pub open spec fn pair_on(line: Seq<char>) -> Option<Option<(Seq<char>, Seq<char>)>> {
    let shown = trim(line);
    if shown.len() == 0 || shown[0] == '#' {
        Some(None)
    } else {
        let fields = split_on(shown, '\t');
        if fields.len() == 3 && fields[0].len() > 0 && fields[1].len() > 0 && fields[2].len() > 0 {
            Some(Some((normalized(fields[0]), lowercase(trim(fields[1])))))
        } else {
            None
        }
    }
}

/// The pairs that the lines give, or the number of the first line that is none.
pub open spec fn pairs_on(lines: Seq<Seq<char>>) -> Result<Set<(Seq<char>, Seq<char>)>, nat>
    decreases lines.len(),
{
    if lines.len() == 0 {
        Ok(Set::empty())
    } else {
        match pairs_on(lines.drop_last()) {
            Ok(pairs) => match pair_on(lines.last()) {
                Some(Some(pair)) => Ok(pairs.insert(pair)),
                Some(None) => Ok(pairs),
                None => Err(lines.len()),
            },
            Err(number) => Err(number),
        }
    }
}

proof fn first_pair_fault(lines: Seq<Seq<char>>, count: int)
    requires
        0 <= count <= lines.len(),
        pairs_on(lines.take(count)) is Err,
    ensures
        pairs_on(lines) == pairs_on(lines.take(count)),
    decreases lines.len(),
{
    if count < lines.len() {
        assert(lines.drop_last().take(count) =~= lines.take(count));
        first_pair_fault(lines.drop_last(), count);
    } else {
        assert(lines.take(count) =~= lines);
    }
}

/// Why no filter can be made of two files.
#[derive(Clone, Debug, PartialEq, Eq)]
pub enum FilterError {
    /// The line of this number of the pronouncing dictionary has no pronunciation.
    Pronunciation { line_number: usize, line: String },
    /// The line of this number of the allowlist is no triple.
    Allowlist { line_number: usize },
}

impl FilterError {
    /// The error in words.
    pub open spec fn text(self) -> Seq<char> {
        match self {
            FilterError::Pronunciation { line_number, line } => "invalid CMUdict line "@
                + decimal_of(line_number as nat) + ": "@ + line@,
            FilterError::Allowlist { line_number } => "invalid direct-loanword allowlist line "@
                + decimal_of(line_number as nat)
                + ": expected reading<TAB>surface<TAB>reason"@,
        }
    }

    /// Says the error in words.
    pub fn message(&self) -> (message: String)
        ensures
            message@ == self.text(),
    {
        match self {
            FilterError::Pronunciation { line_number, line } => {
                let mut message = "invalid CMUdict line ".to_owned();
                message.append(decimal(*line_number as u128).as_str());
                message.append(": ");
                message.append(line.as_str());
                message
            },
            FilterError::Allowlist { line_number } => {
                let mut message = "invalid direct-loanword allowlist line ".to_owned();
                message.append(decimal(*line_number as u128).as_str());
                message.append(": expected reading<TAB>surface<TAB>reason");
                message
            },
        }
    }
}

fn read_pronunciation(line: &str) -> (result: Option<Option<(String, Vec<String>)>>)
    ensures
        match result {
            Some(Some((word, phones))) => pronunciation_on(line@) == Some(
                Some((word@, texts(phones@))),
            ),
            Some(None) => pronunciation_on(line@) == Some(None::<(Seq<char>, Seq<Seq<char>>)>),
            None => pronunciation_on(line@) is None,
        },
{
    let shown = trimmed(line);
    if shown.as_str().is_empty() || starts_with(shown.as_str(), ";;") {
        return Some(None);
    }
    match split_once(shown.as_str(), ' ') {
        Some((word, sounds)) => {
            let phones = words(sounds.as_str(), false);
            if phones.len() > 0 {
                Some(Some((to_lowercase(without_variant(word.as_str()).as_str()), phones)))
            } else {
                Some(None)
            }
        },
        None => None,
    }
}

fn read_pronunciations(text: &str) -> (result: Result<Pronunciations, FilterError>)
    ensures
        match result {
            Ok(known) => known.well_formed() && pronunciations_on(lines_of(text@)) == Ok::<_, nat>(
                known@,
            ),
            Err(FilterError::Pronunciation { line_number, line }) => {
                &&& pronunciations_on(lines_of(text@)) == Err::<
                    Map<Seq<char>, Seq<Seq<Seq<char>>>>,
                    _,
                >(line_number as nat)
                &&& 0 < line_number <= lines_of(text@).len()
                &&& line@ == lines_of(text@)[line_number - 1]
            },
            Err(FilterError::Allowlist { line_number }) => false,
        },
{
    let file_lines = lines(text);
    let ghost all = lines_of(text@);
    let mut known = Pronunciations::new();
    let mut i: usize = 0;
    assert(all.take(0) =~= Seq::empty());
    while i < file_lines.len()
        invariant
            all == texts(file_lines@),
            all == lines_of(text@),
            i <= file_lines@.len(),
            known.well_formed(),
            pronunciations_on(all.take(i as int)) == Ok::<_, nat>(known@),
        decreases file_lines@.len() - i,
    {
        proof {
            assert(all.take(i + 1).drop_last() =~= all.take(i as int));
            assert(all.take(i + 1).last() == file_lines@[i as int]@);
        }
        match read_pronunciation(file_lines[i].as_str()) {
            Some(Some((word, phones))) => {
                known.add(word, phones);
            },
            Some(None) => {},
            None => {
                proof {
                    first_pronunciation_fault(all, i + 1);
                }
                return Err(
                    FilterError::Pronunciation {
                        line_number: i + 1,
                        line: file_lines[i].clone(),
                    },
                );
            },
        }
        i += 1;
    }
    assert(all.take(i as int) =~= all);
    Ok(known)
}

/// The contents of a pair of texts.
pub open spec fn pair_view(pair: (String, String)) -> (Seq<char>, Seq<char>) {
    (pair.0@, pair.1@)
}

/// The pairs of a list.
pub open spec fn pair_set(pairs: Seq<(String, String)>) -> Set<(Seq<char>, Seq<char>)> {
    Set::new(|pair: (Seq<char>, Seq<char>)| exists|i: int|
        0 <= i < pairs.len() && pair_view(#[trigger] pairs[i]) == pair)
}

proof fn pair_set_push(pairs: Seq<(String, String)>, pair: (String, String))
    ensures
        pair_set(pairs.push(pair)) == pair_set(pairs).insert(pair_view(pair)),
{
    let longer = pairs.push(pair);
    assert forall|other: (Seq<char>, Seq<char>)| #[trigger] pair_set(longer).contains(other)
        == pair_set(pairs).insert(pair_view(pair)).contains(other) by {
        if pair_set(pairs).contains(other) {
            let i = choose|i: int|
                0 <= i < pairs.len() && pair_view(#[trigger] pairs[i]) == other;
            assert(longer[i] == pairs[i]);
        }
        if other == pair_view(pair) {
            assert(longer[pairs.len() as int] == pair);
        }
        if pair_set(longer).contains(other) && other != pair_view(pair) {
            let i = choose|i: int|
                0 <= i < longer.len() && pair_view(#[trigger] longer[i]) == other;
            assert(longer[i] == pairs[i]);
        }
    }
    assert(pair_set(longer) =~= pair_set(pairs).insert(pair_view(pair)));
}

fn read_pair(line: &str) -> (result: Option<Option<(String, String)>>)
    ensures
        match result {
            Some(Some(pair)) => pair_on(line@) == Some(Some(pair_view(pair))),
            Some(None) => pair_on(line@) == Some(None::<(Seq<char>, Seq<char>)>),
            None => pair_on(line@) is None,
        },
{
    let shown = trimmed(line);
    if shown.as_str().is_empty() || first_is(shown.as_str(), '#') {
        return Some(None);
    }
    let fields = split(shown.as_str(), '\t');
    let ghost parts = texts(fields@);
    if fields.len() != 3 {
        return None;
    }
    assert(parts[0] == fields@[0]@ && parts[1] == fields@[1]@ && parts[2] == fields@[2]@);
    if fields[0].as_str().is_empty() || fields[1].as_str().is_empty()
        || fields[2].as_str().is_empty() {
        return None;
    }
    Some(
        Some(
            (
                normalize_reading(fields[0].as_str()),
                to_lowercase(trimmed(fields[1].as_str()).as_str()),
            ),
        ),
    )
}

fn read_pairs(text: &str) -> (result: Result<Vec<(String, String)>, FilterError>)
    ensures
        match result {
            Ok(pairs) => pairs_on(lines_of(text@)) == Ok::<_, nat>(pair_set(pairs@)),
            Err(FilterError::Allowlist { line_number }) => pairs_on(lines_of(text@)) == Err::<
                Set<(Seq<char>, Seq<char>)>,
                _,
            >(line_number as nat),
            Err(FilterError::Pronunciation { line_number, line }) => false,
        },
{
    let file_lines = lines(text);
    let ghost all = lines_of(text@);
    let mut pairs: Vec<(String, String)> = Vec::new();
    let mut i: usize = 0;
    assert(all.take(0) =~= Seq::empty());
    assert(pair_set(pairs@) =~= Set::empty());
    while i < file_lines.len()
        invariant
            all == texts(file_lines@),
            all == lines_of(text@),
            i <= file_lines@.len(),
            pairs_on(all.take(i as int)) == Ok::<_, nat>(pair_set(pairs@)),
        decreases file_lines@.len() - i,
    {
        proof {
            assert(all.take(i + 1).drop_last() =~= all.take(i as int));
            assert(all.take(i + 1).last() == file_lines@[i as int]@);
        }
        match read_pair(file_lines[i].as_str()) {
            Some(Some(pair)) => {
                proof {
                    pair_set_push(pairs@, pair);
                }
                pairs.push(pair);
            },
            Some(None) => {},
            None => {
                proof {
                    first_pair_fault(all, i + 1);
                }
                return Err(FilterError::Allowlist { line_number: i + 1 });
            },
        }
        i += 1;
    }
    assert(all.take(i as int) =~= all);
    Ok(pairs)
}

/// Why a surface is no direct loanword for a reading.
#[derive(Clone, Copy, Debug, PartialEq, Eq, Structural)]
pub enum Rejection {
    InvalidSurface,
    NonLexicalSurface,
    CompoundNotAllowlisted,
    MissingPronunciation,
    PronunciationMismatch,
}

impl Rejection {
    /// The name of the reason.
    pub open spec fn text(self) -> Seq<char> {
        match self {
            Rejection::InvalidSurface => "invalid-surface"@,
            Rejection::NonLexicalSurface => "non-lexical-surface"@,
            Rejection::CompoundNotAllowlisted => "compound-not-allowlisted"@,
            Rejection::MissingPronunciation => "missing-pronunciation"@,
            Rejection::PronunciationMismatch => "pronunciation-mismatch"@,
        }
    }

    /// The name of the reason.
    pub fn name(self) -> (name: &'static str)
        ensures
            name@ == self.text(),
    {
        match self {
            Rejection::InvalidSurface => "invalid-surface",
            Rejection::NonLexicalSurface => "non-lexical-surface",
            Rejection::CompoundNotAllowlisted => "compound-not-allowlisted",
            Rejection::MissingPronunciation => "missing-pronunciation",
            Rejection::PronunciationMismatch => "pronunciation-mismatch",
        }
    }
}

/// ASCII letters and digits.
pub open spec fn is_alphanumeric(c: char) -> bool {
    'a' <= c <= 'z' || 'A' <= c <= 'Z' || is_digit(c)
}

/// A surface of ASCII letters, digits, single spaces and hyphens, with neither a space nor a
/// hyphen at an end.
pub open spec fn is_direct_surface(surface: Seq<char>) -> bool {
    &&& trim(surface).len() > 0
    &&& trim(surface) == surface
    &&& !occurs_in(surface, "  "@)
    &&& surface[0] != '-'
    &&& surface.last() != '-'
    &&& forall|i: int|
        0 <= i < surface.len() ==> is_alphanumeric(#[trigger] surface[i]) || surface[i] == ' '
            || surface[i] == '-'
}

/// Whether the surface can be a direct loanword by its characters.
pub fn valid_direct_surface(surface: &str) -> (valid: bool)
    ensures
        valid == is_direct_surface(surface@),
{
    let shown = trimmed(surface);
    if shown.as_str().is_empty() || !same_text(shown.as_str(), surface) || contains_text(
        surface,
        "  ",
    ) {
        return false;
    }
    let chars = chars_of(surface);
    if chars[0] == '-' || chars[chars.len() - 1] == '-' {
        return false;
    }
    let mut i: usize = 0;
    while i < chars.len()
        invariant
            chars@ == surface@,
            i <= chars@.len(),
            forall|j: int|
                0 <= j < i ==> is_alphanumeric(#[trigger] surface@[j]) || surface@[j] == ' '
                    || surface@[j] == '-',
        decreases chars@.len() - i,
    {
        match chars[i] {
            'a'..='z' | 'A'..='Z' | '0'..='9' | ' ' | '-' => {},
            _ => {
                assert(!(is_alphanumeric(surface@[i as int]) || surface@[i as int] == ' '
                    || surface@[i as int] == '-'));
                return false;
            },
        }
        i += 1;
    }
    true
}

/// A sign of arithmetic.
pub open spec fn is_sign(c: char) -> bool {
    c == '^' || c == '+' || c == '-' || c == '*' || c == '/' || c == '=' || c == '.'
}

/// A number or a formula: it has a digit, and nothing but digits and signs.
pub open spec fn is_formula(text: Seq<char>) -> bool {
    &&& exists|i: int| 0 <= i < text.len() && is_digit(#[trigger] text[i])
    &&& forall|i: int|
        0 <= i < text.len() ==> is_digit(#[trigger] text[i]) || is_sign(text[i])
}

/// A surface that is a word: no lone letter, no numeral, no function word and no formula.
pub open spec fn is_lexical(surface: Seq<char>) -> bool {
    let small = lowercase(surface);
    &&& !(surface.len() == 1 && 'a' <= small[0] <= 'z')
    &&& !numerals().contains(small)
    &&& !grammatical_words().contains(small)
    &&& !is_formula(small)
}

fn formula(text: &str) -> (found: bool)
    ensures
        found == is_formula(text@),
{
    let mut digit = false;
    for c in it: text.chars()
        invariant
            it.seq() == text@,
            digit == (exists|i: int| 0 <= i < it.index() && is_digit(#[trigger] text@[i])),
            forall|i: int|
                0 <= i < it.index() ==> is_digit(#[trigger] text@[i]) || is_sign(text@[i]),
    {
        match c {
            '0'..='9' => {
                assert(is_digit(text@[it.index()]));
                digit = true;
            },
            '^' | '+' | '-' | '*' | '/' | '=' | '.' => {
                assert(!is_digit(text@[it.index()]));
            },
            _ => {
                assert(!(is_digit(text@[it.index()]) || is_sign(text@[it.index()])));
                return false;
            },
        }
    }
    digit
}

/// Whether the surface is a word.
pub fn lexical_direct_surface(surface: &str) -> (lexical: bool)
    ensures
        lexical == is_lexical(surface@),
{
    let small = to_lowercase(surface);
    let chars = chars_of(small.as_str());
    if chars.len() == 1 {
        match chars[0] {
            'a'..='z' => {
                return false;
            },
            _ => {},
        }
    }
    let numeric = numeric_surface_words();
    if is_listed(&numeric, small.as_str()) {
        return false;
    }
    let grammatical = function_words();
    if is_listed(&grammatical, small.as_str()) {
        return false;
    }
    !formula(small.as_str())
}

/// What a filter knows: the pronunciations of the words, and the pairs of reading and surface
/// that are accepted without one.
#[verifier::ext_equal]
pub struct FilterView {
    pub pronunciations: Map<Seq<char>, Seq<Seq<Seq<char>>>>,
    pub allowlist: Set<(Seq<char>, Seq<char>)>,
}

/// Why the filter refuses a surface for a reading, nothing where it accepts it.
pub open spec fn rejection(
    filter: FilterView,
    reading: Seq<char>,
    surface: Seq<char>,
) -> Option<Rejection> {
    let key = lowercase(surface);
    let allowlisted = filter.allowlist.contains((normalized(reading), key));
    if !is_direct_surface(surface) {
        Some(Rejection::InvalidSurface)
    } else if !is_lexical(surface) {
        Some(Rejection::NonLexicalSurface)
    } else if allowlisted {
        None
    } else if surface.contains(' ') || surface.contains('-') {
        Some(Rejection::CompoundNotAllowlisted)
    } else if !filter.pronunciations.contains_key(key) {
        Some(Rejection::MissingPronunciation)
    } else if exists|i: int|
        0 <= i < filter.pronunciations[key].len() && is_pronounced(
            normalized(reading),
            #[trigger] filter.pronunciations[key][i],
        ) {
        None
    } else {
        Some(Rejection::PronunciationMismatch)
    }
}

fn any_pronounced(lists: &Vec<Vec<String>>, reading: &str) -> (found: bool)
    ensures
        found == (exists|i: int|
            0 <= i < phone_lists(lists@).len() && is_pronounced(
                reading@,
                #[trigger] phone_lists(lists@)[i],
            )),
{
    let ghost all = phone_lists(lists@);
    let mut i: usize = 0;
    while i < lists.len()
        invariant
            all == phone_lists(lists@),
            i <= lists@.len(),
            forall|j: int| 0 <= j < i ==> !is_pronounced(reading@, #[trigger] all[j]),
        decreases lists@.len() - i,
    {
        assert(all[i as int] == texts(lists@[i as int]@));
        if pronunciation_matches(reading, &lists[i]) {
            return true;
        }
        i += 1;
    }
    false
}

/// Accepts surfaces that are pronounced like the whole reading.
pub struct DirectLoanwordFilter {
    pronunciations: Pronunciations,
    allowlist: Vec<(String, String)>,
}

impl View for DirectLoanwordFilter {
    type V = FilterView;

    closed spec fn view(&self) -> FilterView {
        FilterView {
            pronunciations: self.pronunciations@,
            allowlist: pair_set(self.allowlist@),
        }
    }
}

/// The pairs of an allowlist that need not be there.
pub open spec fn optional_pairs(text: Option<Seq<char>>) -> Result<
    Set<(Seq<char>, Seq<char>)>,
    nat,
> {
    match text {
        Some(text) => pairs_on(lines_of(text)),
        None => Ok(Set::empty()),
    }
}

/// The contents of a text that need not be there.
pub open spec fn optional_text(text: Option<&str>) -> Option<Seq<char>> {
    match text {
        Some(text) => Some(text@),
        None => None,
    }
}

/// The error says why no filter can be made of the two texts.
pub open spec fn is_filter_error(
    error: FilterError,
    pronunciations: Seq<char>,
    allowlist: Option<Seq<char>>,
) -> bool {
    let lines = lines_of(pronunciations);
    match error {
        FilterError::Pronunciation { line_number, line } => {
            &&& pronunciations_on(lines) == Err::<Map<Seq<char>, Seq<Seq<Seq<char>>>>, _>(
                line_number as nat,
            )
            &&& 0 < line_number <= lines.len()
            &&& line@ == lines[line_number - 1]
        },
        FilterError::Allowlist { line_number } => {
            &&& pronunciations_on(lines) is Ok
            &&& optional_pairs(allowlist) == Err::<Set<(Seq<char>, Seq<char>)>, _>(
                line_number as nat,
            )
        },
    }
}

impl DirectLoanwordFilter {
    #[verifier::type_invariant]
    closed spec fn well_formed(&self) -> bool {
        self.pronunciations.well_formed()
    }

    /// Makes a filter of a pronouncing dictionary and an allowlist, given as texts.
    pub fn load(pronunciations: &str, allowlist: Option<&str>) -> (result: Result<
        DirectLoanwordFilter,
        FilterError,
    >)
        ensures
            match result {
                Ok(filter) => {
                    &&& pronunciations_on(lines_of(pronunciations@)) == Ok::<_, nat>(
                        filter@.pronunciations,
                    )
                    &&& optional_pairs(optional_text(allowlist)) == Ok::<_, nat>(
                        filter@.allowlist,
                    )
                },
                Err(error) => is_filter_error(
                    error,
                    pronunciations@,
                    optional_text(allowlist),
                ),
            },
    {
        let known = match read_pronunciations(pronunciations) {
            Ok(known) => known,
            Err(error) => {
                return Err(error);
            },
        };
        let pairs: Vec<(String, String)> = match allowlist {
            Some(text) => match read_pairs(text) {
                Ok(pairs) => pairs,
                Err(error) => {
                    return Err(error);
                },
            },
            None => Vec::new(),
        };
        assert(allowlist is None ==> pair_set(pairs@) =~= Set::empty());
        Ok(DirectLoanwordFilter { pronunciations: known, allowlist: pairs })
    }

    fn is_allowlisted(&self, reading: &str, surface: &str) -> (found: bool)
        ensures
            found == self@.allowlist.contains((reading@, surface@)),
    {
        let mut i: usize = 0;
        while i < self.allowlist.len()
            invariant
                i <= self.allowlist@.len(),
                forall|j: int|
                    0 <= j < i ==> pair_view(#[trigger] self.allowlist@[j]) != (
                        reading@,
                        surface@,
                    ),
            decreases self.allowlist@.len() - i,
        {
            if same_text(self.allowlist[i].0.as_str(), reading) && same_text(
                self.allowlist[i].1.as_str(),
                surface,
            ) {
                assert(pair_view(self.allowlist@[i as int]) == (reading@, surface@));
                return true;
            }
            i += 1;
        }
        false
    }

    /// Checks whether a surface is a direct loanword for a reading. Compounds are accepted only
    /// as a pair of the allowlist.
    pub fn check(&self, reading: &str, surface: &str) -> (result: Result<(), Rejection>)
        ensures
            result == match rejection(self@, reading@, surface@) {
                Some(reason) => Err(reason),
                None => Ok(()),
            },
    {
        proof {
            use_type_invariant(self);
        }
        if !valid_direct_surface(surface) {
            return Err(Rejection::InvalidSurface);
        }
        if !lexical_direct_surface(surface) {
            return Err(Rejection::NonLexicalSurface);
        }
        let shown = normalize_reading(reading);
        let key = to_lowercase(surface);
        if self.is_allowlisted(shown.as_str(), key.as_str()) {
            return Ok(());
        }
        if contains_char(surface, ' ') || contains_char(surface, '-') {
            return Err(Rejection::CompoundNotAllowlisted);
        }
        match self.pronunciations.get(key.as_str()) {
            Some(lists) => if any_pronounced(lists, shown.as_str()) {
                Ok(())
            } else {
                Err(Rejection::PronunciationMismatch)
            },
            None => Err(Rejection::MissingPronunciation),
        }
    }
}

/// An accepted surface has no parentheses, and it is a pair of the allowlist with the reading or
/// a single word with a pronunciation that is the whole reading.
pub proof fn accepted_surfaces_are_listed_or_pronounced(
    filter: FilterView,
    reading: Seq<char>,
    surface: Seq<char>,
)
    requires
        rejection(filter, reading, surface) is None,
    ensures
        !surface.contains('(') && !surface.contains(')'),
        filter.allowlist.contains((normalized(reading), lowercase(surface))) || {
            &&& !surface.contains(' ') && !surface.contains('-')
            &&& filter.pronunciations.contains_key(lowercase(surface))
            &&& exists|i: int|
                0 <= i < filter.pronunciations[lowercase(surface)].len() && is_pronounced(
                    normalized(reading),
                    #[trigger] filter.pronunciations[lowercase(surface)][i],
                )
        },
{
    assert forall|i: int| 0 <= i < surface.len() implies #[trigger] surface[i] != '(' && surface[i]
        != ')' by {}
}

/// A compound is accepted only as a pair of the allowlist with the whole reading.
pub proof fn compounds_are_listed(filter: FilterView, reading: Seq<char>, surface: Seq<char>)
    requires
        rejection(filter, reading, surface) is None,
        surface.contains(' ') || surface.contains('-'),
    ensures
        filter.allowlist.contains((normalized(reading), lowercase(surface))),
{
}

} // verus!
