//! Words of sentences with their readings, lemmas and parts of speech.

use crate::ngram::tokenizer::{
    analyze, can_be_analyzed, counted_reading, field, field_or, morphemes_of, reading_of, Morpheme,
    MorphemeView,
};
use crate::text::{same_text, split, split_on, split_on_not_empty, texts};
use crate::views::{views, views_push};
use vstd::prelude::*;

verus! {

/// A counted word: how it is written and read, its lemma, its part of speech, and its range in
/// the sentence, in characters.
#[derive(Clone, Debug)]
pub struct AnnotatedToken {
    pub surface: String,
    pub reading: String,
    pub lemma: String,
    pub pos: String,
    pub subpos: String,
    pub subsubpos: String,
    pub start: usize,
    pub end: usize,
}

#[verifier::ext_equal]
pub struct AnnotatedView {
    pub surface: Seq<char>,
    pub reading: Seq<char>,
    pub lemma: Seq<char>,
    pub pos: Seq<char>,
    pub subpos: Seq<char>,
    pub subsubpos: Seq<char>,
    pub start: int,
    pub end: int,
}

impl View for AnnotatedToken {
    type V = AnnotatedView;

    open spec fn view(&self) -> AnnotatedView {
        AnnotatedView {
            surface: self.surface@,
            reading: self.reading@,
            lemma: self.lemma@,
            pos: self.pos@,
            subpos: self.subpos@,
            subsubpos: self.subsubpos@,
            start: self.start as int,
            end: self.end as int,
        }
    }
}

/// The lemma of a word: that of its feature, or, where it has none, the word itself.
pub open spec fn lemma_of(word: MorphemeView) -> Seq<char> {
    let lemma = field_or(split_on(word.feature, ','), 6, "*"@);
    if lemma == "*"@ {
        word.surface
    } else {
        lemma
    }
}

/// The annotated word, nothing where it is not counted.
pub open spec fn annotated_word(word: MorphemeView) -> Option<AnnotatedView> {
    let parts = split_on(word.feature, ',');
    match counted_reading(word) {
        Some(reading) => Some(
            AnnotatedView {
                surface: word.surface,
                reading,
                lemma: lemma_of(word),
                pos: parts[0],
                subpos: field_or(parts, 1, "UNK"@),
                subsubpos: field_or(parts, 2, "UNK"@),
                start: word.start,
                end: word.end,
            },
        ),
        None => None,
    }
}

/// The annotated words of a sentence: those that are counted.
pub open spec fn annotated(words: Seq<MorphemeView>) -> Seq<AnnotatedView>
    decreases words.len(),
{
    if words.len() == 0 {
        Seq::empty()
    } else {
        let before = annotated(words.drop_last());
        match annotated_word(words.last()) {
            Some(token) => before.push(token),
            None => before,
        }
    }
}

fn annotate_word(word: &Morpheme) -> (token: Option<AnnotatedToken>)
    ensures
        match token {
            Some(token) => annotated_word(word@) == Some(token@),
            None => annotated_word(word@) is None,
        },
{
    let parts = split(word.feature.as_str(), ',');
    match reading_of(word, &parts) {
        Some(reading) => {
            proof {
                split_on_not_empty(word.feature@, ',');
                assert(texts(parts@)[0] == parts@[0]@);
            }
            let mut lemma = field(&parts, 6, "*");
            if same_text(lemma.as_str(), "*") {
                lemma = word.surface.clone();
            }
            Some(
                AnnotatedToken {
                    surface: word.surface.clone(),
                    reading,
                    lemma,
                    pos: parts[0].clone(),
                    subpos: field(&parts, 1, "UNK"),
                    subsubpos: field(&parts, 2, "UNK"),
                    start: word.start,
                    end: word.end,
                },
            )
        },
        None => None,
    }
}

/// The annotated words that the words of a sentence give.
pub fn annotate(words: &[Morpheme]) -> (tokens: Vec<AnnotatedToken>)
    ensures
        views(tokens@) == annotated(views(words@)),
{
    let ghost all = views(words@);
    let mut tokens: Vec<AnnotatedToken> = Vec::new();
    let mut i: usize = 0;
    assert(all.take(0) =~= Seq::empty());
    assert(views(tokens@) =~= Seq::empty());
    while i < words.len()
        invariant
            all == views(words@),
            i <= words@.len(),
            views(tokens@) == annotated(all.take(i as int)),
        decreases words@.len() - i,
    {
        proof {
            assert(all.take(i + 1).drop_last() =~= all.take(i as int));
            assert(all.take(i + 1).last() == words@[i as int]@);
        }
        if let Some(token) = annotate_word(&words[i]) {
            proof {
                views_push(tokens@, token);
            }
            tokens.push(token);
        }
        i += 1;
    }
    assert(all.take(i as int) =~= all);
    tokens
}

/// The surface of a token is what stands in its range of the sentence.
pub open spec fn stands_in(token: AnnotatedView, sentence: Seq<char>) -> bool {
    &&& 0 <= token.start <= token.end <= sentence.len()
    &&& token.surface == sentence.subrange(token.start, token.end)
}

/// Annotated words stand in the sentence where its words do.
proof fn annotated_stand_in(words: Seq<MorphemeView>, sentence: Seq<char>)
    requires
        forall|i: int|
            0 <= i < words.len() ==> {
                &&& 0 <= (#[trigger] words[i]).start <= words[i].end <= sentence.len()
                &&& words[i].surface == sentence.subrange(words[i].start, words[i].end)
            },
    ensures
        forall|i: int|
            0 <= i < annotated(words).len() ==> stands_in(#[trigger] annotated(words)[i], sentence),
    decreases words.len(),
{
    if words.len() > 0 {
        let shorter = words.drop_last();
        assert forall|i: int| 0 <= i < shorter.len() implies {
            &&& 0 <= (#[trigger] shorter[i]).start <= shorter[i].end <= sentence.len()
            &&& shorter[i].surface == sentence.subrange(shorter[i].start, shorter[i].end)
        } by {
            assert(shorter[i] == words[i]);
        }
        annotated_stand_in(shorter, sentence);
        assert(words[words.len() - 1] == words.last());
        assert forall|i: int| 0 <= i < annotated(words).len() implies stands_in(
            #[trigger] annotated(words)[i],
            sentence,
        ) by {
            if i < annotated(shorter).len() {
                assert(annotated(words)[i] == annotated(shorter)[i]);
            }
        }
    }
}

/// Annotates the words of sentences.
pub struct AnnotatedTokenSequenceBuilder<'a> {
    tokenizer: &'a vibrato::Tokenizer,
}

impl<'a> AnnotatedTokenSequenceBuilder<'a> {
    /// The tokenizer.
    pub closed spec fn spec_tokenizer(&self) -> vibrato::Tokenizer {
        *self.tokenizer
    }

    /// Annotates words with a tokenizer.
    pub fn new(tokenizer: &'a vibrato::Tokenizer) -> (builder: Self)
        ensures
            builder.spec_tokenizer() == *tokenizer,
    {
        AnnotatedTokenSequenceBuilder { tokenizer }
    }

    /// The annotated words of a sentence.
    pub fn tokenize(&self, sentence: &str) -> (tokens: Vec<AnnotatedToken>)
        requires
            can_be_analyzed(self.spec_tokenizer(), sentence@),
        ensures
            views(tokens@) == annotated(morphemes_of(self.spec_tokenizer(), sentence@)),
            forall|i: int|
                0 <= i < tokens@.len() ==> stands_in((#[trigger] tokens@[i])@, sentence@),
    {
        let words = analyze(self.tokenizer, sentence);
        let tokens = annotate(&words);
        proof {
            let all = views(words@);
            assert forall|i: int| 0 <= i < all.len() implies {
                &&& 0 <= (#[trigger] all[i]).start <= all[i].end <= sentence@.len()
                &&& all[i].surface == sentence@.subrange(all[i].start, all[i].end)
            } by {
                assert(all[i] == words@[i]@);
            }
            annotated_stand_in(all, sentence@);
            assert forall|i: int| 0 <= i < tokens@.len() implies stands_in(
                (#[trigger] tokens@[i])@,
                sentence@,
            ) by {
                assert(views(tokens@)[i] == tokens@[i]@);
            }
        }
        tokens
    }
}

} // verus!
