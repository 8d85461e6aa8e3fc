//! The sentences of a document.

use crate::text::{chars_of, text_of, texts, texts_push, trim, trim_end, trim_range, trim_start};
use vstd::prelude::*;

verus! {

/// A character that ends a sentence, or a line.
pub open spec fn is_boundary(c: char) -> bool {
    c == '\n' || c == '。' || c == '！' || c == '？' || c == '!' || c == '?'
}

fn boundary(c: char) -> (found: bool)
    ensures
        found == is_boundary(c),
{
    match c {
        '\n' | '。' | '！' | '？' | '!' | '?' => true,
        _ => false,
    }
}

/// Where a sentence that has not ended yet starts: behind the last boundary.
pub open spec fn open_start(text: Seq<char>) -> int
    decreases text.len(),
{
    if text.len() == 0 || is_boundary(text.last()) {
        text.len() as int
    } else {
        open_start(text.drop_last())
    }
}

/// The range that is left of `start..end` without the white space around it, nothing where there
/// is only white space.
pub open spec fn shown_span(text: Seq<char>, start: int, end: int) -> Seq<(int, int)> {
    let piece = text.subrange(start, end);
    let shown = trim(piece);
    if shown.len() == 0 {
        Seq::empty()
    } else {
        let first = end - trim_start(piece).len();
        seq![(first, first + shown.len())]
    }
}

/// The ranges of the sentences that a boundary ends.
pub open spec fn ended_spans(text: Seq<char>) -> Seq<(int, int)>
    decreases text.len(),
{
    if text.len() == 0 {
        Seq::empty()
    } else {
        let before = ended_spans(text.drop_last());
        if is_boundary(text.last()) {
            before + shown_span(text, open_start(text.drop_last()), text.len() - 1)
        } else {
            before
        }
    }
}

/// The ranges of the sentences of a text, in characters. Sentences end at their marks and with
/// the line; white space around them does not count.
pub open spec fn sentence_spans(text: Seq<char>) -> Seq<(int, int)> {
    ended_spans(text) + shown_span(text, open_start(text), text.len() as int)
}

/// The sentences of a text.
pub open spec fn sentences_of(text: Seq<char>) -> Seq<Seq<char>> {
    Seq::new(
        sentence_spans(text).len(),
        |i: int| text.subrange(sentence_spans(text)[i].0, sentence_spans(text)[i].1),
    )
}

/// The range of a sentence, in characters.
#[derive(Clone, Copy, Debug, PartialEq, Eq, Structural)]
pub struct SentenceSpan {
    pub start: usize,
    pub end: usize,
}

/// The ranges of a list.
pub open spec fn span_views(spans: Seq<SentenceSpan>) -> Seq<(int, int)> {
    Seq::new(spans.len(), |i: int| (spans[i].start as int, spans[i].end as int))
}

proof fn open_start_within(text: Seq<char>)
    ensures
        0 <= open_start(text) <= text.len(),
        forall|i: int| open_start(text) <= i < text.len() ==> !is_boundary(#[trigger] text[i]),
    decreases text.len(),
{
    if text.len() > 0 && !is_boundary(text.last()) {
        open_start_within(text.drop_last());
        assert forall|i: int| open_start(text) <= i < text.len() implies !is_boundary(
            #[trigger] text[i],
        ) by {
            if i < text.len() - 1 {
                assert(text.drop_last()[i] == text[i]);
            }
        }
    }
}

fn add_span(spans: &mut Vec<SentenceSpan>, chars: &[char], start: usize, end: usize)
    requires
        start <= end <= chars@.len(),
    ensures
        span_views(final(spans)@) == span_views(old(spans)@) + shown_span(
            chars@,
            start as int,
            end as int,
        ),
{
    let (first, last) = trim_range(chars, start, end);
    if first < last {
        let ghost before = spans@;
        spans.push(SentenceSpan { start: first, end: last });
        assert(span_views(spans@) =~= span_views(before) + shown_span(
            chars@,
            start as int,
            end as int,
        ));
    } else {
        assert(span_views(spans@) =~= span_views(spans@) + Seq::empty());
    }
}

/// Finds the sentences of a text.
pub fn split_sentence_spans(chars: &[char]) -> (spans: Vec<SentenceSpan>)
    ensures
        span_views(spans@) == sentence_spans(chars@),
{
    let mut spans: Vec<SentenceSpan> = Vec::new();
    let mut start: usize = 0;
    let mut i: usize = 0;
    assert(span_views(spans@) =~= ended_spans(chars@.take(0)));
    while i < chars.len()
        invariant
            i <= chars@.len(),
            start <= i,
            start == open_start(chars@.take(i as int)),
            span_views(spans@) == ended_spans(chars@.take(i as int)),
        decreases chars@.len() - i,
    {
        let ghost next = chars@.take(i + 1);
        proof {
            assert(next.drop_last() =~= chars@.take(i as int));
            assert(next.last() == chars@[i as int]);
            assert(next.subrange(start as int, i as int) =~= chars@.subrange(
                start as int,
                i as int,
            ));
        }
        if boundary(chars[i]) {
            add_span(&mut spans, chars, start, i);
            start = i + 1;
        }
        i += 1;
    }
    assert(chars@.take(i as int) =~= chars@);
    add_span(&mut spans, chars, start, i);
    spans
}

/// Every sentence stands behind the ones before it, within the text.
proof fn ended_spans_are_apart(text: Seq<char>)
    ensures
        forall|i: int|
            0 <= i < ended_spans(text).len() ==> 0 <= (#[trigger] ended_spans(text)[i]).0
                < ended_spans(text)[i].1 <= open_start(text),
        forall|i: int, j: int|
            0 <= i < j < ended_spans(text).len() ==> (#[trigger] ended_spans(text)[i]).1 < (
            #[trigger] ended_spans(text)[j]).0,
        forall|i: int, k: int|
            #![trigger text[k], ended_spans(text)[i]]
            0 <= i < ended_spans(text).len() && ended_spans(text)[i].0 <= k < ended_spans(
                text,
            )[i].1 ==> !is_boundary(text[k]),
    decreases text.len(),
{
    if text.len() > 0 {
        let shorter = text.drop_last();
        ended_spans_are_apart(shorter);
        open_start_within(shorter);
        let before = ended_spans(shorter);
        let all = ended_spans(text);
        if is_boundary(text.last()) {
            let start = open_start(shorter);
            let end = text.len() - 1;
            let added = shown_span(text, start, end);
            trim_lengths(text.subrange(start, end));
            assert forall|i: int| 0 <= i < all.len() implies 0 <= (#[trigger] all[i]).0 < all[i].1
                <= open_start(text) by {
                if i < before.len() {
                    assert(all[i] == before[i]);
                }
            }
            assert forall|i: int, j: int| 0 <= i < j < all.len() implies (#[trigger] all[i]).1 < (
            #[trigger] all[j]).0 by {
                assert(all[i] == before[i]);
                if j < before.len() {
                    assert(all[j] == before[j]);
                } else {
                    assert(before[i].1 <= start);
                    assert(all[j] == added[0]);
                    ended_spans_end_at_boundaries(shorter, i);
                }
            }
        }
        assert forall|i: int, k: int|
            #![trigger text[k], all[i]]
            0 <= i < all.len() && all[i].0 <= k < all[i].1 implies !is_boundary(text[k]) by {
            if i < before.len() {
                assert(all[i] == before[i]);
                assert(shorter[k] == text[k]);
            } else {
                assert(shorter[k] == text[k]);
            }
        }
    }
}

/// Trimming makes a text shorter, if anything.
proof fn trim_lengths(text: Seq<char>)
    ensures
        trim(text).len() <= trim_start(text).len() <= text.len(),
{
    trim_start_length(text);
    trim_end_length(trim_start(text));
}

proof fn trim_start_length(text: Seq<char>)
    ensures
        trim_start(text).len() <= text.len(),
    decreases text.len(),
{
    if text.len() > 0 {
        trim_start_length(text.drop_first());
    }
}

proof fn trim_end_length(text: Seq<char>)
    ensures
        trim_end(text).len() <= text.len(),
    decreases text.len(),
{
    if text.len() > 0 {
        trim_end_length(text.drop_last());
    }
}

/// A sentence that has ended ends before the boundary that ended it.
proof fn ended_spans_end_at_boundaries(text: Seq<char>, i: int)
    requires
        0 <= i < ended_spans(text).len(),
    ensures
        ended_spans(text)[i].1 < open_start(text),
    decreases text.len(),
{
    if text.len() > 0 {
        let shorter = text.drop_last();
        let before = ended_spans(shorter);
        open_start_within(shorter);
        if i < before.len() {
            assert(ended_spans(text)[i] == before[i]);
            ended_spans_end_at_boundaries(shorter, i);
        } else {
            trim_lengths(text.subrange(open_start(shorter), text.len() - 1));
        }
    }
}

/// Sentences are not empty, stand in order within the text with a boundary between them, and
/// none holds a boundary.
pub proof fn sentences_respect_boundaries(text: Seq<char>)
    ensures
        forall|i: int|
            0 <= i < sentence_spans(text).len() ==> 0 <= (#[trigger] sentence_spans(text)[i]).0
                < sentence_spans(text)[i].1 <= text.len(),
        forall|i: int, j: int|
            0 <= i < j < sentence_spans(text).len() ==> (#[trigger] sentence_spans(text)[i]).1 < (
            #[trigger] sentence_spans(text)[j]).0,
        forall|i: int, k: int|
            0 <= i < sentences_of(text).len() && 0 <= k < sentences_of(text)[i].len()
                ==> !is_boundary(#[trigger] sentences_of(text)[i][k]),
{
    let ended = ended_spans(text);
    let spans = sentence_spans(text);
    let start = open_start(text);
    ended_spans_are_apart(text);
    open_start_within(text);
    trim_lengths(text.subrange(start, text.len() as int));
    assert forall|i: int| 0 <= i < spans.len() implies 0 <= (#[trigger] spans[i]).0 < spans[i].1
        <= text.len() by {
        if i < ended.len() {
            assert(spans[i] == ended[i]);
        }
    }
    assert forall|i: int, j: int| 0 <= i < j < spans.len() implies (#[trigger] spans[i]).1 < (
    #[trigger] spans[j]).0 by {
        assert(spans[i] == ended[i]);
        if j < ended.len() {
            assert(spans[j] == ended[j]);
        } else {
            ended_spans_end_at_boundaries(text, i);
        }
    }
    assert forall|i: int, k: int|
        0 <= i < sentences_of(text).len() && 0 <= k < sentences_of(text)[i].len()
            implies !is_boundary(#[trigger] sentences_of(text)[i][k]) by {
        let place = spans[i].0 + k;
        assert(sentences_of(text)[i][k] == text[place]);
        if i < ended.len() {
            assert(spans[i] == ended[i]);
            assert(ended[i].0 <= place);
        }
    }
}

/// The ranges, each `distance` further on.
pub open spec fn shifted(spans: Seq<(int, int)>, distance: int) -> Seq<(int, int)> {
    Seq::new(spans.len(), |i: int| (spans[i].0 + distance, spans[i].1 + distance))
}

/// What follows a boundary is split as if nothing stood before it.
proof fn ended_spans_behind(head: Seq<char>, text: Seq<char>)
    requires
        head.len() > 0,
        is_boundary(head.last()),
    ensures
        open_start(head + text) == head.len() + open_start(text),
        ended_spans(head + text) == ended_spans(head) + shifted(
            ended_spans(text),
            head.len() as int,
        ),
    decreases text.len(),
{
    let whole = head + text;
    let distance = head.len() as int;
    if text.len() == 0 {
        assert(whole =~= head);
        assert(ended_spans(head) + shifted(ended_spans(text), distance) =~= ended_spans(head));
    } else {
        let shorter = text.drop_last();
        ended_spans_behind(head, shorter);
        assert(whole.drop_last() =~= head + shorter);
        if is_boundary(text.last()) {
            open_start_within(shorter);
            spans_shift(head, text, open_start(shorter), text.len() - 1);
        }
        assert(ended_spans(whole) =~= ended_spans(head) + shifted(ended_spans(text), distance));
    }
}

/// A range behind a text is trimmed as if the text were not there.
proof fn spans_shift(head: Seq<char>, text: Seq<char>, start: int, end: int)
    requires
        0 <= start <= end <= text.len(),
    ensures
        shown_span(head + text, head.len() + start, head.len() + end) == shifted(
            shown_span(text, start, end),
            head.len() as int,
        ),
{
    assert((head + text).subrange(head.len() + start, head.len() + end) =~= text.subrange(
        start,
        end,
    ));
    assert(shown_span(head + text, head.len() + start, head.len() + end) =~= shifted(
        shown_span(text, start, end),
        head.len() as int,
    ));
}

/// Two texts with the end of a sentence between them have the sentences of the first, and then
/// those of the second.
pub proof fn sentences_add(first: Seq<char>, boundary: char, second: Seq<char>)
    requires
        is_boundary(boundary),
    ensures
        sentence_spans(first.push(boundary) + second) == sentence_spans(first) + shifted(
            sentence_spans(second),
            first.len() as int + 1,
        ),
        sentences_of(first.push(boundary) + second) == sentences_of(first) + sentences_of(second),
{
    let head = first.push(boundary);
    let whole = head + second;
    let distance = head.len() as int;
    let start = open_start(first);
    assert(head.drop_last() =~= first);
    open_start_within(first);
    open_start_within(second);
    assert(head.subrange(start, first.len() as int) =~= first.subrange(
        start,
        first.len() as int,
    ));
    assert(ended_spans(head) =~= sentence_spans(first));
    ended_spans_behind(head, second);
    spans_shift(head, second, open_start(second), second.len() as int);
    let spans = sentence_spans(whole);
    let left = sentence_spans(first);
    let right = sentence_spans(second);
    assert(spans =~= left + shifted(right, distance));
    sentences_respect_boundaries(first);
    sentences_respect_boundaries(second);
    assert forall|i: int| 0 <= i < spans.len() implies #[trigger] sentences_of(whole)[i] == (
    sentences_of(first) + sentences_of(second))[i] by {
        if i < left.len() {
            assert(spans[i] == left[i]);
            assert(whole.subrange(left[i].0, left[i].1) =~= first.subrange(left[i].0, left[i].1));
        } else {
            let j = i - left.len();
            assert(spans[i] == (right[j].0 + distance, right[j].1 + distance));
            assert(whole.subrange(right[j].0 + distance, right[j].1 + distance)
                =~= second.subrange(right[j].0, right[j].1));
        }
    }
    assert(sentences_of(whole) =~= sentences_of(first) + sentences_of(second));
}

/// Splits a text into its sentences.
pub fn split_sentences(text: &str) -> (sentences: Vec<String>)
    ensures
        texts(sentences@) == sentences_of(text@),
{
    let chars = chars_of(text);
    let spans = split_sentence_spans(&chars);
    let ghost all = sentences_of(text@);
    proof {
        sentences_respect_boundaries(text@);
    }
    let mut sentences: Vec<String> = Vec::new();
    let mut i: usize = 0;
    assert(texts(sentences@) =~= all.take(0));
    while i < spans.len()
        invariant
            chars@ == text@,
            all == sentences_of(text@),
            span_views(spans@) == sentence_spans(text@),
            forall|j: int|
                0 <= j < sentence_spans(text@).len() ==> 0 <= (#[trigger] sentence_spans(
                    text@,
                )[j]).0 < sentence_spans(text@)[j].1 <= text@.len(),
            i <= spans@.len(),
            texts(sentences@) == all.take(i as int),
        decreases spans@.len() - i,
    {
        assert(span_views(spans@)[i as int] == (
            spans@[i as int].start as int,
            spans@[i as int].end as int,
        ));
        let sentence = text_of(&chars, spans[i].start, spans[i].end);
        proof {
            texts_push(sentences@, sentence);
            assert(all.take(i + 1) =~= all.take(i as int).push(sentence@));
        }
        sentences.push(sentence);
        i += 1;
    }
    assert(all.take(i as int) =~= all);
    sentences
}

} // verus!
