//! Reading back the numbers of tokens as runs of vocabulary numbers.

use crate::mozc::decimal_reads_back;
use crate::ngram::vocabulary::{id_text, MISSING_VOCAB_ID};
use crate::text::{
    decimal, decimal_of, lines, lines_of, parse_unsigned, separates_words, texts, unsigned_value,
    words, words_of,
};
use vstd::prelude::*;

verus! {

/// What is wrong with a line of numbers.
pub enum ScanFault {
    /// This is no number of a token.
    Number(Seq<char>),
    /// No token has this number.
    OutOfRange(nat),
}

/// Why numbers of tokens cannot be read.
#[derive(Clone, Debug, PartialEq, Eq)]
pub enum ScanError {
    /// This is no number of a token.
    Number(String),
    /// No token has this number.
    OutOfRange(usize),
}

impl View for ScanError {
    type V = ScanFault;

    open spec fn view(&self) -> ScanFault {
        match self {
            ScanError::Number(text) => ScanFault::Number(text@),
            ScanError::OutOfRange(raw_id) => ScanFault::OutOfRange(*raw_id as nat),
        }
    }
}

impl ScanError {
    /// The error in words.
    pub open spec fn text(self) -> Seq<char> {
        match self {
            ScanError::Number(text) => "invalid raw token ID "@ + text@,
            ScanError::OutOfRange(raw_id) => "raw token ID "@ + decimal_of(raw_id as nat)
                + " is out of range"@,
        }
    }

    /// Says the error in words.
    pub fn message(&self) -> (message: String)
        ensures
            message@ == self.text(),
    {
        match self {
            ScanError::Number(text) => {
                let mut message = "invalid raw token ID ".to_owned();
                message.append(text.as_str());
                message
            },
            ScanError::OutOfRange(raw_id) => {
                let mut message = "raw token ID ".to_owned();
                message.append(decimal(*raw_id as u128).as_str());
                message.append(" is out of range");
                message
            },
        }
    }
}

/// The vocabulary number of a token whose number is written.
pub open spec fn vocab_id(word: Seq<char>, raw_to_vocab: Seq<u32>) -> Result<u32, ScanFault> {
    match unsigned_value(word) {
        Some(raw_id) if raw_id <= usize::MAX => if raw_id < raw_to_vocab.len() {
            Ok(raw_to_vocab[raw_id as int])
        } else {
            Err(ScanFault::OutOfRange(raw_id))
        },
        _ => Err(ScanFault::Number(word)),
    }
}

/// The vocabulary numbers of words, or the first fault.
pub open spec fn vocab_ids(words: Seq<Seq<char>>, raw_to_vocab: Seq<u32>) -> Result<
    Seq<u32>,
    ScanFault,
>
    decreases words.len(),
{
    if words.len() == 0 {
        Ok(Seq::empty())
    } else {
        match vocab_ids(words.drop_last(), raw_to_vocab) {
            Ok(ids) => match vocab_id(words.last(), raw_to_vocab) {
                Ok(id) => Ok(ids.push(id)),
                Err(fault) => Err(fault),
            },
            Err(fault) => Err(fault),
        }
    }
}

/// The numbers since the last token that is not in the vocabulary.
pub open spec fn open_ids(ids: Seq<u32>) -> Seq<u32>
    decreases ids.len(),
{
    if ids.len() == 0 || ids.last() == MISSING_VOCAB_ID {
        Seq::empty()
    } else {
        open_ids(ids.drop_last()).push(ids.last())
    }
}

/// The runs, with one more, if it has any numbers.
pub open spec fn with_ids(runs: Seq<Seq<u32>>, run: Seq<u32>) -> Seq<Seq<u32>> {
    if run.len() == 0 {
        runs
    } else {
        runs.push(run)
    }
}

/// The runs that a token that is not in the vocabulary ends.
pub open spec fn ended_runs(ids: Seq<u32>) -> Seq<Seq<u32>>
    decreases ids.len(),
{
    if ids.len() == 0 {
        Seq::empty()
    } else if ids.last() == MISSING_VOCAB_ID {
        with_ids(ended_runs(ids.drop_last()), open_ids(ids.drop_last()))
    } else {
        ended_runs(ids.drop_last())
    }
}

/// The runs of numbers between the tokens that are not in the vocabulary.
pub open spec fn runs_in(ids: Seq<u32>) -> Seq<Seq<u32>> {
    with_ids(ended_runs(ids), open_ids(ids))
}

/// The runs on a line.
pub open spec fn line_runs(line: Seq<char>, raw_to_vocab: Seq<u32>) -> Result<
    Seq<Seq<u32>>,
    ScanFault,
> {
    match vocab_ids(words_of(line, true), raw_to_vocab) {
        Ok(ids) => Ok(runs_in(ids)),
        Err(fault) => Err(fault),
    }
}

/// The runs on the lines, or the first fault. No run crosses a line.
pub open spec fn scanned(lines: Seq<Seq<char>>, raw_to_vocab: Seq<u32>) -> Result<
    Seq<Seq<u32>>,
    ScanFault,
>
    decreases lines.len(),
{
    if lines.len() == 0 {
        Ok(Seq::empty())
    } else {
        match scanned(lines.drop_last(), raw_to_vocab) {
            Ok(runs) => match line_runs(lines.last(), raw_to_vocab) {
                Ok(more) => Ok(runs + more),
                Err(fault) => Err(fault),
            },
            Err(fault) => Err(fault),
        }
    }
}

proof fn first_word_fault(words: Seq<Seq<char>>, raw_to_vocab: Seq<u32>, count: int)
    requires
        0 <= count <= words.len(),
        vocab_ids(words.take(count), raw_to_vocab) is Err,
    ensures
        vocab_ids(words, raw_to_vocab) == vocab_ids(words.take(count), raw_to_vocab),
    decreases words.len(),
{
    if count < words.len() {
        assert(words.drop_last().take(count) =~= words.take(count));
        first_word_fault(words.drop_last(), raw_to_vocab, count);
    } else {
        assert(words.take(count) =~= words);
    }
}

proof fn first_line_fault(lines: Seq<Seq<char>>, raw_to_vocab: Seq<u32>, count: int)
    requires
        0 <= count <= lines.len(),
        scanned(lines.take(count), raw_to_vocab) is Err,
    ensures
        scanned(lines, raw_to_vocab) == scanned(lines.take(count), raw_to_vocab),
    decreases lines.len(),
{
    if count < lines.len() {
        assert(lines.drop_last().take(count) =~= lines.take(count));
        first_line_fault(lines.drop_last(), raw_to_vocab, count);
    } else {
        assert(lines.take(count) =~= lines);
    }
}

/// The contents of runs.
pub open spec fn run_views(runs: Seq<Vec<u32>>) -> Seq<Seq<u32>> {
    Seq::new(runs.len(), |i: int| runs[i]@)
}

/// Reads a word as the vocabulary number of a token.
fn read_id(word: &str, raw_to_vocab: &[u32]) -> (result: Result<u32, ScanError>)
    ensures
        match result {
            Ok(id) => vocab_id(word@, raw_to_vocab@) == Ok::<_, ScanFault>(id),
            Err(error) => vocab_id(word@, raw_to_vocab@) == Err::<u32, _>(error@),
        },
{
    match parse_unsigned(word, usize::MAX as u64) {
        Some(number) => {
            let raw_id = number as usize;
            if raw_id < raw_to_vocab.len() {
                Ok(raw_to_vocab[raw_id])
            } else {
                Err(ScanError::OutOfRange(raw_id))
            }
        },
        None => Err(ScanError::Number(word.to_owned())),
    }
}

/// Adds the runs on a line.
fn scan_line(line: &str, raw_to_vocab: &[u32], runs: &mut Vec<Vec<u32>>) -> (result: Result<
    (),
    ScanError,
>)
    ensures
        match result {
            Ok(_) => line_runs(line@, raw_to_vocab@) is Ok && run_views(final(runs)@) == run_views(
                old(runs)@,
            ) + line_runs(line@, raw_to_vocab@)->Ok_0,
            Err(error) => line_runs(line@, raw_to_vocab@) == Err::<Seq<Seq<u32>>, _>(error@),
        },
{
    let found = words(line, true);
    let ghost all = words_of(line@, true);
    let ghost given = run_views(runs@);
    let mut contiguous: Vec<u32> = Vec::new();
    let ghost mut ids: Seq<u32> = Seq::empty();
    let mut i: usize = 0;
    assert(all.take(0) =~= Seq::empty());
    assert(given + ended_runs(ids) =~= given);
    assert(contiguous@ =~= open_ids(ids));
    while i < found.len()
        invariant
            all == texts(found@),
            all == words_of(line@, true),
            i <= found@.len(),
            vocab_ids(all.take(i as int), raw_to_vocab@) == Ok::<_, ScanFault>(ids),
            run_views(runs@) == given + ended_runs(ids),
            contiguous@ == open_ids(ids),
        decreases found@.len() - i,
    {
        proof {
            assert(all.take(i + 1).drop_last() =~= all.take(i as int));
            assert(all.take(i + 1).last() == found@[i as int]@);
        }
        match read_id(found[i].as_str(), raw_to_vocab) {
            Ok(id) => {
                let ghost before = ids;
                proof {
                    ids = ids.push(id);
                    assert(ids.drop_last() =~= before);
                }
                if id == MISSING_VOCAB_ID {
                    if contiguous.len() > 0 {
                        let ghost known = runs@;
                        let mut run: Vec<u32> = Vec::new();
                        std::mem::swap(&mut run, &mut contiguous);
                        runs.push(run);
                        assert(run_views(runs@) =~= run_views(known).push(open_ids(before)));
                        assert(given + ended_runs(ids) =~= (given + ended_runs(before)).push(
                            open_ids(before),
                        ));
                    }
                    assert(contiguous@ =~= Seq::empty());
                } else {
                    contiguous.push(id);
                }
            },
            Err(error) => {
                proof {
                    first_word_fault(all, raw_to_vocab@, i + 1);
                }
                return Err(error);
            },
        }
        i += 1;
    }
    assert(all.take(i as int) =~= all);
    if contiguous.len() > 0 {
        let ghost known = runs@;
        runs.push(contiguous);
        assert(run_views(runs@) =~= run_views(known).push(open_ids(ids)));
        assert(given + runs_in(ids) =~= (given + ended_runs(ids)).push(open_ids(ids)));
    }
    Ok(())
}

/// Reads the numbers of tokens, a sequence on each line, as runs of vocabulary numbers.
pub fn scan_tokens(text: &str, raw_to_vocab: &[u32]) -> (result: Result<Vec<Vec<u32>>, ScanError>)
    ensures
        match result {
            Ok(runs) => scanned(lines_of(text@), raw_to_vocab@) == Ok::<_, ScanFault>(
                run_views(runs@),
            ),
            Err(error) => scanned(lines_of(text@), raw_to_vocab@) == Err::<Seq<Seq<u32>>, _>(
                error@,
            ),
        },
{
    let file_lines = lines(text);
    let ghost all = lines_of(text@);
    let mut runs: Vec<Vec<u32>> = Vec::new();
    let mut i: usize = 0;
    assert(all.take(0) =~= Seq::empty());
    assert(run_views(runs@) =~= Seq::empty());
    while i < file_lines.len()
        invariant
            all == texts(file_lines@),
            all == lines_of(text@),
            i <= file_lines@.len(),
            scanned(all.take(i as int), raw_to_vocab@) == Ok::<_, ScanFault>(run_views(runs@)),
        decreases file_lines@.len() - i,
    {
        proof {
            assert(all.take(i + 1).drop_last() =~= all.take(i as int));
            assert(all.take(i + 1).last() == file_lines@[i as int]@);
        }
        match scan_line(file_lines[i].as_str(), raw_to_vocab, &mut runs) {
            Ok(_) => {},
            Err(error) => {
                proof {
                    first_line_fault(all, raw_to_vocab@, i + 1);
                }
                return Err(error);
            },
        }
        i += 1;
    }
    assert(all.take(i as int) =~= all);
    Ok(runs)
}

/// A word behind a space is the next word.
proof fn words_behind(text: Seq<char>, word: Seq<char>)
    requires
        word.len() > 0,
        forall|i: int| 0 <= i < word.len() ==> !separates_words(#[trigger] word[i], true),
    ensures
        words_of(text.push(' ') + word, true) == words_of(text, true).push(word),
    decreases word.len(),
{
    let whole = text.push(' ') + word;
    let last = word.last();
    let shorter = word.drop_last();
    assert(word[word.len() - 1] == last);
    assert(whole.last() == last);
    if word.len() == 1 {
        assert(whole.drop_last() =~= text.push(' '));
        assert(text.push(' ').drop_last() =~= text);
        assert(whole[whole.len() - 2] == ' ');
        assert(separates_words(' ', true));
        assert(words_of(text.push(' '), true) == words_of(text, true));
        assert(seq![last] =~= word);
    } else {
        assert forall|i: int| 0 <= i < shorter.len() implies !separates_words(
            #[trigger] shorter[i],
            true,
        ) by {
            assert(shorter[i] == word[i]);
        }
        words_behind(text, shorter);
        assert(whole.drop_last() =~= text.push(' ') + shorter);
        assert(whole[whole.len() - 2] == word[word.len() - 2]);
        let before = words_of(text, true).push(shorter);
        assert(before.drop_last() =~= words_of(text, true));
        assert(shorter.push(last) =~= word);
    }
}

/// A text without spaces is one word.
proof fn single_word(word: Seq<char>)
    requires
        word.len() > 0,
        forall|i: int| 0 <= i < word.len() ==> !separates_words(#[trigger] word[i], true),
    ensures
        words_of(word, true) == seq![word],
    decreases word.len(),
{
    let last = word.last();
    let shorter = word.drop_last();
    assert(word[word.len() - 1] == last);
    if word.len() == 1 {
        assert(words_of(shorter, true) =~= Seq::empty());
        assert(seq![last] =~= word);
        assert(words_of(word, true) =~= seq![word]);
    } else {
        assert forall|i: int| 0 <= i < shorter.len() implies !separates_words(
            #[trigger] shorter[i],
            true,
        ) by {
            assert(shorter[i] == word[i]);
        }
        single_word(shorter);
        assert(word[word.len() - 2] == shorter.last());
        assert(shorter.push(last) =~= word);
        assert(words_of(word, true) =~= seq![word]);
    }
}

/// The numbers in decimal notation.
pub open spec fn decimals(ids: Seq<int>) -> Seq<Seq<char>> {
    Seq::new(ids.len(), |i: int| decimal_of(ids[i] as nat))
}

proof fn id_words(ids: Seq<int>)
    ensures
        words_of(id_text(ids), true) == decimals(ids),
    decreases ids.len(),
{
    if ids.len() == 0 {
        assert(words_of(id_text(ids), true) =~= decimals(ids));
    } else {
        let digits = decimal_of(ids.last() as nat);
        decimal_reads_back(ids.last() as nat);
        if ids.len() == 1 {
            single_word(digits);
            assert(decimals(ids) =~= seq![digits]);
        } else {
            id_words(ids.drop_last());
            words_behind(id_text(ids.drop_last()), digits);
            assert(decimals(ids) =~= decimals(ids.drop_last()).push(digits));
        }
    }
}

/// The vocabulary numbers of tokens.
pub open spec fn mapped(ids: Seq<int>, raw_to_vocab: Seq<u32>) -> Seq<u32> {
    Seq::new(ids.len(), |i: int| raw_to_vocab[ids[i]])
}

proof fn decimals_map(ids: Seq<int>, raw_to_vocab: Seq<u32>)
    requires
        raw_to_vocab.len() <= usize::MAX,
        forall|i: int| 0 <= i < ids.len() ==> 0 <= #[trigger] ids[i] < raw_to_vocab.len(),
    ensures
        vocab_ids(decimals(ids), raw_to_vocab) == Ok::<_, ScanFault>(mapped(ids, raw_to_vocab)),
    decreases ids.len(),
{
    if ids.len() > 0 {
        let shorter = ids.drop_last();
        assert forall|i: int| 0 <= i < shorter.len() implies 0 <= #[trigger] shorter[i]
            < raw_to_vocab.len() by {
            assert(shorter[i] == ids[i]);
        }
        decimals_map(shorter, raw_to_vocab);
        assert(decimals(ids).drop_last() =~= decimals(shorter));
        decimal_reads_back(ids.last() as nat);
        assert(ids[ids.len() - 1] == ids.last());
        assert(mapped(ids, raw_to_vocab) =~= mapped(shorter, raw_to_vocab).push(
            raw_to_vocab[ids.last()],
        ));
    } else {
        assert(mapped(ids, raw_to_vocab) =~= Seq::empty());
    }
}

/// What was written of a sequence of tokens is read back as the runs of their vocabulary numbers.
pub proof fn sequences_read_back(ids: Seq<int>, raw_to_vocab: Seq<u32>)
    requires
        raw_to_vocab.len() <= usize::MAX,
        forall|i: int| 0 <= i < ids.len() ==> 0 <= #[trigger] ids[i] < raw_to_vocab.len(),
    ensures
        line_runs(id_text(ids), raw_to_vocab) == Ok::<_, ScanFault>(
            runs_in(mapped(ids, raw_to_vocab)),
        ),
{
    id_words(ids);
    decimals_map(ids, raw_to_vocab);
}

} // verus!
