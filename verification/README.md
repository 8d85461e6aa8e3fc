# japanese_corpus

A library for Mozc-format dictionaries of Japanese, written in Rust and verified with Verus: it
counts one-, two- and three-word sequences in a corpus, extracts English words from JMdict,
collects homophones with their contexts, and converts kana with the dictionaries that result.

## Layout

- `src/conversion`: the dictionary, its loading, the beam search over it, and the metrics of
  AJIMEE-Bench.
- `src/ngram`: sentences, tokens, the vocabulary, exact counts of n-grams, and the dictionaries.
- `src/jmdict`: the reader of JMdict, the selection of candidates, the filter for loanwords, and
  the dictionaries.
- `src/homophone`: words with their readings, groups of homophones, and their occurrences.
- The rest of `src` serves these: texts, orders, paths, sorting, Mozc rows and shards, digests,
  compression and the files of a release.
- `app`: the command-line programs. They read and write files, parse arguments and JSON, and
  compute with floating-point numbers; everything else they leave to the library.
- `tests`: what the library does on given values.

## What is proved

Every function states what it returns for every input it takes. Where another crate decides, such as
a compressor, it does so over a name for what that crate gives for its arguments. Beyond that, public
proof functions state what holds of the library as a whole, among others:

- n-grams above the threshold are counted exactly (`ngram::exactness`, `ngram::release`), and none
  crosses a sentence (`ngram::boundaries`);
- no way to convert a reading is better than the first candidate (`conversion::optimality`), and
  where nothing is cut off all are among the candidates, each text at its least cost
  (`conversion::completeness`, `conversion::segmentations`);
- a dictionary does not depend on the order or repetition of its entries, files or paths
  (`conversion::dictionary`, `conversion::loading`);
- the distance of two texts is the least number of edits between them (`conversion::edits`);
- the converter reads back what is written of a dictionary (`mozc`, `output`);
- the rows of an English dictionary are determined by its candidates, and pass the filter
  (`jmdict::selection`, `jmdict::loanword`);
- the occurrences of homophones are as many as their groups say, and stand where they say
  (`homophone::recount`, `homophone::occurrences`).

Calls into other crates stand behind small functions marked `#[verifier::external_body]`, whose
contracts are not proved. The comment above each says what is claimed of the crate.
