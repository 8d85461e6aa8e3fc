//! Dictionaries for Japanese kana-kanji conversion: building them from corpora and from
//! JMdict, and converting readings with them.

pub mod checksum;
pub mod compression;
pub mod conversion;
pub mod grouping;
pub mod homophone;
pub mod id_def;
pub mod index;
pub mod jmdict;
pub mod kana;
pub mod mozc;
pub mod ngram;
pub mod order;
pub mod output;
pub mod paths;
pub mod release_laws;
pub mod sorted;
pub mod text;
pub mod text_laws;
pub mod views;
