//! Hiragana-to-English dictionaries from the JMdict dictionary of Japanese.

pub mod candidate_laws;
pub mod candidates;
pub mod context;
pub mod document;
pub mod document_laws;
pub mod filter_laws;
pub mod loanword;
pub mod phone_laws;
pub mod pronunciation;
pub mod readings;
pub mod release;
pub mod selection;
pub mod words;
pub mod xml;
