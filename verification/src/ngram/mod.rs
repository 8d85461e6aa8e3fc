//! Mozc-format dictionaries of one, two and three words, counted in a corpus.

pub mod boundaries;
pub mod corpus;
pub mod count_laws;
pub mod counts;
pub mod exactness;
pub mod fx;
pub mod id_map;
pub mod laws;
pub mod options;
pub mod packing;
pub mod pipeline;
pub mod release;
pub mod rows;
pub mod run_laws;
pub mod scan;
pub mod sentences;
pub mod tokenizer;
pub mod tokens;
pub mod vocabulary;
