//! Converting kana readings with the dictionaries.

pub mod ajimee;
pub mod completeness;
pub mod dictionary;
pub mod edits;
pub mod evaluation_laws;
pub mod laws;
pub mod loading;
pub mod loading_laws;
pub mod optimality;
pub mod ranking;
pub mod search;
pub mod segmentations;
