//! A corpus of homophones: words that are read alike and written differently, each with the
//! contexts in which it comes.

pub mod annotation;
pub mod candidates;
pub mod groups;
pub mod laws;
pub mod occurrences;
pub mod recount;
pub mod release;
