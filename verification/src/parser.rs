//! The pattern pipeline: token tree, tokenizer, group numbering and matcher.

pub mod grammar;
pub mod groups;
pub mod laws;
pub mod matcher;
pub mod semantics;
pub mod tokenize;
pub mod types;
