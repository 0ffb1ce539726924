//! A small regular-expression engine for line-oriented search.
//!
//! A pattern is tokenized into a token tree, its groups are numbered, and a
//! backtracking matcher decides whether and where the tree matches a line.
//! Every executable function is proved against the definitions in
//! `parser::grammar`, `parser::groups` and `parser::semantics`; what holds of
//! every pattern and input is stated in `parser::laws`.

pub mod cli;
pub mod parser;
pub mod render;
pub mod report;
pub mod search;
pub mod text;

pub use crate::cli::parse_args;
pub use crate::parser::groups::assign_group_numbers;
pub use crate::parser::matcher::{
    collect_all_match_lengths, match_tokens, matches_from_range, single_matches,
};
pub use crate::parser::tokenize::{split_top_level, tokenize};
pub use crate::parser::types::{Quantifiers, Token};
pub use crate::render::{
    char_to_byte, check_multiples_matching_patterns, check_only_matching_patterns, check_pattern,
    highlight_matches_in_line,
};
pub use crate::report::{search_file, search_lines, use_color};
pub use crate::search::{compile, find_all, match_pattern, Config};
