//! MySQL dump tokenizer.
//!
//! - `token`: the token types and their mathematical models;
//! - `text`: character classes and the character stream the tokenizer reads;
//! - `lexer`: the specification of how one token is read from the front of the input,
//!   and of a whole tokenizer run;
//! - `tokenizer`: the executable tokenizer, proved against `lexer`;
//! - `statement`: helpers that read `INSERT INTO` statements out of a token list;
//! - `laws`: properties relating several functions.
pub mod token;
pub mod text;
pub mod lexer;
pub mod tokenizer;
pub mod statement;
pub mod laws;

pub use token::{Keyword, Token, Whitespace, Word};
pub use text::CharStream;
pub use tokenizer::{Tokenizer, TokenizerError};
pub use statement::{
    get_column_names_from_insert_into_query, get_column_values_from_insert_into_query,
    get_single_quoted_string_value_at_position, get_tokens_from_query_str,
    get_word_value_at_position, match_keyword_at_position, trim_pre_whitespaces,
};
