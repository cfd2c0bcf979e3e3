//! Tokenizer for MySQL dump statements, with helpers that read the column
//! names and values of `INSERT INTO` statements.
pub mod mysql;
