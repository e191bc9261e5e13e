//! Lexical indexing and reference resolution for a language server:
//! a word tokenizer, a workspace word index, and filtering of textual
//! matches against declarations.

pub mod lexer;
pub mod location;
pub mod position;
pub mod refs;
pub mod word_map;
