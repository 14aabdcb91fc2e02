//! A tokenizer for arithmetic expressions: text in, typed tokens with byte spans out.

pub mod error;
pub mod lexer;
pub mod text;
pub mod laws;
