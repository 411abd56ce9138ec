//! A scanner and an expression parser for a small scripting language,
//! with their behaviour stated as contracts and proved with Verus.

pub mod tokens;
pub mod text;
pub mod lexical;
pub mod scanner;
pub mod parser;
pub mod lines;
pub mod run;

pub use tokens::{Literal, SpecLiteral, SpecToken, Token, TokenList};
