//! The SQL front end: tokens, the keyword table, the lexer and the parser.

pub mod keywords;
pub mod parser;
pub mod scanner;
pub mod token;
