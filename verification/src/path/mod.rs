//! SVG path data: preprocessing, lexing and parsing into segments.

pub mod lexer;
pub mod parser;
pub mod preprocess;
