//! A small frame-scheduled scripting language: statements are spread over a
//! numbered timeline of frames and replayed frame by frame.
pub mod ast;
pub mod interpreter;
pub mod lexer;
pub mod number;
pub mod parser;
pub mod run;
pub mod text;
