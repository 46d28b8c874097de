//! Front end for a small expression-and-declaration language: a scanner that
//! turns source text into tokens and a recursive-descent parser that builds an
//! abstract syntax tree, both specified against mathematical models of the
//! token stream and the grammar.

pub mod common;
pub mod lexer;
pub mod parser;
