//! A small line-oriented scripting language with integer variables.
//!
//! A program goes through three stages. [`lexer::tokenize`] splits its
//! text into tokens, [`parser::parse`] reads statements from the tokens,
//! and an [`interpreter::Interpreter`] executes the statements against its
//! variables. The interpreter performs no input or output: whenever a
//! statement needs some, it tells its caller what to do and waits to be
//! resumed.
//!
//! What each stage computes is defined in [`lexer`], [`parser`] and
//! [`semantics`] as functions on sequences, and [`grammar`] shows that the
//! parser undoes the writing of statements as tokens.

pub mod grammar;
pub mod interpreter;
pub mod lexer;
pub mod parser;
pub mod semantics;
pub mod text;
