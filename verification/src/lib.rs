//! An interpreter for a small language of string expressions.
//!
//! A line of text is split into tokens by [`lexer::tokenize`]; the tokens are
//! reduced to a single string by [`parser::parse`], which reads them from the
//! right; [`interpreter::eval`] runs both stages, and
//! [`interpreter::interpret`] reports the outcome as one line of text.
//!
//! An expression is a name, made of the letters `a` to `z`, or a group in
//! parentheses: terms joined by `+` (concatenation) or by `-` (removal of
//! the first occurrence), one kind of operator to a group. In front of a
//! term, `<` drops the last character of its value and `>` the first.
//!
//! The modules [`laws`], [`chain`], [`balance`] and [`letters`] hold what is
//! proved of the language as a whole.
pub mod token;
pub mod value;
pub mod lexer;
pub mod parser;
pub mod interpreter;
pub mod laws;
pub mod chain;
pub mod balance;
pub mod letters;
