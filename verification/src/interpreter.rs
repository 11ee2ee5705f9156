//! Both stages in a row: a line of text is split into tokens, and the
//! tokens are reduced to a value.
use crate::lexer::{all_recognized, lex_spec, tokenize, LexError};
use crate::parser::{parse, parse_spec, ParseError};
use vstd::prelude::*;

verus! {

/// Why a line has no value.
#[derive(Clone, Copy, Debug, PartialEq, Eq, Structural)]
pub enum EvalError {
    /// The line could not be split into tokens.
    Lex(LexError),
    /// The tokens of the line form no expression.
    Parse(ParseError),
}

/// The value of a line: that of its tokens, where every character of the
/// line is recognized and the tokens form an expression.
pub open spec fn eval_spec(line: Seq<char>) -> Result<Seq<char>, EvalError> {
    if !all_recognized(line) {
        Err(EvalError::Lex(LexError::UnrecognizedCharacter))
    } else {
        match parse_spec(lex_spec(line)) {
            Some(value) => Ok(value),
            None => Err(EvalError::Parse(ParseError::Malformed)),
        }
    }
}

/// The line of text that reports the outcome for `line`: the value, or one
/// of two fixed messages.
pub open spec fn interpret_spec(line: Seq<char>) -> Seq<char> {
    match eval_spec(line) {
        Ok(value) => value,
        Err(EvalError::Lex(_)) => "failed to tokenize!"@,
        Err(EvalError::Parse(_)) => "malformed!"@,
    }
}

/// The value of what a result holds, as a sequence of characters.
pub open spec fn eval_outcome(result: Result<String, EvalError>) -> Result<Seq<char>, EvalError> {
    match result {
        Ok(value) => Ok(value@),
        Err(e) => Err(e),
    }
}

/// Evaluates the expression that `line` holds.
///
/// Fails with `Lex` exactly where the line holds a character that is not
/// recognized, and otherwise with `Parse` exactly where its tokens form no
/// expression.
pub fn eval(line: &str) -> (result: Result<String, EvalError>)
    ensures
        eval_outcome(result) == eval_spec(line@),
{
    let tokens = match tokenize(line) {
        Ok(tokens) => tokens,
        Err(e) => { return Err(EvalError::Lex(e)); },
    };
    match parse(tokens) {
        Ok(value) => Ok(value),
        Err(e) => Err(EvalError::Parse(e)),
    }
}

/// Evaluates the expression that `line` holds and reports the outcome as
/// one line of text: the value, `failed to tokenize!` or `malformed!`.
pub fn interpret(line: &str) -> (report: String)
    ensures
        report@ == interpret_spec(line@),
{
    match eval(line) {
        Ok(value) => value,
        Err(EvalError::Lex(_)) => String::from_str("failed to tokenize!"),
        Err(EvalError::Parse(_)) => String::from_str("malformed!"),
    }
}

} // verus!
