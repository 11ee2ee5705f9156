//! Values are made of letters: no operation brings in a character that the
//! names of the line did not hold. A report of a value is therefore never
//! one of the two messages.
use crate::interpreter::{eval_spec, interpret_spec};
use crate::laws::{malformed, unrecognized};
use crate::lexer::{all_letters, is_letter, lemma_name_len_is_run, lex_spec, name_len};
use crate::parser::{
    atomic_spec, binary_spec, fold_spec, lemma_atomic_rest, molecular_spec, trim_spec, trims_spec,
};
use crate::token::{is_trim_symbol, Symbol, Tok};
use vstd::prelude::*;

verus! {

/// The text of every token is made of letters.
pub open spec fn texts_are_letters(tokens: Seq<Tok>) -> bool {
    forall|i: int| 0 <= i < tokens.len() ==> all_letters(#[trigger] tokens[i].value)
}

/// The value of a line is made of letters.
pub proof fn law_value_is_letters(line: Seq<char>)
    requires
        eval_spec(line) is Ok,
    ensures
        all_letters(eval_spec(line)->Ok_0),
{
    lemma_lex_texts_are_letters(line);
    lemma_atomic_letters(lex_spec(line));
}

/// The report tells the three outcomes apart: it is one of the two
/// messages exactly where the line has no value, and each message stands
/// for one kind of failure.
pub proof fn law_report_is_unambiguous(line: Seq<char>)
    ensures
        interpret_spec(line) == "failed to tokenize!"@ <==> eval_spec(line) == unrecognized(),
        interpret_spec(line) == "malformed!"@ <==> eval_spec(line) == malformed(),
{
    reveal_strlit("failed to tokenize!");
    reveal_strlit("malformed!");
    assert(!is_letter("failed to tokenize!"@[18]));
    assert(!is_letter("malformed!"@[9]));
    if eval_spec(line) is Ok {
        law_value_is_letters(line);
    }
}

/// The tokens of a line hold letters only.
pub proof fn lemma_lex_texts_are_letters(line: Seq<char>)
    ensures
        texts_are_letters(lex_spec(line)),
    decreases line.len(),
{
    if line.len() > 0 {
        if is_letter(line[0]) {
            let n = name_len(line) as int;
            lemma_name_len_is_run(line);
            lemma_lex_texts_are_letters(line.skip(n));
            assert(all_letters(line.take(n)));
        } else {
            lemma_lex_texts_are_letters(line.drop_first());
        }
    }
}

/// Trims of a text of letters leave a text of letters.
proof fn lemma_trims_letters(value: Seq<char>, tokens: Seq<Tok>)
    requires
        all_letters(value),
        trims_spec(value, tokens).value is Some,
    ensures
        all_letters(trims_spec(value, tokens).value->0),
    decreases tokens.len(),
{
    if tokens.len() > 0 && is_trim_symbol(tokens.last().symbol) {
        let next = trim_spec(tokens.last().symbol, value);
        lemma_trims_letters(next, tokens.drop_last());
    }
}

/// The value of an atomic term is made of letters.
proof fn lemma_atomic_letters(tokens: Seq<Tok>)
    requires
        texts_are_letters(tokens),
        atomic_spec(tokens).value is Some,
    ensures
        all_letters(atomic_spec(tokens).value->0),
    decreases tokens.len(), 0int,
{
    let top = tokens.last();
    let below = tokens.drop_last();
    if top.symbol == Symbol::RightParen {
        let group = molecular_spec(below);
        lemma_molecular_letters(below);
        lemma_trims_letters(group.value->0, group.rest);
    } else {
        lemma_trims_letters(top.value, below);
    }
}

/// The value of a group is made of letters.
proof fn lemma_molecular_letters(tokens: Seq<Tok>)
    requires
        texts_are_letters(tokens),
        molecular_spec(tokens).value is Some,
    ensures
        all_letters(molecular_spec(tokens).value->0),
    decreases tokens.len(), 1int,
{
    let first = atomic_spec(tokens);
    lemma_atomic_rest(tokens);
    lemma_atomic_letters(tokens);
    lemma_fold_letters(first.value->0, None, first.rest);
}

/// The fold of a group makes a text of letters of a text of letters.
proof fn lemma_fold_letters(acc: Seq<char>, dominant: Option<Symbol>, tokens: Seq<Tok>)
    requires
        all_letters(acc),
        texts_are_letters(tokens),
        fold_spec(acc, dominant, tokens).value is Some,
    ensures
        all_letters(fold_spec(acc, dominant, tokens).value->0),
    decreases tokens.len(), 0int,
{
    let operator = tokens.last().symbol;
    let below = tokens.drop_last();
    if operator != Symbol::LeftParen {
        let left = atomic_spec(below);
        lemma_atomic_rest(below);
        lemma_atomic_letters(below);
        lemma_fold_letters(binary_spec(operator, left.value->0, acc), Some(operator), left.rest);
    }
}

} // verus!
