//! Parentheses come in pairs: a line that has a value holds as many `(` as
//! it holds `)`.
use crate::interpreter::eval_spec;
use crate::laws::malformed;
use crate::lexer::{
    all_recognized, is_letter, lemma_name_len_is_run, lex_spec, name_len, symbol_of,
};
use crate::parser::{
    atomic_spec, binary_spec, fold_spec, lemma_atomic_rest, molecular_spec, trim_spec, trims_spec,
};
use crate::token::{is_trim_symbol, name_tok, symbol_tok, Symbol, Tok};
use vstd::prelude::*;

verus! {

/// How often the character `c` stands in `text`.
pub open spec fn count_char(text: Seq<char>, c: char) -> nat
    decreases text.len(),
{
    if text.len() == 0 {
        0
    } else {
        count_char(text.drop_last(), c) + if text.last() == c {
            1nat
        } else {
            0nat
        }
    }
}

/// How many of `tokens` are of the kind `symbol`.
pub open spec fn count_symbol(tokens: Seq<Tok>, symbol: Symbol) -> nat
    decreases tokens.len(),
{
    if tokens.len() == 0 {
        0
    } else {
        count_symbol(tokens.drop_last(), symbol) + if tokens.last().symbol == symbol {
            1nat
        } else {
            0nat
        }
    }
}

/// By how many the `)` among `tokens` outnumber the `(`.
pub open spec fn surplus(tokens: Seq<Tok>) -> int {
    count_symbol(tokens, Symbol::RightParen) - count_symbol(tokens, Symbol::LeftParen)
}

/// A line that has a value holds as many `(` as it holds `)`.
pub proof fn law_value_has_balanced_parentheses(line: Seq<char>)
    requires
        eval_spec(line) is Ok,
    ensures
        count_char(line, '(') == count_char(line, ')'),
{
    let tokens = lex_spec(line);
    lemma_atomic_surplus(tokens);
    lemma_lex_counts(line, '(');
    lemma_lex_counts(line, ')');
}

/// A line of recognized characters that does not hold as many `(` as `)`
/// is rejected as malformed.
pub proof fn law_unbalanced_parentheses_are_rejected(line: Seq<char>)
    requires
        all_recognized(line),
        count_char(line, '(') != count_char(line, ')'),
    ensures
        eval_spec(line) == malformed(),
{
    if eval_spec(line) is Ok {
        law_value_has_balanced_parentheses(line);
    }
}

/// The characters of two texts in a row are counted text by text.
pub proof fn lemma_count_char_concat(left: Seq<char>, right: Seq<char>, c: char)
    ensures
        count_char(left + right, c) == count_char(left, c) + count_char(right, c),
    decreases right.len(),
{
    if right.len() == 0 {
    } else {
        assert((left + right).drop_last() =~= left + right.drop_last());
        lemma_count_char_concat(left, right.drop_last(), c);
    }
}

/// The tokens of two sequences in a row are counted sequence by sequence.
pub proof fn lemma_count_symbol_concat(left: Seq<Tok>, right: Seq<Tok>, symbol: Symbol)
    ensures
        count_symbol(left + right, symbol) == count_symbol(left, symbol) + count_symbol(
            right,
            symbol,
        ),
    decreases right.len(),
{
    if right.len() == 0 {
    } else {
        assert((left + right).drop_last() =~= left + right.drop_last());
        lemma_count_symbol_concat(left, right.drop_last(), symbol);
    }
}

/// A text that does not hold `c` holds it zero times.
pub proof fn lemma_count_char_absent(text: Seq<char>, c: char)
    requires
        forall|i: int| 0 <= i < text.len() ==> #[trigger] text[i] != c,
    ensures
        count_char(text, c) == 0,
    decreases text.len(),
{
    if text.len() > 0 {
        let front = text.drop_last();
        lemma_count_char_absent(front, c);
    }
}

/// One element is counted once if it is the one sought, else not at all.
proof fn lemma_count_one(c: char, token: Tok, sought: char, symbol: Symbol)
    ensures
        count_char(seq![c], sought) == if c == sought {
            1nat
        } else {
            0nat
        },
        count_symbol(seq![token], symbol) == if token.symbol == symbol {
            1nat
        } else {
            0nat
        },
{
    let text = seq![c];
    assert(text.drop_last() =~= Seq::<char>::empty());
    assert(count_char(Seq::<char>::empty(), sought) == 0);
    let tokens = seq![token];
    assert(tokens.drop_last() =~= Seq::<Tok>::empty());
    assert(count_symbol(Seq::<Tok>::empty(), symbol) == 0);
}

/// A symbol character stands in a line as often as the line has tokens of
/// its kind.
pub proof fn lemma_lex_counts(line: Seq<char>, c: char)
    requires
        symbol_of(c) is Some,
    ensures
        count_symbol(lex_spec(line), symbol_of(c)->0) == count_char(line, c),
    decreases line.len(),
{
    let symbol = symbol_of(c)->0;
    if line.len() == 0 {
    } else if is_letter(line[0]) {
        let n = name_len(line) as int;
        lemma_name_len_is_run(line);
        let name = line.take(n);
        let tail = line.skip(n);
        assert(line =~= name + tail);
        lemma_count_char_absent(name, c);
        lemma_count_char_concat(name, tail, c);
        lemma_lex_counts(tail, c);
        lemma_count_one(c, name_tok(name), c, symbol);
        lemma_count_symbol_concat(seq![name_tok(name)], lex_spec(tail), symbol);
    } else {
        let head = seq![line[0]];
        let tail = line.drop_first();
        assert(line =~= head + tail);
        lemma_count_char_concat(head, tail, c);
        lemma_lex_counts(tail, c);
        match symbol_of(line[0]) {
            Some(first) => {
                lemma_count_one(line[0], symbol_tok(first), c, symbol);
                lemma_count_symbol_concat(seq![symbol_tok(first)], lex_spec(tail), symbol);
            },
            None => {
                lemma_count_one(line[0], symbol_tok(symbol), c, symbol);
            },
        }
    }
}

/// Trims that succeed take no parenthesis from the stack.
proof fn lemma_trims_surplus(value: Seq<char>, tokens: Seq<Tok>)
    requires
        trims_spec(value, tokens).value is Some,
    ensures
        surplus(trims_spec(value, tokens).rest) == surplus(tokens),
    decreases tokens.len(),
{
    if tokens.len() > 0 && is_trim_symbol(tokens.last().symbol) {
        lemma_trims_surplus(trim_spec(tokens.last().symbol, value), tokens.drop_last());
    }
}

/// An atomic term holds as many `(` as `)`.
proof fn lemma_atomic_surplus(tokens: Seq<Tok>)
    requires
        atomic_spec(tokens).value is Some,
    ensures
        surplus(atomic_spec(tokens).rest) == surplus(tokens),
    decreases tokens.len(), 0int,
{
    let top = tokens.last();
    let below = tokens.drop_last();
    if top.symbol == Symbol::RightParen {
        let group = molecular_spec(below);
        lemma_molecular_surplus(below);
        lemma_trims_surplus(group.value->0, group.rest);
    } else {
        lemma_trims_surplus(top.value, below);
    }
}

/// A group without its `)` holds one `(` more than it holds `)`.
proof fn lemma_molecular_surplus(tokens: Seq<Tok>)
    requires
        molecular_spec(tokens).value is Some,
    ensures
        surplus(molecular_spec(tokens).rest) == surplus(tokens) + 1,
    decreases tokens.len(), 1int,
{
    let first = atomic_spec(tokens);
    lemma_atomic_rest(tokens);
    lemma_atomic_surplus(tokens);
    lemma_fold_surplus(first.value->0, None, first.rest);
}

/// What the fold of a group takes holds one `(` more than it holds `)`.
proof fn lemma_fold_surplus(acc: Seq<char>, dominant: Option<Symbol>, tokens: Seq<Tok>)
    requires
        fold_spec(acc, dominant, tokens).value is Some,
    ensures
        surplus(fold_spec(acc, dominant, tokens).rest) == surplus(tokens) + 1,
    decreases tokens.len(), 0int,
{
    let operator = tokens.last().symbol;
    let below = tokens.drop_last();
    if operator != Symbol::LeftParen {
        let left = atomic_spec(below);
        lemma_atomic_rest(below);
        lemma_atomic_surplus(below);
        lemma_fold_surplus(binary_spec(operator, left.value->0, acc), Some(operator), left.rest);
    }
}

} // verus!
