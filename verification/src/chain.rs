//! A group of any number of operands: how its value comes from theirs.
use crate::interpreter::{eval_spec, EvalError};
use crate::laws::is_operator_char;
use crate::lexer::{all_recognized, lemma_lex_concat, lemma_lex_of_symbol, lex_spec, symbol_of};
use crate::parser::{
    atomic_spec, binary_spec, fold_spec, lemma_atomic_frame, molecular_spec, success,
};
use crate::token::{symbol_tok, Symbol, Tok};
use vstd::prelude::*;

verus! {

/// The operands in a row, with the operator `c` between each two of them.
pub open spec fn joined(operands: Seq<Seq<char>>, c: char) -> Seq<char>
    decreases operands.len(),
{
    if operands.len() == 0 {
        Seq::empty()
    } else if operands.len() == 1 {
        operands[0]
    } else {
        joined(operands.drop_last(), c) + seq![c] + operands.last()
    }
}

/// The values of the operands, each of which has one.
pub open spec fn values_of(operands: Seq<Seq<char>>) -> Seq<Seq<char>> {
    operands.map_values(|operand: Seq<char>| eval_spec(operand)->Ok_0)
}

/// `acc` after the operator took each of `values` as its left operand, the
/// last of them first.
pub open spec fn folded(operator: Symbol, values: Seq<Seq<char>>, acc: Seq<char>) -> Seq<char>
    decreases values.len(),
{
    if values.len() == 0 {
        acc
    } else {
        folded(operator, values.drop_last(), binary_spec(operator, values.last(), acc))
    }
}

/// Every operand has a value.
pub open spec fn all_have_values(operands: Seq<Seq<char>>) -> bool {
    forall|i: int| 0 <= i < operands.len() ==> (#[trigger] eval_spec(operands[i])) is Ok
}

/// The tokens of `(` and the joined operands, in reading order.
spec fn opened(operands: Seq<Seq<char>>, c: char) -> Seq<Tok> {
    seq![symbol_tok(Symbol::LeftParen)] + lex_spec(joined(operands, c))
}

/// Any number of expressions that have values, joined by one operator and
/// put in parentheses, are folded from the right: the operator is applied
/// to the last two values first, and to the first value last. For `+` the
/// value of the group is the operands' values in reading order.
pub proof fn law_group(operands: Seq<Seq<char>>, c: char)
    requires
        is_operator_char(c),
        operands.len() > 0,
        all_have_values(operands),
    ensures
        eval_spec(seq!['('] + joined(operands, c) + seq![')']) == Ok::<Seq<char>, EvalError>(
            folded(symbol_of(c)->0, values_of(operands).drop_last(), values_of(operands).last()),
        ),
        c == '+' ==> eval_spec(seq!['('] + joined(operands, c) + seq![')']) == Ok::<
            Seq<char>,
            EvalError,
        >(values_of(operands).flatten()),
{
    let operator = symbol_of(c)->0;
    let open = seq![symbol_tok(Symbol::LeftParen)];
    let inner = joined(operands, c);
    let last = operands.last();
    let value = eval_spec(last)->Ok_0;
    let values = values_of(operands);
    let result = folded(operator, values.drop_last(), value);
    assert(atomic_spec(lex_spec(last)) == success(value, Seq::empty())) by {
        assert(atomic_spec(lex_spec(last)).rest =~= Seq::<Tok>::empty());
    }
    lemma_joined_tokens(operands, c);
    // The tokens of the line.
    let head = seq!['('];
    let tail = seq![')'];
    lemma_lex_of_symbol('(');
    lemma_lex_of_symbol(')');
    lemma_lex_concat(head, inner);
    lemma_lex_concat(head + inner, tail);
    assert(all_recognized(head));
    assert(all_recognized(tail));
    let below = opened(operands, c);
    let tokens = below.push(symbol_tok(Symbol::RightParen));
    assert(lex_spec(head + inner + tail) =~= tokens);
    assert(tokens.drop_last() =~= below);
    // Their reduction.
    if operands.len() == 1 {
        lemma_atomic_frame(open, lex_spec(last));
        assert(open.drop_last() =~= Seq::<Tok>::empty());
    } else {
        let front = operands.drop_last();
        let under = opened(front, c).push(symbol_tok(operator));
        lemma_atomic_frame(under, lex_spec(last));
        assert(all_have_values(front));
        lemma_fold_operands(value, None, front, c);
        assert(values.drop_last() =~= values_of(front));
    }
    assert(molecular_spec(below) == success(result, Seq::empty()));
    if c == '+' {
        lemma_folded_plus(values.drop_last(), value);
        values.drop_last().lemma_flatten_push(value);
        assert(values.drop_last().push(value) =~= values);
    }
}

/// With `+`, folding puts the values in reading order in front of `acc`.
pub proof fn lemma_folded_plus(values: Seq<Seq<char>>, acc: Seq<char>)
    ensures
        folded(Symbol::Plus, values, acc) == values.flatten() + acc,
    decreases values.len(),
{
    if values.len() > 0 {
        let front = values.drop_last();
        lemma_folded_plus(front, values.last() + acc);
        front.lemma_flatten_push(values.last());
        assert(front.push(values.last()) =~= values);
    }
}

/// The joined operands are recognized, and their tokens are those of all
/// but the last operand, the operator, and the tokens of the last.
proof fn lemma_joined_tokens(operands: Seq<Seq<char>>, c: char)
    requires
        is_operator_char(c),
        operands.len() > 0,
        all_have_values(operands),
    ensures
        all_recognized(joined(operands, c)),
        operands.len() == 1 ==> opened(operands, c) == seq![symbol_tok(Symbol::LeftParen)]
            + lex_spec(operands[0]),
        operands.len() > 1 ==> opened(operands, c) == opened(operands.drop_last(), c).push(
            symbol_tok(symbol_of(c)->0),
        ) + lex_spec(operands.last()),
    decreases operands.len(),
{
    let last = operands.last();
    assert(eval_spec(last) is Ok);
    if operands.len() > 1 {
        let front = operands.drop_last();
        assert(all_have_values(front));
        lemma_joined_tokens(front, c);
        let head = joined(front, c);
        let sign = seq![c];
        assert(all_recognized(sign));
        lemma_lex_of_symbol(c);
        lemma_lex_concat(head, sign);
        lemma_lex_concat(head + sign, last);
        let open = seq![symbol_tok(Symbol::LeftParen)];
        assert(open + (lex_spec(head) + lex_spec(sign) + lex_spec(last)) =~= (open + lex_spec(
            head,
        )).push(symbol_tok(symbol_of(c)->0)) + lex_spec(last));
    }
}

/// The fold of a group, with the operator on top of the stack and under it
/// the operands down to `(`, takes the operands' values from the last to
/// the first.
proof fn lemma_fold_operands(
    acc: Seq<char>,
    dominant: Option<Symbol>,
    operands: Seq<Seq<char>>,
    c: char,
)
    requires
        is_operator_char(c),
        operands.len() > 0,
        all_have_values(operands),
        dominant is None || dominant == symbol_of(c),
    ensures
        fold_spec(acc, dominant, opened(operands, c).push(symbol_tok(symbol_of(c)->0))) == success(
            folded(symbol_of(c)->0, values_of(operands), acc),
            Seq::empty(),
        ),
    decreases operands.len(),
{
    let operator = symbol_of(c)->0;
    let open = seq![symbol_tok(Symbol::LeftParen)];
    let last = operands.last();
    let value = eval_spec(last)->Ok_0;
    let values = values_of(operands);
    assert(atomic_spec(lex_spec(last)) == success(value, Seq::empty())) by {
        assert(atomic_spec(lex_spec(last)).rest =~= Seq::<Tok>::empty());
    }
    let stack = opened(operands, c).push(symbol_tok(operator));
    assert(stack.drop_last() =~= opened(operands, c));
    lemma_joined_tokens(operands, c);
    let next = binary_spec(operator, value, acc);
    if operands.len() == 1 {
        lemma_atomic_frame(open, lex_spec(last));
        assert(open.drop_last() =~= Seq::<Tok>::empty());
        assert(folded(operator, values.drop_last(), next) == next);
        assert(fold_spec(acc, dominant, stack) == fold_spec(next, Some(operator), open));
    } else {
        let front = operands.drop_last();
        let below = opened(front, c).push(symbol_tok(operator));
        lemma_atomic_frame(below, lex_spec(last));
        assert(all_have_values(front));
        lemma_fold_operands(next, Some(operator), front, c);
        assert(values.drop_last() =~= values_of(front));
    }
}

} // verus!
