//! Laws of the language, stated over the value of a line as
//! [`eval_spec`] gives it, for every expression at once.
use crate::interpreter::{eval_spec, EvalError};
use crate::lexer::{
    all_letters, all_recognized, all_spaces, is_letter, is_recognized, lemma_lex_concat,
    lemma_lex_of_name, lemma_lex_of_spaces, lemma_lex_of_symbol, lemma_recognized_concat, lex_spec,
    symbol_of, LexError,
};
use crate::parser::{
    atomic_spec, binary_spec, fold_spec, lemma_atomic_frame, molecular_spec, success, trim_spec,
    trims_spec, ParseError,
};
use crate::token::{is_trim_symbol, name_tok, symbol_tok, Symbol, Tok};
use vstd::prelude::*;

verus! {

/// The outcome for a line whose tokens form no expression.
pub open spec fn malformed() -> Result<Seq<char>, EvalError> {
    Err(EvalError::Parse(ParseError::Malformed))
}

/// The outcome for a line that cannot be split into tokens.
pub open spec fn unrecognized() -> Result<Seq<char>, EvalError> {
    Err(EvalError::Lex(LexError::UnrecognizedCharacter))
}

/// `text` without its spaces.
pub open spec fn without_spaces(text: Seq<char>) -> Seq<char> {
    text.filter(|c: char| c != ' ')
}

/// The character of a trim.
pub open spec fn is_trim_char(c: char) -> bool {
    c == '<' || c == '>'
}

/// The character of a binary operator.
pub open spec fn is_operator_char(c: char) -> bool {
    c == '+' || c == '-'
}

/// A name alone, with spaces before and after it or without, evaluates to
/// itself: to the line without its spaces.
pub proof fn law_bare_name(lead: Seq<char>, name: Seq<char>, trail: Seq<char>)
    requires
        all_spaces(lead),
        name.len() > 0,
        all_letters(name),
        all_spaces(trail),
    ensures
        eval_spec(lead + name + trail) == Ok::<Seq<char>, EvalError>(name),
        without_spaces(lead + name + trail) == name,
{
    lemma_lex_of_spaces(lead);
    lemma_lex_of_spaces(trail);
    lemma_lex_of_name(name);
    lemma_lex_concat(lead, name);
    lemma_lex_concat(lead + name, trail);
    let tokens = seq![name_tok(name)];
    assert(tokens.drop_last() =~= Seq::<Tok>::empty());
    let keep = |c: char| c != ' ';
    lead.lemma_all_neg_filter_empty(keep);
    trail.lemma_all_neg_filter_empty(keep);
    lemma_filter_keeps_all(name);
}

/// Parentheses around an expression that has a value leave the value as it
/// is.
pub proof fn law_parentheses_are_transparent(expression: Seq<char>)
    requires
        eval_spec(expression) is Ok,
    ensures
        eval_spec(seq!['('] + expression + seq![')']) == eval_spec(expression),
{
    let value = eval_spec(expression)->Ok_0;
    let inner = lex_spec(expression);
    lemma_value_is_atomic(expression);
    lemma_symbol_before('(', expression);
    lemma_symbol_after(seq!['('] + expression, ')');
    lemma_reduce_closed_group(inner, value);
}

/// A trim in front of an expression that has a value trims that value:
/// `<` drops its last character and `>` its first. Where the value is
/// empty, the trim is rejected.
pub proof fn law_trim(c: char, expression: Seq<char>)
    requires
        is_trim_char(c),
        eval_spec(expression) is Ok,
    ensures
        eval_spec(seq![c] + expression) == if eval_spec(expression)->Ok_0.len() == 0 {
            malformed()
        } else if c == '<' {
            Ok(eval_spec(expression)->Ok_0.drop_last())
        } else {
            Ok(eval_spec(expression)->Ok_0.drop_first())
        },
{
    let value = eval_spec(expression)->Ok_0;
    let inner = lex_spec(expression);
    let trim = seq![symbol_tok(symbol_of(c)->0)];
    lemma_symbol_before(c, expression);
    lemma_atomic_frame(trim, inner);
    assert(trim.drop_last() =~= Seq::<Tok>::empty());
    if value.len() > 0 {
        let trimmed = trim_spec(symbol_of(c)->0, value);
        assert(trims_spec(trimmed, Seq::<Tok>::empty()) == success(trimmed, Seq::empty()));
    }
}

/// A trim in front of a name: `<` drops the name's last character and `>`
/// its first. Of a name of one character the empty string is left.
pub proof fn law_trim_of_name(c: char, name: Seq<char>)
    requires
        is_trim_char(c),
        name.len() > 0,
        all_letters(name),
    ensures
        c == '<' ==> eval_spec(seq![c] + name) == Ok::<Seq<char>, EvalError>(name.drop_last()),
        c == '>' ==> eval_spec(seq![c] + name) == Ok::<Seq<char>, EvalError>(name.drop_first()),
        name.len() == 1 ==> eval_spec(seq![c] + name) == Ok::<Seq<char>, EvalError>(Seq::empty()),
{
    law_bare_name(Seq::empty(), name, Seq::empty());
    law_trim(c, name);
    if name.len() == 1 {
        assert(name.drop_last() =~= Seq::<char>::empty());
        assert(name.drop_first() =~= Seq::<char>::empty());
    }
}

/// A second trim of a name of one character meets the empty string and is
/// rejected.
pub proof fn law_trim_of_empty_is_rejected(outer: char, inner: char, letter: char)
    requires
        is_trim_char(outer),
        is_trim_char(inner),
        is_letter(letter),
    ensures
        eval_spec(seq![outer] + (seq![inner] + seq![letter])) == malformed(),
{
    let name = seq![letter];
    assert(all_letters(name));
    law_trim_of_name(inner, name);
    law_trim(outer, seq![inner] + name);
}

/// A trim behind what it should apply to is rejected: a trim applies to
/// the term on its right.
pub proof fn law_trim_at_the_end_is_rejected(line: Seq<char>, c: char)
    requires
        is_trim_char(c),
        all_recognized(line),
    ensures
        eval_spec(line + seq![c]) == malformed(),
{
    lemma_symbol_after(line, c);
}

/// Two expressions that have values, joined by an operator and put in
/// parentheses: `+` gives the left value followed by the right one, `-`
/// the left value without the first occurrence of the right one.
pub proof fn law_binary(left: Seq<char>, c: char, right: Seq<char>)
    requires
        is_operator_char(c),
        eval_spec(left) is Ok,
        eval_spec(right) is Ok,
    ensures
        eval_spec(seq!['('] + left + seq![c] + right + seq![')']) == Ok::<Seq<char>, EvalError>(
            binary_spec(symbol_of(c)->0, eval_spec(left)->Ok_0, eval_spec(right)->Ok_0),
        ),
{
    let operator = symbol_of(c)->0;
    let open = seq![symbol_tok(Symbol::LeftParen)];
    let l = eval_spec(left)->Ok_0;
    let r = eval_spec(right)->Ok_0;
    lemma_value_is_atomic(left);
    lemma_value_is_atomic(right);
    // The tokens of the line.
    let s1 = seq!['('] + left;
    let s2 = s1 + seq![c];
    let s3 = s2 + right;
    lemma_symbol_before('(', left);
    lemma_symbol_after(s1, c);
    lemma_lex_concat(s2, right);
    lemma_symbol_after(s3, ')');
    let t2 = (open + lex_spec(left)).push(symbol_tok(operator));
    let t3 = t2 + lex_spec(right);
    let tokens = t3.push(symbol_tok(Symbol::RightParen));
    // Their reduction.
    assert(tokens.drop_last() =~= t3);
    lemma_reduce_operand(t2, lex_spec(right), r);
    lemma_fold_step(r, None, open, lex_spec(left), operator, l);
}

/// Three expressions that have values, joined by one operator and put in
/// parentheses, are folded from the right: the operator is applied to the
/// second and the third value first. For `+` that is the three values in
/// reading order.
pub proof fn law_chain(first: Seq<char>, second: Seq<char>, third: Seq<char>, c: char)
    requires
        is_operator_char(c),
        eval_spec(first) is Ok,
        eval_spec(second) is Ok,
        eval_spec(third) is Ok,
    ensures
        eval_spec(seq!['('] + first + seq![c] + second + seq![c] + third + seq![')']) == Ok::<
            Seq<char>,
            EvalError,
        >(
            binary_spec(
                symbol_of(c)->0,
                eval_spec(first)->Ok_0,
                binary_spec(symbol_of(c)->0, eval_spec(second)->Ok_0, eval_spec(third)->Ok_0),
            ),
        ),
        c == '+' ==> eval_spec(seq!['('] + first + seq![c] + second + seq![c] + third + seq![')'])
            == Ok::<Seq<char>, EvalError>(
            eval_spec(first)->Ok_0 + eval_spec(second)->Ok_0 + eval_spec(third)->Ok_0,
        ),
{
    let operator = symbol_of(c)->0;
    let open = seq![symbol_tok(Symbol::LeftParen)];
    let v1 = eval_spec(first)->Ok_0;
    let v2 = eval_spec(second)->Ok_0;
    let v3 = eval_spec(third)->Ok_0;
    lemma_value_is_atomic(first);
    lemma_value_is_atomic(second);
    lemma_value_is_atomic(third);
    // The tokens of the line.
    let s1 = seq!['('] + first;
    let s2 = s1 + seq![c];
    let s3 = s2 + second;
    let s4 = s3 + seq![c];
    let s5 = s4 + third;
    lemma_symbol_before('(', first);
    lemma_symbol_after(s1, c);
    lemma_lex_concat(s2, second);
    lemma_symbol_after(s3, c);
    lemma_lex_concat(s4, third);
    lemma_symbol_after(s5, ')');
    let t2 = (open + lex_spec(first)).push(symbol_tok(operator));
    let t4 = (t2 + lex_spec(second)).push(symbol_tok(operator));
    let t5 = t4 + lex_spec(third);
    let tokens = t5.push(symbol_tok(Symbol::RightParen));
    // Their reduction.
    assert(tokens.drop_last() =~= t5);
    lemma_reduce_operand(t4, lex_spec(third), v3);
    lemma_fold_step(v3, None, t2, lex_spec(second), operator, v2);
    let inner = binary_spec(operator, v2, v3);
    lemma_fold_step(inner, Some(operator), open, lex_spec(first), operator, v1);
    if c == '+' {
        assert(v1 + (v2 + v3) =~= v1 + v2 + v3);
    }
}

/// A group that uses both operators is rejected, whatever stands to the
/// left of its second operator from the right.
pub proof fn law_mixed_operators_are_rejected(
    first: Seq<char>,
    c1: char,
    second: Seq<char>,
    c2: char,
    third: Seq<char>,
)
    requires
        is_operator_char(c1),
        is_operator_char(c2),
        c1 != c2,
        all_recognized(first),
        eval_spec(second) is Ok,
        eval_spec(third) is Ok,
    ensures
        eval_spec(seq!['('] + first + seq![c1] + second + seq![c2] + third + seq![')'])
            == malformed(),
{
    let op1 = symbol_of(c1)->0;
    let op2 = symbol_of(c2)->0;
    let open = seq![symbol_tok(Symbol::LeftParen)];
    let v2 = eval_spec(second)->Ok_0;
    let v3 = eval_spec(third)->Ok_0;
    lemma_value_is_atomic(second);
    lemma_value_is_atomic(third);
    // The tokens of the line.
    let s1 = seq!['('] + first;
    let s2 = s1 + seq![c1];
    let s3 = s2 + second;
    let s4 = s3 + seq![c2];
    let s5 = s4 + third;
    lemma_symbol_before('(', first);
    lemma_symbol_after(s1, c1);
    lemma_lex_concat(s2, second);
    lemma_symbol_after(s3, c2);
    lemma_lex_concat(s4, third);
    lemma_symbol_after(s5, ')');
    let t2 = (open + lex_spec(first)).push(symbol_tok(op1));
    let t4 = (t2 + lex_spec(second)).push(symbol_tok(op2));
    let t5 = t4 + lex_spec(third);
    let tokens = t5.push(symbol_tok(Symbol::RightParen));
    // Their reduction.
    assert(tokens.drop_last() =~= t5);
    lemma_reduce_operand(t4, lex_spec(third), v3);
    lemma_fold_step(v3, None, t2, lex_spec(second), op2, v2);
}

/// An operator that stands in no group is rejected: only a group holds
/// operators.
pub proof fn law_operator_outside_a_group_is_rejected(left: Seq<char>, c: char, right: Seq<char>)
    requires
        is_operator_char(c),
        all_recognized(left),
        eval_spec(right) is Ok,
    ensures
        eval_spec(left + seq![c] + right) == malformed(),
{
    lemma_value_is_atomic(right);
    let s1 = left + seq![c];
    lemma_symbol_after(left, c);
    lemma_lex_concat(s1, right);
    let below = lex_spec(left).push(symbol_tok(symbol_of(c)->0));
    lemma_reduce_operand(below, lex_spec(right), eval_spec(right)->Ok_0);
}

/// An expression that has a value, with `(` in front of it and no `)`
/// behind it, is rejected.
pub proof fn law_unclosed_group_is_rejected(expression: Seq<char>)
    requires
        eval_spec(expression) is Ok,
    ensures
        eval_spec(seq!['('] + expression) == malformed(),
{
    lemma_value_is_atomic(expression);
    lemma_symbol_before('(', expression);
    let open = seq![symbol_tok(Symbol::LeftParen)];
    lemma_reduce_operand(open, lex_spec(expression), eval_spec(expression)->Ok_0);
}

/// An expression that has a value, with `)` behind it and no `(` in front
/// of it, is rejected.
pub proof fn law_unopened_group_is_rejected(expression: Seq<char>)
    requires
        eval_spec(expression) is Ok,
    ensures
        eval_spec(expression + seq![')']) == malformed(),
{
    lemma_symbol_after(expression, ')');
    let inner = lex_spec(expression);
    let tokens = inner.push(symbol_tok(Symbol::RightParen));
    assert(tokens.drop_last() =~= inner);
    let value = eval_spec(expression)->Ok_0;
    assert(molecular_spec(inner).value is None);
}

/// A line that holds a character which is not recognized is rejected by
/// the lexer, whatever else it holds.
pub proof fn law_unrecognized_character_is_rejected(line: Seq<char>, at: int)
    requires
        0 <= at < line.len(),
        !is_recognized(line[at]),
    ensures
        eval_spec(line) == unrecognized(),
{
}

/// A symbol in front of a text is one token in front of the text's tokens.
proof fn lemma_symbol_before(c: char, text: Seq<char>)
    requires
        symbol_of(c) is Some,
    ensures
        lex_spec(seq![c] + text) == seq![symbol_tok(symbol_of(c)->0)] + lex_spec(text),
        all_recognized(seq![c] + text) == all_recognized(text),
{
    let head = seq![c];
    lemma_lex_concat(head, text);
    lemma_lex_of_symbol(c);
    lemma_recognized_concat(head, text);
    assert(all_recognized(head));
}

/// A symbol behind a text is one token behind the text's tokens.
proof fn lemma_symbol_after(text: Seq<char>, c: char)
    requires
        symbol_of(c) is Some,
    ensures
        lex_spec(text + seq![c]) == lex_spec(text).push(symbol_tok(symbol_of(c)->0)),
        all_recognized(text + seq![c]) == all_recognized(text),
{
    let tail = seq![c];
    lemma_lex_concat(text, tail);
    lemma_lex_of_symbol(c);
    lemma_recognized_concat(text, tail);
    assert(all_recognized(tail));
    assert(lex_spec(text) + seq![symbol_tok(symbol_of(c)->0)] =~= lex_spec(text).push(
        symbol_tok(symbol_of(c)->0),
    ));
}

/// The tokens of a line that has a value form one atomic term.
proof fn lemma_value_is_atomic(line: Seq<char>)
    requires
        eval_spec(line) is Ok,
    ensures
        all_recognized(line),
        lex_spec(line).len() > 0,
        atomic_spec(lex_spec(line)) == success(eval_spec(line)->Ok_0, Seq::empty()),
{
    let whole = atomic_spec(lex_spec(line));
    assert(whole.rest =~= Seq::<Tok>::empty());
}

/// A text without a space loses nothing with its spaces.
proof fn lemma_filter_keeps_all(text: Seq<char>)
    requires
        forall|i: int| 0 <= i < text.len() ==> #[trigger] text[i] != ' ',
    ensures
        text.filter(|c: char| c != ' ') == text,
    decreases text.len(),
{
    reveal(Seq::filter);
    if text.len() > 0 {
        let front = text.drop_last();
        lemma_filter_keeps_all(front);
    }
}

/// Where `inner` forms an atomic term of value `value`, the stack that
/// holds `(` and then `inner` is a group of that value, and `(`, `inner`
/// and `)` form an atomic term of that value.
proof fn lemma_reduce_closed_group(inner: Seq<Tok>, value: Seq<char>)
    requires
        atomic_spec(inner) == success(value, Seq::empty()),
    ensures
        molecular_spec(seq![symbol_tok(Symbol::LeftParen)] + inner) == success(value, Seq::empty()),
        atomic_spec(
            (seq![symbol_tok(Symbol::LeftParen)] + inner).push(symbol_tok(Symbol::RightParen)),
        ) == success(value, Seq::empty()),
{
    let open = seq![symbol_tok(Symbol::LeftParen)];
    let below = open + inner;
    let tokens = below.push(symbol_tok(Symbol::RightParen));
    lemma_atomic_frame(open, inner);
    assert(open.drop_last() =~= Seq::<Tok>::empty());
    assert(tokens.drop_last() =~= below);
}

/// Where `inner` forms an atomic term of value `value`, the same tokens on
/// top of a stack whose top is no trim reduce to that value and leave that
/// stack.
proof fn lemma_reduce_operand(below: Seq<Tok>, inner: Seq<Tok>, value: Seq<char>)
    requires
        atomic_spec(inner) == success(value, Seq::empty()),
        below.len() > 0,
        !is_trim_symbol(below.last().symbol),
    ensures
        atomic_spec(below + inner) == success(value, below),
{
    lemma_atomic_frame(below, inner);
}

/// One step of the fold of a group: an operator on top of the stack, which
/// the group may use, and under it an atomic term of value `value`.
proof fn lemma_fold_step(
    acc: Seq<char>,
    dominant: Option<Symbol>,
    below: Seq<Tok>,
    inner: Seq<Tok>,
    operator: Symbol,
    value: Seq<char>,
)
    requires
        atomic_spec(inner) == success(value, Seq::empty()),
        operator == Symbol::Plus || operator == Symbol::Minus,
        dominant is None || dominant == Some(operator),
        below.len() > 0,
        !is_trim_symbol(below.last().symbol),
    ensures
        fold_spec(acc, dominant, (below + inner).push(symbol_tok(operator))) == fold_spec(
            binary_spec(operator, value, acc),
            Some(operator),
            below,
        ),
{
    let stack = (below + inner).push(symbol_tok(operator));
    assert(stack.drop_last() =~= below + inner);
    lemma_reduce_operand(below, inner, value);
}

} // verus!
