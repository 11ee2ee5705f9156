//! The parser, which is the evaluator too: it reads the tokens from the
//! right, as a stack, and folds them into one string.
//!
//! An atomic term is a name or a group in parentheses, with any number of
//! trims to its left. A molecular expression is what stands between two
//! parentheses: atomic terms joined by one kind of operator.
use crate::token::{is_trim_symbol, tok_views, Symbol, Tok, Token};
use crate::value::{left_trim, left_trim_spec, minus, minus_spec, plus, plus_spec, right_trim, right_trim_spec};
use vstd::prelude::*;

verus! {

/// Why a sequence of tokens could not be reduced to a value.
#[derive(Clone, Copy, Debug, PartialEq, Eq, Structural)]
pub enum ParseError {
    /// The tokens form no expression: a parenthesis has no partner, a group
    /// mixes `+` and `-`, a trim meets an empty value, a token stands where
    /// it cannot, or tokens are left over.
    Malformed,
}

/// What a reduction step makes of a stack of tokens: the value, or `None`
/// where the step fails, and the tokens that it left on the stack.
pub ghost struct Reduction {
    pub value: Option<Seq<char>>,
    pub rest: Seq<Tok>,
}

/// The reduction that fails and leaves `rest`.
pub open spec fn failure(rest: Seq<Tok>) -> Reduction {
    Reduction { value: None, rest }
}

/// The reduction that yields `value` and leaves `rest`.
pub open spec fn success(value: Seq<char>, rest: Seq<Tok>) -> Reduction {
    Reduction { value: Some(value), rest }
}

/// What the trim `symbol` makes of `value`.
pub open spec fn trim_spec(symbol: Symbol, value: Seq<char>) -> Seq<char>
    recommends
        is_trim_symbol(symbol),
        value.len() > 0,
{
    if symbol == Symbol::RightTrim {
        right_trim_spec(value)
    } else {
        left_trim_spec(value)
    }
}

/// What the operator `symbol` makes of its two operands.
pub open spec fn binary_spec(symbol: Symbol, left: Seq<char>, right: Seq<char>) -> Seq<char>
    recommends
        symbol == Symbol::Plus || symbol == Symbol::Minus,
{
    if symbol == Symbol::Plus {
        plus_spec(left, right)
    } else {
        minus_spec(left, right)
    }
}

/// Applies to `value` the trims on top of the stack, the topmost first,
/// until the top is no trim. A trim that meets an empty value fails, after
/// it has left the stack.
pub open spec fn trims_spec(value: Seq<char>, tokens: Seq<Tok>) -> Reduction
    decreases tokens.len(),
{
    if tokens.len() > 0 && is_trim_symbol(tokens.last().symbol) {
        if value.len() == 0 {
            failure(tokens.drop_last())
        } else {
            trims_spec(trim_spec(tokens.last().symbol, value), tokens.drop_last())
        }
    } else {
        success(value, tokens)
    }
}

/// Reduces the atomic term on top of the stack: a name, or `)` with the
/// group below it, and then the trims below that.
///
/// Fails on an empty stack, on a top token that is neither a name nor `)`,
/// where the group fails, and where a trim meets an empty value.
pub open spec fn atomic_spec(tokens: Seq<Tok>) -> Reduction
    decreases tokens.len(), 0int,
{
    if tokens.len() == 0 {
        failure(tokens)
    } else {
        let top = tokens.last();
        let below = tokens.drop_last();
        if top.symbol == Symbol::RightParen {
            let group = molecular_spec(below);
            match group.value {
                Some(value) => trims_spec(value, group.rest),
                None => group,
            }
        } else if top.symbol == Symbol::Name {
            trims_spec(top.value, below)
        } else {
            failure(below)
        }
    }
}

/// Reduces a group whose `)` has left the stack: its rightmost term, then
/// operators and terms down to the `(` that opens it.
///
/// The test on the length is there for the recursion to be well founded; it
/// always holds ([`law_molecular_unfolds`]).
pub open spec fn molecular_spec(tokens: Seq<Tok>) -> Reduction
    decreases tokens.len(), 1int,
{
    let first = atomic_spec(tokens);
    match first.value {
        Some(value) if first.rest.len() < tokens.len() => fold_spec(value, None, first.rest),
        _ => first,
    }
}

/// Folds the rest of a group into `acc`, the value of what was read of it.
/// `dominant` is the operator that the group has used so far, if any.
///
/// On top of the stack, `(` ends the group with `acc`. An operator, which
/// must be the dominant one where there is one, is followed by its left
/// operand, an atomic term; the operator's result on that operand and `acc`
/// is the new `acc`. Anything else fails, and so does an empty stack.
///
/// The test on the length is there for the recursion to be well founded; it
/// always holds ([`law_fold_unfolds`]).
pub open spec fn fold_spec(acc: Seq<char>, dominant: Option<Symbol>, tokens: Seq<Tok>) -> Reduction
    decreases tokens.len(), 0int,
{
    if tokens.len() == 0 {
        failure(tokens)
    } else {
        let operator = tokens.last().symbol;
        let below = tokens.drop_last();
        if operator == Symbol::LeftParen {
            success(acc, below)
        } else if operator == Symbol::Plus || operator == Symbol::Minus {
            if dominant is Some && dominant != Some(operator) {
                failure(below)
            } else {
                let left = atomic_spec(below);
                match left.value {
                    Some(value) if left.rest.len() < tokens.len() => fold_spec(
                        binary_spec(operator, value, acc),
                        Some(operator),
                        left.rest,
                    ),
                    _ => left,
                }
            }
        } else {
            failure(below)
        }
    }
}

/// The value of a whole sequence of tokens: that of the atomic term which
/// they must form, with no token left over.
pub open spec fn parse_spec(tokens: Seq<Tok>) -> Option<Seq<char>> {
    let whole = atomic_spec(tokens);
    if whole.rest.len() == 0 {
        whole.value
    } else {
        None
    }
}

/// `prefix` is what `tokens` holds at the bottom of the stack.
pub open spec fn is_bottom_of(prefix: Seq<Tok>, tokens: Seq<Tok>) -> bool {
    prefix.len() <= tokens.len() && prefix == tokens.take(prefix.len() as int)
}

/// The value that a result holds, as a sequence of characters.
pub open spec fn outcome(result: Result<String, ParseError>) -> Option<Seq<char>> {
    match result {
        Ok(value) => Some(value@),
        Err(_) => None,
    }
}

/// Reduces the atomic term on top of the stack `tokens` to its value, and
/// takes the term's tokens from the stack.
///
/// The value and the tokens that stay are those of [`atomic_spec`]; where
/// that fails, so does this function, and the stack is left as the failing
/// step left it.
pub fn parse_atomic(tokens: &mut Vec<Token>) -> (result: Result<String, ParseError>)
    ensures
        outcome(result) == atomic_spec(tok_views(old(tokens)@)).value,
        tok_views(final(tokens)@) == atomic_spec(tok_views(old(tokens)@)).rest,
        final(tokens)@.len() <= old(tokens)@.len(),
        final(tokens)@ == old(tokens)@.take(final(tokens)@.len() as int),
    decreases old(tokens)@.len(), 0int,
{
    let ghost before = tokens@;
    let ghost target = atomic_spec(tok_views(before));
    let cursor = match tokens.pop() {
        Some(token) => token,
        None => { return Err(ParseError::Malformed); },
    };
    let ghost below = tokens@;
    proof {
        lemma_views_drop_last(before);
    }
    let mut value: String = match cursor.symbol {
        Symbol::RightParen => parse_molecular(tokens)?,
        Symbol::Name => cursor.value,
        _ => { return Err(ParseError::Malformed); },
    };
    assert(below =~= below.take(below.len() as int));
    while tokens.len() > 0 && tokens[tokens.len() - 1].is_trim()
        invariant
            before == old(tokens)@,
            target == atomic_spec(tok_views(before)),
            trims_spec(value@, tok_views(tokens@)) == target,
            tokens@.len() <= before.len(),
            tokens@ == before.take(tokens@.len() as int),
        decreases tokens@.len(),
    {
        let ghost stack = tokens@;
        proof {
            lemma_views_drop_last(stack);
        }
        let trim = tokens.pop().unwrap();
        if value.as_str().is_empty() {
            return Err(ParseError::Malformed);
        }
        value = match trim.symbol {
            Symbol::RightTrim => right_trim(&value),
            _ => left_trim(&value),
        };
    }
    Ok(value)
}

/// Reduces the group on top of the stack `tokens`, whose `)` was taken
/// already, to its value, and takes the group's tokens from the stack, its
/// `(` included.
///
/// The value and the tokens that stay are those of [`molecular_spec`]; where
/// that fails, so does this function, and the stack is left as the failing
/// step left it.
pub fn parse_molecular(tokens: &mut Vec<Token>) -> (result: Result<String, ParseError>)
    ensures
        outcome(result) == molecular_spec(tok_views(old(tokens)@)).value,
        tok_views(final(tokens)@) == molecular_spec(tok_views(old(tokens)@)).rest,
        final(tokens)@.len() <= old(tokens)@.len(),
        final(tokens)@ == old(tokens)@.take(final(tokens)@.len() as int),
    decreases old(tokens)@.len(), 1int,
{
    let ghost before = tokens@;
    let ghost target = molecular_spec(tok_views(before));
    proof {
        lemma_atomic_rest(tok_views(before));
    }
    let mut right: String = parse_atomic(tokens)?;
    let mut dominant: Option<Symbol> = None;
    loop
        invariant
            before == old(tokens)@,
            target == molecular_spec(tok_views(before)),
            fold_spec(right@, dominant, tok_views(tokens@)) == target,
            tokens@.len() < before.len(),
            tokens@ == before.take(tokens@.len() as int),
        decreases tokens@.len(),
    {
        let ghost stack = tokens@;
        let cursor = match tokens.pop() {
            Some(token) => token,
            None => { return Err(ParseError::Malformed); },
        };
        let ghost below = tokens@;
        proof {
            lemma_views_drop_last(stack);
            lemma_take_take(before, stack, below);
        }
        let operator: Symbol = match cursor.symbol {
            Symbol::Plus => Symbol::Plus,
            Symbol::Minus => Symbol::Minus,
            Symbol::LeftParen => { return Ok(right); },
            _ => { return Err(ParseError::Malformed); },
        };
        match dominant {
            Some(first) => {
                if first != operator {
                    return Err(ParseError::Malformed);
                }
            },
            None => {
                dominant = Some(operator);
            },
        }
        let left: String = parse_atomic(tokens)?;
        right = match operator {
            Symbol::Plus => plus(left, right),
            _ => minus(left, right),
        };
    }
}

/// Reduces a whole sequence of tokens to its value.
///
/// Succeeds exactly where the tokens form one atomic term and nothing else,
/// with the value of that term.
pub fn parse(tokens: Vec<Token>) -> (result: Result<String, ParseError>)
    ensures
        outcome(result) == parse_spec(tok_views(tokens@)),
{
    let mut tokens = tokens;
    match parse_atomic(&mut tokens) {
        Ok(value) => {
            if tokens.len() > 0 {
                Err(ParseError::Malformed)
            } else {
                Ok(value)
            }
        },
        Err(e) => Err(e),
    }
}

/// Popping a token pops its view.
proof fn lemma_views_drop_last(tokens: Seq<Token>)
    requires
        tokens.len() > 0,
    ensures
        tok_views(tokens.drop_last()) == tok_views(tokens).drop_last(),
        tok_views(tokens).last() == tokens.last()@,
{
}

/// The bottom of the bottom of a stack is a bottom of the stack.
proof fn lemma_take_take(tokens: Seq<Token>, middle: Seq<Token>, bottom: Seq<Token>)
    requires
        middle.len() <= tokens.len(),
        middle == tokens.take(middle.len() as int),
        bottom.len() <= middle.len(),
        bottom == middle.take(bottom.len() as int),
    ensures
        bottom == tokens.take(bottom.len() as int),
{
}

/// The trims take tokens from the top only.
pub proof fn lemma_trims_rest(value: Seq<char>, tokens: Seq<Tok>)
    ensures
        is_bottom_of(trims_spec(value, tokens).rest, tokens),
    decreases tokens.len(),
{
    if tokens.len() > 0 && is_trim_symbol(tokens.last().symbol) {
        let below = tokens.drop_last();
        if value.len() > 0 {
            let next = trim_spec(tokens.last().symbol, value);
            lemma_trims_rest(next, below);
            let rest = trims_spec(next, below).rest;
            assert(rest =~= tokens.take(rest.len() as int));
        }
    } else {
        assert(tokens =~= tokens.take(tokens.len() as int));
    }
}

/// An atomic term takes tokens from the top only, and at least one where
/// there is one.
pub proof fn lemma_atomic_rest(tokens: Seq<Tok>)
    ensures
        is_bottom_of(atomic_spec(tokens).rest, tokens),
        tokens.len() > 0 ==> atomic_spec(tokens).rest.len() < tokens.len(),
    decreases tokens.len(), 0int,
{
    if tokens.len() == 0 {
        assert(tokens =~= tokens.take(0));
    } else {
        let top = tokens.last();
        let below = tokens.drop_last();
        if top.symbol == Symbol::RightParen {
            lemma_molecular_rest(below);
            let group = molecular_spec(below);
            match group.value {
                Some(value) => {
                    lemma_trims_rest(value, group.rest);
                    let rest = trims_spec(value, group.rest).rest;
                    assert(rest =~= tokens.take(rest.len() as int));
                },
                None => {
                    assert(group.rest =~= tokens.take(group.rest.len() as int));
                },
            }
        } else if top.symbol == Symbol::Name {
            lemma_trims_rest(top.value, below);
            let rest = trims_spec(top.value, below).rest;
            assert(rest =~= tokens.take(rest.len() as int));
        }
    }
}

/// A group takes tokens from the top only.
pub proof fn lemma_molecular_rest(tokens: Seq<Tok>)
    ensures
        is_bottom_of(molecular_spec(tokens).rest, tokens),
    decreases tokens.len(), 1int,
{
    lemma_atomic_rest(tokens);
    let first = atomic_spec(tokens);
    if let Some(value) = first.value {
        if first.rest.len() < tokens.len() {
            lemma_fold_rest(value, None, first.rest);
            let rest = fold_spec(value, None, first.rest).rest;
            assert(rest =~= tokens.take(rest.len() as int));
        }
    }
}

/// The fold of a group takes tokens from the top only.
pub proof fn lemma_fold_rest(acc: Seq<char>, dominant: Option<Symbol>, tokens: Seq<Tok>)
    ensures
        is_bottom_of(fold_spec(acc, dominant, tokens).rest, tokens),
    decreases tokens.len(), 0int,
{
    if tokens.len() == 0 {
        assert(tokens =~= tokens.take(0));
    } else {
        let operator = tokens.last().symbol;
        let below = tokens.drop_last();
        if operator == Symbol::Plus || operator == Symbol::Minus {
            if !(dominant is Some && dominant != Some(operator)) {
                lemma_atomic_rest(below);
                let left = atomic_spec(below);
                assert(left.rest =~= tokens.take(left.rest.len() as int));
                if let Some(value) = left.value {
                    let next = binary_spec(operator, value, acc);
                    lemma_fold_rest(next, Some(operator), left.rest);
                    let rest = fold_spec(next, Some(operator), left.rest).rest;
                    assert(rest =~= tokens.take(rest.len() as int));
                }
            }
        }
    }
}

/// The test on the length in [`molecular_spec`] always holds: a group is
/// its rightmost term and then the fold of what that term left.
pub proof fn law_molecular_unfolds(tokens: Seq<Tok>)
    ensures
        molecular_spec(tokens) == match atomic_spec(tokens).value {
            Some(value) => fold_spec(value, None, atomic_spec(tokens).rest),
            None => atomic_spec(tokens),
        },
{
    lemma_atomic_rest(tokens);
}

/// The test on the length in [`fold_spec`] always holds: after an operator
/// that the group may use, the fold goes on with the operator's result and
/// with what the left operand left.
pub proof fn law_fold_unfolds(acc: Seq<char>, dominant: Option<Symbol>, tokens: Seq<Tok>)
    requires
        tokens.len() > 0,
        tokens.last().symbol == Symbol::Plus || tokens.last().symbol == Symbol::Minus,
        dominant is None || dominant == Some(tokens.last().symbol),
    ensures
        fold_spec(acc, dominant, tokens) == match atomic_spec(tokens.drop_last()).value {
            Some(value) => fold_spec(
                binary_spec(tokens.last().symbol, value, acc),
                Some(tokens.last().symbol),
                atomic_spec(tokens.drop_last()).rest,
            ),
            None => atomic_spec(tokens.drop_last()),
        },
{
    lemma_atomic_rest(tokens.drop_last());
}

/// Trims that succeed on a stack do the same on that stack with `below`
/// under it, and then go on with what `below` holds on top.
pub proof fn lemma_trims_frame(value: Seq<char>, below: Seq<Tok>, tokens: Seq<Tok>)
    requires
        trims_spec(value, tokens).value is Some,
    ensures
        trims_spec(value, below + tokens) == trims_spec(
            trims_spec(value, tokens).value->0,
            below + trims_spec(value, tokens).rest,
        ),
    decreases tokens.len(),
{
    if tokens.len() > 0 && is_trim_symbol(tokens.last().symbol) {
        let whole = below + tokens;
        assert(whole.drop_last() =~= below + tokens.drop_last());
        lemma_trims_frame(trim_spec(tokens.last().symbol, value), below, tokens.drop_last());
    }
}

/// An atomic term that a stack holds on top is reduced in the same way with
/// `below` under that stack; its trims then go on with what `below` holds
/// on top.
pub proof fn lemma_atomic_frame(below: Seq<Tok>, tokens: Seq<Tok>)
    requires
        atomic_spec(tokens).value is Some,
    ensures
        atomic_spec(below + tokens) == trims_spec(
            atomic_spec(tokens).value->0,
            below + atomic_spec(tokens).rest,
        ),
    decreases tokens.len(), 0int,
{
    let whole = below + tokens;
    let top = tokens.last();
    let under = tokens.drop_last();
    assert(whole.drop_last() =~= below + under);
    if top.symbol == Symbol::RightParen {
        lemma_molecular_frame(below, under);
        let group = molecular_spec(under);
        lemma_trims_frame(group.value->0, below, group.rest);
    } else {
        lemma_trims_frame(top.value, below, under);
    }
}

/// A group that a stack holds on top is reduced in the same way with
/// `below` under that stack, and leaves `below` untouched.
pub proof fn lemma_molecular_frame(below: Seq<Tok>, tokens: Seq<Tok>)
    requires
        molecular_spec(tokens).value is Some,
    ensures
        molecular_spec(below + tokens) == success(
            molecular_spec(tokens).value->0,
            below + molecular_spec(tokens).rest,
        ),
    decreases tokens.len(), 1int,
{
    let first = atomic_spec(tokens);
    lemma_atomic_rest(tokens);
    lemma_atomic_frame(below, tokens);
    lemma_fold_frame(first.value->0, None, below, first.rest);
}

/// The rest of a group that a stack holds on top is folded in the same way
/// with `below` under that stack, and leaves `below` untouched.
pub proof fn lemma_fold_frame(
    acc: Seq<char>,
    dominant: Option<Symbol>,
    below: Seq<Tok>,
    tokens: Seq<Tok>,
)
    requires
        fold_spec(acc, dominant, tokens).value is Some,
    ensures
        fold_spec(acc, dominant, below + tokens) == success(
            fold_spec(acc, dominant, tokens).value->0,
            below + fold_spec(acc, dominant, tokens).rest,
        ),
    decreases tokens.len(), 0int,
{
    let whole = below + tokens;
    let operator = tokens.last().symbol;
    let under = tokens.drop_last();
    assert(whole.drop_last() =~= below + under);
    if operator != Symbol::LeftParen {
        let left = atomic_spec(under);
        lemma_atomic_rest(under);
        lemma_atomic_frame(below, under);
        let next = binary_spec(operator, left.value->0, acc);
        lemma_fold_frame(next, Some(operator), below, left.rest);
    }
}

} // verus!
