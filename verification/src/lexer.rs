//! The lexer: from a line of text to its tokens.
use crate::token::{name_tok, symbol_tok, tok_views, Symbol, Tok, Token};
use crate::value::chars_of;
use vstd::prelude::*;

verus! {

/// Why a line could not be split into tokens.
#[derive(Clone, Copy, Debug, PartialEq, Eq, Structural)]
pub enum LexError {
    /// The line holds a character that is neither a lowercase letter, nor a
    /// space, nor one of the six symbols.
    UnrecognizedCharacter,
}

/// The letters of which names are made: `a` to `z`.
pub open spec fn is_letter(c: char) -> bool {
    'a' <= c <= 'z'
}

/// The token kind that a symbol character stands for.
pub open spec fn symbol_of(c: char) -> Option<Symbol> {
    if c == '(' {
        Some(Symbol::LeftParen)
    } else if c == ')' {
        Some(Symbol::RightParen)
    } else if c == '>' {
        Some(Symbol::LeftTrim)
    } else if c == '<' {
        Some(Symbol::RightTrim)
    } else if c == '+' {
        Some(Symbol::Plus)
    } else if c == '-' {
        Some(Symbol::Minus)
    } else {
        None
    }
}

/// A character that may stand in a line: a letter, a space or a symbol.
pub open spec fn is_recognized(c: char) -> bool {
    is_letter(c) || c == ' ' || symbol_of(c) is Some
}

/// Every character of `line` is recognized.
pub open spec fn all_recognized(line: Seq<char>) -> bool {
    forall|i: int| 0 <= i < line.len() ==> is_recognized(#[trigger] line[i])
}

/// `text` is made of letters only.
pub open spec fn all_letters(text: Seq<char>) -> bool {
    forall|i: int| 0 <= i < text.len() ==> is_letter(#[trigger] text[i])
}

/// `text` is made of spaces only.
pub open spec fn all_spaces(text: Seq<char>) -> bool {
    forall|i: int| 0 <= i < text.len() ==> #[trigger] text[i] == ' '
}

/// No name runs from the end of `left` into the start of `right`.
pub open spec fn separated(left: Seq<char>, right: Seq<char>) -> bool {
    left.len() == 0 || right.len() == 0 || !is_letter(left.last()) || !is_letter(right[0])
}

/// The number of letters at the start of `text`, up to its first character
/// that is no letter.
pub open spec fn name_len(text: Seq<char>) -> nat
    decreases text.len(),
{
    if text.len() > 0 && is_letter(text[0]) {
        1 + name_len(text.drop_first())
    } else {
        0
    }
}

/// The tokens of `line`, in reading order. A name is a maximal run of
/// letters; a space yields no token. A character that is not recognized
/// yields none either: [`tokenize`] rejects a line that holds one.
pub open spec fn lex_spec(line: Seq<char>) -> Seq<Tok>
    decreases line.len(),
{
    if line.len() == 0 {
        Seq::empty()
    } else if is_letter(line[0]) {
        proof {
            lemma_name_len_bounds(line);
        }
        let n = name_len(line) as int;
        seq![name_tok(line.take(n))] + lex_spec(line.skip(n))
    } else {
        match symbol_of(line[0]) {
            Some(symbol) => seq![symbol_tok(symbol)] + lex_spec(line.drop_first()),
            None => lex_spec(line.drop_first()),
        }
    }
}

/// Splits `line` into tokens, in reading order.
///
/// Fails exactly where the line holds a character that is not recognized.
pub fn tokenize(line: &str) -> (result: Result<Vec<Token>, LexError>)
    ensures
        result is Ok <==> all_recognized(line@),
        result matches Ok(tokens) ==> tok_views(tokens@) == lex_spec(line@),
        result matches Err(e) ==> e == LexError::UnrecognizedCharacter,
{
    let chars = chars_of(line);
    let n: usize = chars.len();
    let mut tokens: Vec<Token> = Vec::new();
    let mut start: usize = 0;
    let mut i: usize = 0;
    assert(line@.skip(0) =~= line@);
    while i < n
        invariant
            chars@ == line@,
            n == line@.len(),
            start <= i <= n,
            forall|j: int| start <= j < i ==> is_letter(#[trigger] line@[j]),
            forall|j: int| 0 <= j < i ==> is_recognized(#[trigger] line@[j]),
            lex_spec(line@) == tok_views(tokens@) + lex_spec(line@.skip(start as int)),
        decreases n - i,
    {
        let c = chars[i];
        if 'a' <= c && c <= 'z' {
            i += 1;
        } else {
            if start < i {
                proof {
                    lemma_lex_name(line@, start as int, i as int);
                }
                let name = String::from_str(line.substring_char(start, i));
                let ghost before = tokens@;
                tokens.push(Token::expression(name));
                assert(tok_views(tokens@) =~= tok_views(before).push(
                    name_tok(line@.subrange(start as int, i as int)),
                ));
            }
            proof {
                lemma_lex_step(line@, i as int);
            }
            if c == ' ' {
            } else if c == '(' {
                tokens.push(Token::symbol(Symbol::LeftParen));
            } else if c == ')' {
                tokens.push(Token::symbol(Symbol::RightParen));
            } else if c == '>' {
                tokens.push(Token::symbol(Symbol::LeftTrim));
            } else if c == '<' {
                tokens.push(Token::symbol(Symbol::RightTrim));
            } else if c == '+' {
                tokens.push(Token::symbol(Symbol::Plus));
            } else if c == '-' {
                tokens.push(Token::symbol(Symbol::Minus));
            } else {
                return Err(LexError::UnrecognizedCharacter);
            }
            i += 1;
            start = i;
        }
    }
    if start < n {
        proof {
            lemma_lex_name(line@, start as int, n as int);
        }
        let name = String::from_str(line.substring_char(start, n));
        let ghost before = tokens@;
        tokens.push(Token::expression(name));
        assert(tok_views(tokens@) =~= tok_views(before).push(
            name_tok(line@.subrange(start as int, n as int)),
        ));
    }
    Ok(tokens)
}

/// `name_len` stays within the text, and is positive where the text starts
/// with a letter.
pub proof fn lemma_name_len_bounds(text: Seq<char>)
    ensures
        name_len(text) <= text.len(),
        text.len() > 0 && is_letter(text[0]) ==> name_len(text) >= 1,
    decreases text.len(),
{
    if text.len() > 0 && is_letter(text[0]) {
        lemma_name_len_bounds(text.drop_first());
    }
}

/// A run of `run` letters that ends the text, or is followed by a character
/// that is no letter, is the name at the start of the text.
pub proof fn lemma_name_len_of_run(text: Seq<char>, run: int)
    requires
        0 <= run <= text.len(),
        forall|i: int| 0 <= i < run ==> is_letter(#[trigger] text[i]),
        run == text.len() || !is_letter(text[run]),
    ensures
        name_len(text) == run,
    decreases run,
{
    if run > 0 {
        lemma_name_len_of_run(text.drop_first(), run - 1);
    }
}

/// The letters from `start` up to `end`, where they end the line or are
/// followed by a character that is no letter, are the first token of what
/// the line holds from `start` on.
proof fn lemma_lex_name(line: Seq<char>, start: int, end: int)
    requires
        0 <= start < end <= line.len(),
        forall|j: int| start <= j < end ==> is_letter(#[trigger] line[j]),
        end == line.len() || !is_letter(line[end]),
    ensures
        lex_spec(line.skip(start)) == seq![name_tok(line.subrange(start, end))] + lex_spec(
            line.skip(end),
        ),
{
    let tail = line.skip(start);
    lemma_name_len_of_run(tail, end - start);
    assert(tail.take(end - start) =~= line.subrange(start, end));
    assert(tail.skip(end - start) =~= line.skip(end));
}

/// A character that is no letter yields its symbol's token, if it has one,
/// and leaves the rest of the line to be read.
proof fn lemma_lex_step(line: Seq<char>, at: int)
    requires
        0 <= at < line.len(),
        !is_letter(line[at]),
    ensures
        lex_spec(line.skip(at)) == match symbol_of(line[at]) {
            Some(symbol) => seq![symbol_tok(symbol)] + lex_spec(line.skip(at + 1)),
            None => lex_spec(line.skip(at + 1)),
        },
{
    assert(line.skip(at).drop_first() =~= line.skip(at + 1));
}

/// The name at the start of a text is made of letters, and what follows it
/// is no letter.
pub proof fn lemma_name_len_is_run(text: Seq<char>)
    ensures
        name_len(text) <= text.len(),
        forall|i: int| 0 <= i < name_len(text) ==> is_letter(#[trigger] text[i]),
        name_len(text) < text.len() ==> !is_letter(text[name_len(text) as int]),
    decreases text.len(),
{
    if text.len() > 0 && is_letter(text[0]) {
        let rest = text.drop_first();
        lemma_name_len_is_run(rest);
        assert forall|i: int| 0 <= i < name_len(text) implies is_letter(#[trigger] text[i]) by {
            if i > 0 {
                assert(text[i] == rest[i - 1]);
            }
        }
    }
}

/// A line is recognized exactly where each of its two parts is.
pub proof fn lemma_recognized_concat(left: Seq<char>, right: Seq<char>)
    ensures
        all_recognized(left + right) <==> all_recognized(left) && all_recognized(right),
{
    let whole = left + right;
    if all_recognized(whole) {
        assert forall|i: int| 0 <= i < left.len() implies is_recognized(#[trigger] left[i]) by {
            assert(left[i] == whole[i]);
        }
        assert forall|i: int| 0 <= i < right.len() implies is_recognized(#[trigger] right[i]) by {
            assert(right[i] == whole[i + left.len()]);
        }
    }
}

/// The tokens of two texts in a row are the tokens of the first and then
/// those of the second, where no name runs from one into the other.
pub proof fn lemma_lex_concat(left: Seq<char>, right: Seq<char>)
    requires
        separated(left, right),
    ensures
        lex_spec(left + right) == lex_spec(left) + lex_spec(right),
    decreases left.len(),
{
    let whole = left + right;
    if left.len() > 0 && right.len() > 0 {
        if is_letter(left[0]) {
            let n = name_len(left) as int;
            lemma_name_len_is_run(left);
            lemma_name_len_of_run(whole, n);
            let tail = left.skip(n);
            assert(whole.take(n) =~= left.take(n));
            assert(whole.skip(n) =~= tail + right);
            lemma_lex_concat(tail, right);
        } else {
            let tail = left.drop_first();
            assert(whole.drop_first() =~= tail + right);
            lemma_lex_concat(tail, right);
        }
    }
}

/// A text of letters is one name.
pub proof fn lemma_lex_of_name(name: Seq<char>)
    requires
        name.len() > 0,
        all_letters(name),
    ensures
        lex_spec(name) == seq![name_tok(name)],
{
    lemma_name_len_of_run(name, name.len() as int);
    assert(name.take(name.len() as int) =~= name);
    assert(name.skip(name.len() as int) =~= Seq::<char>::empty());
    assert(lex_spec(Seq::<char>::empty()) =~= Seq::<Tok>::empty());
}

/// A symbol character alone is the one token of its kind.
pub proof fn lemma_lex_of_symbol(c: char)
    requires
        symbol_of(c) is Some,
    ensures
        lex_spec(seq![c]) == seq![symbol_tok(symbol_of(c)->0)],
{
    let text = seq![c];
    assert(text.drop_first() =~= Seq::<char>::empty());
    assert(lex_spec(Seq::<char>::empty()) =~= Seq::<Tok>::empty());
}

/// A text of spaces has no tokens.
pub proof fn lemma_lex_of_spaces(text: Seq<char>)
    requires
        all_spaces(text),
    ensures
        lex_spec(text) == Seq::<Tok>::empty(),
    decreases text.len(),
{
    if text.len() > 0 {
        lemma_lex_of_spaces(text.drop_first());
    }
}

} // verus!
