//! Tokens of the expression language and their mathematical view.
use vstd::prelude::*;

verus! {

/// The kind of a token.
#[derive(Clone, Copy, Debug, PartialEq, Eq, Structural)]
pub enum Symbol {
    /// A run of lowercase letters.
    Name,
    /// `(`
    LeftParen,
    /// `)`
    RightParen,
    /// `>`: drops the first character of the value it applies to.
    LeftTrim,
    /// `<`: drops the last character of the value it applies to.
    RightTrim,
    /// `+`
    Plus,
    /// `-`
    Minus,
}

/// The mathematical view of a [`Token`]: its kind and its text as a sequence
/// of characters. The text is meaningful for a name only.
pub ghost struct Tok {
    pub symbol: Symbol,
    pub value: Seq<char>,
}

/// A token: a kind and, for a name, its text.
#[derive(Debug)]
pub struct Token {
    pub value: String,
    pub symbol: Symbol,
}

impl View for Token {
    type V = Tok;

    open spec fn view(&self) -> Tok {
        Tok { symbol: self.symbol, value: self.value@ }
    }
}

/// The view of a name token with the given text.
pub open spec fn name_tok(text: Seq<char>) -> Tok {
    Tok { symbol: Symbol::Name, value: text }
}

/// The view of a token of the given kind without text.
pub open spec fn symbol_tok(symbol: Symbol) -> Tok {
    Tok { symbol, value: Seq::<char>::empty() }
}

/// Whether a token kind is one of the two trims.
pub open spec fn is_trim_symbol(symbol: Symbol) -> bool {
    symbol == Symbol::RightTrim || symbol == Symbol::LeftTrim
}

/// The views of a sequence of tokens, in the same order.
pub open spec fn tok_views(tokens: Seq<Token>) -> Seq<Tok> {
    tokens.map_values(|t: Token| t@)
}

impl Token {
    /// A name token holding `value`.
    pub fn expression(value: String) -> (token: Token)
        ensures
            token@ == name_tok(value@),
    {
        Token { value, symbol: Symbol::Name }
    }

    /// A token of kind `symbol` with empty text.
    pub fn symbol(symbol: Symbol) -> (token: Token)
        ensures
            token@ == symbol_tok(symbol),
    {
        Token { value: String::new(), symbol }
    }

    /// Whether this token is a trim.
    pub fn is_trim(&self) -> (trim: bool)
        ensures
            trim == is_trim_symbol(self@.symbol),
    {
        self.symbol == Symbol::RightTrim || self.symbol == Symbol::LeftTrim
    }
}

} // verus!
