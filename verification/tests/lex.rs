use strexpr::lexer::{tokenize, LexError};
use strexpr::token::{Symbol, Token};

fn kinds(tokens: &[Token]) -> Vec<(Symbol, String)> {
    tokens.iter().map(|t| (t.symbol, t.value.clone())).collect()
}

fn name(text: &str) -> (Symbol, String) {
    (Symbol::Name, String::from(text))
}

fn sym(symbol: Symbol) -> (Symbol, String) {
    (symbol, String::new())
}

#[test]
fn token_constructors() {
    let e = Token::expression(String::from("abc"));
    assert_eq!(e.symbol, Symbol::Name);
    assert_eq!(e.value, "abc");
    let p = Token::symbol(Symbol::Plus);
    assert_eq!(p.symbol, Symbol::Plus);
    assert_eq!(p.value, "");
}

#[test]
fn only_the_two_trims_are_trims() {
    assert!(Token::symbol(Symbol::LeftTrim).is_trim());
    assert!(Token::symbol(Symbol::RightTrim).is_trim());
    assert!(!Token::symbol(Symbol::LeftParen).is_trim());
    assert!(!Token::symbol(Symbol::RightParen).is_trim());
    assert!(!Token::symbol(Symbol::Plus).is_trim());
    assert!(!Token::symbol(Symbol::Minus).is_trim());
    assert!(!Token::expression(String::from("a")).is_trim());
}

#[test]
fn empty_line_has_no_tokens() {
    assert!(tokenize("").unwrap().is_empty());
    assert!(tokenize("   ").unwrap().is_empty());
}

#[test]
fn a_name_at_the_end_of_the_line_is_a_token() {
    assert_eq!(kinds(&tokenize("snow").unwrap()), vec![name("snow")]);
    assert_eq!(kinds(&tokenize("a+bc").unwrap()), vec![name("a"), sym(Symbol::Plus), name("bc")]);
}

#[test]
fn each_symbol_has_its_token() {
    assert_eq!(
        kinds(&tokenize("()><+-").unwrap()),
        vec![
            sym(Symbol::LeftParen),
            sym(Symbol::RightParen),
            sym(Symbol::LeftTrim),
            sym(Symbol::RightTrim),
            sym(Symbol::Plus),
            sym(Symbol::Minus),
        ]
    );
}

#[test]
fn names_are_maximal_runs_of_letters() {
    assert_eq!(
        kinds(&tokenize("abc(de)f").unwrap()),
        vec![
            name("abc"),
            sym(Symbol::LeftParen),
            name("de"),
            sym(Symbol::RightParen),
            name("f"),
        ]
    );
    assert_eq!(kinds(&tokenize("az").unwrap()), vec![name("az")]);
}

#[test]
fn a_space_ends_a_name_and_gives_no_token() {
    assert_eq!(kinds(&tokenize("ab cd").unwrap()), vec![name("ab"), name("cd")]);
    assert_eq!(
        kinds(&tokenize("  a  +  b  ").unwrap()),
        vec![name("a"), sym(Symbol::Plus), name("b")]
    );
}

#[test]
fn tokens_come_in_reading_order() {
    assert_eq!(
        kinds(&tokenize("<(ab-c)").unwrap()),
        vec![
            sym(Symbol::RightTrim),
            sym(Symbol::LeftParen),
            name("ab"),
            sym(Symbol::Minus),
            name("c"),
            sym(Symbol::RightParen),
        ]
    );
}

#[test]
fn an_unrecognized_character_fails() {
    assert_eq!(tokenize("a*b").unwrap_err(), LexError::UnrecognizedCharacter);
    assert_eq!(tokenize("*").unwrap_err(), LexError::UnrecognizedCharacter);
    assert_eq!(tokenize("ab*").unwrap_err(), LexError::UnrecognizedCharacter);
    assert_eq!(tokenize("A").unwrap_err(), LexError::UnrecognizedCharacter);
    assert_eq!(tokenize("a1").unwrap_err(), LexError::UnrecognizedCharacter);
    assert_eq!(tokenize("a\tb").unwrap_err(), LexError::UnrecognizedCharacter);
    assert_eq!(tokenize("a\n").unwrap_err(), LexError::UnrecognizedCharacter);
    assert_eq!(tokenize("é").unwrap_err(), LexError::UnrecognizedCharacter);
    assert_eq!(tokenize("`").unwrap_err(), LexError::UnrecognizedCharacter);
    assert_eq!(tokenize("{").unwrap_err(), LexError::UnrecognizedCharacter);
}
