use strexpr::lexer::tokenize;
use strexpr::parser::{parse, parse_atomic, parse_molecular, ParseError};
use strexpr::token::{Symbol, Token};

fn tokens(line: &str) -> Vec<Token> {
    tokenize(line).unwrap()
}

fn value(line: &str) -> Result<String, ParseError> {
    parse(tokens(line))
}

fn ok(text: &str) -> Result<String, ParseError> {
    Ok(String::from(text))
}

const MALFORMED: Result<String, ParseError> = Err(ParseError::Malformed);

#[test]
fn a_name_is_its_own_value() {
    assert_eq!(value("snow"), ok("snow"));
    assert_eq!(parse(vec![Token::expression(String::from("x"))]), ok("x"));
}

#[test]
fn a_name_token_without_text_has_the_empty_value() {
    assert_eq!(parse(vec![Token::symbol(Symbol::Name)]), ok(""));
    assert_eq!(
        parse(vec![Token::symbol(Symbol::LeftTrim), Token::symbol(Symbol::Name)]),
        MALFORMED
    );
}

#[test]
fn no_tokens_are_malformed() {
    assert_eq!(parse(Vec::new()), MALFORMED);
}

#[test]
fn a_group_has_the_value_of_its_content() {
    assert_eq!(value("(a)"), ok("a"));
    assert_eq!(value("((a))"), ok("a"));
    assert_eq!(value("(a+b)"), ok("ab"));
    assert_eq!(value("((a+b))"), ok("ab"));
}

#[test]
fn plus_reads_from_left_to_right() {
    assert_eq!(value("(a+b+c)"), ok("abc"));
    assert_eq!(value("(ab+cd+ef+gh)"), ok("abcdefgh"));
}

#[test]
fn minus_removes_the_first_occurrence() {
    assert_eq!(value("(abcabc-bc)"), ok("aabc"));
    assert_eq!(value("(xyz-q)"), ok("xyz"));
}

#[test]
fn minus_folds_from_the_right() {
    // abcb - (cb - c) = abcb - b
    assert_eq!(value("(abcb-cb-c)"), ok("acb"));
    // (abcb - cb) - c would be ab
    assert_eq!(value("((abcb-cb)-c)"), ok("ab"));
}

#[test]
fn a_trim_stands_to_the_left_of_its_term() {
    assert_eq!(value("<abc"), ok("ab"));
    assert_eq!(value(">abc"), ok("bc"));
    assert_eq!(value("<a"), ok(""));
    assert_eq!(value(">a"), ok(""));
}

#[test]
fn trims_apply_from_the_term_outwards() {
    assert_eq!(value("<>abc"), ok("b"));
    assert_eq!(value("><abc"), ok("b"));
    assert_eq!(value("<<abc"), ok("a"));
    assert_eq!(value(">>abc"), ok("c"));
    assert_eq!(value("><<>abcdef"), ok("cd"));
}

#[test]
fn a_trim_applies_to_a_group() {
    assert_eq!(value("<(ab+cd)"), ok("abc"));
    assert_eq!(value(">(ab+cd)"), ok("bcd"));
    assert_eq!(value("(a+<bc+>de)"), ok("abe"));
}

#[test]
fn a_trim_of_an_empty_value_is_malformed() {
    assert_eq!(value("<<a"), MALFORMED);
    assert_eq!(value(">>a"), MALFORMED);
    assert_eq!(value("<>a"), MALFORMED);
    assert_eq!(value("<(a-a)"), MALFORMED);
}

#[test]
fn a_trim_to_the_right_of_its_term_is_malformed() {
    assert_eq!(value("abc>"), MALFORMED);
    assert_eq!(value("abc<"), MALFORMED);
    assert_eq!(value("<abc>"), MALFORMED);
}

#[test]
fn an_operator_outside_a_group_is_malformed() {
    assert_eq!(value("a+b"), MALFORMED);
    assert_eq!(value("a+b+c"), MALFORMED);
    assert_eq!(value("abcabc-bc"), MALFORMED);
    assert_eq!(value("(a)+(b)"), MALFORMED);
}

#[test]
fn mixed_operators_are_malformed() {
    assert_eq!(value("a+b-c"), MALFORMED);
    assert_eq!(value("(a+b-c)"), MALFORMED);
    assert_eq!(value("(a-b+c)"), MALFORMED);
    assert_eq!(value("(a+b+c-d)"), MALFORMED);
}

#[test]
fn a_group_inside_a_group_may_use_the_other_operator() {
    assert_eq!(value("(a+(bcb-b)+d)"), ok("acbd"));
    assert_eq!(value("((ab+cd)-bc)"), ok("ad"));
    assert_eq!(value("((a+b)-(a+b))"), ok(""));
}

#[test]
fn unbalanced_parentheses_are_malformed() {
    assert_eq!(value("(a+b"), MALFORMED);
    assert_eq!(value("a+b)"), MALFORMED);
    assert_eq!(value("("), MALFORMED);
    assert_eq!(value(")"), MALFORMED);
    assert_eq!(value("((a)"), MALFORMED);
    assert_eq!(value("(a))"), MALFORMED);
    assert_eq!(value("()"), MALFORMED);
}

#[test]
fn a_missing_operand_is_malformed() {
    assert_eq!(value("(a+)"), MALFORMED);
    assert_eq!(value("(+a)"), MALFORMED);
    assert_eq!(value("(+)"), MALFORMED);
    assert_eq!(value("+"), MALFORMED);
    assert_eq!(value("<"), MALFORMED);
}

#[test]
fn two_terms_without_an_operator_are_malformed() {
    assert_eq!(value("a b"), MALFORMED);
    assert_eq!(value("(a b)"), MALFORMED);
    assert_eq!(value("(a)(b)"), MALFORMED);
    assert_eq!(value("(a(b))"), MALFORMED);
}

#[test]
fn parse_atomic_takes_one_term_from_the_top() {
    let mut stack = tokens("a+<(b+c)");
    assert_eq!(parse_atomic(&mut stack), ok("b"));
    assert_eq!(stack.len(), 2);
    assert_eq!(stack[0].value, "a");
    assert_eq!(stack[1].symbol, Symbol::Plus);
    assert_eq!(parse_atomic(&mut stack), MALFORMED);
    assert_eq!(stack.len(), 1);
    assert_eq!(parse_atomic(&mut stack), ok("a"));
    assert!(stack.is_empty());
    assert_eq!(parse_atomic(&mut stack), MALFORMED);
    assert!(stack.is_empty());
}

#[test]
fn parse_atomic_stops_where_a_trim_fails() {
    let mut stack = tokens("a+<>>b");
    assert_eq!(parse_atomic(&mut stack), MALFORMED);
    assert_eq!(stack.len(), 3);
    assert_eq!(stack[2].symbol, Symbol::RightTrim);
}

#[test]
fn parse_molecular_takes_a_group_down_to_its_opening() {
    let mut stack = tokens("x-(a+b+c");
    assert_eq!(parse_molecular(&mut stack), ok("abc"));
    assert_eq!(stack.len(), 2);
    assert_eq!(stack[1].symbol, Symbol::Minus);
}

#[test]
fn parse_molecular_stops_at_the_mixed_operator() {
    let mut stack = tokens("(x-a+b+c");
    assert_eq!(parse_molecular(&mut stack), MALFORMED);
    assert_eq!(stack.len(), 2);
    assert_eq!(stack[1].value, "x");
}

#[test]
fn parse_molecular_without_an_opening_is_malformed() {
    let mut stack = tokens("a+b");
    assert_eq!(parse_molecular(&mut stack), MALFORMED);
    assert!(stack.is_empty());
}
