use strexpr::interpreter::{eval, interpret, EvalError};
use strexpr::lexer::LexError;
use strexpr::parser::ParseError;

fn ok(text: &str) -> Result<String, EvalError> {
    Ok(String::from(text))
}

const MALFORMED: Result<String, EvalError> = Err(EvalError::Parse(ParseError::Malformed));

const UNRECOGNIZED: Result<String, EvalError> =
    Err(EvalError::Lex(LexError::UnrecognizedCharacter));

#[test]
fn a_bare_name_evaluates_to_itself() {
    assert_eq!(eval("snow"), ok("snow"));
    assert_eq!(eval("  snow "), ok("snow"));
    assert_eq!(eval("z"), ok("z"));
}

#[test]
fn two_names_side_by_side_have_no_value() {
    assert_eq!(eval("sn ow"), MALFORMED);
    assert_eq!(eval(""), MALFORMED);
    assert_eq!(eval("  "), MALFORMED);
}

#[test]
fn parentheses_are_transparent() {
    for e in ["snow", "(a+b)", "<abc", "((abcabc-bc))", "><(ab+cd)"] {
        let inner = eval(e);
        assert!(inner.is_ok());
        assert_eq!(eval(&format!("({e})")), inner);
    }
}

#[test]
fn left_trim_symbol_drops_the_first_character() {
    assert_eq!(eval(">abc"), ok("bc"));
}

#[test]
fn right_trim_symbol_drops_the_last_character() {
    assert_eq!(eval("<abc"), ok("ab"));
}

#[test]
fn trimming_a_single_character_gives_the_empty_string() {
    assert_eq!(eval("<a"), ok(""));
    assert_eq!(eval(">a"), ok(""));
}

#[test]
fn trimming_the_empty_string_is_rejected() {
    assert_eq!(eval("<<a"), MALFORMED);
    assert_eq!(eval("><a"), MALFORMED);
}

#[test]
fn plus_concatenates_in_reading_order() {
    assert_eq!(eval("(a+b+c)"), ok("abc"));
}

#[test]
fn minus_removes_only_the_first_occurrence() {
    assert_eq!(eval("(abcabc-bc)"), ok("aabc"));
    assert_eq!(eval("(xyz-q)"), ok("xyz"));
}

#[test]
fn mixing_operators_is_rejected() {
    assert_eq!(eval("a+b-c"), MALFORMED);
    assert_eq!(eval("(a+b-c)"), MALFORMED);
}

#[test]
fn unbalanced_parentheses_are_rejected() {
    assert_eq!(eval("(a+b"), MALFORMED);
    assert_eq!(eval("a+b)"), MALFORMED);
}

#[test]
fn unrecognized_characters_are_rejected_by_the_lexer() {
    assert_eq!(eval("a*b"), UNRECOGNIZED);
    assert_eq!(eval("(a+b*"), UNRECOGNIZED);
    assert_eq!(eval("a+b-c*"), UNRECOGNIZED);
}

#[test]
fn interpret_reports_the_value() {
    assert_eq!(interpret("snow"), "snow");
    assert_eq!(interpret("(a+b)"), "ab");
    assert_eq!(interpret("(a+b+c)"), "abc");
    assert_eq!(interpret("(abcabc-bc)"), "aabc");
    assert_eq!(interpret("<>abc"), "b");
    assert_eq!(interpret("(a-a)"), "");
}

#[test]
fn interpret_reports_a_malformed_expression() {
    assert_eq!(interpret("a+b-c"), "malformed!");
    assert_eq!(interpret("a+b+c"), "malformed!");
    assert_eq!(interpret("abcabc-bc"), "malformed!");
    assert_eq!(interpret("<abc>"), "malformed!");
    assert_eq!(interpret(""), "malformed!");
}

#[test]
fn interpret_reports_a_tokenize_failure() {
    assert_eq!(interpret("a*b"), "failed to tokenize!");
    assert_eq!(interpret("Snow"), "failed to tokenize!");
}

#[test]
fn a_group_of_many_operands_is_folded_from_the_right() {
    assert_eq!(eval("((a+b)+<cd+e+(f))"), ok("abcef"));
    // abab - (ab - b) = abab - a
    assert_eq!(eval("(abab-ab-b)"), ok("bab"));
    assert_eq!(eval("(a)"), ok("a"));
}

#[test]
fn an_operator_outside_a_group_is_rejected() {
    assert_eq!(eval("a+b+c"), MALFORMED);
    assert_eq!(eval("abcabc-bc"), MALFORMED);
    assert_eq!(eval("xyz-q"), MALFORMED);
    assert_eq!(eval(")(+a"), MALFORMED);
}

#[test]
fn a_trim_behind_its_term_is_rejected() {
    assert_eq!(eval("abc>"), MALFORMED);
    assert_eq!(eval("<abc>"), MALFORMED);
    assert_eq!(eval("(a+b)<"), MALFORMED);
}

#[test]
fn a_value_holds_letters_only() {
    for line in ["snow", "(a+b)", "<>abc", "((ab+cd)-bc)", "(a-a)"] {
        let value = eval(line).unwrap();
        assert!(value.chars().all(|c| c.is_ascii_lowercase()));
    }
}

#[test]
fn a_line_with_a_value_has_balanced_parentheses() {
    for line in ["((a)", "(a))", ")a(", "(((a+b))", "(a+(b)"] {
        assert_eq!(eval(line), MALFORMED);
    }
    assert_eq!(eval("((a+(b)))"), ok("ab"));
}
