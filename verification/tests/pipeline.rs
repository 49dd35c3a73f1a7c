use chibi::{interpret, EvalError, Failure, ParseError};

fn run(input: &str) -> (Result<i64, Failure>, Vec<i64>) {
    let mut out = Vec::new();
    let r = interpret(input, &mut out);
    (r, out)
}

#[test]
fn precedence_and_parentheses() {
    assert_eq!(run("1 + 2 * (3 + 4)"), (Ok(15), vec![]));
}

#[test]
fn print_reports_then_result() {
    assert_eq!(run("print(2 + 3) * 4"), (Ok(20), vec![5]));
}

#[test]
fn integer_division() {
    assert_eq!(run("10 / 3"), (Ok(3), vec![]));
    assert_eq!(run("7 / 2"), (Ok(3), vec![]));
    assert_eq!(run("(0 - 7) / 2"), (Ok(-3), vec![]));
}

#[test]
fn product_of_brackets() {
    assert_eq!(run("(1 + 2) * (3 - 1)"), (Ok(6), vec![]));
}

#[test]
fn operators_of_one_level_go_left_to_right() {
    assert_eq!(run("10 - 4 - 3"), (Ok(3), vec![]));
    assert_eq!(run("100 / 10 / 5"), (Ok(2), vec![]));
    assert_eq!(run("2 - 3 + 4"), (Ok(3), vec![]));
    assert_eq!(run("8 / 4 * 2"), (Ok(4), vec![]));
}

#[test]
fn products_before_sums() {
    assert_eq!(run("2 + 3 * 4"), (Ok(14), vec![]));
    assert_eq!(run("2 * 3 + 4"), (Ok(10), vec![]));
    assert_eq!(run("20 - 6 / 2"), (Ok(17), vec![]));
    assert_eq!(run("1 + 2 * 3 - 4 / 2"), (Ok(5), vec![]));
}

#[test]
fn brackets_round_every_operation_change_nothing() {
    let pairs = [
        ("1 + 2 * 3 - 4 / 2", "((1 + (2 * 3)) - (4 / 2))"),
        ("10 - 4 - 3", "((10 - 4) - 3)"),
        ("2 * 3 * 4 / 5", "(((2 * 3) * 4) / 5)"),
        ("print(1 + 2) * 3", "(print((1 + 2)) * 3)"),
        ("7", "7"),
        ("1 / 0 + 1", "((1 / 0) + 1)"),
    ];
    for (plain, bracketed) in pairs {
        assert_eq!(run(plain), run(bracketed), "text {:?}", plain);
    }
}

#[test]
fn print_is_transparent() {
    assert_eq!(run("7 * 6"), (Ok(42), vec![]));
    assert_eq!(run("print(7 * 6)"), (Ok(42), vec![42]));
    assert_eq!(run("print(print(1) + print(2))"), (Ok(3), vec![1, 2, 3]));
    assert_eq!(run("print(1 / 0)"), (Err(Failure::Eval(EvalError::DivisionByZero)), vec![]));
}

#[test]
fn division_by_zero_is_an_error() {
    assert_eq!(run("1 / 0"), (Err(Failure::Eval(EvalError::DivisionByZero)), vec![]));
    assert_eq!(
        run("print(5) + 1 / (2 - 2)"),
        (Err(Failure::Eval(EvalError::DivisionByZero)), vec![5])
    );
}

#[test]
fn overflow_is_an_error() {
    assert_eq!(
        run("9223372036854775807 + 1"),
        (Err(Failure::Eval(EvalError::Overflow)), vec![])
    );
    assert_eq!(
        run("(0 - 9223372036854775807 - 1) / (0 - 1)"),
        (Err(Failure::Eval(EvalError::Overflow)), vec![])
    );
    assert_eq!(run("9223372036854775807 + 0"), (Ok(i64::MAX), vec![]));
}

#[test]
fn missing_close_paren_is_an_error() {
    assert_eq!(run("(1 + 2"), (Err(Failure::Parse(ParseError::UnexpectedEnd)), vec![]));
}

#[test]
fn print_without_open_paren_is_an_error() {
    assert_eq!(run("print 1 )"), (Err(Failure::Parse(ParseError::ExpectedOpenParen)), vec![]));
}

#[test]
fn every_parse_error_has_a_text() {
    assert_eq!(run(""), (Err(Failure::Parse(ParseError::UnexpectedEnd)), vec![]));
    assert_eq!(run("print 1"), (Err(Failure::Parse(ParseError::ExpectedOpenParen)), vec![]));
    assert_eq!(run("(1 2)"), (Err(Failure::Parse(ParseError::ExpectedCloseParen)), vec![]));
    assert_eq!(run("12a"), (Err(Failure::Parse(ParseError::InvalidNumber)), vec![]));
    assert_eq!(run("1 2"), (Err(Failure::Parse(ParseError::TrailingTokens)), vec![]));
}

#[test]
fn nothing_is_reported_unless_the_whole_text_is_read() {
    assert_eq!(run("print(1) + ("), (Err(Failure::Parse(ParseError::UnexpectedEnd)), vec![]));
    assert_eq!(run("print(1) )"), (Err(Failure::Parse(ParseError::TrailingTokens)), vec![]));
    let mut out = vec![8];
    assert_eq!(
        interpret("print(1) 2", &mut out),
        Err(Failure::Parse(ParseError::TrailingTokens))
    );
    assert_eq!(out, vec![8]);
}

#[test]
fn signed_literals_are_not_in_the_language() {
    assert_eq!(run("-5"), (Err(Failure::Parse(ParseError::InvalidNumber)), vec![]));
    assert_eq!(run("2 * -3"), (Err(Failure::Parse(ParseError::InvalidNumber)), vec![]));
    assert_eq!(run("0 - 5"), (Ok(-5), vec![]));
}

#[test]
fn layout_does_not_matter() {
    assert_eq!(run("1+2*(3+4)"), (Ok(15), vec![]));
    assert_eq!(run("  1\n+\t2 *\u{A0}( 3+4 )\r\n"), (Ok(15), vec![]));
    assert_eq!(run("print ( 2+3 )*4"), (Ok(20), vec![5]));
}

#[test]
fn one_text_after_another() {
    let mut out = Vec::new();
    assert_eq!(interpret("print(1)", &mut out), Ok(1));
    assert_eq!(interpret("1 / 0", &mut out), Err(Failure::Eval(EvalError::DivisionByZero)));
    assert_eq!(interpret("print(2) + 1", &mut out), Ok(3));
    assert_eq!(out, vec![1, 2]);
}
