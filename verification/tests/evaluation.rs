use calculator::{evaluate, EvalError, Lexer, LexError, Parser, Value};

fn lit(n: u64) -> Box<Value> {
    Box::new(Value::Literal(n))
}

fn number(v: &Value) -> f64 {
    match v {
        Value::Literal(n) => *n as f64,
        Value::Negated(a) => -number(a),
        Value::Sum(a, b) => number(a) + number(b),
        Value::Difference(a, b) => number(a) - number(b),
        Value::Product(a, b) => number(a) * number(b),
        Value::Quotient(a, b) => number(a) / number(b),
    }
}

fn run(line: &str) -> Result<Value, EvalError> {
    evaluate(line.to_string())
}

fn result(line: &str) -> f64 {
    number(&run(line).unwrap())
}

#[test]
fn a_literal_is_its_own_value() {
    assert_eq!(run("42"), Ok(Value::Literal(42)));
    assert_eq!(result("42"), 42.0);
}

#[test]
fn subtraction_groups_to_the_left() {
    assert_eq!(
        run("8-3-2"),
        Ok(Value::Difference(Box::new(Value::Difference(lit(8), lit(3))), lit(2)))
    );
    assert_eq!(result("8-3-2"), 3.0);
}

#[test]
fn division_groups_to_the_left() {
    assert_eq!(
        run("8/4/2"),
        Ok(Value::Quotient(Box::new(Value::Quotient(lit(8), lit(4))), lit(2)))
    );
    assert_eq!(result("8/4/2"), 1.0);
}

#[test]
fn multiplication_binds_tighter_than_addition() {
    assert_eq!(run("1+2*3"), Ok(Value::Sum(lit(1), Box::new(Value::Product(lit(2), lit(3))))));
    assert_eq!(result("1+2*3"), 7.0);
    assert_eq!(result("2*3+1"), 7.0);
}

#[test]
fn parentheses_group_first() {
    assert_eq!(run("(1+2)*3"), Ok(Value::Product(Box::new(Value::Sum(lit(1), lit(2))), lit(3))));
    assert_eq!(result("(1+2)*3"), 9.0);
    assert_eq!(result("((7))"), 7.0);
    assert_eq!(result("2*(3+4)*5"), 70.0);
}

#[test]
fn a_sign_binds_tighter_than_a_binary_operator() {
    assert_eq!(
        run("-2*3"),
        Ok(Value::Product(Box::new(Value::Negated(lit(2))), lit(3)))
    );
    assert_eq!(result("-2*3"), -6.0);
    assert_eq!(result("+2*3"), 6.0);
    assert_eq!(run("+5"), Ok(Value::Literal(5)));
}

#[test]
fn a_sign_may_follow_a_binary_operator() {
    assert_eq!(
        run("2*-3"),
        Ok(Value::Product(lit(2), Box::new(Value::Negated(lit(3)))))
    );
    assert_eq!(result("2*-3"), -6.0);
    assert_eq!(result("2--3"), 5.0);
    assert_eq!(result("2+-(1+2)"), -1.0);
}

#[test]
fn a_sign_takes_a_primary_expression() {
    assert_eq!(run("--"), Err(EvalError::InvalidOperator));
    assert_eq!(run("-+"), Err(EvalError::InvalidOperator));
    assert_eq!(run("--2"), Err(EvalError::InvalidOperator));
    assert_eq!(run("-+2"), Err(EvalError::InvalidOperator));
    assert_eq!(result("-(-2)"), 2.0);
}

#[test]
fn an_open_group_is_an_unmatched_bracket() {
    assert_eq!(run("(1+2"), Err(EvalError::UnmatchedBracket));
    assert_eq!(run("((1+2)"), Err(EvalError::UnmatchedBracket));
}

#[test]
fn a_group_followed_by_a_number_is_an_unmatched_bracket() {
    assert_eq!(run("(1+2 3"), Err(EvalError::UnmatchedBracket));
    assert_eq!(run("(1+2 3)"), Err(EvalError::UnmatchedBracket));
    assert_eq!(run("(1+2 3)").unwrap_err().message(), "unmatched bracket");
}

#[test]
fn the_remainder_operator_is_left_over() {
    assert_eq!(run("2%3"), Err(EvalError::InvalidExpression));
    assert_eq!(run("2 % 3").unwrap_err().message(), "invalid expression");
}

#[test]
fn the_remainder_operator_never_evaluates() {
    assert_eq!(run("2%"), Err(EvalError::InvalidExpression));
    assert_eq!(run("%2"), Err(EvalError::InvalidOperator));
    assert_eq!(run("(2%3)"), Err(EvalError::UnmatchedBracket));
    assert_eq!(run("2*%"), Err(EvalError::InvalidOperator));
    assert_eq!(run("%"), Err(EvalError::InvalidOperator));
}

#[test]
fn leftover_tokens_are_an_invalid_expression() {
    assert_eq!(run("1 2"), Err(EvalError::InvalidExpression));
    assert_eq!(run("1+2)"), Err(EvalError::InvalidExpression));
    assert_eq!(run("(1)(2)"), Err(EvalError::InvalidExpression));
}

#[test]
fn a_missing_operand_is_an_invalid_operator() {
    assert_eq!(run("1+"), Err(EvalError::InvalidOperator));
    assert_eq!(run("*"), Err(EvalError::InvalidOperator));
    assert_eq!(run("()"), Err(EvalError::InvalidOperator));
    assert_eq!(run(")"), Err(EvalError::InvalidOperator));
    assert_eq!(run(""), Err(EvalError::InvalidOperator));
}

#[test]
fn the_first_failure_outweighs_leftover_tokens() {
    assert_eq!(run("1+*2"), Err(EvalError::InvalidOperator));
    assert_eq!(run("*3"), Err(EvalError::InvalidOperator));
    assert_eq!(run("(1+2 3 4"), Err(EvalError::UnmatchedBracket));
    assert_eq!(run("1+(2*) 3"), Err(EvalError::InvalidOperator));
    assert_eq!(run("2*(3 4) 5"), Err(EvalError::UnmatchedBracket));
}

#[test]
fn division_by_zero_is_no_error() {
    assert_eq!(run("1/0"), Ok(Value::Quotient(lit(1), lit(0))));
    assert_eq!(result("1/0"), f64::INFINITY);
    assert_eq!(result("-1/0"), f64::NEG_INFINITY);
    assert!(result("0/0").is_nan());
}

#[test]
fn any_dividend_may_be_divided_by_zero() {
    assert_eq!(
        run("(2-5)/0"),
        Ok(Value::Quotient(Box::new(Value::Difference(lit(2), lit(5))), lit(0)))
    );
    assert_eq!(result("(2-5)/0"), f64::NEG_INFINITY);
    assert_eq!(result("7/(3-3)"), f64::INFINITY);
    assert!(result("(1-1)/0").is_nan());
    assert!(result("1/0*0").is_nan());
    assert_eq!(result("1/0+1"), f64::INFINITY);
}

#[test]
fn division_is_not_rounded() {
    assert_eq!(result("7/2"), 3.5);
    assert_eq!(result("1/4+1/4"), 0.5);
}

#[test]
fn white_space_between_tokens_is_ignored() {
    assert_eq!(run("  1 +\t2 * 3 \n"), run("1+2*3"));
    assert_eq!(run("( 1 + 2 ) * 3"), run("(1+2)*3"));
    assert_eq!(run("1\u{00A0}+\u{3000}2"), run("1+2"));
    assert_eq!(run("12 3"), Err(EvalError::InvalidExpression));
}

#[test]
fn the_same_line_gives_the_same_result() {
    assert_eq!(run("3*(4-1)/2"), run("3*(4-1)/2"));
    assert_eq!(run("(1+2"), run("(1+2"));
    assert_eq!(result("3*(4-1)/2"), 4.5);
}

#[test]
fn an_unrecognized_character_is_reported() {
    assert_eq!(run("1+x"), Err(EvalError::Lex(LexError::UnrecognizedCharacter('x'))));
    assert_eq!(run("1.5"), Err(EvalError::Lex(LexError::UnrecognizedCharacter('.'))));
    assert_eq!(run("a"), Err(EvalError::Lex(LexError::UnrecognizedCharacter('a'))));
    assert_eq!(run("1 ^ 2").unwrap_err().message(), "unrecognized character");
}

#[test]
fn an_unread_character_is_not_reported() {
    assert_eq!(run("1 ) ) x"), Err(EvalError::InvalidExpression));
    assert_eq!(run("1 2 3 x"), Err(EvalError::InvalidExpression));
}

#[test]
fn a_number_above_the_largest_is_reported() {
    assert_eq!(
        run("18446744073709551616"),
        Err(EvalError::Lex(LexError::NumberTooLarge))
    );
    assert_eq!(run("1+99999999999999999999999"), Err(EvalError::Lex(LexError::NumberTooLarge)));
    assert_eq!(run("18446744073709551615"), Ok(Value::Literal(u64::MAX)));
    assert_eq!(run("000000000000000000000007"), Ok(Value::Literal(7)));
}

#[test]
fn every_error_has_its_message() {
    assert_eq!(EvalError::UnmatchedBracket.message(), "unmatched bracket");
    assert_eq!(EvalError::InvalidOperator.message(), "invalid operator");
    assert_eq!(EvalError::ErrorOccurred.message(), "error occurred");
    assert_eq!(EvalError::InvalidExpression.message(), "invalid expression");
    assert_eq!(
        EvalError::Lex(LexError::UnrecognizedCharacter('?')).message(),
        "unrecognized character"
    );
    assert_eq!(EvalError::Lex(LexError::NumberTooLarge).message(), "number too large");
    assert_eq!(LexError::NumberTooLarge.message(), "number too large");
}

#[test]
fn a_parser_evaluates_what_its_lexer_holds() {
    let mut lexer = Lexer::new("10 - 4 - 3".to_string());
    let mut parser = Parser::new(&mut lexer);
    let value = parser.eval().unwrap();
    assert_eq!(number(&value), 3.0);
}

#[test]
fn a_long_chain_is_evaluated() {
    let mut line = String::from("0");
    let mut k = 0;
    while k < 2000 {
        line.push_str("+1");
        k += 1;
    }
    assert_eq!(result(&line), 2000.0);
}
