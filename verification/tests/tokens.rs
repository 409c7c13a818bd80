use calculator::lexer::{characters, is_decimal_digit, is_operator_char, is_whitespace};
use calculator::{is_blank, LexError, Lexer, Scan, Token, Value};

fn tokens(line: &str) -> Vec<Result<Token, LexError>> {
    let mut lexer = Lexer::new(line.to_string());
    let mut out = Vec::new();
    loop {
        let t = lexer.next();
        let last = matches!(t, Ok(Token::End) | Err(_));
        out.push(t);
        if last {
            return out;
        }
    }
}

#[test]
fn an_empty_line_has_no_token() {
    assert_eq!(tokens(""), vec![Ok(Token::End)]);
    assert_eq!(tokens("   \t\n"), vec![Ok(Token::End)]);
}

#[test]
fn end_is_given_again_and_again() {
    let mut lexer = Lexer::new("7".to_string());
    assert_eq!(lexer.next(), Ok(Token::Number(Value::Literal(7))));
    assert_eq!(lexer.next(), Ok(Token::End));
    assert_eq!(lexer.next(), Ok(Token::End));
    assert_eq!(lexer.next(), Ok(Token::End));
}

#[test]
fn digits_run_as_far_as_they_go() {
    assert_eq!(
        tokens("123+45"),
        vec![
            Ok(Token::Number(Value::Literal(123))),
            Ok(Token::Operator('+')),
            Ok(Token::Number(Value::Literal(45))),
            Ok(Token::End),
        ]
    );
    assert_eq!(
        tokens("12 34"),
        vec![
            Ok(Token::Number(Value::Literal(12))),
            Ok(Token::Number(Value::Literal(34))),
            Ok(Token::End),
        ]
    );
}

#[test]
fn digits_at_the_end_of_the_line_are_a_number() {
    assert_eq!(tokens("905"), vec![Ok(Token::Number(Value::Literal(905))), Ok(Token::End)]);
}

#[test]
fn every_operator_is_one_token() {
    assert_eq!(
        tokens("+-*/%()"),
        vec![
            Ok(Token::Operator('+')),
            Ok(Token::Operator('-')),
            Ok(Token::Operator('*')),
            Ok(Token::Operator('/')),
            Ok(Token::Operator('%')),
            Ok(Token::Operator('(')),
            Ok(Token::Operator(')')),
            Ok(Token::End),
        ]
    );
}

#[test]
fn a_decimal_point_stops_the_digits_and_starts_no_token() {
    assert_eq!(
        tokens("3.14"),
        vec![
            Ok(Token::Number(Value::Literal(3))),
            Err(LexError::UnrecognizedCharacter('.')),
        ]
    );
}

#[test]
fn a_failure_takes_nothing_away() {
    let mut lexer = Lexer::new(" 1 x".to_string());
    assert_eq!(lexer.next(), Ok(Token::Number(Value::Literal(1))));
    assert_eq!(lexer.next(), Err(LexError::UnrecognizedCharacter('x')));
    assert_eq!(lexer.next(), Err(LexError::UnrecognizedCharacter('x')));
}

#[test]
fn a_number_above_the_largest_is_no_token() {
    assert_eq!(tokens("18446744073709551616"), vec![Err(LexError::NumberTooLarge)]);
    assert_eq!(tokens("184467440737095516150"), vec![Err(LexError::NumberTooLarge)]);
    assert_eq!(
        tokens("18446744073709551615"),
        vec![Ok(Token::Number(Value::Literal(18446744073709551615))), Ok(Token::End)]
    );
}

#[test]
fn letters_start_no_token() {
    assert_eq!(tokens("abc"), vec![Err(LexError::UnrecognizedCharacter('a'))]);
    assert_eq!(tokens("  \u{00e9}"), vec![Err(LexError::UnrecognizedCharacter('\u{00e9}'))]);
}

#[test]
fn get_number_gives_the_value_of_a_number_only() {
    assert_eq!(Token::Number(Value::Literal(3)).get_number(), Some(Value::Literal(3)));
    assert_eq!(Token::Operator('+').get_number(), None);
    assert_eq!(Token::Empty.get_number(), None);
    assert_eq!(Token::End.get_number(), None);
}

#[test]
fn tokens_know_what_they_are() {
    assert!(Token::Operator('(').is_symbol('('));
    assert!(!Token::Operator('(').is_symbol(')'));
    assert!(!Token::End.is_symbol('('));
    assert!(Token::End.is_end());
    assert!(!Token::Empty.is_end());
}

#[test]
fn white_space_is_what_unicode_says() {
    let mut code: u32 = 0;
    while code <= 0x3100 {
        if let Some(c) = char::from_u32(code) {
            assert_eq!(is_whitespace(c), c.is_whitespace());
        }
        code += 1;
    }
    assert!(!is_whitespace('\u{200B}'));
    assert!(!is_whitespace('\u{FEFF}'));
}

#[test]
fn digits_and_operators_are_told_apart() {
    assert!(is_decimal_digit('0'));
    assert!(is_decimal_digit('9'));
    assert!(!is_decimal_digit('/'));
    assert!(!is_decimal_digit(':'));
    assert!(!is_decimal_digit('\u{0661}'));
    assert!(is_operator_char('%'));
    assert!(!is_operator_char('^'));
    assert!(!is_operator_char('1'));
}

#[test]
fn characters_are_given_in_order() {
    assert_eq!(characters("a\u{00e9}1"), vec!['a', '\u{00e9}', '1']);
    assert_eq!(characters(""), Vec::<char>::new());
}

#[test]
fn a_blank_line_ends_the_session() {
    assert!(is_blank(""));
    assert!(is_blank("\n"));
    assert!(is_blank("  \t \r\n"));
    assert!(is_blank("\u{2003}\u{3000}"));
    assert!(!is_blank(" 1 "));
    assert!(!is_blank("x"));
    assert!(!is_blank("   ."));
}
