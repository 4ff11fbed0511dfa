use calculator::error::CalcError;
use calculator::number::Number;
use calculator::parser::{tokenize, validate_parens, Token};

fn num(n: i64, d: i64) -> Token {
    Token::Number(Number::new(n, d))
}

#[test]
fn test_tokenize_simple_expression() {
    let input = "2 + 3";
    let expected = vec![num(2, 1), Token::Plus, num(3, 1)];
    assert_eq!(tokenize(input).unwrap(), expected);
}

#[test]
fn test_tokenize_complex_expression() {
    let input = "12.5 - 4.2 * (3 / 7)";
    let expected = vec![
        num(125, 10),
        Token::Minus,
        num(42, 10),
        Token::Multiply,
        Token::LParen,
        num(3, 1),
        Token::Divide,
        num(7, 1),
        Token::RParen,
    ];
    assert_eq!(tokenize(input).unwrap(), expected);
}

#[test]
fn test_tokenize_with_whitespace() {
    let input = "  2   +   3  ";
    let expected = vec![num(2, 1), Token::Plus, num(3, 1)];
    assert_eq!(tokenize(input).unwrap(), expected);
}

#[test]
fn test_tokenize_invalid_token() {
    let input = "2 + a";
    assert!(matches!(tokenize(input), Err(CalcError::InvalidToken(_))));
}

#[test]
fn test_tokenize_invalid_number() {
    let input = "2 + .";
    assert!(matches!(tokenize(input), Err(CalcError::InvalidToken(_))));
}

#[test]
fn test_tokenize_empty_input() {
    let input = "";
    let expected: Vec<Token> = vec![];
    assert_eq!(tokenize(input).unwrap(), expected);
}

#[test]
fn test_tokenize_single_number() {
    let input = "42";
    let expected = vec![num(42, 1)];
    assert_eq!(tokenize(input).unwrap(), expected);
}

#[test]
fn test_tokenize_single_operator() {
    let input = "+";
    let expected = vec![Token::Plus];
    assert_eq!(tokenize(input).unwrap(), expected);
}

#[test]
fn test_tokenize_mixed_tokens() {
    let input = "1 + -2 * (3 / 4)";
    let expected = vec![
        num(1, 1),
        Token::Plus,
        Token::Minus,
        num(2, 1),
        Token::Multiply,
        Token::LParen,
        num(3, 1),
        Token::Divide,
        num(4, 1),
        Token::RParen,
    ];
    assert_eq!(tokenize(input).unwrap(), expected);
}

#[test]
fn test_tokenize_negative_number() {
    let input = "-5";
    let expected = vec![Token::Minus, num(5, 1)];
    assert_eq!(tokenize(input).unwrap(), expected);
}

#[test]
fn test_tokenize_number_with_leading_dot() {
    let input = ".5";
    let expected = vec![num(5, 10)];
    assert_eq!(tokenize(input).unwrap(), expected);
}

#[test]
fn test_tokenize_number_with_trailing_dot() {
    let input = "5.";
    let expected = vec![num(5, 1)];
    assert_eq!(tokenize(input).unwrap(), expected);
}

#[test]
fn test_tokenize_number_with_multiple_dots() {
    let input = "1.2.3";
    assert!(matches!(tokenize(input), Err(CalcError::InvalidToken(_))));
}

#[test]
fn test_tokenize_number_with_invalid_character() {
    let input = "1a2";
    assert!(matches!(tokenize(input), Err(CalcError::InvalidToken(_))));
}

#[test]
fn test_tokenize_chained_operators() {
    let input = "1 + - * /";
    let expected = vec![
        num(1, 1),
        Token::Plus,
        Token::Minus,
        Token::Multiply,
        Token::Divide,
    ];
    assert_eq!(tokenize(input).unwrap(), expected);
}

#[test]
fn test_tokenize_parentheses_only() {
    let input = "()";
    let expected = vec![Token::LParen, Token::RParen];
    assert_eq!(tokenize(input).unwrap(), expected);
}

#[test]
fn test_tokenize_nested_parentheses() {
    let input = "(1 + (2 * 3))";
    let expected = vec![
        Token::LParen,
        num(1, 1),
        Token::Plus,
        Token::LParen,
        num(2, 1),
        Token::Multiply,
        num(3, 1),
        Token::RParen,
        Token::RParen,
    ];
    assert_eq!(tokenize(input).unwrap(), expected);
}

#[test]
fn test_tokenize_scientific_notation() {
    let input = "1e10";
    assert!(matches!(tokenize(input), Err(CalcError::InvalidToken(_))));
}

#[test]
fn test_precedence_number() {
    let number = num(1, 1);
    assert_eq!(number.precedence(), 0);
}

#[test]
fn test_precedence_parentheses() {
    let lparen = Token::LParen;
    let rparen = Token::RParen;
    assert_eq!(lparen.precedence(), 1);
    assert_eq!(rparen.precedence(), 1);
}

#[test]
fn test_precedence_plus_minus() {
    let plus = Token::Plus;
    let minus = Token::Minus;
    assert_eq!(plus.precedence(), 2);
    assert_eq!(minus.precedence(), 2);
}

#[test]
fn test_precedence_multiply_divide() {
    let multiply = Token::Multiply;
    let divide = Token::Divide;
    assert_eq!(multiply.precedence(), 3);
    assert_eq!(divide.precedence(), 3);
}

#[test]
fn test_precedence_comparison() {
    let number = num(1, 1);
    let plus = Token::Plus;
    let multiply = Token::Multiply;
    let lparen = Token::LParen;
    let rparen = Token::RParen;

    assert!(number.precedence() < plus.precedence());
    assert!(number.precedence() < multiply.precedence());
    assert!(number.precedence() < lparen.precedence());
    assert!(number.precedence() < rparen.precedence());

    assert!(plus.precedence() > number.precedence());
    assert!(plus.precedence() < multiply.precedence());
    assert!(plus.precedence() > lparen.precedence());
    assert!(plus.precedence() > rparen.precedence());

    assert!(multiply.precedence() > number.precedence());
    assert!(multiply.precedence() > plus.precedence());
    assert!(multiply.precedence() > lparen.precedence());
    assert!(multiply.precedence() > rparen.precedence());

    assert!(lparen.precedence() > number.precedence());
    assert!(lparen.precedence() < multiply.precedence());
    assert!(lparen.precedence() < plus.precedence());
    assert_eq!(lparen.precedence(), rparen.precedence());

    assert!(rparen.precedence() > number.precedence());
    assert!(rparen.precedence() < multiply.precedence());
    assert!(rparen.precedence() < plus.precedence());
    assert_eq!(rparen.precedence(), lparen.precedence());
}

#[test]
fn test_validate_parens_valid_simple() {
    let tokens = vec![num(1, 1), Token::Plus, num(2, 1)];
    assert_eq!(validate_parens(&tokens), Ok(()));
}

#[test]
fn test_validate_parens_valid_nested() {
    let tokens = vec![
        Token::LParen,
        num(1, 1),
        Token::Plus,
        Token::LParen,
        num(2, 1),
        Token::Multiply,
        num(3, 1),
        Token::RParen,
        Token::RParen,
    ];
    assert_eq!(validate_parens(&tokens), Ok(()));
}

#[test]
fn test_validate_parens_valid_mixed() {
    let tokens = vec![
        num(1, 1),
        Token::Plus,
        Token::LParen,
        num(2, 1),
        Token::Minus,
        num(3, 1),
        Token::RParen,
        Token::Multiply,
        num(4, 1),
    ];
    assert_eq!(validate_parens(&tokens), Ok(()));
}

#[test]
fn test_validate_parens_invalid_unmatched_open() {
    let tokens = vec![Token::LParen, num(1, 1), Token::Plus, num(2, 1)];
    assert!(matches!(
        validate_parens(&tokens),
        Err(CalcError::UnmatchedParens)
    ));
}

#[test]
fn test_validate_parens_invalid_unmatched_close() {
    let tokens = vec![num(1, 1), Token::Plus, num(2, 1), Token::RParen];
    assert!(matches!(
        validate_parens(&tokens),
        Err(CalcError::UnmatchedParens)
    ));
}

#[test]
fn test_validate_parens_invalid_extra_open() {
    let tokens = vec![
        Token::LParen,
        Token::LParen,
        num(1, 1),
        Token::Plus,
        num(2, 1),
        Token::RParen,
    ];
    assert!(matches!(
        validate_parens(&tokens),
        Err(CalcError::UnmatchedParens)
    ));
}

#[test]
fn test_validate_parens_invalid_extra_close() {
    let tokens = vec![
        num(1, 1),
        Token::Plus,
        num(2, 1),
        Token::RParen,
        Token::RParen,
    ];
    assert!(matches!(
        validate_parens(&tokens),
        Err(CalcError::UnmatchedParens)
    ));
}

#[test]
fn test_validate_parens_invalid_mismatched_order() {
    let tokens = vec![
        Token::RParen,
        num(1, 1),
        Token::Plus,
        num(2, 1),
        Token::LParen,
    ];
    assert!(matches!(
        validate_parens(&tokens),
        Err(CalcError::UnmatchedParens)
    ));
}

#[test]
fn test_validate_parens_invalid_empty_parens() {
    let tokens = vec![Token::LParen, Token::RParen, num(1, 1)];
    assert_eq!(validate_parens(&tokens), Ok(()));
}

#[test]
fn test_validate_parens_invalid_consecutive_parens() {
    let tokens = vec![Token::LParen, Token::RParen, Token::LParen, Token::RParen];
    assert_eq!(validate_parens(&tokens), Ok(()));
}

#[test]
fn test_validate_parens_invalid_unmatched_nested() {
    let tokens = vec![
        Token::LParen,
        num(1, 1),
        Token::Plus,
        Token::LParen,
        num(2, 1),
        Token::Multiply,
        num(3, 1),
        Token::RParen,
    ];
    assert!(matches!(
        validate_parens(&tokens),
        Err(CalcError::UnmatchedParens)
    ));
}

use calculator::parser::resolve_unary;

#[test]
fn test_resolve_unary_leading_minus() {
    let tokens = vec![Token::Minus, num(5, 1)];
    assert_eq!(resolve_unary(tokens), vec![Token::UnaryMinus, num(5, 1)]);
}

#[test]
fn test_resolve_unary_binary_minus_kept() {
    let tokens = vec![num(2, 1), Token::Minus, num(3, 1)];
    assert_eq!(
        resolve_unary(tokens),
        vec![num(2, 1), Token::Minus, num(3, 1)]
    );
}

#[test]
fn test_resolve_unary_after_operator() {
    let tokens = vec![num(2, 1), Token::Power, Token::Minus, num(1, 1)];
    assert_eq!(
        resolve_unary(tokens),
        vec![num(2, 1), Token::Power, Token::UnaryMinus, num(1, 1)]
    );
}

#[test]
fn test_resolve_unary_after_open_paren() {
    let tokens = vec![Token::LParen, Token::Minus, num(2, 1), Token::RParen];
    assert_eq!(
        resolve_unary(tokens),
        vec![Token::LParen, Token::UnaryMinus, num(2, 1), Token::RParen]
    );
}

#[test]
fn test_resolve_unary_after_close_paren_kept() {
    let tokens = vec![
        Token::LParen,
        num(2, 1),
        Token::RParen,
        Token::Minus,
        num(3, 1),
    ];
    assert_eq!(
        resolve_unary(tokens),
        vec![
            Token::LParen,
            num(2, 1),
            Token::RParen,
            Token::Minus,
            num(3, 1)
        ]
    );
}

#[test]
fn test_resolve_unary_chained_minus() {
    let tokens = vec![Token::Minus, Token::Minus, num(5, 1)];
    assert_eq!(
        resolve_unary(tokens),
        vec![Token::UnaryMinus, Token::UnaryMinus, num(5, 1)]
    );
}

#[test]
fn test_tokenize_mantissa_too_large() {
    // more digits than the exact representation can hold
    let input = "99999999999999999999";
    assert!(matches!(tokenize(input), Err(CalcError::InvalidToken(_))));
}

#[test]
fn test_tokenize_fraction_too_long() {
    // a fractional part whose scale exceeds the exact representation
    let input = "0.0000000000000000001";
    assert!(matches!(tokenize(input), Err(CalcError::InvalidToken(_))));
}

#[test]
fn test_tokenize_longest_accepted_literal() {
    // eighteen fractional digits are still exact
    let input = "0.000000000000000001";
    let expected = vec![num(1, 1000000000000000000)];
    assert_eq!(tokenize(input).unwrap(), expected);
}

#[test]
fn test_tokenize_large_numbers() {
    // the twenty-digit mantissa exceeds the exact representation, so
    // the literal is rejected instead of being rounded
    let input = "1234567890.1234567890";
    assert!(matches!(tokenize(input), Err(CalcError::InvalidToken(_))));
}
