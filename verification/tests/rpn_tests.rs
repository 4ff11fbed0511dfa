use calculator::error::CalcError;
use calculator::number::Number;
use calculator::parser::Token;
use calculator::rpn::{eval_rpn, to_rpn};
use std::collections::VecDeque;

fn num(n: i64, d: i64) -> Token {
    Token::Number(Number::new(n, d))
}

fn val(r: Result<Number, CalcError>) -> f64 {
    let x = r.unwrap();
    x.num as f64 / x.den as f64
}

#[test]
fn rpn_test_simple_expression() {
    // 2 + 3
    let tokens = vec![num(2, 1), Token::Plus, num(3, 1)];
    let expected = vec![num(2, 1), num(3, 1), Token::Plus];
    assert_eq!(to_rpn(tokens).unwrap(), expected);
}

#[test]
fn rpn_test_complex_expression() {
    // 12.5 - 4.2 * (3 / 7)
    let tokens = vec![
        num(125, 10),
        Token::Minus,
        num(42, 10),
        Token::Multiply,
        Token::LParen,
        num(3, 1),
        Token::Divide,
        num(7, 1),
        Token::RParen,
    ];

    // 12.5 4.2 3 7 / * -
    let expected = vec![
        num(125, 10),
        num(42, 10),
        num(3, 1),
        num(7, 1),
        Token::Divide,
        Token::Multiply,
        Token::Minus,
    ];
    assert_eq!(to_rpn(tokens).unwrap(), expected);
}

#[test]
fn rpn_test_unmatched_parens() {
    // 1 + (2 * 3
    let tokens = vec![
        num(1, 1),
        Token::Plus,
        Token::LParen,
        num(2, 1),
        Token::Multiply,
        num(3, 1),
    ];
    assert!(matches!(to_rpn(tokens), Err(CalcError::UnmatchedParens)));

    // 1 + 2 )
    let tokens = vec![num(1, 1), Token::Plus, num(2, 1), Token::RParen];
    assert!(matches!(to_rpn(tokens), Err(CalcError::UnmatchedParens)));
}

#[test]
fn rpn_test_operator_precedence() {
    // 1 + 2 * 3
    let tokens = vec![num(1, 1), Token::Plus, num(2, 1), Token::Multiply, num(3, 1)];
    // 1 2 3 * +
    let expected = vec![num(1, 1), num(2, 1), num(3, 1), Token::Multiply, Token::Plus];
    assert_eq!(to_rpn(tokens).unwrap(), expected);

    // 1 * 2 + 3
    let tokens = vec![num(1, 1), Token::Multiply, num(2, 1), Token::Plus, num(3, 1)];
    // 1 2 * 3 +
    let expected = vec![num(1, 1), num(2, 1), Token::Multiply, num(3, 1), Token::Plus];
    assert_eq!(to_rpn(tokens).unwrap(), expected);
}

#[test]
fn rpn_test_associativity() {
    // 1 - 2 - 3
    let tokens = vec![num(1, 1), Token::Minus, num(2, 1), Token::Minus, num(3, 1)];
    // 1 2 - 3 -
    let expected = vec![num(1, 1), num(2, 1), Token::Minus, num(3, 1), Token::Minus];
    assert_eq!(to_rpn(tokens).unwrap(), expected);
}

#[test]
fn test_negative_number() {
    // - 5
    let tokens = vec![Token::UnaryMinus, num(5, 1)];
    let expected = vec![num(5, 1), Token::UnaryMinus];
    assert_eq!(to_rpn(tokens).unwrap(), expected);
}

#[test]
fn test_negative_number_in_expression() {
    // 2 - (-3)
    let tokens = vec![
        num(2, 1),
        Token::Minus,
        Token::LParen,
        Token::UnaryMinus,
        num(3, 1),
        Token::RParen,
    ];
    // 2 3 - -
    let expected = vec![num(2, 1), num(3, 1), Token::UnaryMinus, Token::Minus];
    assert_eq!(to_rpn(tokens).unwrap(), expected);
}

#[test]
fn test_unary_minus_complex() {
    // -(1 + 2) * -3
    let tokens = vec![
        Token::UnaryMinus,
        Token::LParen,
        num(1, 1),
        Token::Plus,
        num(2, 1),
        Token::RParen,
        Token::Multiply,
        Token::UnaryMinus,
        num(3, 1),
    ];
    // 1 2 + - 3 - *
    let expected = vec![
        num(1, 1),
        num(2, 1),
        Token::Plus,
        Token::UnaryMinus,
        num(3, 1),
        Token::UnaryMinus,
        Token::Multiply,
    ];
    assert_eq!(to_rpn(tokens).unwrap(), expected);
}

#[test]
fn rpn_test_power_simple() {
    // 2^3
    let tokens = vec![num(2, 1), Token::Power, num(3, 1)];
    // 2 3 ^
    let expected = vec![num(2, 1), num(3, 1), Token::Power];
    assert_eq!(to_rpn(tokens).unwrap(), expected);
}

#[test]
fn test_power_priority() {
    // 2^3*4
    let tokens = vec![num(2, 1), Token::Power, num(3, 1), Token::Multiply, num(4, 1)];

    // 2 3 ^ 4 *
    let expected = vec![num(2, 1), num(3, 1), Token::Power, num(4, 1), Token::Multiply];
    assert_eq!(to_rpn(tokens).unwrap(), expected);
}

#[test]
fn test_power_in_parens() {
    // (2^3)^4
    let tokens = vec![
        Token::LParen,
        num(2, 1),
        Token::Power,
        num(3, 1),
        Token::RParen,
        Token::Power,
        num(4, 1),
    ];

    // 2 3 ^ 4 ^
    let expected = vec![num(2, 1), num(3, 1), Token::Power, num(4, 1), Token::Power];
    assert_eq!(to_rpn(tokens).unwrap(), expected);
}

#[test]
fn test_power_associativity() {
    // 2^3^4
    let tokens = vec![num(2, 1), Token::Power, num(3, 1), Token::Power, num(4, 1)];

    // 2 3 4 ^ ^
    let expected = vec![num(2, 1), num(3, 1), num(4, 1), Token::Power, Token::Power];
    assert_eq!(to_rpn(tokens).unwrap(), expected);
}

#[test]
fn test_unary_minus_power() {
    // -2^3, read as -(2^3)
    let tokens = vec![Token::UnaryMinus, num(2, 1), Token::Power, num(3, 1)];
    // 2 3 ^ -
    let expected = vec![num(2, 1), num(3, 1), Token::Power, Token::UnaryMinus];
    assert_eq!(to_rpn(tokens).unwrap(), expected);
}

#[test]
fn eval_test_simple_expression() {
    // 2 + 3
    let tokens: VecDeque<Token> = vec![num(2, 1), num(3, 1), Token::Plus]
        .into_iter()
        .collect();
    assert_eq!(val(eval_rpn(tokens)), 5.0);
}

#[test]
fn eval_test_complex_expression() {
    // 12.5 - 4.2 * (3 / 7)
    let tokens: VecDeque<Token> = vec![
        num(125, 10),
        num(42, 10),
        num(3, 1),
        num(7, 1),
        Token::Divide,
        Token::Multiply,
        Token::Minus,
    ]
    .into_iter()
    .collect();
    assert_eq!(val(eval_rpn(tokens)), 10.7);
}

#[test]
fn rpn_test_unary_minus() {
    // -5
    let tokens: VecDeque<Token> = vec![num(5, 1), Token::UnaryMinus].into_iter().collect();
    assert_eq!(val(eval_rpn(tokens)), -5.0);
}

#[test]
fn test_unary_minus_in_expression() {
    // 2 - (-3)
    let tokens: VecDeque<Token> = vec![num(2, 1), num(3, 1), Token::UnaryMinus, Token::Minus]
        .into_iter()
        .collect();
    assert_eq!(val(eval_rpn(tokens)), 5.0);
}

#[test]
fn eval_test_operator_precedence() {
    // 1 + 2 * 3
    let tokens: VecDeque<Token> = vec![num(1, 1), num(2, 1), num(3, 1), Token::Multiply, Token::Plus]
        .into_iter()
        .collect();
    assert_eq!(val(eval_rpn(tokens)), 7.0);

    // 1 * 2 + 3
    let tokens: VecDeque<Token> = vec![num(1, 1), num(2, 1), Token::Multiply, num(3, 1), Token::Plus]
        .into_iter()
        .collect();
    assert_eq!(val(eval_rpn(tokens)), 5.0);
}

#[test]
fn eval_test_associativity() {
    // 1 - 2 - 3
    let tokens: VecDeque<Token> = vec![num(1, 1), num(2, 1), Token::Minus, num(3, 1), Token::Minus]
        .into_iter()
        .collect();
    assert_eq!(val(eval_rpn(tokens)), -4.0);
}

#[test]
fn rpn_test_divide_by_zero() {
    // 1 / 0
    let tokens: VecDeque<Token> = vec![num(1, 1), num(0, 1), Token::Divide]
        .into_iter()
        .collect();
    assert!(matches!(eval_rpn(tokens), Err(CalcError::DivideByZero)));
}

#[test]
fn test_invalid_expression() {
    // not enough operands
    let tokens: VecDeque<Token> = vec![num(1, 1), Token::Plus].into_iter().collect();
    assert!(matches!(
        eval_rpn(tokens),
        Err(CalcError::InvalidExpression(_))
    ));

    // operator in front of its operands
    let tokens: VecDeque<Token> = vec![Token::Plus, num(1, 1), num(2, 1)].into_iter().collect();
    assert!(matches!(
        eval_rpn(tokens),
        Err(CalcError::InvalidExpression(_))
    ));
}

#[test]
fn test_invalid_token() {
    // a parenthesis inside a postfix sequence
    let tokens: VecDeque<Token> = vec![num(1, 1), num(2, 1), Token::LParen].into_iter().collect();
    assert!(matches!(
        eval_rpn(tokens),
        Err(CalcError::InvalidExpression(_))
    ));
}

#[test]
fn eval_test_power_simple() {
    // 2^3 == 8.0
    let tokens: VecDeque<Token> = vec![num(2, 1), num(3, 1), Token::Power].into_iter().collect();
    assert_eq!(val(eval_rpn(tokens)), 8.0);
}

#[test]
fn test_power_negative_exponent() {
    // 2^-3 == 0.125
    let tokens: VecDeque<Token> = vec![num(2, 1), num(-3, 1), Token::Power].into_iter().collect();
    assert_eq!(val(eval_rpn(tokens)), 0.125);
}

#[test]
fn test_unmatched_close_on_empty_stack() {
    // a closing parenthesis with no opening one at all
    let tokens = vec![num(2, 1), Token::RParen];
    assert!(matches!(to_rpn(tokens), Err(CalcError::UnmatchedParens)));

    let tokens = vec![Token::RParen];
    assert!(matches!(to_rpn(tokens), Err(CalcError::UnmatchedParens)));
}
