use calculator::calculate;
use calculator::error::CalcError;
use calculator::number::Number;

fn run(input: &str) -> Result<Number, CalcError> {
    calculate(input)
}

fn val(r: Result<Number, CalcError>) -> f64 {
    let x = r.unwrap();
    x.num as f64 / x.den as f64
}

#[test]
fn main_test_simple_expression() {
    assert_eq!(val(run("2 + 3")), 5.0);
    assert_eq!(val(run("10 - 4")), 6.0);
    assert_eq!(val(run("3 * 4")), 12.0);
    assert_eq!(val(run("8 / 2")), 4.0);
}

#[test]
fn main_test_operator_precedence() {
    assert_eq!(val(run("2 + 3 * 4")), 14.0); // 2 + (3*4)
    assert_eq!(val(run("10 - 2 * 3")), 4.0); // 10 - (2*3)
    assert_eq!(val(run("1 + 2 * 3 - 4")), 3.0); // 1 + (2*3) - 4
}

#[test]
fn test_parentheses() {
    assert_eq!(val(run("(2 + 3) * 4")), 20.0); // (2+3)*4
    assert_eq!(val(run("((2 + 3) * 4) - 5")), 15.0); // ((2+3)*4)-5
    assert_eq!(val(run("2 * (3 + (4 * 5))")), 46.0); // 2*(3+(4*5))
}

#[test]
fn main_test_unary_minus() {
    assert_eq!(val(run("-5")), -5.0);
    assert_eq!(val(run("2 + (-3)")), -1.0);
    assert_eq!(val(run("-(-4)")), 4.0);
    assert_eq!(val(run("2^(-1)")), 0.5);
}

#[test]
fn test_power_right_associativity() {
    assert_eq!(val(run("2^3^2")), 512.0); // 2^(3^2)
    assert_eq!(val(run("2^(3^2)")), 512.0);
    assert_eq!(val(run("(2^3)^2")), 64.0);
    assert_eq!(val(run("3^2^2")), 81.0); // 3^(2^2) = 3^4
}

#[test]
fn main_test_divide_by_zero() {
    let err = run("1 / 0").unwrap_err();
    assert_eq!(err.message(), "Деление на 0.");
}

#[test]
fn test_invalid_tokens() {
    let err = run("2 + abc").unwrap_err();
    assert!(err.message().contains("Некорректный символ"));

    let err = run("1.2.3").unwrap_err();
    assert!(err.message().contains("Некорректный символ"));

    let err = run("1 + 2 *").unwrap_err();
    assert!(err.message().contains("Некорректное выражение"));
}

#[test]
fn main_test_unmatched_parens() {
    let err = run("(2 + 3").unwrap_err();
    assert_eq!(err.message(), "Не совпадают скобки.");

    let err = run("2 + 3)").unwrap_err();
    assert_eq!(err.message(), "Не совпадают скобки.");

    let err = run("((2 + 3) * 4").unwrap_err();
    assert_eq!(err.message(), "Не совпадают скобки.");
}

#[test]
fn test_mixed_operations() {
    assert_eq!(val(run("2 + 3 * (4 - 1)^2")), 29.0); // 2 + 3*(3^2)
    assert_eq!(val(run("10 / (2 + 3) * 4")), 8.0); // (10/5)*4
    assert_eq!(val(run("-2^3")), -8.0); // -(2^3)
    assert_eq!(val(run("(-2)^3")), -8.0); // (-2)^3
}

#[test]
fn test_large_numbers() {
    assert_eq!(val(run("1234567890 + 987654321")), 2222222211.0);
    assert_eq!(val(run("2^10")), 1024.0);
}

#[test]
fn test_edge_cases() {
    // empty expression
    let err = run("").unwrap_err();
    assert!(matches!(err, CalcError::InvalidExpression(_)));
    assert_eq!(
        err.message(),
        "Некорректное выражение: Стек пуст после вычислений"
    );

    // a close with no open
    let err = run(")").unwrap_err();
    assert!(matches!(err, CalcError::UnmatchedParens));
    assert_eq!(err.message(), "Не совпадают скобки.");

    // a stray operator
    let err = run("1 + 2 * / 3").unwrap_err();
    assert!(matches!(err, CalcError::InvalidExpression(_)));
    assert_eq!(
        err.message(),
        "Некорректное выражение: Недостаточно операндов для операции 'Plus'"
    );

    // division by zero
    let err = run("1 / 0").unwrap_err();
    assert!(matches!(err, CalcError::DivideByZero));
    assert_eq!(err.message(), "Деление на 0.");

    // a binary operator missing an operand
    let err = run("1 +").unwrap_err();
    assert!(matches!(err, CalcError::InvalidExpression(_)));
    assert_eq!(
        err.message(),
        "Некорректное выражение: Недостаточно операндов для операции 'Plus'"
    );

    // a unary minus with nothing to negate
    let err = run("-").unwrap_err();
    assert!(matches!(err, CalcError::InvalidExpression(_)));
    assert_eq!(
        err.message(),
        "Некорректное выражение: Унарный минус требует одного операнда"
    );

    // leftover values on the stack
    let err = run("1 2 + 2").unwrap_err();
    assert!(matches!(err, CalcError::InvalidExpression(_)));
    assert_eq!(
        err.message(),
        "Некорректное выражение: В стеке остались лишние числа"
    );

    // an unknown word
    let err = run("abc").unwrap_err();
    assert!(matches!(err, CalcError::InvalidToken(_)));
    assert_eq!(
        err.message(),
        "Некорректный символ: Некорректный символ в выражении: 'a'"
    );

    // several dots in one number
    let err = run("1.2.3").unwrap_err();
    assert!(matches!(err, CalcError::InvalidToken(_)));
    assert_eq!(err.message(), "Некорректный символ: 1.2.3");

    // an unclosed open at the start
    let err = run("((2 + 3)").unwrap_err();
    assert!(matches!(err, CalcError::UnmatchedParens));
    assert_eq!(err.message(), "Не совпадают скобки.");

    // extra closing parens
    let err = run("2 + 3))").unwrap_err();
    assert!(matches!(err, CalcError::UnmatchedParens));
    assert_eq!(err.message(), "Не совпадают скобки.");

    // a trailing operator with operands used up
    let err = run("5 + 2 *").unwrap_err();
    assert!(matches!(err, CalcError::InvalidExpression(_)));
    assert_eq!(
        err.message(),
        "Некорректное выражение: Недостаточно операндов для операции 'Plus'"
    );
}

#[test]
fn test_not_representable_overflow() {
    let err = run("2^1000").unwrap_err();
    assert!(matches!(err, CalcError::NotRepresentable));
    assert_eq!(err.message(), "Значение не представимо.");
}

#[test]
fn test_not_representable_fractional_exponent() {
    let err = run("2^0.5").unwrap_err();
    assert!(matches!(err, CalcError::NotRepresentable));
}

#[test]
fn test_not_representable_zero_to_negative() {
    let err = run("0^(-2)").unwrap_err();
    assert!(matches!(err, CalcError::NotRepresentable));
}

#[test]
fn test_exact_decimal_arithmetic() {
    assert_eq!(val(run("0.1 + 0.2")), 0.3);
    assert_eq!(val(run("12.5 - 4.2 * (3 / 7)")), 10.7);
}

#[test]
fn test_whole_pipeline_leaves_one_value() {
    // a valid expression never trips the evaluator's stack checks
    assert_eq!(val(run("((1 + 2) * (3 + 4)) ^ 2 / 9")), 49.0);
    assert_eq!(val(run("-(-(-(1)))")), -1.0);
}
