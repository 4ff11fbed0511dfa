use calculator::error::CalcError;

#[test]
fn test_calcerror_invalid_token() {
    let error = CalcError::InvalidToken("abc".to_string());
    assert_eq!(error.message(), "Некорректный символ: abc");
}

#[test]
fn test_calcerror_unmatched_parens() {
    let error = CalcError::UnmatchedParens;
    assert_eq!(error.message(), "Не совпадают скобки.");
}

#[test]
fn test_calcerror_divide_by_zero() {
    let error = CalcError::DivideByZero;
    assert_eq!(error.message(), "Деление на 0.");
}

#[test]
fn test_calcerror_invalid_expression() {
    let error = CalcError::InvalidExpression("1 + 2 *".to_string());
    assert_eq!(error.message(), "Некорректное выражение: 1 + 2 *");
}

#[test]
fn test_calcerror_not_representable() {
    let error = CalcError::NotRepresentable;
    assert_eq!(error.message(), "Значение не представимо.");
}
