use infix_calc::{
    evaluate, index_tokens, numbers_parseable, to_postfix, tokenize, CalcError, Number, Operator,
    Token, TokenIndexes,
};

fn chars(s: &str) -> Vec<char> {
    s.chars().collect()
}

fn eval_str(s: &str) -> Result<Number, CalcError> {
    let input = chars(s);
    assert!(numbers_parseable(&input));
    evaluate(&input)
}

fn eval_f64(s: &str) -> f64 {
    let n = eval_str(s).unwrap();
    n.num as f64 / n.den as f64
}

#[test]
fn basic_arithmetic() {
    assert_eq!(2.0, eval_f64("1 + 1"));
    assert_eq!(0.0, eval_f64("1 - 1"));
    assert_eq!(1.0, eval_f64("2 - 1"));
    assert_eq!(-1.0, eval_f64("1 - 2"));
    assert_eq!(1.0, eval_f64("1 * 1"));
    assert_eq!(0.0, eval_f64("2 * 0"));
    assert_eq!(1.0, eval_f64("1 / 1"));
    assert_eq!(1.0, eval_f64("2 / 2"));
    assert_eq!(0.5, eval_f64("1 / 2"));
}

#[test]
fn precedence_round_trip() {
    assert_eq!(10.0, eval_f64("4 + 2 * 3"));
    assert_eq!(10.0, eval_f64("4 + 3 * 2"));
    assert_eq!(10.0, eval_f64("2 * 3 + 4"));
    assert_eq!(10.0, eval_f64("3 * 2 + 4"));
    assert_eq!(14.0, eval_f64("2 + 3 * 4"));
    assert_eq!(10.0, eval_f64("2 * 3 + 2 * 2"));
}

#[test]
fn chained_same_precedence() {
    assert_eq!(3.0, eval_f64("1 + 1 + 1"));
}

#[test]
fn division_by_zero() {
    assert_eq!(Err(CalcError::DivisionByZero), eval_str("2 / 0"));
    assert_eq!(Err(CalcError::DivisionByZero), eval_str("1 / 0.0"));
}

#[test]
fn malformed_trailing_operator() {
    assert_eq!(Err(CalcError::EmptyExpression), eval_str("1 *"));
}

#[test]
fn empty_input() {
    assert_eq!(Err(CalcError::EmptyExpression), eval_str(""));
    assert_eq!(Err(CalcError::EmptyExpression), eval_str("   "));
}

#[test]
fn invalid_delimiters() {
    assert_eq!(Err(CalcError::InvalidDelimiter), eval_str("1,2"));
    assert_eq!(Err(CalcError::InvalidDelimiter), eval_str("3 ' 4"));
}

#[test]
fn invalid_characters() {
    assert_eq!(Err(CalcError::InvalidCharacter), eval_str("1 + a"));
    assert_eq!(Err(CalcError::InvalidCharacter), eval_str("x"));
    // The first offending character decides the error.
    assert_eq!(Err(CalcError::InvalidCharacter), eval_str("z,"));
}

#[test]
fn scanning_is_idempotent() {
    let input = chars("12.5 + 3 * 2");
    let first = index_tokens(&input).unwrap();
    let second = index_tokens(&input).unwrap();
    assert_eq!(first, second);
}

#[test]
fn scanner_ranges() {
    let input = chars("12 + 3.5");
    let ranges = index_tokens(&input).unwrap();
    assert_eq!(
        ranges,
        vec![
            TokenIndexes::Number(0, 2),
            TokenIndexes::Operator(3, 4),
            TokenIndexes::Number(5, 8),
        ]
    );
}

#[test]
fn lexer_values() {
    let tokens = tokenize(&chars("2.5")).unwrap();
    assert_eq!(tokens, vec![Token::Number(Number { num: 25, den: 10 })]);
    let tokens = tokenize(&chars("1 + 2")).unwrap();
    assert_eq!(
        tokens,
        vec![
            Token::Number(Number { num: 1, den: 1 }),
            Token::Operator(Operator::Add),
            Token::Number(Number { num: 2, den: 1 }),
        ]
    );
    let tokens = tokenize(&chars("12.")).unwrap();
    assert_eq!(tokens, vec![Token::Number(Number { num: 12, den: 1 })]);
    let tokens = tokenize(&chars(".5")).unwrap();
    assert_eq!(tokens, vec![Token::Number(Number { num: 5, den: 10 })]);
}

#[test]
fn fractions_stay_exact() {
    assert_eq!(1.75, eval_f64("1.5 + 0.25"));
    assert_eq!(0.25, eval_f64("0.5 * 0.5"));
}

#[test]
fn numerator_too_large() {
    // Twenty nines exceed the 64-bit numerator.
    assert_eq!(Err(CalcError::Overflow), eval_str("99999999999999999999"));
}

#[test]
fn denominator_too_large() {
    // More than nineteen fractional digits exceed the 64-bit denominator.
    assert_eq!(Err(CalcError::Overflow), eval_str("0.000000000000000000001"));
}

#[test]
fn arithmetic_overflow() {
    assert_eq!(Err(CalcError::Overflow), eval_str("9223372036854775807 * 2"));
}

#[test]
fn postfix_shape() {
    let mut tokens = tokenize(&chars("4 + 2 * 3")).unwrap();
    let post = to_postfix(&mut tokens);
    assert_eq!(
        post,
        vec![
            Token::Number(Number { num: 3, den: 1 }),
            Token::Number(Number { num: 2, den: 1 }),
            Token::Operator(Operator::Mul),
            Token::Number(Number { num: 4, den: 1 }),
            Token::Operator(Operator::Add),
        ]
    );
}

#[test]
fn parseability_check() {
    assert!(numbers_parseable(&chars("1 + 2.5")));
    assert!(numbers_parseable(&chars("")));
    assert!(!numbers_parseable(&chars("1.2.3")));
    assert!(!numbers_parseable(&chars(".")));
    assert!(numbers_parseable(&chars(".5")));
    // A text that does not even scan is the scanner's business.
    assert!(numbers_parseable(&chars("..,")));
}

#[test]
fn error_messages() {
    assert_eq!(
        "Do not use delimiters such as , or '.",
        CalcError::InvalidDelimiter.message()
    );
    assert_eq!(
        "Invalid input! Only numbers, *, /, +, -, and spaces allowed.",
        CalcError::InvalidCharacter.message()
    );
    assert_eq!("Expected something, found nothing", CalcError::EmptyExpression.message());
    assert_eq!("Undefined: Division by zero", CalcError::DivisionByZero.message());
}

#[test]
fn same_precedence_groups_to_the_right() {
    // The two-stack conversion groups equal-precedence operators from the
    // right, so subtraction chains follow `1 - (2 - 3)`.
    assert_eq!(2.0, eval_f64("1 - 2 - 3"));
    assert_eq!(8.0, eval_f64("8 / 2 / 2"));
}
