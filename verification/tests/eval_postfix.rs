use infix_calc::{eval_postfix, Number, Operator, Token};

fn num(n: i64) -> Token {
    Token::Number(Number { num: n, den: 1 })
}

fn as_f64(n: Number) -> f64 {
    n.num as f64 / n.den as f64
}

#[test]
fn eval_postfix_test() {
    // 1 + 1 = 2
    let mut expr = vec![num(1), num(1), Token::Operator(Operator::Add)];
    assert_eq!(2.0, as_f64(eval_postfix(&mut expr).unwrap()));

    // 1 - 1 = 0
    let mut expr = vec![num(1), num(1), Token::Operator(Operator::Sub)];
    assert_eq!(0.0, as_f64(eval_postfix(&mut expr).unwrap()));

    // 2 - 1 = 1
    let mut expr = vec![num(1), num(2), Token::Operator(Operator::Sub)];
    assert_eq!(1.0, as_f64(eval_postfix(&mut expr).unwrap()));

    // 1 - 2 = -1
    let mut expr = vec![num(2), num(1), Token::Operator(Operator::Sub)];
    assert_eq!(-1.0, as_f64(eval_postfix(&mut expr).unwrap()));

    // 1 * 1 = 1
    let mut expr = vec![num(1), num(1), Token::Operator(Operator::Mul)];
    assert_eq!(1.0, as_f64(eval_postfix(&mut expr).unwrap()));

    // 2 * 1 = 2
    let mut expr = vec![num(2), num(1), Token::Operator(Operator::Mul)];
    assert_eq!(2.0, as_f64(eval_postfix(&mut expr).unwrap()));

    // 2 * 0 = 0
    let mut expr = vec![num(2), num(0), Token::Operator(Operator::Mul)];
    assert_eq!(0.0, as_f64(eval_postfix(&mut expr).unwrap()));

    // 1 / 1 = 1
    let mut expr = vec![num(1), num(1), Token::Operator(Operator::Div)];
    assert_eq!(1.0, as_f64(eval_postfix(&mut expr).unwrap()));

    // 2 / 2 = 1
    let mut expr = vec![num(2), num(2), Token::Operator(Operator::Div)];
    assert_eq!(1.0, as_f64(eval_postfix(&mut expr).unwrap()));

    // 2 / 1 = 2
    let mut expr = vec![num(1), num(2), Token::Operator(Operator::Div)];
    assert_eq!(2.0, as_f64(eval_postfix(&mut expr).unwrap()));

    // 2 / 0 = Err
    let mut expr = vec![num(0), num(2), Token::Operator(Operator::Div)];
    let ans = eval_postfix(&mut expr);
    assert!(matches!(ans, Err(_)));

    // 1 * = Err
    let mut expr = vec![num(1), Token::Operator(Operator::Mul)];
    let ans = eval_postfix(&mut expr);
    assert!(matches!(ans, Err(_)));

    // 1 + 1 + 1 = 3
    let mut expr = vec![
        num(1),
        num(1),
        Token::Operator(Operator::Add),
        num(1),
        Token::Operator(Operator::Add),
    ];
    assert_eq!(3.0, as_f64(eval_postfix(&mut expr).unwrap()));

    // Test forms
    // 4 + 2 * 3 = 10
    let mut expr = vec![num(4), num(2), num(3), Token::Operator(Operator::Mul), Token::Operator(
        Operator::Add,
    )];
    assert_eq!(10.0, as_f64(eval_postfix(&mut expr).unwrap()));

    // 4 + 2 * 3 = 10
    let mut expr = vec![num(4), num(3), num(2), Token::Operator(Operator::Mul), Token::Operator(
        Operator::Add,
    )];
    assert_eq!(10.0, as_f64(eval_postfix(&mut expr).unwrap()));

    // 4 + 2 * 3 = 10
    let mut expr = vec![num(2), num(3), Token::Operator(Operator::Mul), num(4), Token::Operator(
        Operator::Add,
    )];
    assert_eq!(10.0, as_f64(eval_postfix(&mut expr).unwrap()));

    // 4 + 2 * 3 = 10
    let mut expr = vec![num(3), num(2), Token::Operator(Operator::Mul), num(4), Token::Operator(
        Operator::Add,
    )];
    assert_eq!(10.0, as_f64(eval_postfix(&mut expr).unwrap()));
}

#[test]
fn negative_divisor_stays_exact() {
    // 1 / -2 = -0.5: the sign moves to the numerator, the denominator
    // stays positive.
    let mut expr = vec![num(-2), num(1), Token::Operator(Operator::Div)];
    let n = eval_postfix(&mut expr).unwrap();
    assert_eq!(n, Number { num: -1, den: 2 });
    assert_eq!(-0.5, as_f64(n));
}
