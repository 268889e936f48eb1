use vstd::prelude::*;

verus! {

/// An operator of the expression language.
#[derive(Debug, Clone, Copy, PartialEq, Eq, Structural)]
pub enum Operator {
    Add,
    Sub,
    Mul,
    Div,
}

impl Operator {
    /// Whether the operator binds at the multiplicative precedence level.
    pub open spec fn is_mul_level(self) -> bool {
        self == Operator::Mul || self == Operator::Div
    }
}

/// An exact rational value `num / den`. A well-formed value has `den >= 1`.
///
/// Values are not normalised: `2/2` and `1/1` both denote one. Arithmetic
/// on values that do not fit this representation reports `CalcError::Overflow`
/// rather than rounding.
#[derive(Debug, Clone, Copy, PartialEq, Eq, Structural)]
pub struct Number {
    pub num: i64,
    pub den: u64,
}

impl Number {
    /// Whether the denominator is positive, so the value denotes a rational.
    pub open spec fn wf(self) -> bool {
        self.den >= 1
    }

    /// The rational `n / 1`.
    pub fn integer(n: i64) -> (r: Number)
        ensures
            r == (Number { num: n, den: 1u64 }),
    {
        Number { num: n, den: 1 }
    }
}

/// A token of the expression language: a number or an operator.
#[derive(Debug, Clone, Copy, PartialEq, Eq, Structural)]
pub enum Token {
    Number(Number),
    Operator(Operator),
}

/// A half-open index range `[start, end)` into the scanned text, tagged
/// with the kind of token whose characters it covers.
#[derive(Debug, Clone, Copy, PartialEq, Eq, Structural)]
pub enum TokenIndexes {
    Number(usize, usize),
    Operator(usize, usize),
}

impl TokenIndexes {
    /// The start index of the range.
    pub open spec fn start(self) -> usize {
        match self {
            TokenIndexes::Number(a, _) => a,
            TokenIndexes::Operator(a, _) => a,
        }
    }

    /// The end index of the range.
    pub open spec fn end(self) -> usize {
        match self {
            TokenIndexes::Number(_, b) => b,
            TokenIndexes::Operator(_, b) => b,
        }
    }
}

/// Everything that can go wrong between reading a line and producing a value.
#[derive(Debug, Clone, Copy, PartialEq, Eq, Structural)]
pub enum CalcError {
    /// The input contains `,` or `'`.
    InvalidDelimiter,
    /// The input contains a character outside digits, `.`, `* / + -` and space.
    InvalidCharacter,
    /// An operand was expected where the token sequence was exhausted.
    EmptyExpression,
    /// A divisor evaluated to exactly zero.
    DivisionByZero,
    /// A value does not fit the exact rational representation.
    Overflow,
}

impl CalcError {
    /// A human-readable description of the error.
    pub fn message(&self) -> (r: &'static str)
        ensures
            *self == CalcError::InvalidDelimiter ==> r@ == "Do not use delimiters such as , or '."@,
            *self == CalcError::InvalidCharacter ==> r@
                == "Invalid input! Only numbers, *, /, +, -, and spaces allowed."@,
            *self == CalcError::EmptyExpression ==> r@ == "Expected something, found nothing"@,
            *self == CalcError::DivisionByZero ==> r@ == "Undefined: Division by zero"@,
            *self == CalcError::Overflow ==> r@ == "Value does not fit the exact number range"@,
    {
        match self {
            CalcError::InvalidDelimiter => "Do not use delimiters such as , or '.",
            CalcError::InvalidCharacter => "Invalid input! Only numbers, *, /, +, -, and spaces allowed.",
            CalcError::EmptyExpression => "Expected something, found nothing",
            CalcError::DivisionByZero => "Undefined: Division by zero",
            CalcError::Overflow => "Value does not fit the exact number range",
        }
    }
}

} // verus!
