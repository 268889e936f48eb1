use vstd::prelude::*;

use crate::token::{CalcError, Number, Operator};

verus! {

/// What applying `op` to the operands `a` and `b` yields, in exact rational
/// arithmetic over the unnormalised `i64 / u64` representation.
///
/// Division by a zero numerator is `DivisionByZero`; a numerator outside
/// `i64` or a denominator outside `u64` is `Overflow`; everything else is
/// the exact result.
pub open spec fn spec_apply(op: Operator, a: Number, b: Number) -> Result<Number, CalcError> {
    match op {
        Operator::Add => spec_make(a.num * b.den + b.num * a.den, a.den * b.den),
        Operator::Sub => spec_make(a.num * b.den - b.num * a.den, a.den * b.den),
        Operator::Mul => spec_make(a.num * b.num, a.den * b.den),
        Operator::Div => {
            if b.num == 0 {
                Err(CalcError::DivisionByZero)
            } else if b.num < 0 {
                spec_make(-(a.num * b.den), a.den * (-(b.num as int)))
            } else {
                spec_make(a.num * b.den, a.den * b.num)
            }
        },
    }
}

/// The rational `n / d` as a `Number`, or `Overflow` where it does not fit.
pub open spec fn spec_make(n: int, d: int) -> Result<Number, CalcError> {
    if n < i64::MIN as int || n > i64::MAX as int || d > u64::MAX as int {
        Err(CalcError::Overflow)
    } else {
        Ok(Number { num: n as i64, den: d as u64 })
    }
}

/// The product of an `i64` and a `u64` stays within `i128`.
proof fn lemma_prod_i64_u64_in_i128(x: int, y: int)
    requires
        i64::MIN as int <= x <= i64::MAX as int,
        0 <= y <= u64::MAX as int,
    ensures
        (i128::MIN as int) < x * y && x * y < (i128::MAX as int),
{
    vstd::arithmetic::mul::lemma_mul_unary_negation(x, y);
    if x >= 0 {
        vstd::arithmetic::mul::lemma_mul_nonnegative(x, y);
        vstd::arithmetic::mul::lemma_mul_upper_bound(x, i64::MAX as int, y, u64::MAX as int);
    } else {
        vstd::arithmetic::mul::lemma_mul_nonnegative(-x, y);
        vstd::arithmetic::mul::lemma_mul_upper_bound(-x, 0x8000_0000_0000_0000, y, u64::MAX as int);
    }
}

/// The product of two `i64` values stays within `i128`.
proof fn lemma_prod_i64_i64_in_i128(x: int, y: int)
    requires
        i64::MIN as int <= x <= i64::MAX as int,
        i64::MIN as int <= y <= i64::MAX as int,
    ensures
        (i128::MIN as int) < x * y && x * y < (i128::MAX as int),
{
    vstd::arithmetic::mul::lemma_mul_unary_negation(x, y);
    vstd::arithmetic::mul::lemma_mul_unary_negation(-x, y);
    if x >= 0 {
        if y >= 0 {
            vstd::arithmetic::mul::lemma_mul_nonnegative(x, y);
            vstd::arithmetic::mul::lemma_mul_upper_bound(x, i64::MAX as int, y, i64::MAX as int);
        } else {
            vstd::arithmetic::mul::lemma_mul_nonnegative(x, -y);
            vstd::arithmetic::mul::lemma_mul_upper_bound(x, i64::MAX as int, -y, 0x8000_0000_0000_0000);
            assert(x * y == -(x * -y)) by {
                vstd::arithmetic::mul::lemma_mul_unary_negation(x, -y);
            }
        }
    } else {
        if y >= 0 {
            vstd::arithmetic::mul::lemma_mul_nonnegative(-x, y);
            vstd::arithmetic::mul::lemma_mul_upper_bound(-x, 0x8000_0000_0000_0000, y, i64::MAX as int);
        } else {
            vstd::arithmetic::mul::lemma_mul_nonnegative(-x, -y);
            vstd::arithmetic::mul::lemma_mul_upper_bound(-x, 0x8000_0000_0000_0000, -y, 0x8000_0000_0000_0000);
            assert(x * y == (-x) * (-y)) by {
                vstd::arithmetic::mul::lemma_mul_unary_negation(-x, y);
            }
        }
    }
}

/// The product of two `u64` values stays within `u128`.
proof fn lemma_prod_u64_u64_in_u128(x: int, y: int)
    requires
        0 <= x <= u64::MAX as int,
        0 <= y <= u64::MAX as int,
    ensures
        0 <= x * y && x * y < u128::MAX as int,
{
    vstd::arithmetic::mul::lemma_mul_nonnegative(x, y);
    vstd::arithmetic::mul::lemma_mul_upper_bound(x, u64::MAX as int, y, u64::MAX as int);
}

/// The denominator product, checked against the `u64` range.
fn mul_dens(x: u64, y: u64) -> (r: Option<u64>)
    ensures
        x as int * y as int <= u64::MAX as int ==> r == Some((x as int * y as int) as u64),
        x as int * y as int > u64::MAX as int ==> r is None,
{
    proof {
        lemma_prod_u64_u64_in_u128(x as int, y as int);
    }
    let wide: u128 = (x as u128) * (y as u128);
    if wide > u64::MAX as u128 {
        None
    } else {
        Some(wide as u64)
    }
}

/// The numerator `n`, checked against the `i64` range.
fn narrow_num(n: i128) -> (r: Option<i64>)
    ensures
        i64::MIN as int <= n as int <= i64::MAX as int ==> r == Some(n as i64),
        ((n as int) < i64::MIN as int || (n as int) > i64::MAX as int) ==> r is None,
{
    if n < i64::MIN as i128 || n > i64::MAX as i128 {
        None
    } else {
        Some(n as i64)
    }
}

/// Applies `op` to `a` and `b` exactly as `spec_apply` describes.
pub fn apply_op(op: Operator, a: Number, b: Number) -> (r: Result<Number, CalcError>)
    ensures
        r == spec_apply(op, a, b),
{
    match op {
        Operator::Add | Operator::Sub => {
            proof {
                lemma_prod_i64_u64_in_i128(a.num as int, b.den as int);
                lemma_prod_i64_u64_in_i128(b.num as int, a.den as int);
            }
            let p1: i128 = (a.num as i128) * (b.den as i128);
            let p2: i128 = (b.num as i128) * (a.den as i128);
            let sum: Option<i128> = if matches!(op, Operator::Add) {
                p1.checked_add(p2)
            } else {
                p1.checked_sub(p2)
            };
            match sum {
                None => Err(CalcError::Overflow),
                Some(n) => {
                    match (narrow_num(n), mul_dens(a.den, b.den)) {
                        (Some(num), Some(den)) => Ok(Number { num, den }),
                        _ => Err(CalcError::Overflow),
                    }
                },
            }
        },
        Operator::Mul => {
            proof {
                lemma_prod_i64_i64_in_i128(a.num as int, b.num as int);
            }
            let n: i128 = (a.num as i128) * (b.num as i128);
            match (narrow_num(n), mul_dens(a.den, b.den)) {
                (Some(num), Some(den)) => Ok(Number { num, den }),
                _ => Err(CalcError::Overflow),
            }
        },
        Operator::Div => {
            if b.num == 0 {
                return Err(CalcError::DivisionByZero);
            }
            proof {
                lemma_prod_i64_u64_in_i128(a.num as int, b.den as int);
            }
            let p: i128 = (a.num as i128) * (b.den as i128);
            let n: i128 = if b.num < 0 {
                -p
            } else {
                p
            };
            let b_abs: u64 = if b.num < 0 {
                (-(b.num as i128)) as u64
            } else {
                b.num as u64
            };
            match (narrow_num(n), mul_dens(a.den, b_abs)) {
                (Some(num), Some(den)) => Ok(Number { num, den }),
                _ => Err(CalcError::Overflow),
            }
        },
    }
}

} // verus!
