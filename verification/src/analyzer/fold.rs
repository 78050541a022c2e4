//! Evaluation of expressions at analysis time.
//!
//! Arithmetic is that of the integers, with the quotient of a division cut
//! toward zero. A result, or an operand on the way to it, that does not fit
//! the fixed-width number type is reported, never wrapped.

use crate::ast::BinaryOperator;
use crate::number::ConstantNumberType;
use vstd::prelude::*;

verus! {

/// Why an expression has no value at analysis time.
pub enum ArithmeticFault {
    Overflow,
    DivisionByZero,
    /// The exponent is negative or does not fit 32 bits.
    InvalidExponent,
}

pub open spec fn fits(v: int) -> bool {
    i128::MIN <= v <= i128::MAX
}

/// `b` multiplied with itself `e` times, starting from one.
pub open spec fn power(b: int, e: nat) -> int
    decreases e,
{
    if e == 0 {
        1
    } else {
        b * power(b, (e - 1) as nat)
    }
}

pub open spec fn magnitude(v: int) -> int {
    if v < 0 {
        -v
    } else {
        v
    }
}

/// The quotient cut toward zero: that of the magnitudes, with the sign of
/// the exact quotient. `7 / 2` is 3 and `-7 / 2` is -3.
pub open spec fn truncated_quotient(left: int, right: int) -> int {
    if left >= 0 && right > 0 {
        left / right
    } else if left < 0 && right < 0 {
        (-left) / (-right)
    } else if left < 0 {
        -((-left) / right)
    } else {
        -(left / (-right))
    }
}

/// The value of `left op right` over the integers, not yet held to the number type.
pub open spec fn integer_operation(op: BinaryOperator, left: int, right: int) -> int {
    match op {
        BinaryOperator::Add => left + right,
        BinaryOperator::Sub => left - right,
        BinaryOperator::Mul => left * right,
        BinaryOperator::Div => truncated_quotient(left, right),
        BinaryOperator::Pow => power(left, right as nat),
    }
}

/// What stops `left op right` from having a value, if anything does.
pub open spec fn operation_fault(op: BinaryOperator, left: int, right: int) -> Option<
    ArithmeticFault,
> {
    if op == BinaryOperator::Div && right == 0 {
        Some(ArithmeticFault::DivisionByZero)
    } else if op == BinaryOperator::Pow && !(0 <= right <= u32::MAX) {
        Some(ArithmeticFault::InvalidExponent)
    } else if !fits(integer_operation(op, left, right)) {
        Some(ArithmeticFault::Overflow)
    } else {
        None
    }
}

proof fn lemma_magnitude_product(x: int, y: int)
    ensures
        magnitude(x * y) == magnitude(x) * magnitude(y),
{
    assert(magnitude(x * y) == magnitude(x) * magnitude(y)) by (nonlinear_arith);
}

proof fn lemma_pow_magnitude_positive(b: int, e: nat)
    requires
        b != 0,
    ensures
        magnitude(power(b, e)) >= 1,
    decreases e,
{
    if e > 0 {
        lemma_pow_magnitude_positive(b, (e - 1) as nat);
        lemma_magnitude_product(b, power(b, (e - 1) as nat));
        assert(magnitude(b) * magnitude(power(b, (e - 1) as nat)) >= 1) by (nonlinear_arith)
            requires
                magnitude(b) >= 1,
                magnitude(power(b, (e - 1) as nat)) >= 1,
        ;
    }
}

/// With a base of magnitude two or more, a higher power is at least twice as far from zero.
proof fn lemma_pow_magnitude_grows(b: int, j: nat, e: nat)
    requires
        magnitude(b) >= 2,
        j < e,
    ensures
        magnitude(power(b, e)) >= 2 * magnitude(power(b, j)),
    decreases e,
{
    let previous = power(b, (e - 1) as nat);
    lemma_magnitude_product(b, previous);
    lemma_pow_magnitude_positive(b, (e - 1) as nat);
    if j < e - 1 {
        lemma_pow_magnitude_grows(b, j, (e - 1) as nat);
    }
    assert(magnitude(b) * magnitude(previous) >= 2 * magnitude(previous)) by (nonlinear_arith)
        requires
            magnitude(b) >= 2,
            magnitude(previous) >= 1,
    ;
}

proof fn lemma_power_of_zero(e: nat)
    requires
        e > 0,
    ensures
        power(0, e) == 0,
{
}

proof fn lemma_power_of_one(e: nat)
    ensures
        power(1, e) == 1,
    decreases e,
{
    if e > 0 {
        lemma_power_of_one((e - 1) as nat);
    }
}

proof fn lemma_pow_minus_one(e: nat)
    ensures
        power(-1, e) == if e % 2 == 0 {
            1int
        } else {
            -1int
        },
    decreases e,
{
    if e > 0 {
        lemma_pow_minus_one((e - 1) as nat);
    }
}

/// The power `base^exponent`, or `None` if it does not fit the number type.
pub fn checked_pow(base: ConstantNumberType, exponent: u32) -> (r: Option<ConstantNumberType>)
    ensures
        r == if fits(power(base as int, exponent as nat)) {
            Some(power(base as int, exponent as nat) as i128)
        } else {
            None
        },
{
    if base == 0 {
        proof {
            if exponent > 0 {
                lemma_power_of_zero(exponent as nat);
            }
        }
        return Some(if exponent == 0 { 1 } else { 0 });
    }
    if base == 1 {
        proof {
            lemma_power_of_one(exponent as nat);
        }
        return Some(1);
    }
    if base == -1 {
        proof {
            lemma_pow_minus_one(exponent as nat);
        }
        return Some(if exponent % 2 == 0 { 1 } else { -1 });
    }
    let mut acc: i128 = 1;
    let mut i: u32 = 0;
    while i < exponent
        invariant
            i <= exponent,
            acc == power(base as int, i as nat),
            magnitude(base as int) >= 2,
        decreases exponent - i,
    {
        proof {
            assert(power(base as int, (i + 1) as nat) == base * power(base as int, i as nat));
            assert(base * acc == acc * base) by (nonlinear_arith);
        }
        match acc.checked_mul(base) {
            Some(next) => {
                acc = next;
                i += 1;
            },
            None => {
                proof {
                    if i + 1 < exponent {
                        lemma_pow_magnitude_grows(
                            base as int,
                            (i + 1) as nat,
                            exponent as nat,
                        );
                    }
                }
                return None;
            },
        }
    }
    Some(acc)
}

/// The value of `left op right`, or what stops it from having one.
pub fn apply_operation(op: BinaryOperator, left: ConstantNumberType, right: ConstantNumberType) -> (r:
    Result<ConstantNumberType, ArithmeticFault>)
    ensures
        match operation_fault(op, left as int, right as int) {
            Some(fault) => r == Err::<ConstantNumberType, ArithmeticFault>(fault),
            None => r == Ok::<ConstantNumberType, ArithmeticFault>(
                integer_operation(op, left as int, right as int) as i128,
            ),
        },
{
    let value = match op {
        BinaryOperator::Add => left.checked_add(right),
        BinaryOperator::Sub => left.checked_sub(right),
        BinaryOperator::Mul => left.checked_mul(right),
        BinaryOperator::Div => {
            if right == 0 {
                return Err(ArithmeticFault::DivisionByZero);
            }
            proof {
                let l = left as int;
                let d = right as int;
                assert(l * -1 == -l && d * -1 == -d);
                if l == 0 {
                    assert(0int / d == 0 && 0int / (-d) == 0) by (nonlinear_arith)
                        requires
                            d != 0,
                    ;
                }
            }
            left.checked_div(right)
        },
        BinaryOperator::Pow => {
            if right < 0 || right > u32::MAX as i128 {
                return Err(ArithmeticFault::InvalidExponent);
            }
            checked_pow(left, right as u32)
        },
    };
    match value {
        Some(v) => Ok(v),
        None => Err(ArithmeticFault::Overflow),
    }
}

} // verus!
