//! Questions about expressions.

use crate::analyzer::Expression;
use vstd::prelude::*;

verus! {

/// The expression refers to the next row of some polynomial.
pub open spec fn mentions_next(e: Expression) -> bool
    decreases e,
{
    match e {
        Expression::PolynomialReference(reference) => reference.next,
        Expression::BinaryOperation(left, _, right) => mentions_next(*left) || mentions_next(
            *right,
        ),
        Expression::UnaryOperation(_, inner) => mentions_next(*inner),
        _ => false,
    }
}

/// Whether the expression refers to the next row of some polynomial.
pub fn contains_next_ref(expr: &Expression) -> (r: bool)
    ensures
        r == mentions_next(*expr),
    decreases expr,
{
    match expr {
        Expression::PolynomialReference(reference) => reference.next,
        Expression::BinaryOperation(left, _, right) => contains_next_ref(left)
            || contains_next_ref(right),
        Expression::UnaryOperation(_, inner) => contains_next_ref(inner),
        _ => false,
    }
}

} // verus!
