//! Evaluation of expressions on a row, to expressions that are affine in the
//! witness values not yet known.

use crate::analyzer::{BinaryOperator, Expression};
use crate::commit_evaluator::affine_expression::{AffineExpression, AffineView};
use crate::commit_evaluator::eval_error::{EvalError, EvalFault};
use crate::commit_evaluator::{lemma_witness_id, witness_id, FixedData, FixedDataView};
use crate::number::{canonical, field_inverse, field_pow, DegreeType, FieldElement};
use crate::table::value_of;
use vstd::arithmetic::div_mod::*;
use vstd::prelude::*;

verus! {

/// The row that an unshifted reference `p` stands for.
#[derive(Clone, Copy, PartialEq, Eq, Structural, Debug)]
pub enum EvaluationRow {
    /// `p` is the row before the one being solved, `p'` the one being solved.
    Current,
    /// `p` is the row being solved, `p'` the one after it.
    Next,
}

/// The value of a witness column as far as it is known. A column beyond the
/// end of the list is not known.
pub open spec fn known(values: Seq<Option<FieldElement>>, id: int) -> Option<FieldElement> {
    if 0 <= id < values.len() {
        values[id]
    } else {
        None
    }
}

/// The row of a fixed column of the given length that a reference stands for,
/// where the row being solved is `next_row`.
pub open spec fn fixed_row(next_row: int, row: EvaluationRow, shifted: bool, length: int) -> int {
    (next_row - (if row == EvaluationRow::Current {
        1int
    } else {
        0int
    }) + (if shifted {
        1int
    } else {
        0int
    })) % length
}

/// What an evaluation looks at.
pub struct EvaluationData<'a> {
    pub fixed_data: &'a FixedData,
    /// Values of the witness polynomials in the row before the one being solved.
    pub current_witnesses: &'a Vec<Option<FieldElement>>,
    /// Values of the witness polynomials in the row being solved.
    pub next_witnesses: &'a Vec<Option<FieldElement>>,
    /// The row being solved.
    pub next_row: DegreeType,
    pub evaluate_row: EvaluationRow,
}

pub struct EvaluationView {
    pub fixed_data: FixedDataView,
    pub current: Seq<Option<FieldElement>>,
    pub next: Seq<Option<FieldElement>>,
    pub next_row: DegreeType,
    pub evaluate_row: EvaluationRow,
}

impl<'a> View for EvaluationData<'a> {
    type V = EvaluationView;

    open spec fn view(&self) -> EvaluationView {
        EvaluationView {
            fixed_data: self.fixed_data@,
            current: self.current_witnesses@,
            next: self.next_witnesses@,
            next_row: self.next_row,
            evaluate_row: self.evaluate_row,
        }
    }
}

/// A power by repeated multiplication: of a constant it is a constant; of
/// anything else it is affine only for the exponents zero and one.
pub open spec fn affine_power(base: AffineView, exponent: int) -> Result<AffineView, EvalFault> {
    if base.is_constant() {
        Ok(AffineView::constant(field_pow(base.offset, exponent as nat)))
    } else if exponent == 0 {
        Ok(AffineView::constant(1))
    } else if exponent == 1 {
        Ok(base)
    } else {
        Err(EvalFault::NonLinear)
    }
}

/// The value of `left op right` from the values of the operands.
pub open spec fn affine_operation(left: AffineView, op: BinaryOperator, right: AffineView) -> Result<
    AffineView,
    EvalFault,
> {
    match op {
        BinaryOperator::Add => Ok(left.plus(right)),
        BinaryOperator::Sub => Ok(left.minus(right)),
        BinaryOperator::Mul => match left.times(right) {
            Some(product) => Ok(product),
            None => Err(EvalFault::NonLinear),
        },
        BinaryOperator::Div => if !right.is_constant() {
            Err(EvalFault::NonConstantDivisor)
        } else {
            match field_inverse(right.offset) {
                Some(inverse) => Ok(left.scaled(inverse)),
                None => Err(EvalFault::DivisionByZero),
            }
        },
        BinaryOperator::Pow => if !right.is_constant() {
            Err(EvalFault::NonConstantExponent)
        } else {
            affine_power(left, right.offset)
        },
    }
}

impl EvaluationView {
    /// The value of a scalar constant.
    pub open spec fn constant(self, name: Seq<char>) -> Result<AffineView, EvalFault> {
        match value_of(self.fixed_data.constants, name) {
            Some(value) => Ok(AffineView::constant(value@)),
            None => Err(EvalFault::UnknownConstant(name)),
        }
    }

    /// The value of a witness column of the row being solved: the value if it
    /// is known, else the column itself as an unknown.
    pub open spec fn unknown_or_value(self, id: int) -> AffineView {
        match known(self.next, id) {
            Some(value) => AffineView::constant(value@),
            None => AffineView::witness(id),
        }
    }

    /// The value of a reference to a polynomial, shifted to the next row or not.
    pub open spec fn value(self, name: Seq<char>, shifted: bool) -> Result<AffineView, EvalFault> {
        match witness_id(self.fixed_data.witness_names, name) {
            Some(id) => if !shifted && self.evaluate_row == EvaluationRow::Current {
                match known(self.current, id) {
                    Some(value) => Ok(AffineView::constant(value@)),
                    None => Err(EvalFault::PreviousValueUnknown(name)),
                }
            } else if shifted && self.evaluate_row == EvaluationRow::Next {
                Err(EvalFault::NextNextRow(name))
            } else {
                Ok(self.unknown_or_value(id))
            },
            None => match value_of(self.fixed_data.fixed_cols, name) {
                None => Err(EvalFault::UnknownPolynomial(name)),
                Some(values) => if values@.len() == 0 {
                    Err(EvalFault::EmptyColumn(name))
                } else {
                    Ok(
                        AffineView::constant(
                            values@[fixed_row(
                                self.next_row as int,
                                self.evaluate_row,
                                shifted,
                                values@.len() as int,
                            )]@,
                        ),
                    )
                },
            },
        }
    }

    /// The value of an expression. Of two operands that fail, the left one is reported.
    pub open spec fn evaluate(self, e: Expression) -> Result<AffineView, EvalFault>
        decreases e,
    {
        match e {
            Expression::Constant(name) => self.constant(name@),
            Expression::PolynomialReference(reference) => self.value(
                reference.name@,
                reference.next,
            ),
            Expression::Number(n) => Ok(AffineView::constant(canonical(n as int))),
            Expression::BinaryOperation(left, op, right) => match self.evaluate(*left) {
                Err(fault) => Err(fault),
                Ok(l) => match self.evaluate(*right) {
                    Err(fault) => Err(fault),
                    Ok(r) => affine_operation(l, op, r),
                },
            },
            Expression::UnaryOperation(_, inner) => match self.evaluate(*inner) {
                Err(fault) => Err(fault),
                Ok(value) => Ok(value.negated()),
            },
        }
    }
}

/// Shift semantics of fixed columns: where the unshifted reference stands
/// for row `r`, a fixed column `c` of length `L` has the value `c[r mod L]`,
/// and its shifted reference `c'` the value `c[(r + 1) mod L]`. The row `r`
/// is the row being solved, or the one before it, as the evaluation says.
pub proof fn lemma_fixed_column_shift(view: EvaluationView, name: Seq<char>, values: Vec<FieldElement>)
    requires
        witness_id(view.fixed_data.witness_names, name) is None,
        value_of(view.fixed_data.fixed_cols, name) == Some(values),
        values@.len() > 0,
    ensures
        ({
            let r = if view.evaluate_row == EvaluationRow::Current {
                view.next_row - 1
            } else {
                view.next_row as int
            };
            let length = values@.len() as int;
            &&& view.value(name, false) == Ok::<AffineView, EvalFault>(
                AffineView::constant(values@[r % length]@),
            )
            &&& view.value(name, true) == Ok::<AffineView, EvalFault>(
                AffineView::constant(values@[(r + 1) % length]@),
            )
        }),
{
}

/// The outcome of an evaluation is a value that speaks of no witness column
/// beyond the last one, or a failure of evaluation: not one of those that
/// only the answer of a machine gives rise to.
pub open spec fn is_evaluation_outcome(outcome: Result<AffineView, EvalFault>, width: int) -> bool {
    match outcome {
        Ok(value) => value.coefficients.len() <= width,
        Err(fault) => !(fault is UnknownWitness),
    }
}

/// Every evaluation ends in an evaluation outcome.
pub proof fn lemma_evaluate_outcome(view: EvaluationView, e: Expression)
    ensures
        is_evaluation_outcome(view.evaluate(e), view.fixed_data.witness_names.len() as int),
    decreases e,
{
    match e {
        Expression::PolynomialReference(reference) => {
            lemma_witness_id(view.fixed_data.witness_names, reference.name@);
        },
        Expression::BinaryOperation(left, _, right) => {
            lemma_evaluate_outcome(view, *left);
            lemma_evaluate_outcome(view, *right);
        },
        Expression::UnaryOperation(_, inner) => {
            lemma_evaluate_outcome(view, *inner);
        },
        _ => {},
    }
}

/// The exec result `r` is the value `value`, or reports its failure.
pub open spec fn gives(r: Result<AffineExpression, EvalError>, value: Result<AffineView, EvalFault>) -> bool {
    match value {
        Ok(view) => r matches Ok(expression) && expression@ == view,
        Err(fault) => r matches Err(error) && error@ == fault,
    }
}

/// The value in a list of witness values, as far as it is known.
pub fn known_value(values: &Vec<Option<FieldElement>>, id: usize) -> (r: Option<FieldElement>)
    ensures
        r == known(values@, id as int),
{
    if id < values.len() {
        values[id]
    } else {
        None
    }
}

/// The value of a fixed column in the row that a reference stands for.
pub fn fixed_value(
    values: &Vec<FieldElement>,
    next_row: DegreeType,
    row: EvaluationRow,
    shifted: bool,
) -> (r: FieldElement)
    requires
        values@.len() > 0,
    ensures
        r == values@[fixed_row(next_row as int, row, shifted, values@.len() as int)],
        0 <= fixed_row(next_row as int, row, shifted, values@.len() as int) < values@.len(),
{
    let degree: u128 = values.len() as u128;
    let mut index: u128 = (next_row as u128) % degree;
    let ghost d = degree as int;
    let ghost mut position: int = next_row as int;
    if row == EvaluationRow::Current {
        proof {
            lemma_add_mod_noop(position, d - 1, d);
            lemma_small_mod((d - 1) as nat, d as nat);
            lemma_mod_add_multiples_vanish(position - 1, d);
            position = position - 1;
        }
        index = (index + degree - 1) % degree;
    }
    if shifted {
        proof {
            lemma_add_mod_noop(position, 1, d);
            if d > 1 {
                lemma_small_mod(1, d as nat);
            }
            lemma_mod_twice(position, d);
            position = position + 1;
        }
        index = (index + 1) % degree;
    }
    proof {
        lemma_mod_bound(position, d);
    }
    values[index as usize]
}

impl<'a> EvaluationData<'a> {
    /// The value of a scalar constant.
    pub fn constant(&self, name: &String) -> (r: Result<AffineExpression, EvalError>)
        ensures
            gives(r, self@.constant(name@)),
    {
        match self.fixed_data.constant(name) {
            Some(value) => Ok(AffineExpression::from_constant(value)),
            None => Err(EvalError::UnknownConstant(name.clone())),
        }
    }

    /// The value of a reference to a polynomial, shifted to the next row or not.
    pub fn value(&self, name: &String, next: bool) -> (r: Result<AffineExpression, EvalError>)
        ensures
            gives(r, self@.value(name@, next)),
    {
        match self.fixed_data.witness_id(name) {
            Some(id) => {
                match (next, self.evaluate_row) {
                    (false, EvaluationRow::Current) => {
                        // All values in the row before should be known, except
                        // where the analysis starts on the first row.
                        match known_value(self.current_witnesses, id) {
                            Some(value) => Ok(AffineExpression::from_constant(value)),
                            None => Err(EvalError::PreviousValueUnknown(name.clone())),
                        }
                    },
                    (false, EvaluationRow::Next) | (true, EvaluationRow::Current) => {
                        match known_value(self.next_witnesses, id) {
                            // The value is computed already.
                            Some(value) => Ok(AffineExpression::from_constant(value)),
                            // The value stays symbolic.
                            None => Ok(AffineExpression::from_wittness_poly_value(id)),
                        }
                    },
                    (true, EvaluationRow::Next) => Err(EvalError::NextNextRow(name.clone())),
                }
            },
            None => {
                // A fixed column, or nothing at all.
                match self.fixed_data.fixed_col(name) {
                    None => Err(EvalError::UnknownPolynomial(name.clone())),
                    Some(values) => {
                        if values.len() == 0 {
                            Err(EvalError::EmptyColumn(name.clone()))
                        } else {
                            Ok(
                                AffineExpression::from_constant(
                                    fixed_value(values, self.next_row, self.evaluate_row, next),
                                ),
                            )
                        }
                    },
                }
            },
        }
    }

    /// The power of an expression with a constant exponent.
    fn power(base: &AffineExpression, exponent: FieldElement) -> (r: Result<
        AffineExpression,
        EvalError,
    >)
        ensures
            gives(r, affine_power(base@, exponent@)),
    {
        let e = exponent.to_u64();
        if base.is_constant() {
            Ok(AffineExpression::from_constant(base.offset().pow(e)))
        } else if e == 0 {
            Ok(AffineExpression::from_constant(FieldElement::one()))
        } else if e == 1 {
            Ok(base.duplicate())
        } else {
            Err(EvalError::NonLinear)
        }
    }

    /// The value of `left op right` from the values of the operands.
    pub fn operation(left: &AffineExpression, op: BinaryOperator, right: &AffineExpression) -> (r:
        Result<AffineExpression, EvalError>)
        ensures
            gives(r, affine_operation(left@, op, right@)),
    {
        match op {
            BinaryOperator::Add => Ok(left.add(right)),
            BinaryOperator::Sub => Ok(left.sub(right)),
            BinaryOperator::Mul => match left.mul(right) {
                Some(product) => Ok(product),
                None => Err(EvalError::NonLinear),
            },
            BinaryOperator::Div => match right.constant_value() {
                None => Err(EvalError::NonConstantDivisor),
                Some(divisor) => match divisor.inverse() {
                    Some(inverse) => Ok(left.scale(inverse)),
                    None => Err(EvalError::DivisionByZero),
                },
            },
            BinaryOperator::Pow => match right.constant_value() {
                None => Err(EvalError::NonConstantExponent),
                Some(exponent) => Self::power(left, exponent),
            },
        }
    }

    /// Evaluates an expression to an expression that is affine in the witness
    /// values of the row being solved that are not known yet.
    pub fn evaluate(&self, expr: &Expression) -> (r: Result<AffineExpression, EvalError>)
        ensures
            gives(r, self@.evaluate(*expr)),
        decreases expr,
    {
        match expr {
            Expression::Constant(name) => self.constant(name),
            Expression::PolynomialReference(reference) => self.value(
                &reference.name,
                reference.next,
            ),
            Expression::Number(n) => Ok(
                AffineExpression::from_constant(FieldElement::from_i128(*n)),
            ),
            Expression::BinaryOperation(left, op, right) => {
                let l = match self.evaluate(left) {
                    Err(error) => {
                        return Err(error);
                    },
                    Ok(l) => l,
                };
                let r = match self.evaluate(right) {
                    Err(error) => {
                        return Err(error);
                    },
                    Ok(r) => r,
                };
                Self::operation(&l, *op, &r)
            },
            Expression::UnaryOperation(_, inner) => match self.evaluate(inner) {
                Err(error) => Err(error),
                Ok(value) => Ok(value.neg()),
            },
        }
    }
}

} // verus!
