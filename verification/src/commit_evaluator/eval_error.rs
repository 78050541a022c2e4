//! Why an expression has no value, or an identity gives no assignment.

use crate::commit_evaluator::affine_expression::{AffineExpression, AffineView};
use crate::commit_evaluator::FixedData;
use crate::number::{format_number, number_text, FieldElement};
use crate::text::{decimal, push_decimal};
use vstd::prelude::*;
use vstd::string::*;

verus! {

#[derive(Debug)]
pub enum EvalError {
    /// The value of a witness column in the previous row is not known.
    /// On the first row this is expected: the previous row is the last one.
    PreviousValueUnknown(String),
    /// A reference to the row after the one being solved.
    NextNextRow(String),
    /// A reference to a polynomial that is neither a witness nor a fixed column.
    UnknownPolynomial(String),
    /// A reference to a constant that the fixed data does not hold.
    UnknownConstant(String),
    /// A reference to a fixed column without rows.
    EmptyColumn(String),
    /// A product of two expressions that both depend on witness values.
    NonLinear,
    /// A division by an expression that depends on witness values.
    NonConstantDivisor,
    /// A division by a constant without an inverse.
    DivisionByZero,
    /// A power whose exponent depends on witness values.
    NonConstantExponent,
    /// The constraint comes to this constant, which is not zero.
    ConstraintInvalid(FieldElement),
    /// The constraint leaves more than one witness value open.
    CouldNotSolve(AffineExpression),
    /// A polynomial identity without an expression.
    MissingExpression,
    /// The selector on the left side of a lookup is not known to be zero or one.
    SelectorNotBoolean(AffineExpression),
    /// No machine answered a lookup.
    NoMatchingMachine,
    /// A machine assigned a value to a witness column that does not exist.
    UnknownWitness(usize),
    /// The query of a witness column, by its name, got no answer.
    NoQueryAnswer(String, String),
    /// A query, or the part of one that is given as it is written, cannot be
    /// put into words.
    CannotEvaluateQuery(String),
    /// What a machine reports.
    Generic(String),
}

pub enum EvalFault {
    PreviousValueUnknown(Seq<char>),
    NextNextRow(Seq<char>),
    UnknownPolynomial(Seq<char>),
    UnknownConstant(Seq<char>),
    EmptyColumn(Seq<char>),
    NonLinear,
    NonConstantDivisor,
    DivisionByZero,
    NonConstantExponent,
    ConstraintInvalid(int),
    CouldNotSolve(AffineView),
    MissingExpression,
    SelectorNotBoolean(AffineView),
    NoMatchingMachine,
    UnknownWitness(int),
    NoQueryAnswer(Seq<char>, Seq<char>),
    CannotEvaluateQuery(Seq<char>),
    Generic(Seq<char>),
}

impl View for EvalError {
    type V = EvalFault;

    open spec fn view(&self) -> EvalFault {
        match self {
            EvalError::PreviousValueUnknown(name) => EvalFault::PreviousValueUnknown(name@),
            EvalError::NextNextRow(name) => EvalFault::NextNextRow(name@),
            EvalError::UnknownPolynomial(name) => EvalFault::UnknownPolynomial(name@),
            EvalError::UnknownConstant(name) => EvalFault::UnknownConstant(name@),
            EvalError::EmptyColumn(name) => EvalFault::EmptyColumn(name@),
            EvalError::NonLinear => EvalFault::NonLinear,
            EvalError::NonConstantDivisor => EvalFault::NonConstantDivisor,
            EvalError::DivisionByZero => EvalFault::DivisionByZero,
            EvalError::NonConstantExponent => EvalFault::NonConstantExponent,
            EvalError::ConstraintInvalid(value) => EvalFault::ConstraintInvalid(value@),
            EvalError::CouldNotSolve(expression) => EvalFault::CouldNotSolve(expression@),
            EvalError::MissingExpression => EvalFault::MissingExpression,
            EvalError::SelectorNotBoolean(value) => EvalFault::SelectorNotBoolean(value@),
            EvalError::NoMatchingMachine => EvalFault::NoMatchingMachine,
            EvalError::UnknownWitness(id) => EvalFault::UnknownWitness(*id as int),
            EvalError::NoQueryAnswer(name, query) => EvalFault::NoQueryAnswer(name@, query@),
            EvalError::CannotEvaluateQuery(query) => EvalFault::CannotEvaluateQuery(query@),
            EvalError::Generic(message) => EvalFault::Generic(message@),
        }
    }
}

/// The words for a failure, with the witness columns named as in the list.
pub open spec fn fault_text(fault: EvalFault, names: Seq<Seq<char>>) -> Seq<char> {
    match fault {
        EvalFault::PreviousValueUnknown(name) => "Previous value of column "@ + name
            + " is not (yet) known."@,
        EvalFault::NextNextRow(name) => name
            + "' references the next-next row when evaluating on the current row."@,
        EvalFault::UnknownPolynomial(name) => "Polynomial "@ + name
            + " is neither a witness nor a fixed column."@,
        EvalFault::UnknownConstant(name) => "Constant "@ + name + " is not defined."@,
        EvalFault::EmptyColumn(name) => "Fixed column "@ + name + " has no rows."@,
        EvalFault::NonLinear => "Multiplication of two non-constant expressions."@,
        EvalFault::NonConstantDivisor => "Division by a non-constant expression."@,
        EvalFault::DivisionByZero => "Division by a constant without inverse."@,
        EvalFault::NonConstantExponent => "Power with a non-constant exponent."@,
        EvalFault::ConstraintInvalid(value) => "Constraint is invalid ("@ + number_text(value)
            + " != 0)."@,
        EvalFault::CouldNotSolve(expression) => "Could not solve expression "@ + expression.text(
            names,
        ) + " = 0."@,
        EvalFault::MissingExpression => "Polynomial identity without an expression."@,
        EvalFault::SelectorNotBoolean(value) =>
            "Value of the selector on the left hand side unknown or not boolean: "@ + value.text(
            names,
        ),
        EvalFault::NoMatchingMachine => "Could not find a matching machine for the lookup."@,
        EvalFault::UnknownWitness(id) => "Assignment to witness column "@ + decimal(id as nat)
            + ", which does not exist."@,
        EvalFault::NoQueryAnswer(name, query) => "No query answer for "@ + name + " query: "@
            + query + "."@,
        EvalFault::CannotEvaluateQuery(query) => "Cannot handle / evaluate "@ + query + "."@,
        EvalFault::Generic(message) => message,
    }
}

impl EvalError {
    /// The failure in words.
    pub fn message(&self, fixed_data: &FixedData) -> (r: String)
        ensures
            r@ == fault_text(self@, fixed_data@.witness_names),
    {
        let mut text = String::new();
        match self {
            EvalError::PreviousValueUnknown(name) => {
                text.append("Previous value of column ");
                text.append(name.as_str());
                text.append(" is not (yet) known.");
            },
            EvalError::NextNextRow(name) => {
                text.append(name.as_str());
                text.append("' references the next-next row when evaluating on the current row.");
            },
            EvalError::UnknownPolynomial(name) => {
                text.append("Polynomial ");
                text.append(name.as_str());
                text.append(" is neither a witness nor a fixed column.");
            },
            EvalError::UnknownConstant(name) => {
                text.append("Constant ");
                text.append(name.as_str());
                text.append(" is not defined.");
            },
            EvalError::EmptyColumn(name) => {
                text.append("Fixed column ");
                text.append(name.as_str());
                text.append(" has no rows.");
            },
            EvalError::NonLinear => {
                text.append("Multiplication of two non-constant expressions.");
            },
            EvalError::NonConstantDivisor => {
                text.append("Division by a non-constant expression.");
            },
            EvalError::DivisionByZero => {
                text.append("Division by a constant without inverse.");
            },
            EvalError::NonConstantExponent => {
                text.append("Power with a non-constant exponent.");
            },
            EvalError::ConstraintInvalid(value) => {
                text.append("Constraint is invalid (");
                text.append(format_number(value).as_str());
                text.append(" != 0).");
            },
            EvalError::CouldNotSolve(expression) => {
                text.append("Could not solve expression ");
                text.append(expression.format(fixed_data).as_str());
                text.append(" = 0.");
            },
            EvalError::MissingExpression => {
                text.append("Polynomial identity without an expression.");
            },
            EvalError::SelectorNotBoolean(value) => {
                text.append("Value of the selector on the left hand side unknown or not boolean: ");
                text.append(value.format(fixed_data).as_str());
            },
            EvalError::NoMatchingMachine => {
                text.append("Could not find a matching machine for the lookup.");
            },
            EvalError::UnknownWitness(id) => {
                text.append("Assignment to witness column ");
                push_decimal(&mut text, *id as u64);
                text.append(", which does not exist.");
            },
            EvalError::NoQueryAnswer(name, query) => {
                text.append("No query answer for ");
                text.append(name.as_str());
                text.append(" query: ");
                text.append(query.as_str());
                text.append(".");
            },
            EvalError::CannotEvaluateQuery(query) => {
                text.append("Cannot handle / evaluate ");
                text.append(query.as_str());
                text.append(".");
            },
            EvalError::Generic(message) => {
                text.append(message.as_str());
            },
        }
        assert(text@ =~= fault_text(self@, fixed_data@.witness_names));
        text
    }
}

} // verus!
