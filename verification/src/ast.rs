//! The syntax tree of a source file of the constraint language.

use crate::number::ConstantNumberType;
use vstd::prelude::*;

verus! {

/// A parsed source file: its statements in source order.
pub struct PILFile(pub Vec<Statement>);

pub enum Statement {
    /// Textual inclusion of another file, by a path relative to the including file.
    Include(String),
    /// Opens a namespace, with the degree of its polynomials.
    Namespace(String, Expression),
    /// Definition of an intermediate polynomial.
    PolynomialDefinition(String, Expression),
    PolynomialConstantDeclaration(Vec<PolynomialName>),
    PolynomialCommitDeclaration(Vec<PolynomialName>),
    /// The identity `expression = 0`.
    PolynomialIdentity(Expression),
    /// A lookup of the first group among the second.
    PlookupIdentity(SelectedExpressions, SelectedExpressions),
    ConstantDefinition(String, Expression),
}

pub struct SelectedExpressions {
    pub selector: Option<Expression>,
    pub expressions: Vec<Expression>,
}

pub enum Expression {
    /// Reference to a named scalar constant.
    Constant(String),
    PolynomialReference(PolynomialReference),
    Number(ConstantNumberType),
    BinaryOperation(Box<Expression>, BinaryOperator, Box<Expression>),
    UnaryOperation(UnaryOperator, Box<Expression>),
}

/// A declared polynomial name, with the array size if it is an array.
pub struct PolynomialName {
    pub name: String,
    pub array_size: Option<Expression>,
}

pub struct PolynomialReference {
    /// The namespace, if the reference names one.
    pub namespace: Option<String>,
    pub name: String,
    pub index: Option<Box<Expression>>,
    /// Whether the reference is to the next row.
    pub next: bool,
}

#[derive(Clone, Copy, PartialEq, Eq, Structural, Debug)]
pub enum UnaryOperator {
    Minus,
}

#[derive(Clone, Copy, PartialEq, Eq, Structural, Debug)]
pub enum BinaryOperator {
    Add,
    Sub,
    Mul,
    Div,
    Pow,
}

} // verus!
