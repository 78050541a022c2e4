//! Semantic analysis: from syntax trees to a normalized constraint model.
//!
//! The analyzer walks the statements of the source files in order. It keeps
//! the current namespace and polynomial degree, collects scalar constants and
//! polynomial declarations, and turns every identity into its normal form, in
//! which each subtree that has a value at analysis time is a number.

pub mod fold;

use crate::analyzer::fold::{
    apply_operation, fits, integer_operation, operation_fault, ArithmeticFault,
};
use crate::ast;
pub use crate::ast::{BinaryOperator, UnaryOperator};
pub use crate::number::ConstantNumberType;
use crate::table::{has_name, value_of, NameTable};
use crate::text::{decimal, push_decimal, push_signed_decimal, signed_decimal, views};
use vstd::prelude::*;
use vstd::string::*;

verus! {

#[derive(Clone, Copy, PartialEq, Eq, Structural, Debug)]
pub enum PolynomialType {
    Committed,
    Constant,
    Intermediate,
}

/// A declared polynomial.
#[derive(Debug)]
pub struct Polynomial {
    /// Position among the declarations of the same type.
    pub id: u64,
    /// Namespace and local name, joined by a dot.
    pub absolute_name: String,
    pub poly_type: PolynomialType,
    /// The degree that was current at the declaration.
    pub degree: ConstantNumberType,
    /// The array size, if the polynomial is an array.
    pub length: Option<ConstantNumberType>,
}

pub struct PolynomialView {
    pub id: u64,
    pub absolute_name: Seq<char>,
    pub poly_type: PolynomialType,
    pub degree: ConstantNumberType,
    pub length: Option<ConstantNumberType>,
}

impl View for Polynomial {
    type V = PolynomialView;

    open spec fn view(&self) -> PolynomialView {
        PolynomialView {
            id: self.id,
            absolute_name: self.absolute_name@,
            poly_type: self.poly_type,
            degree: self.degree,
            length: self.length,
        }
    }
}

impl Polynomial {
    pub fn is_array(&self) -> (r: bool)
        ensures
            r == self.length.is_some(),
    {
        self.length.is_some()
    }
}

/// A reference to a polynomial by its absolute name.
#[derive(Debug)]
pub struct PolynomialReference {
    pub name: String,
    pub index: Option<u64>,
    /// Whether the reference is to the next row.
    pub next: bool,
}

pub struct PolynomialReferenceView {
    pub name: Seq<char>,
    pub index: Option<u64>,
    pub next: bool,
}

impl View for PolynomialReference {
    type V = PolynomialReferenceView;

    open spec fn view(&self) -> PolynomialReferenceView {
        PolynomialReferenceView { name: self.name@, index: self.index, next: self.next }
    }
}

/// An expression in normal form.
#[derive(Debug)]
pub enum Expression {
    Constant(String),
    PolynomialReference(PolynomialReference),
    Number(ConstantNumberType),
    BinaryOperation(Box<Expression>, BinaryOperator, Box<Expression>),
    UnaryOperation(UnaryOperator, Box<Expression>),
}

pub enum ExpressionView {
    Constant(Seq<char>),
    PolynomialReference(PolynomialReferenceView),
    Number(ConstantNumberType),
    BinaryOperation(Box<ExpressionView>, BinaryOperator, Box<ExpressionView>),
    UnaryOperation(UnaryOperator, Box<ExpressionView>),
}

impl View for Expression {
    type V = ExpressionView;

    open spec fn view(&self) -> ExpressionView
        decreases self,
    {
        match self {
            Expression::Constant(name) => ExpressionView::Constant(name@),
            Expression::PolynomialReference(reference) => ExpressionView::PolynomialReference(
                reference@,
            ),
            Expression::Number(n) => ExpressionView::Number(*n),
            Expression::BinaryOperation(left, op, right) => ExpressionView::BinaryOperation(
                Box::new((**left).view()),
                *op,
                Box::new((**right).view()),
            ),
            Expression::UnaryOperation(op, inner) => ExpressionView::UnaryOperation(
                *op,
                Box::new((**inner).view()),
            ),
        }
    }
}

/// The views of a sequence of expressions.
pub open spec fn expression_views(expressions: Seq<Expression>) -> Seq<ExpressionView> {
    Seq::new(expressions.len(), |i: int| expressions[i]@)
}

/// A group of expressions with an optional selector: one side of a lookup.
#[derive(Debug)]
pub struct SelectedExpressions {
    pub selector: Option<Expression>,
    pub expressions: Vec<Expression>,
}

pub struct SelectedExpressionsView {
    pub selector: Option<ExpressionView>,
    pub expressions: Seq<ExpressionView>,
}

impl View for SelectedExpressions {
    type V = SelectedExpressionsView;

    open spec fn view(&self) -> SelectedExpressionsView {
        SelectedExpressionsView {
            selector: match self.selector {
                Some(e) => Some(e@),
                None => None,
            },
            expressions: expression_views(self.expressions@),
        }
    }
}

/// A lookup of the key among the haystack.
#[derive(Debug)]
pub struct PlookupIdentity {
    pub key: SelectedExpressions,
    pub haystack: SelectedExpressions,
}

pub struct PlookupIdentityView {
    pub key: SelectedExpressionsView,
    pub haystack: SelectedExpressionsView,
}

impl View for PlookupIdentity {
    type V = PlookupIdentityView;

    open spec fn view(&self) -> PlookupIdentityView {
        PlookupIdentityView { key: self.key@, haystack: self.haystack@ }
    }
}

#[derive(Clone, Copy, PartialEq, Eq, Structural, Debug)]
pub enum IdentityKind {
    Polynomial,
    Plookup,
    Permutation,
}

/// An identity as the solver takes it. For a polynomial identity
/// `expression = 0`, the expression is the selector of the left side, and
/// the rest is empty.
#[derive(Debug)]
pub struct Identity {
    pub kind: IdentityKind,
    pub left: SelectedExpressions,
    pub right: SelectedExpressions,
}

/// Why analysis stopped.
#[derive(Debug)]
pub enum AnalysisError {
    /// A reference to a constant that has no definition yet.
    UndefinedConstant(String),
    /// A second definition of a constant.
    DuplicateConstant(String),
    /// A second declaration of a polynomial, by its absolute name.
    DuplicateDeclaration(String),
    /// A degree, array size, index or constant that refers to a polynomial.
    NotConstant,
    Overflow,
    DivisionByZero,
    /// An exponent that is negative or does not fit 32 bits.
    InvalidExponent,
    /// An array index that is negative or does not fit 64 bits.
    IndexOutOfRange,
    /// A statement that analysis has no meaning for.
    Unsupported,
    /// An include that nobody resolved.
    UnresolvedInclude(String),
}

pub enum AnalysisFault {
    UndefinedConstant(Seq<char>),
    DuplicateConstant(Seq<char>),
    DuplicateDeclaration(Seq<char>),
    NotConstant,
    Overflow,
    DivisionByZero,
    InvalidExponent,
    IndexOutOfRange,
    Unsupported,
    UnresolvedInclude(Seq<char>),
}

impl View for AnalysisError {
    type V = AnalysisFault;

    open spec fn view(&self) -> AnalysisFault {
        match self {
            AnalysisError::UndefinedConstant(name) => AnalysisFault::UndefinedConstant(name@),
            AnalysisError::DuplicateConstant(name) => AnalysisFault::DuplicateConstant(name@),
            AnalysisError::DuplicateDeclaration(name) => AnalysisFault::DuplicateDeclaration(
                name@,
            ),
            AnalysisError::NotConstant => AnalysisFault::NotConstant,
            AnalysisError::Overflow => AnalysisFault::Overflow,
            AnalysisError::DivisionByZero => AnalysisFault::DivisionByZero,
            AnalysisError::InvalidExponent => AnalysisFault::InvalidExponent,
            AnalysisError::IndexOutOfRange => AnalysisFault::IndexOutOfRange,
            AnalysisError::Unsupported => AnalysisFault::Unsupported,
            AnalysisError::UnresolvedInclude(path) => AnalysisFault::UnresolvedInclude(path@),
        }
    }
}

/// The words for a failure.
pub open spec fn analysis_fault_text(fault: AnalysisFault) -> Seq<char> {
    match fault {
        AnalysisFault::UndefinedConstant(name) => "Constant "@ + name + " is not defined."@,
        AnalysisFault::DuplicateConstant(name) => "Constant "@ + name + " is defined twice."@,
        AnalysisFault::DuplicateDeclaration(name) => "Polynomial "@ + name
            + " is declared twice."@,
        AnalysisFault::NotConstant => "Expression is not constant."@,
        AnalysisFault::Overflow => "Arithmetic overflow."@,
        AnalysisFault::DivisionByZero => "Division by zero."@,
        AnalysisFault::InvalidExponent => "Exponent is negative or too large."@,
        AnalysisFault::IndexOutOfRange => "Array index is negative or too large."@,
        AnalysisFault::Unsupported => "Statement is not supported."@,
        AnalysisFault::UnresolvedInclude(path) => "Include of "@ + path + " is not resolved."@,
    }
}

impl AnalysisError {
    /// The failure in words.
    pub fn message(&self) -> (r: String)
        ensures
            r@ == analysis_fault_text(self@),
    {
        let mut text = String::new();
        match self {
            AnalysisError::UndefinedConstant(name) => {
                text.append("Constant ");
                text.append(name.as_str());
                text.append(" is not defined.");
            },
            AnalysisError::DuplicateConstant(name) => {
                text.append("Constant ");
                text.append(name.as_str());
                text.append(" is defined twice.");
            },
            AnalysisError::DuplicateDeclaration(name) => {
                text.append("Polynomial ");
                text.append(name.as_str());
                text.append(" is declared twice.");
            },
            AnalysisError::NotConstant => {
                text.append("Expression is not constant.");
            },
            AnalysisError::Overflow => {
                text.append("Arithmetic overflow.");
            },
            AnalysisError::DivisionByZero => {
                text.append("Division by zero.");
            },
            AnalysisError::InvalidExponent => {
                text.append("Exponent is negative or too large.");
            },
            AnalysisError::IndexOutOfRange => {
                text.append("Array index is negative or too large.");
            },
            AnalysisError::Unsupported => {
                text.append("Statement is not supported.");
            },
            AnalysisError::UnresolvedInclude(path) => {
                text.append("Include of ");
                text.append(path.as_str());
                text.append(" is not resolved.");
            },
        }
        assert(text@ =~= analysis_fault_text(self@));
        text
    }
}

pub open spec fn arithmetic_fault(fault: ArithmeticFault) -> AnalysisFault {
    match fault {
        ArithmeticFault::Overflow => AnalysisFault::Overflow,
        ArithmeticFault::DivisionByZero => AnalysisFault::DivisionByZero,
        ArithmeticFault::InvalidExponent => AnalysisFault::InvalidExponent,
    }
}

fn arithmetic_error(fault: ArithmeticFault) -> (r: AnalysisError)
    ensures
        r@ == arithmetic_fault(fault),
{
    match fault {
        ArithmeticFault::Overflow => AnalysisError::Overflow,
        ArithmeticFault::DivisionByZero => AnalysisError::DivisionByZero,
        ArithmeticFault::InvalidExponent => AnalysisError::InvalidExponent,
    }
}

/// What an expression comes to at analysis time.
pub enum Folded {
    /// It has this value.
    Value(ConstantNumberType),
    /// It refers to a polynomial, so it has a value only row by row.
    Symbolic,
    /// Its evaluation fails.
    Failed(AnalysisFault),
}

/// The outcome of `left op right` on two numbers.
pub open spec fn fold_operation(
    op: BinaryOperator,
    left: ConstantNumberType,
    right: ConstantNumberType,
) -> Folded {
    match operation_fault(op, left as int, right as int) {
        Some(fault) => Folded::Failed(arithmetic_fault(fault)),
        None => Folded::Value(integer_operation(op, left as int, right as int) as i128),
    }
}

/// The outcome of a binary operation from the outcomes of its operands.
/// A failure on the left is reported before one on the right.
pub open spec fn fold_binary(left: Folded, op: BinaryOperator, right: Folded) -> Folded {
    match (left, right) {
        (Folded::Failed(fault), _) => Folded::Failed(fault),
        (_, Folded::Failed(fault)) => Folded::Failed(fault),
        (Folded::Value(l), Folded::Value(r)) => fold_operation(op, l, r),
        _ => Folded::Symbolic,
    }
}

/// The outcome of negation from the outcome of its operand.
pub open spec fn fold_negation(inner: Folded) -> Folded {
    match inner {
        Folded::Value(v) => if fits(-(v as int)) {
            Folded::Value((-(v as int)) as i128)
        } else {
            Folded::Failed(AnalysisFault::Overflow)
        },
        other => other,
    }
}

/// Evaluation of a syntax tree at analysis time, given the constants defined so far.
pub open spec fn fold(constants: Seq<(Seq<char>, ConstantNumberType)>, e: ast::Expression) -> Folded
    decreases e,
{
    match e {
        ast::Expression::Constant(name) => match value_of(constants, name@) {
            Some(v) => Folded::Value(v),
            None => Folded::Failed(AnalysisFault::UndefinedConstant(name@)),
        },
        ast::Expression::PolynomialReference(_) => Folded::Symbolic,
        ast::Expression::Number(n) => Folded::Value(n),
        ast::Expression::BinaryOperation(left, op, right) => fold_binary(
            fold(constants, *left),
            op,
            fold(constants, *right),
        ),
        ast::Expression::UnaryOperation(_, inner) => fold_negation(fold(constants, *inner)),
    }
}

/// The number that an expression must come to where the language asks for one.
pub open spec fn fold_number(constants: Seq<(Seq<char>, ConstantNumberType)>, e: ast::Expression) -> Result<
    ConstantNumberType,
    AnalysisFault,
> {
    match fold(constants, e) {
        Folded::Value(v) => Ok(v),
        Folded::Symbolic => Err(AnalysisFault::NotConstant),
        Folded::Failed(fault) => Err(fault),
    }
}

/// The exec result `r` reports the outcome `folded`.
pub open spec fn reports(r: Result<Option<ConstantNumberType>, AnalysisError>, folded: Folded) -> bool {
    match folded {
        Folded::Value(v) => r == Ok::<Option<ConstantNumberType>, AnalysisError>(Some(v)),
        Folded::Symbolic => r == Ok::<Option<ConstantNumberType>, AnalysisError>(None),
        Folded::Failed(fault) => r matches Err(e) && e@ == fault,
    }
}

/// Namespace and local name, joined by a dot.
pub open spec fn absolute_name(namespace: Seq<char>, name: Seq<char>) -> Seq<char> {
    namespace + seq!['.'] + name
}

/// The namespace a reference belongs to: its own if it names one, else the current one.
pub open spec fn effective_namespace(own: Option<String>, current: Seq<char>) -> Seq<char> {
    match own {
        Some(namespace) => namespace@,
        None => current,
    }
}

/// The array index of a reference: a number that fits 64 bits without sign.
pub open spec fn fold_index(
    constants: Seq<(Seq<char>, ConstantNumberType)>,
    index: Option<Box<ast::Expression>>,
) -> Result<Option<u64>, AnalysisFault> {
    match index {
        None => Ok(None),
        Some(e) => match fold_number(constants, *e) {
            Ok(v) => if 0 <= v <= u64::MAX {
                Ok(Some(v as u64))
            } else {
                Err(AnalysisFault::IndexOutOfRange)
            },
            Err(fault) => Err(fault),
        },
    }
}

/// The normal form of a syntax tree: names made absolute, and every operation
/// that has a value at analysis time replaced by that value.
pub open spec fn normalize(
    constants: Seq<(Seq<char>, ConstantNumberType)>,
    namespace: Seq<char>,
    e: ast::Expression,
) -> Result<ExpressionView, AnalysisFault>
    decreases e,
{
    match e {
        ast::Expression::Constant(name) => Ok(ExpressionView::Constant(name@)),
        ast::Expression::PolynomialReference(reference) => match fold_index(
            constants,
            reference.index,
        ) {
            Ok(index) => Ok(
                ExpressionView::PolynomialReference(
                    PolynomialReferenceView {
                        name: absolute_name(
                            effective_namespace(reference.namespace, namespace),
                            reference.name@,
                        ),
                        index,
                        next: reference.next,
                    },
                ),
            ),
            Err(fault) => Err(fault),
        },
        ast::Expression::Number(n) => Ok(ExpressionView::Number(n)),
        ast::Expression::BinaryOperation(left, op, right) => match fold(constants, e) {
            Folded::Value(v) => Ok(ExpressionView::Number(v)),
            Folded::Failed(fault) => Err(fault),
            Folded::Symbolic => match normalize(constants, namespace, *left) {
                Err(fault) => Err(fault),
                Ok(l) => match normalize(constants, namespace, *right) {
                    Err(fault) => Err(fault),
                    Ok(r) => Ok(ExpressionView::BinaryOperation(Box::new(l), op, Box::new(r))),
                },
            },
        },
        ast::Expression::UnaryOperation(op, inner) => match fold(constants, e) {
            Folded::Value(v) => Ok(ExpressionView::Number(v)),
            Folded::Failed(fault) => Err(fault),
            Folded::Symbolic => match normalize(constants, namespace, *inner) {
                Err(fault) => Err(fault),
                Ok(i) => Ok(ExpressionView::UnaryOperation(op, Box::new(i))),
            },
        },
    }
}

/// The normal forms of the first `n` expressions of a list, or the first failure among them.
pub open spec fn normalize_all(
    constants: Seq<(Seq<char>, ConstantNumberType)>,
    namespace: Seq<char>,
    expressions: Seq<ast::Expression>,
    n: int,
) -> Result<Seq<ExpressionView>, AnalysisFault>
    decreases n,
{
    if n <= 0 {
        Ok(Seq::empty())
    } else {
        match normalize_all(constants, namespace, expressions, n - 1) {
            Err(fault) => Err(fault),
            Ok(prefix) => match normalize(constants, namespace, expressions[n - 1]) {
                Err(fault) => Err(fault),
                Ok(view) => Ok(prefix.push(view)),
            },
        }
    }
}

/// The normal form of one side of a lookup: the selector first, then the expressions in order.
pub open spec fn normalize_selected(
    constants: Seq<(Seq<char>, ConstantNumberType)>,
    namespace: Seq<char>,
    selected: ast::SelectedExpressions,
) -> Result<SelectedExpressionsView, AnalysisFault> {
    let selector = match selected.selector {
        None => Ok(None),
        Some(e) => match normalize(constants, namespace, e) {
            Ok(view) => Ok(Some(view)),
            Err(fault) => Err(fault),
        },
    };
    match selector {
        Err(fault) => Err(fault),
        Ok(selector) => match normalize_all(
            constants,
            namespace,
            selected.expressions@,
            selected.expressions@.len() as int,
        ) {
            Err(fault) => Err(fault),
            Ok(expressions) => Ok(SelectedExpressionsView { selector, expressions }),
        },
    }
}

/// The array size of a polynomial, if it has one, has a value.
pub open spec fn size_evaluates(
    constants: Seq<(Seq<char>, ConstantNumberType)>,
    polynomial: ast::PolynomialName,
) -> bool {
    match polynomial.array_size {
        None => true,
        Some(size) => fold_number(constants, size) is Ok,
    }
}

/// The number of declarations of one type.
pub open spec fn count_kind(declarations: Seq<PolynomialView>, kind: PolynomialType) -> nat
    decreases declarations.len(),
{
    if declarations.len() == 0 {
        0
    } else {
        count_kind(declarations.drop_last(), kind) + if declarations.last().poly_type == kind {
            1nat
        } else {
            0nat
        }
    }
}

/// Some declaration carries the absolute name.
pub open spec fn is_declared(declarations: Seq<PolynomialView>, name: Seq<char>) -> bool {
    exists|i: int| 0 <= i < declarations.len() && (#[trigger] declarations[i]).absolute_name == name
}

/// The id of the declaration at a position is the number of earlier declarations of its type.
pub open spec fn id_in_sequence(declarations: Seq<PolynomialView>, i: int) -> bool {
    declarations[i].id == count_kind(declarations.take(i), declarations[i].poly_type)
}

/// Each declaration's id is the number of earlier declarations of its type.
pub open spec fn sequential_ids(declarations: Seq<PolynomialView>) -> bool {
    forall|i: int| 0 <= i < declarations.len() ==> #[trigger] id_in_sequence(declarations, i)
}

/// No two declarations carry the same absolute name.
pub open spec fn unique_names(declarations: Seq<PolynomialView>) -> bool {
    forall|i: int, j: int|
        0 <= i < declarations.len() && 0 <= j < declarations.len() && i != j ==> (
        #[trigger] declarations[i]).absolute_name != (#[trigger] declarations[j]).absolute_name
}

pub open spec fn polynomial_views(table: Seq<(Seq<char>, Polynomial)>) -> Seq<PolynomialView> {
    Seq::new(table.len(), |i: int| table[i].1@)
}

pub open spec fn plookup_views(identities: Seq<PlookupIdentity>) -> Seq<PlookupIdentityView> {
    Seq::new(identities.len(), |i: int| identities[i]@)
}

/// Every declaration is stored under its absolute name.
pub open spec fn keyed_by_name(table: Seq<(Seq<char>, Polynomial)>) -> bool {
    forall|i: int| 0 <= i < table.len() ==> (#[trigger] table[i]).0 == table[i].1.absolute_name@
}

pub proof fn lemma_count_kind_bound(declarations: Seq<PolynomialView>, kind: PolynomialType)
    ensures
        count_kind(declarations, kind) <= declarations.len(),
    decreases declarations.len(),
{
    if declarations.len() > 0 {
        lemma_count_kind_bound(declarations.drop_last(), kind);
    }
}

/// The state of an analysis, as far as later statements depend on it.
pub struct ContextView {
    pub namespace: Seq<char>,
    pub polynomial_degree: ConstantNumberType,
    /// The constants in the order of their definition.
    pub constants: Seq<(Seq<char>, ConstantNumberType)>,
    /// The polynomials in the order of their declaration.
    pub declarations: Seq<PolynomialView>,
    pub polynomial_identities: Seq<ExpressionView>,
    pub plookup_identities: Seq<PlookupIdentityView>,
    /// The canonical paths of the files entered so far.
    pub included_files: Seq<Seq<char>>,
}

/// How far the statements of a file were processed.
pub enum Progress {
    /// To the end.
    Finished(ContextView),
    /// Up to the include at the given position.
    Suspended(ContextView, int),
    /// Up to the statement at the given position, which failed and left
    /// the given state.
    Failed(ContextView, int, AnalysisFault),
}

impl ContextView {
    /// Before the first statement: namespace `Global`, nothing defined.
    pub open spec fn initial() -> ContextView {
        ContextView {
            namespace: "Global"@,
            polynomial_degree: 0,
            constants: Seq::empty(),
            declarations: Seq::empty(),
            polynomial_identities: Seq::empty(),
            plookup_identities: Seq::empty(),
            included_files: Seq::empty(),
        }
    }

    pub open spec fn enter_namespace(self, name: Seq<char>, degree: ast::Expression) -> Result<
        ContextView,
        AnalysisFault,
    > {
        match fold_number(self.constants, degree) {
            Err(fault) => Err(fault),
            Ok(value) => Ok(ContextView { namespace: name, polynomial_degree: value, ..self }),
        }
    }

    pub open spec fn define_constant(self, name: Seq<char>, value: ast::Expression) -> Result<
        ContextView,
        AnalysisFault,
    > {
        match fold_number(self.constants, value) {
            Err(fault) => Err(fault),
            Ok(value) => if has_name(self.constants, name) {
                Err(AnalysisFault::DuplicateConstant(name))
            } else {
                Ok(ContextView { constants: self.constants.push((name, value)), ..self })
            },
        }
    }

    /// Declares one polynomial in the current namespace.
    pub open spec fn declare(self, polynomial: ast::PolynomialName, kind: PolynomialType) -> Result<
        ContextView,
        AnalysisFault,
    > {
        let name = absolute_name(self.namespace, polynomial.name@);
        let length = match polynomial.array_size {
            None => Ok(None),
            Some(size) => match fold_number(self.constants, size) {
                Ok(value) => Ok(Some(value)),
                Err(fault) => Err(fault),
            },
        };
        match length {
            Err(fault) => Err(fault),
            Ok(length) => if is_declared(self.declarations, name) {
                Err(AnalysisFault::DuplicateDeclaration(name))
            } else {
                Ok(
                    ContextView {
                        declarations: self.declarations.push(
                            PolynomialView {
                                id: count_kind(self.declarations, kind) as u64,
                                absolute_name: name,
                                poly_type: kind,
                                degree: self.polynomial_degree,
                                length,
                            },
                        ),
                        ..self
                    },
                )
            },
        }
    }

    /// Declares the polynomials from position `from` on, in order, up to the first failure.
    pub open spec fn declare_all(
        self,
        polynomials: Seq<ast::PolynomialName>,
        kind: PolynomialType,
        from: int,
    ) -> Result<ContextView, AnalysisFault>
        decreases polynomials.len() - from,
    {
        if from < 0 || from >= polynomials.len() {
            Ok(self)
        } else {
            match self.declare(polynomials[from], kind) {
                Err(fault) => Err(fault),
                Ok(next) => next.declare_all(polynomials, kind, from + 1),
            }
        }
    }

    /// The polynomial at position `i` can be declared after those from
    /// `from` on before it: its array size has a value, and its absolute
    /// name is not declared and differs from theirs.
    pub open spec fn can_declare_at(self, polynomials: Seq<ast::PolynomialName>, from: int, i: int) -> bool {
        &&& size_evaluates(self.constants, polynomials[i])
        &&& !is_declared(self.declarations, absolute_name(self.namespace, polynomials[i].name@))
        &&& forall|j: int|
            from <= j < i ==> absolute_name(self.namespace, (#[trigger] polynomials[j]).name@)
                != absolute_name(self.namespace, polynomials[i].name@)
    }

    /// The polynomials from position `from` on can all be declared.
    pub open spec fn can_declare(self, polynomials: Seq<ast::PolynomialName>, from: int) -> bool {
        forall|i: int|
            from <= i < polynomials.len() ==> #[trigger] self.can_declare_at(polynomials, from, i)
    }

    /// The state that a declaration statement leaves where one of its
    /// polynomials cannot be declared: those before it are declared.
    pub open spec fn declared_prefix(
        self,
        polynomials: Seq<ast::PolynomialName>,
        kind: PolynomialType,
        from: int,
    ) -> ContextView
        decreases polynomials.len() - from,
    {
        if from < 0 || from >= polynomials.len() {
            self
        } else {
            match self.declare(polynomials[from], kind) {
                Err(_) => self,
                Ok(next) => next.declared_prefix(polynomials, kind, from + 1),
            }
        }
    }

    /// The state that a statement leaves where it fails.
    pub open spec fn after_failure(self, statement: ast::Statement) -> ContextView {
        match statement {
            ast::Statement::PolynomialConstantDeclaration(polynomials) => self.declared_prefix(
                polynomials@,
                PolynomialType::Constant,
                0,
            ),
            ast::Statement::PolynomialCommitDeclaration(polynomials) => self.declared_prefix(
                polynomials@,
                PolynomialType::Committed,
                0,
            ),
            _ => self,
        }
    }

    pub open spec fn add_polynomial_identity(self, expression: ast::Expression) -> Result<
        ContextView,
        AnalysisFault,
    > {
        match normalize(self.constants, self.namespace, expression) {
            Err(fault) => Err(fault),
            Ok(view) => Ok(
                ContextView {
                    polynomial_identities: self.polynomial_identities.push(view),
                    ..self
                },
            ),
        }
    }

    pub open spec fn add_plookup_identity(
        self,
        key: ast::SelectedExpressions,
        haystack: ast::SelectedExpressions,
    ) -> Result<ContextView, AnalysisFault> {
        match normalize_selected(self.constants, self.namespace, key) {
            Err(fault) => Err(fault),
            Ok(key) => match normalize_selected(self.constants, self.namespace, haystack) {
                Err(fault) => Err(fault),
                Ok(haystack) => Ok(
                    ContextView {
                        plookup_identities: self.plookup_identities.push(
                            PlookupIdentityView { key, haystack },
                        ),
                        ..self
                    },
                ),
            },
        }
    }

    /// The effect of one statement. An include has none: its file is processed in its place.
    pub open spec fn apply(self, statement: ast::Statement) -> Result<ContextView, AnalysisFault> {
        match statement {
            ast::Statement::Include(_) => Ok(self),
            ast::Statement::Namespace(name, degree) => self.enter_namespace(name@, degree),
            ast::Statement::PolynomialDefinition(_, _) => Err(AnalysisFault::Unsupported),
            ast::Statement::PolynomialConstantDeclaration(polynomials) => self.declare_all(
                polynomials@,
                PolynomialType::Constant,
                0,
            ),
            ast::Statement::PolynomialCommitDeclaration(polynomials) => self.declare_all(
                polynomials@,
                PolynomialType::Committed,
                0,
            ),
            ast::Statement::PolynomialIdentity(expression) => self.add_polynomial_identity(
                expression,
            ),
            ast::Statement::PlookupIdentity(key, haystack) => self.add_plookup_identity(
                key,
                haystack,
            ),
            ast::Statement::ConstantDefinition(name, value) => self.define_constant(name@, value),
        }
    }

    /// Processes the statements from position `from` on, up to the end, the
    /// next include or the first failure.
    pub open spec fn run(self, statements: Seq<ast::Statement>, from: int) -> Progress
        decreases statements.len() - from,
    {
        if from < 0 || from >= statements.len() {
            Progress::Finished(self)
        } else if statements[from] is Include {
            Progress::Suspended(self, from)
        } else {
            match self.apply(statements[from]) {
                Err(fault) => Progress::Failed(self.after_failure(statements[from]), from, fault),
                Ok(next) => next.run(statements, from + 1),
            }
        }
    }

    /// Records that a file is entered, unless it was entered before.
    pub open spec fn enter_file(self, path: Seq<char>) -> ContextView {
        if self.included_files.contains(path) {
            self
        } else {
            ContextView { included_files: self.included_files.push(path), ..self }
        }
    }
}

/// The path that an include statement names.
pub open spec fn include_path(statement: ast::Statement) -> Seq<char> {
    match statement {
        ast::Statement::Include(path) => path@,
        _ => Seq::empty(),
    }
}

/// The number of nodes of a syntax tree.
pub open spec fn size(e: ast::Expression) -> nat
    decreases e,
{
    match e {
        ast::Expression::BinaryOperation(left, _, right) => 1 + size(*left) + size(*right),
        ast::Expression::UnaryOperation(_, inner) => 1 + size(*inner),
        _ => 1,
    }
}

/// The state of an analysis in progress.
pub struct Context {
    namespace: String,
    polynomial_degree: ConstantNumberType,
    /// Constants are not namespaced.
    constants: NameTable<ConstantNumberType>,
    declarations: NameTable<Polynomial>,
    polynomial_identities: Vec<Expression>,
    plookup_identities: Vec<PlookupIdentity>,
    included_files: Vec<String>,
    commit_poly_counter: u64,
    constant_poly_counter: u64,
    intermediate_poly_counter: u64,
}

impl View for Context {
    type V = ContextView;

    closed spec fn view(&self) -> ContextView {
        ContextView {
            namespace: self.namespace@,
            polynomial_degree: self.polynomial_degree,
            constants: self.constants@,
            declarations: polynomial_views(self.declarations@),
            polynomial_identities: expression_views(self.polynomial_identities@),
            plookup_identities: plookup_views(self.plookup_identities@),
            included_files: views(self.included_files@),
        }
    }
}

/// The result of an analysis.
#[derive(Debug)]
pub struct Analyzed {
    /// Constants are not namespaced.
    pub constants: NameTable<ConstantNumberType>,
    pub declarations: NameTable<Polynomial>,
    pub polynomial_identities: Vec<Expression>,
    pub plookup_identities: Vec<PlookupIdentity>,
}

/// An include that has to be processed before the rest of a file.
#[derive(Debug)]
pub struct Suspension {
    /// The path as the include statement gives it.
    pub path: String,
    /// The position of the statement after the include.
    pub resume_at: usize,
}

/// A failed analysis: the position of the offending statement in its file, and what was wrong with it.
#[derive(Debug)]
pub struct AnalysisFailure {
    pub statement: usize,
    pub error: AnalysisError,
}

proof fn lemma_declared_by_key(table: Seq<(Seq<char>, Polynomial)>, name: Seq<char>)
    requires
        keyed_by_name(table),
    ensures
        is_declared(polynomial_views(table), name) == has_name(table, name),
{
    let views = polynomial_views(table);
    if is_declared(views, name) {
        let i = choose|i: int| 0 <= i < views.len() && (#[trigger] views[i]).absolute_name == name;
        assert(table[i].0 == name);
    }
    if has_name(table, name) {
        let i = choose|i: int| 0 <= i < table.len() && (#[trigger] table[i]).0 == name;
        assert(views[i].absolute_name == name);
    }
}

proof fn lemma_push_declaration(declarations: Seq<PolynomialView>, polynomial: PolynomialView)
    requires
        sequential_ids(declarations),
        polynomial.id == count_kind(declarations, polynomial.poly_type),
    ensures
        sequential_ids(declarations.push(polynomial)),
        forall|kind: PolynomialType|
            count_kind(declarations.push(polynomial), kind) == count_kind(declarations, kind) + (
            if polynomial.poly_type == kind {
                1nat
            } else {
                0nat
            }),
{
    let extended = declarations.push(polynomial);
    assert(extended.drop_last() =~= declarations);
    assert forall|i: int| 0 <= i < extended.len() implies #[trigger] id_in_sequence(
        extended,
        i,
    ) by {
        if i < declarations.len() {
            assert(id_in_sequence(declarations, i));
            assert(extended.take(i) =~= declarations.take(i));
        } else {
            assert(extended.take(i) =~= declarations);
        }
    }
}

/// What holds of the table of declarations once a polynomial with the next id is added.
proof fn lemma_table_after_declaration(
    table: Seq<(Seq<char>, Polynomial)>,
    name: Seq<char>,
    polynomial: Polynomial,
)
    requires
        keyed_by_name(table),
        sequential_ids(polynomial_views(table)),
        polynomial.absolute_name@ == name,
        polynomial.id == count_kind(polynomial_views(table), polynomial.poly_type),
    ensures
        keyed_by_name(table.push((name, polynomial))),
        polynomial_views(table.push((name, polynomial))) == polynomial_views(table).push(
            polynomial@,
        ),
        sequential_ids(polynomial_views(table.push((name, polynomial)))),
        polynomial.id < table.len() + 1,
        forall|kind: PolynomialType|
            count_kind(polynomial_views(table.push((name, polynomial))), kind) == count_kind(
                polynomial_views(table),
                kind,
            ) + (if polynomial.poly_type == kind {
                1nat
            } else {
                0nat
            }),
{
    let extended = table.push((name, polynomial));
    assert(polynomial_views(extended) =~= polynomial_views(table).push(polynomial@));
    lemma_push_declaration(polynomial_views(table), polynomial@);
    lemma_count_kind_bound(polynomial_views(table), polynomial.poly_type);
    assert forall|i: int| 0 <= i < extended.len() implies (#[trigger] extended[i]).0
        == extended[i].1.absolute_name@ by {
        if i < table.len() {
            assert(extended[i] == table[i]);
        }
    }
}

/// In a well-formed context no two declarations carry the same absolute name.
pub proof fn lemma_context_names_unique(context: Context)
    requires
        context.wf(),
    ensures
        unique_names(context@.declarations),
{
    let table = context.declarations@;
    let views = polynomial_views(table);
    assert forall|i: int, j: int|
        0 <= i < views.len() && 0 <= j < views.len() && i != j implies (#[trigger] views[i]).absolute_name
        != (#[trigger] views[j]).absolute_name by {
        assert(table[i].0 == table[i].1.absolute_name@);
        assert(table[j].0 == table[j].1.absolute_name@);
    }
}

impl Context {
    /// The tables hold no name twice, every polynomial is stored under its
    /// absolute name, and ids count the declarations of each type.
    pub closed spec fn wf(&self) -> bool {
        &&& self.constants.wf()
        &&& self.declarations.wf()
        &&& keyed_by_name(self.declarations@)
        &&& sequential_ids(self@.declarations)
        &&& self.commit_poly_counter == count_kind(self@.declarations, PolynomialType::Committed)
        &&& self.constant_poly_counter == count_kind(self@.declarations, PolynomialType::Constant)
        &&& self.intermediate_poly_counter == count_kind(
            self@.declarations,
            PolynomialType::Intermediate,
        )
    }

    pub fn new() -> (r: Context)
        ensures
            r@ == ContextView::initial(),
            r.wf(),
    {
        let r = Context {
            namespace: "Global".to_owned(),
            polynomial_degree: 0,
            constants: NameTable::new(),
            declarations: NameTable::new(),
            polynomial_identities: Vec::new(),
            plookup_identities: Vec::new(),
            included_files: Vec::new(),
            commit_poly_counter: 0,
            constant_poly_counter: 0,
            intermediate_poly_counter: 0,
        };
        proof {
            assert(r@.declarations =~= Seq::empty());
            assert(r@.polynomial_identities =~= Seq::empty());
            assert(r@.plookup_identities =~= Seq::empty());
            assert(r@.included_files =~= Seq::empty());
        }
        r
    }

    /// Records that the file with the given canonical path is entered.
    /// Returns whether it is entered for the first time: a file is processed once.
    pub fn enter_file(&mut self, canonical_path: String) -> (fresh: bool)
        requires
            old(self).wf(),
        ensures
            final(self).wf(),
            fresh == !old(self)@.included_files.contains(canonical_path@),
            final(self)@ == old(self)@.enter_file(canonical_path@),
    {
        let mut i: usize = 0;
        while i < self.included_files.len()
            invariant
                i <= self.included_files@.len(),
                *self == *old(self),
                self.wf(),
                forall|j: int| 0 <= j < i ==> (#[trigger] self@.included_files[j]) != canonical_path@,
            decreases self.included_files@.len() - i,
        {
            if self.included_files[i] == canonical_path {
                assert(self@.included_files[i as int] == canonical_path@);
                return false;
            }
            i += 1;
        }
        let ghost before = self@;
        self.included_files.push(canonical_path);
        proof {
            assert(self@.included_files =~= before.included_files.push(canonical_path@));
        }
        true
    }

    /// The absolute name of a local name in the current namespace.
    fn namespaced(&self, name: &String) -> (r: String)
        ensures
            r@ == absolute_name(self@.namespace, name@),
    {
        self.namespaced_ref(&None, name)
    }

    /// The absolute name of a name in the given namespace, or in the current one if none is given.
    fn namespaced_ref(&self, namespace: &Option<String>, name: &String) -> (r: String)
        ensures
            r@ == absolute_name(effective_namespace(*namespace, self@.namespace), name@),
    {
        let mut result = match namespace {
            Some(own) => own.clone(),
            None => self.namespace.clone(),
        };
        result.append(".");
        result.append(name.as_str());
        proof {
            reveal_strlit(".");
            assert("."@ =~= seq!['.']);
        }
        result
    }

    /// Evaluates an expression with the constants defined so far.
    /// `Ok(None)` says that the expression refers to a polynomial.
    pub fn evaluate_expression(&self, expr: &ast::Expression) -> (r: Result<
        Option<ConstantNumberType>,
        AnalysisError,
    >)
        ensures
            reports(r, fold(self@.constants, *expr)),
        decreases size(*expr), 1nat,
    {
        match expr {
            ast::Expression::Constant(name) => match self.constants.get(name) {
                Some(value) => Ok(Some(*value)),
                None => Err(AnalysisError::UndefinedConstant(name.clone())),
            },
            ast::Expression::PolynomialReference(_) => Ok(None),
            ast::Expression::Number(n) => Ok(Some(*n)),
            ast::Expression::BinaryOperation(left, op, right) => self.evaluate_binary_operation(
                left,
                op,
                right,
            ),
            ast::Expression::UnaryOperation(_, inner) => match self.evaluate_expression(inner) {
                Err(error) => Err(error),
                Ok(None) => Ok(None),
                Ok(Some(value)) => match 0i128.checked_sub(value) {
                    Some(negated) => Ok(Some(negated)),
                    None => Err(AnalysisError::Overflow),
                },
            },
        }
    }

    /// Evaluates both operands, then the operation on their values.
    fn evaluate_binary_operation(
        &self,
        left: &ast::Expression,
        op: &BinaryOperator,
        right: &ast::Expression,
    ) -> (r: Result<Option<ConstantNumberType>, AnalysisError>)
        ensures
            reports(
                r,
                fold_binary(fold(self@.constants, *left), *op, fold(self@.constants, *right)),
            ),
        decreases size(*left) + size(*right) + 1, 0nat,
    {
        let left_value = match self.evaluate_expression(left) {
            Err(error) => {
                return Err(error);
            },
            Ok(value) => value,
        };
        let right_value = match self.evaluate_expression(right) {
            Err(error) => {
                return Err(error);
            },
            Ok(value) => value,
        };
        match (left_value, right_value) {
            (Some(l), Some(r)) => match apply_operation(*op, l, r) {
                Ok(value) => Ok(Some(value)),
                Err(fault) => Err(arithmetic_error(fault)),
            },
            _ => Ok(None),
        }
    }

    /// Evaluates an expression that has to be a number.
    fn evaluate_number(&self, expr: &ast::Expression) -> (r: Result<ConstantNumberType, AnalysisError>)
        ensures
            match fold_number(self@.constants, *expr) {
                Ok(value) => r == Ok::<ConstantNumberType, AnalysisError>(value),
                Err(fault) => r matches Err(error) && error@ == fault,
            },
    {
        match self.evaluate_expression(expr) {
            Err(error) => Err(error),
            Ok(None) => Err(AnalysisError::NotConstant),
            Ok(Some(value)) => Ok(value),
        }
    }

    /// Brings an expression into normal form.
    pub fn process_expression(&self, expr: &ast::Expression) -> (r: Result<Expression, AnalysisError>)
        ensures
            match normalize(self@.constants, self@.namespace, *expr) {
                Ok(view) => r matches Ok(e) && e@ == view,
                Err(fault) => r matches Err(error) && error@ == fault,
            },
        decreases expr,
    {
        match expr {
            ast::Expression::Constant(name) => Ok(Expression::Constant(name.clone())),
            ast::Expression::PolynomialReference(reference) => {
                let index = match &reference.index {
                    None => None,
                    Some(index) => match self.evaluate_number(index) {
                        Err(error) => {
                            return Err(error);
                        },
                        Ok(value) => {
                            if value < 0 || value > u64::MAX as i128 {
                                return Err(AnalysisError::IndexOutOfRange);
                            }
                            Some(value as u64)
                        },
                    },
                };
                Ok(
                    Expression::PolynomialReference(
                        PolynomialReference {
                            name: self.namespaced_ref(&reference.namespace, &reference.name),
                            index,
                            next: reference.next,
                        },
                    ),
                )
            },
            ast::Expression::Number(n) => Ok(Expression::Number(*n)),
            ast::Expression::BinaryOperation(left, op, right) => {
                match self.evaluate_binary_operation(left, op, right) {
                    Err(error) => Err(error),
                    Ok(Some(value)) => Ok(Expression::Number(value)),
                    Ok(None) => {
                        let l = match self.process_expression(left) {
                            Err(error) => {
                                return Err(error);
                            },
                            Ok(l) => l,
                        };
                        let r = match self.process_expression(right) {
                            Err(error) => {
                                return Err(error);
                            },
                            Ok(r) => r,
                        };
                        Ok(Expression::BinaryOperation(Box::new(l), *op, Box::new(r)))
                    },
                }
            },
            ast::Expression::UnaryOperation(op, inner) => {
                match self.evaluate_expression(expr) {
                    Err(error) => Err(error),
                    Ok(Some(value)) => Ok(Expression::Number(value)),
                    Ok(None) => match self.process_expression(inner) {
                        Err(error) => Err(error),
                        Ok(i) => Ok(Expression::UnaryOperation(*op, Box::new(i))),
                    },
                }
            },
        }
    }

    /// Brings one side of a lookup into normal form.
    fn process_selected_expression(&self, expr: &ast::SelectedExpressions) -> (r: Result<
        SelectedExpressions,
        AnalysisError,
    >)
        ensures
            match normalize_selected(self@.constants, self@.namespace, *expr) {
                Ok(view) => r matches Ok(e) && e@ == view,
                Err(fault) => r matches Err(error) && error@ == fault,
            },
    {
        let selector = match &expr.selector {
            None => None,
            Some(e) => match self.process_expression(e) {
                Err(error) => {
                    return Err(error);
                },
                Ok(e) => Some(e),
            },
        };
        let mut expressions: Vec<Expression> = Vec::new();
        let mut i: usize = 0;
        assert(expression_views(expressions@) =~= Seq::empty());
        while i < expr.expressions.len()
            invariant
                i <= expr.expressions@.len(),
                match expr.selector {
                    None => selector is None,
                    Some(e) => normalize(self@.constants, self@.namespace, e) matches Ok(view)
                        && selector matches Some(s) && s@ == view,
                },
                normalize_all(self@.constants, self@.namespace, expr.expressions@, i as int) == Ok::<
                    Seq<ExpressionView>,
                    AnalysisFault,
                >(expression_views(expressions@)),
            decreases expr.expressions@.len() - i,
        {
            match self.process_expression(&expr.expressions[i]) {
                Err(error) => {
                    proof {
                        assert(normalize_all(
                            self@.constants,
                            self@.namespace,
                            expr.expressions@,
                            i as int + 1,
                        ) == Err::<Seq<ExpressionView>, AnalysisFault>(error@));
                        lemma_normalize_all_fails(
                            self@.constants,
                            self@.namespace,
                            expr.expressions@,
                            i as int + 1,
                            expr.expressions@.len() as int,
                        );
                    }
                    return Err(error);
                },
                Ok(e) => {
                    let ghost before = expression_views(expressions@);
                    expressions.push(e);
                    assert(expression_views(expressions@) =~= before.push(e@));
                },
            }
            i += 1;
        }
        Ok(SelectedExpressions { selector, expressions })
    }

    fn handle_namespace(&mut self, name: &String, degree: &ast::Expression) -> (r: Result<
        (),
        AnalysisError,
    >)
        requires
            old(self).wf(),
        ensures
            final(self).wf(),
            match old(self)@.enter_namespace(name@, *degree) {
                Ok(model) => r is Ok && final(self)@ == model,
                Err(fault) => r matches Err(error) && error@ == fault && final(self)@ == old(self)@,
            },
    {
        let degree = match self.evaluate_number(degree) {
            Err(error) => {
                return Err(error);
            },
            Ok(value) => value,
        };
        self.polynomial_degree = degree;
        self.namespace = name.clone();
        Ok(())
    }

    fn handle_constant_definition(&mut self, name: &String, value: &ast::Expression) -> (r: Result<
        (),
        AnalysisError,
    >)
        requires
            old(self).wf(),
        ensures
            final(self).wf(),
            match old(self)@.define_constant(name@, *value) {
                Ok(model) => r is Ok && final(self)@ == model,
                Err(fault) => r matches Err(error) && error@ == fault && final(self)@ == old(self)@,
            },
    {
        let value = match self.evaluate_number(value) {
            Err(error) => {
                return Err(error);
            },
            Ok(value) => value,
        };
        if self.constants.insert_new(name.clone(), value) {
            Ok(())
        } else {
            Err(AnalysisError::DuplicateConstant(name.clone()))
        }
    }

    /// Adds a declaration under an absolute name, with the next id of its type.
    fn insert_declaration(
        &mut self,
        name: String,
        polynomial_type: PolynomialType,
        length: Option<ConstantNumberType>,
    ) -> (r: Result<(), AnalysisError>)
        requires
            old(self).wf(),
        ensures
            final(self).wf(),
            is_declared(old(self)@.declarations, name@) ==> (r matches Err(error) && error@
                == AnalysisFault::DuplicateDeclaration(name@) && final(self)@ == old(self)@),
            !is_declared(old(self)@.declarations, name@) ==> r is Ok && final(self)@ == (
            ContextView {
                declarations: old(self)@.declarations.push(
                    PolynomialView {
                        id: count_kind(old(self)@.declarations, polynomial_type) as u64,
                        absolute_name: name@,
                        poly_type: polynomial_type,
                        degree: old(self)@.polynomial_degree,
                        length,
                    },
                ),
                ..old(self)@
            }),
    {
        let id = match polynomial_type {
            PolynomialType::Committed => self.commit_poly_counter,
            PolynomialType::Constant => self.constant_poly_counter,
            PolynomialType::Intermediate => self.intermediate_poly_counter,
        };
        let poly = Polynomial {
            id,
            absolute_name: name.clone(),
            poly_type: polynomial_type,
            degree: self.polynomial_degree,
            length,
        };
        let ghost before = self@;
        let ghost table = self.declarations@;
        proof {
            lemma_declared_by_key(table, name@);
            lemma_table_after_declaration(table, name@, poly);
        }
        if !self.declarations.insert_new(name.clone(), poly) {
            return Err(AnalysisError::DuplicateDeclaration(name));
        }
        let declared = self.declarations.len();
        assert(id < declared);
        match polynomial_type {
            PolynomialType::Committed => {
                self.commit_poly_counter = id + 1;
            },
            PolynomialType::Constant => {
                self.constant_poly_counter = id + 1;
            },
            PolynomialType::Intermediate => {
                self.intermediate_poly_counter = id + 1;
            },
        }
        Ok(())
    }

    /// Declares one polynomial in the current namespace.
    fn declare_polynomial(&mut self, polynomial: &ast::PolynomialName, polynomial_type: PolynomialType) -> (r:
        Result<(), AnalysisError>)
        requires
            old(self).wf(),
        ensures
            final(self).wf(),
            match old(self)@.declare(*polynomial, polynomial_type) {
                Ok(model) => r is Ok && final(self)@ == model,
                Err(fault) => r matches Err(error) && error@ == fault && final(self)@ == old(self)@,
            },
    {
        let length = match &polynomial.array_size {
            None => None,
            Some(size) => match self.evaluate_number(size) {
                Err(error) => {
                    return Err(error);
                },
                Ok(value) => Some(value),
            },
        };
        let name = self.namespaced(&polynomial.name);
        self.insert_declaration(name, polynomial_type, length)
    }

    /// Declares the polynomials of one statement, in order.
    ///
    /// All are declared exactly if each array size has a value and the
    /// absolute names are new and pairwise different. The declaration of a
    /// name that is declared already, of whatever type, fails. Either way no
    /// two declarations come to carry the same absolute name.
    pub fn handle_polynomial_declaration(
        &mut self,
        polynomials: &Vec<ast::PolynomialName>,
        polynomial_type: PolynomialType,
    ) -> (r: Result<(), AnalysisError>)
        requires
            old(self).wf(),
        ensures
            final(self).wf(),
            match old(self)@.declare_all(polynomials@, polynomial_type, 0) {
                Ok(model) => r is Ok && final(self)@ == model,
                Err(fault) => r matches Err(error) && error@ == fault && final(self)@
                    == old(self)@.declared_prefix(polynomials@, polynomial_type, 0),
            },
            r is Ok <==> old(self)@.can_declare(polynomials@, 0),
            r is Ok ==> final(self)@.declarations.len() == old(self)@.declarations.len()
                + polynomials@.len(),
            unique_names(final(self)@.declarations),
    {
        let mut i: usize = 0;
        while i < polynomials.len()
            invariant
                i <= polynomials@.len(),
                self.wf(),
                old(self)@.declare_all(polynomials@, polynomial_type, 0) == self@.declare_all(
                    polynomials@,
                    polynomial_type,
                    i as int,
                ),
                old(self)@.declared_prefix(polynomials@, polynomial_type, 0)
                    == self@.declared_prefix(polynomials@, polynomial_type, i as int),
            decreases polynomials@.len() - i,
        {
            match self.declare_polynomial(&polynomials[i], polynomial_type) {
                Err(error) => {
                    proof {
                        lemma_context_names_unique(*self);
                        lemma_declare_all(old(self)@, polynomials@, polynomial_type, 0);
                    }
                    return Err(error);
                },
                Ok(()) => {},
            }
            i += 1;
        }
        proof {
            lemma_context_names_unique(*self);
            lemma_declare_all(old(self)@, polynomials@, polynomial_type, 0);
        }
        Ok(())
    }

    fn handle_polynomial_identity(&mut self, expression: &ast::Expression) -> (r: Result<
        (),
        AnalysisError,
    >)
        requires
            old(self).wf(),
        ensures
            final(self).wf(),
            match old(self)@.add_polynomial_identity(*expression) {
                Ok(model) => r is Ok && final(self)@ == model,
                Err(fault) => r matches Err(error) && error@ == fault && final(self)@ == old(self)@,
            },
    {
        let expr = match self.process_expression(expression) {
            Err(error) => {
                return Err(error);
            },
            Ok(expr) => expr,
        };
        let ghost before = self@;
        self.polynomial_identities.push(expr);
        proof {
            assert(self@.polynomial_identities =~= before.polynomial_identities.push(expr@));
        }
        Ok(())
    }

    fn handle_plookup_identity(
        &mut self,
        key: &ast::SelectedExpressions,
        haystack: &ast::SelectedExpressions,
    ) -> (r: Result<(), AnalysisError>)
        requires
            old(self).wf(),
        ensures
            final(self).wf(),
            match old(self)@.add_plookup_identity(*key, *haystack) {
                Ok(model) => r is Ok && final(self)@ == model,
                Err(fault) => r matches Err(error) && error@ == fault && final(self)@ == old(self)@,
            },
    {
        let key = match self.process_selected_expression(key) {
            Err(error) => {
                return Err(error);
            },
            Ok(key) => key,
        };
        let haystack = match self.process_selected_expression(haystack) {
            Err(error) => {
                return Err(error);
            },
            Ok(haystack) => haystack,
        };
        let ghost before = self@;
        let identity = PlookupIdentity { key, haystack };
        self.plookup_identities.push(identity);
        proof {
            assert(self@.plookup_identities =~= before.plookup_identities.push(identity@));
        }
        Ok(())
    }

    /// The request that an include makes of whoever reads the files.
    fn handle_include(path: &String, position: usize) -> (r: Suspension)
        requires
            position < usize::MAX,
        ensures
            r.path@ == path@,
            r.resume_at == position + 1,
    {
        Suspension { path: path.clone(), resume_at: position + 1 }
    }

    /// Applies one statement that is not an include.
    fn handle_statement(&mut self, statement: &ast::Statement) -> (r: Result<(), AnalysisError>)
        requires
            old(self).wf(),
        ensures
            final(self).wf(),
            match old(self)@.apply(*statement) {
                Ok(model) => r is Ok && final(self)@ == model,
                Err(fault) => r matches Err(error) && error@ == fault && final(self)@
                    == old(self)@.after_failure(*statement),
            },
    {
        match statement {
            ast::Statement::Include(_) => Ok(()),
            ast::Statement::Namespace(name, degree) => self.handle_namespace(name, degree),
            ast::Statement::PolynomialDefinition(_, _) => Err(AnalysisError::Unsupported),
            ast::Statement::PolynomialConstantDeclaration(polynomials) => {
                self.handle_polynomial_declaration(polynomials, PolynomialType::Constant)
            },
            ast::Statement::PolynomialCommitDeclaration(polynomials) => {
                self.handle_polynomial_declaration(polynomials, PolynomialType::Committed)
            },
            ast::Statement::PolynomialIdentity(expression) => self.handle_polynomial_identity(
                expression,
            ),
            ast::Statement::PlookupIdentity(key, haystack) => self.handle_plookup_identity(
                key,
                haystack,
            ),
            ast::Statement::ConstantDefinition(name, value) => self.handle_constant_definition(
                name,
                value,
            ),
        }
    }

    /// Processes the statements of a file from position `start` on.
    ///
    /// Stops at the end (`Ok(None)`), at the first failure, or at the next
    /// include. An include is handed back: the caller processes the included
    /// file with this context, unless `enter_file` says that it was entered
    /// before, and then goes on here at `resume_at`.
    pub fn process_file(&mut self, file: &ast::PILFile, start: usize) -> (r: Result<
        Option<Suspension>,
        AnalysisFailure,
    >)
        requires
            old(self).wf(),
        ensures
            final(self).wf(),
            unique_names(final(self)@.declarations),
            match old(self)@.run(file.0@, start as int) {
                Progress::Finished(model) => r matches Ok(None) && final(self)@ == model,
                Progress::Suspended(model, position) => r matches Ok(Some(suspension))
                    && final(self)@ == model && suspension.resume_at == position + 1
                    && suspension.path@ == include_path(file.0@[position]),
                Progress::Failed(model, position, fault) => r matches Err(failure)
                    && failure.statement == position && failure.error@ == fault && final(self)@
                    == model,
            },
    {
        let mut i: usize = start;
        while i < file.0.len()
            invariant
                self.wf(),
                old(self)@.run(file.0@, start as int) == self@.run(file.0@, i as int),
            decreases file.0@.len() - i,
        {
            match &file.0[i] {
                ast::Statement::Include(path) => {
                    proof {
                        lemma_context_names_unique(*self);
                    }
                    return Ok(Some(Self::handle_include(path, i)));
                },
                statement => match self.handle_statement(statement) {
                    Err(error) => {
                        proof {
                            lemma_context_names_unique(*self);
                        }
                        return Err(AnalysisFailure { statement: i, error });
                    },
                    Ok(()) => {},
                },
            }
            i += 1;
        }
        proof {
            lemma_context_names_unique(*self);
        }
        Ok(None)
    }

    /// What the analysis has gathered.
    pub fn into_analyzed(self) -> (r: Analyzed)
        requires
            self.wf(),
        ensures
            r.wf(),
            r.holds(self@),
    {
        Analyzed {
            constants: self.constants,
            declarations: self.declarations,
            polynomial_identities: self.polynomial_identities,
            plookup_identities: self.plookup_identities,
        }
    }
}

/// How an operator is written.
pub open spec fn operator_text(op: BinaryOperator) -> Seq<char> {
    match op {
        BinaryOperator::Add => "+"@,
        BinaryOperator::Sub => "-"@,
        BinaryOperator::Mul => "*"@,
        BinaryOperator::Div => "/"@,
        BinaryOperator::Pow => "^"@,
    }
}

/// How a reference to a polynomial is written: the name, the index in
/// brackets if there is one, and a prime for the next row.
pub open spec fn reference_text(reference: PolynomialReference) -> Seq<char> {
    reference.name@ + match reference.index {
        Some(index) => "["@ + decimal(index as nat) + "]"@,
        None => Seq::empty(),
    } + if reference.next {
        "'"@
    } else {
        Seq::empty()
    }
}

/// How an expression is written, with every operation in parentheses.
pub open spec fn expression_text(e: Expression) -> Seq<char>
    decreases e,
{
    match e {
        Expression::Constant(name) => name@,
        Expression::PolynomialReference(reference) => reference_text(reference),
        Expression::Number(n) => signed_decimal(n as int),
        Expression::BinaryOperation(left, op, right) => "("@ + expression_text(*left) + " "@
            + operator_text(op) + " "@ + expression_text(*right) + ")"@,
        Expression::UnaryOperation(_, inner) => "-"@ + expression_text(*inner),
    }
}

impl Expression {
    /// The expression as it is written.
    pub fn format(&self) -> (r: String)
        ensures
            r@ == expression_text(*self),
        decreases self,
    {
        let mut text = String::new();
        match self {
            Expression::Constant(name) => {
                text.append(name.as_str());
            },
            Expression::PolynomialReference(reference) => {
                text.append(reference.name.as_str());
                match reference.index {
                    Some(index) => {
                        text.append("[");
                        push_decimal(&mut text, index);
                        text.append("]");
                    },
                    None => {},
                }
                if reference.next {
                    text.append("'");
                }
                assert(text@ =~= reference_text(*reference));
            },
            Expression::Number(n) => {
                push_signed_decimal(&mut text, *n);
            },
            Expression::BinaryOperation(left, op, right) => {
                text.append("(");
                text.append(left.format().as_str());
                text.append(" ");
                match op {
                    BinaryOperator::Add => text.append("+"),
                    BinaryOperator::Sub => text.append("-"),
                    BinaryOperator::Mul => text.append("*"),
                    BinaryOperator::Div => text.append("/"),
                    BinaryOperator::Pow => text.append("^"),
                }
                text.append(" ");
                text.append(right.format().as_str());
                text.append(")");
            },
            Expression::UnaryOperation(_, inner) => {
                text.append("-");
                text.append(inner.format().as_str());
            },
        }
        assert(text@ =~= expression_text(*self));
        text
    }

    /// A copy of the expression.
    pub fn duplicate(&self) -> (r: Expression)
        ensures
            r == *self,
        decreases self,
    {
        match self {
            Expression::Constant(name) => Expression::Constant(name.clone()),
            Expression::PolynomialReference(reference) => Expression::PolynomialReference(
                PolynomialReference {
                    name: reference.name.clone(),
                    index: reference.index,
                    next: reference.next,
                },
            ),
            Expression::Number(n) => Expression::Number(*n),
            Expression::BinaryOperation(left, op, right) => Expression::BinaryOperation(
                Box::new(left.duplicate()),
                *op,
                Box::new(right.duplicate()),
            ),
            Expression::UnaryOperation(op, inner) => Expression::UnaryOperation(
                *op,
                Box::new(inner.duplicate()),
            ),
        }
    }
}

impl SelectedExpressions {
    /// A side without selector and without expressions.
    pub fn empty() -> (r: SelectedExpressions)
        ensures
            r.selector is None,
            r.expressions@.len() == 0,
    {
        SelectedExpressions { selector: None, expressions: Vec::new() }
    }

    /// A copy of the side.
    pub fn duplicate(&self) -> (r: SelectedExpressions)
        ensures
            r.selector == self.selector,
            r.expressions@ == self.expressions@,
    {
        let selector = match &self.selector {
            Some(e) => Some(e.duplicate()),
            None => None,
        };
        let mut expressions: Vec<Expression> = Vec::new();
        let mut i: usize = 0;
        while i < self.expressions.len()
            invariant
                i <= self.expressions@.len(),
                expressions@.len() == i,
                forall|j: int| 0 <= j < i ==> (#[trigger] expressions@[j]) == self.expressions@[j],
            decreases self.expressions@.len() - i,
        {
            expressions.push(self.expressions[i].duplicate());
            i += 1;
        }
        assert(expressions@ =~= self.expressions@);
        SelectedExpressions { selector, expressions }
    }
}

/// The identity that a polynomial identity `expression = 0` is to the solver.
pub open spec fn is_polynomial_identity(identity: Identity, expression: Expression) -> bool {
    &&& identity.kind == IdentityKind::Polynomial
    &&& identity.left.selector == Some(expression)
    &&& identity.left.expressions@.len() == 0
    &&& identity.right.selector is None
    &&& identity.right.expressions@.len() == 0
}

/// The identity that a lookup is to the solver.
pub open spec fn is_plookup_identity(identity: Identity, plookup: PlookupIdentity) -> bool {
    &&& identity.kind == IdentityKind::Plookup
    &&& identity.left.selector == plookup.key.selector
    &&& identity.left.expressions@ == plookup.key.expressions@
    &&& identity.right.selector == plookup.haystack.selector
    &&& identity.right.expressions@ == plookup.haystack.expressions@
}

impl Analyzed {
    /// The identities as the solver takes them: the polynomial identities
    /// in their order, then the lookups in theirs.
    pub fn identities(&self) -> (r: Vec<Identity>)
        ensures
            r@.len() == self.polynomial_identities@.len() + self.plookup_identities@.len(),
            forall|i: int|
                0 <= i < self.polynomial_identities@.len() ==> is_polynomial_identity(
                    #[trigger] r@[i],
                    self.polynomial_identities@[i],
                ),
            forall|i: int|
                0 <= i < self.plookup_identities@.len() ==> is_plookup_identity(
                    #[trigger] r@[self.polynomial_identities@.len() + i],
                    self.plookup_identities@[i],
                ),
    {
        let mut identities: Vec<Identity> = Vec::new();
        let mut i: usize = 0;
        while i < self.polynomial_identities.len()
            invariant
                i <= self.polynomial_identities@.len(),
                identities@.len() == i,
                forall|j: int|
                    0 <= j < i ==> is_polynomial_identity(
                        #[trigger] identities@[j],
                        self.polynomial_identities@[j],
                    ),
            decreases self.polynomial_identities@.len() - i,
        {
            identities.push(
                Identity {
                    kind: IdentityKind::Polynomial,
                    left: SelectedExpressions {
                        selector: Some(self.polynomial_identities[i].duplicate()),
                        expressions: Vec::new(),
                    },
                    right: SelectedExpressions::empty(),
                },
            );
            i += 1;
        }
        let polynomial = self.polynomial_identities.len();
        let mut k: usize = 0;
        while k < self.plookup_identities.len()
            invariant
                k <= self.plookup_identities@.len(),
                polynomial == self.polynomial_identities@.len(),
                identities@.len() == polynomial + k,
                forall|j: int|
                    0 <= j < polynomial ==> is_polynomial_identity(
                        #[trigger] identities@[j],
                        self.polynomial_identities@[j],
                    ),
                forall|j: int|
                    0 <= j < k ==> is_plookup_identity(
                        #[trigger] identities@[polynomial + j],
                        self.plookup_identities@[j],
                    ),
            decreases self.plookup_identities@.len() - k,
        {
            identities.push(
                Identity {
                    kind: IdentityKind::Plookup,
                    left: self.plookup_identities[k].key.duplicate(),
                    right: self.plookup_identities[k].haystack.duplicate(),
                },
            );
            k += 1;
        }
        identities
    }

    /// The tables hold no name twice, every polynomial is stored under its
    /// absolute name, and ids count the declarations of each type.
    pub open spec fn wf(&self) -> bool {
        &&& self.constants.wf()
        &&& self.declarations.wf()
        &&& keyed_by_name(self.declarations@)
        &&& sequential_ids(polynomial_views(self.declarations@))
    }

    /// The result holds what the analysis state has gathered.
    pub open spec fn holds(&self, model: ContextView) -> bool {
        &&& self.constants@ == model.constants
        &&& polynomial_views(self.declarations@) == model.declarations
        &&& expression_views(self.polynomial_identities@) == model.polynomial_identities
        &&& plookup_views(self.plookup_identities@) == model.plookup_identities
    }

    /// The number of declared polynomials of one type.
    fn count(&self, polynomial_type: PolynomialType) -> (r: usize)
        ensures
            r == count_kind(polynomial_views(self.declarations@), polynomial_type),
    {
        let ghost views = polynomial_views(self.declarations@);
        let mut count: usize = 0;
        let mut i: usize = 0;
        assert(views.take(0) =~= Seq::empty());
        while i < self.declarations.len()
            invariant
                i <= self.declarations@.len(),
                views == polynomial_views(self.declarations@),
                count == count_kind(views.take(i as int), polynomial_type),
                count <= i,
            decreases self.declarations@.len() - i,
        {
            proof {
                assert(views.take(i + 1).drop_last() =~= views.take(i as int));
            }
            if self.declarations.value_at(i).poly_type == polynomial_type {
                count += 1;
            }
            i += 1;
        }
        assert(views.take(i as int) =~= views);
        count
    }

    /// The number of committed polynomials.
    pub fn commitment_count(&self) -> (r: usize)
        ensures
            r == count_kind(polynomial_views(self.declarations@), PolynomialType::Committed),
    {
        self.count(PolynomialType::Committed)
    }

    /// The number of intermediate polynomials.
    pub fn intermediate_count(&self) -> (r: usize)
        ensures
            r == count_kind(polynomial_views(self.declarations@), PolynomialType::Intermediate),
    {
        self.count(PolynomialType::Intermediate)
    }

    /// The number of constant polynomials.
    pub fn constant_count(&self) -> (r: usize)
        ensures
            r == count_kind(polynomial_views(self.declarations@), PolynomialType::Constant),
    {
        self.count(PolynomialType::Constant)
    }
}

/// Analyzes a file that stands for itself.
///
/// An include cannot be followed from here and fails the analysis at its
/// position; a reader of files drives `Context::process_file` instead.
pub fn analyze(file: &ast::PILFile) -> (r: Result<Analyzed, AnalysisFailure>)
    ensures
        match ContextView::initial().run(file.0@, 0) {
            Progress::Finished(model) => r matches Ok(analyzed) && analyzed.wf() && analyzed.holds(
                model,
            ),
            Progress::Suspended(_, position) => r matches Err(failure) && failure.statement
                == position && failure.error@ == AnalysisFault::UnresolvedInclude(
                include_path(file.0@[position]),
            ),
            Progress::Failed(_, position, fault) => r matches Err(failure) && failure.statement
                == position && failure.error@ == fault,
        },
{
    let mut ctx = Context::new();
    proof {
        lemma_run_position(ContextView::initial(), file.0@, 0);
    }
    match ctx.process_file(file, 0) {
        Err(failure) => Err(failure),
        Ok(Some(suspension)) => Err(
            AnalysisFailure {
                statement: suspension.resume_at - 1,
                error: AnalysisError::UnresolvedInclude(suspension.path),
            },
        ),
        Ok(None) => Ok(ctx.into_analyzed()),
    }
}

/// Processing stops only at a statement from the starting position on; where
/// it is suspended, that statement is an include.
pub proof fn lemma_run_position(model: ContextView, statements: Seq<ast::Statement>, from: int)
    requires
        0 <= from,
    ensures
        match model.run(statements, from) {
            Progress::Finished(_) => true,
            Progress::Suspended(_, position) => from <= position < statements.len()
                && statements[position] is Include,
            Progress::Failed(_, position, _) => from <= position < statements.len(),
        },
    decreases statements.len() - from,
{
    if from < statements.len() && !(statements[from] is Include) {
        match model.apply(statements[from]) {
            Err(_) => {},
            Ok(next) => {
                lemma_run_position(next, statements, from + 1);
            },
        }
    }
}

/// A failure among the first `n` expressions is the failure of any longer prefix.
proof fn lemma_normalize_all_fails(
    constants: Seq<(Seq<char>, ConstantNumberType)>,
    namespace: Seq<char>,
    expressions: Seq<ast::Expression>,
    n: int,
    m: int,
)
    requires
        normalize_all(constants, namespace, expressions, n) is Err,
        n <= m,
    ensures
        normalize_all(constants, namespace, expressions, m) == normalize_all(
            constants,
            namespace,
            expressions,
            n,
        ),
    decreases m - n,
{
    if n < m {
        lemma_normalize_all_fails(constants, namespace, expressions, n, m - 1);
    }
}

/// The expression refers to a polynomial somewhere.
pub open spec fn mentions_polynomial(e: ast::Expression) -> bool
    decreases e,
{
    match e {
        ast::Expression::PolynomialReference(_) => true,
        ast::Expression::BinaryOperation(left, _, right) => mentions_polynomial(*left)
            || mentions_polynomial(*right),
        ast::Expression::UnaryOperation(_, inner) => mentions_polynomial(*inner),
        _ => false,
    }
}

/// The value of an expression over the integers, with no regard to the width of numbers.
pub open spec fn integer_value(constants: Seq<(Seq<char>, ConstantNumberType)>, e: ast::Expression) -> int
    decreases e,
{
    match e {
        ast::Expression::Constant(name) => match value_of(constants, name@) {
            Some(v) => v as int,
            None => 0,
        },
        ast::Expression::PolynomialReference(_) => 0,
        ast::Expression::Number(n) => n as int,
        ast::Expression::BinaryOperation(left, op, right) => integer_operation(
            op,
            integer_value(constants, *left),
            integer_value(constants, *right),
        ),
        ast::Expression::UnaryOperation(_, inner) => -integer_value(constants, *inner),
    }
}

/// Where analysis finds a value, it is the value over the integers.
pub proof fn lemma_fold_is_integer_value(
    constants: Seq<(Seq<char>, ConstantNumberType)>,
    e: ast::Expression,
)
    ensures
        fold(constants, e) matches Folded::Value(v) ==> v == integer_value(constants, e),
        !mentions_polynomial(e) ==> !(fold(constants, e) is Symbolic),
    decreases e,
{
    match e {
        ast::Expression::BinaryOperation(left, op, right) => {
            lemma_fold_is_integer_value(constants, *left);
            lemma_fold_is_integer_value(constants, *right);
        },
        ast::Expression::UnaryOperation(_, inner) => {
            lemma_fold_is_integer_value(constants, *inner);
        },
        _ => {},
    }
}

/// Constant folding: an expression without polynomial references whose
/// evaluation does not fail has the number it evaluates to as its normal
/// form, and that number is its value over the integers. A bare reference to
/// a constant is left out: it stays a reference.
pub proof fn lemma_constant_folding(
    constants: Seq<(Seq<char>, ConstantNumberType)>,
    namespace: Seq<char>,
    e: ast::Expression,
)
    requires
        !mentions_polynomial(e),
        !(e is Constant),
        !(fold(constants, e) is Failed),
    ensures
        fold(constants, e) is Value,
        normalize(constants, namespace, e) == Ok::<ExpressionView, AnalysisFault>(
            ExpressionView::Number(fold(constants, e)->Value_0),
        ),
        fold(constants, e)->Value_0 == integer_value(constants, e),
{
    lemma_fold_is_integer_value(constants, e);
}

proof fn lemma_is_declared_push(declarations: Seq<PolynomialView>, polynomial: PolynomialView, name: Seq<char>)
    ensures
        is_declared(declarations.push(polynomial), name) == (is_declared(declarations, name)
            || polynomial.absolute_name == name),
{
    let extended = declarations.push(polynomial);
    if is_declared(declarations, name) {
        let i = choose|i: int|
            0 <= i < declarations.len() && (#[trigger] declarations[i]).absolute_name == name;
        assert(extended[i].absolute_name == name);
    }
    if polynomial.absolute_name == name {
        assert(extended[declarations.len() as int].absolute_name == name);
    }
    if is_declared(extended, name) {
        let i = choose|i: int|
            0 <= i < extended.len() && (#[trigger] extended[i]).absolute_name == name;
        if i < declarations.len() {
            assert(declarations[i].absolute_name == name);
        }
    }
}

/// The polynomials of a statement are all declared exactly if each can be
/// declared after those before it; each of them then adds one declaration.
pub proof fn lemma_declare_all(
    model: ContextView,
    polynomials: Seq<ast::PolynomialName>,
    kind: PolynomialType,
    from: int,
)
    requires
        0 <= from <= polynomials.len(),
    ensures
        match model.declare_all(polynomials, kind, from) {
            Ok(next) => model.can_declare(polynomials, from) && next.declarations.len()
                == model.declarations.len() + polynomials.len() - from && next.namespace
                == model.namespace && next.constants == model.constants,
            Err(_) => !model.can_declare(polynomials, from),
        },
    decreases polynomials.len() - from,
{
    if from < polynomials.len() {
        let name = absolute_name(model.namespace, polynomials[from].name@);
        match model.declare(polynomials[from], kind) {
            Err(_) => {
                assert(!model.can_declare_at(polynomials, from, from));
            },
            Ok(next) => {
                lemma_declare_all(next, polynomials, kind, from + 1);
                let added = next.declarations[model.declarations.len() as int];
                assert(next.declarations == model.declarations.push(added));
                assert(added.absolute_name == name);
                if next.declare_all(polynomials, kind, from + 1) is Ok {
                    assert forall|i: int| from <= i < polynomials.len() implies #[trigger]
                        model.can_declare_at(polynomials, from, i) by {
                        if i > from {
                            let other = absolute_name(model.namespace, polynomials[i].name@);
                            assert(next.can_declare_at(polynomials, from + 1, i));
                            lemma_is_declared_push(model.declarations, added, other);
                        }
                    }
                } else {
                    if model.can_declare(polynomials, from) {
                        assert forall|i: int| from + 1 <= i < polynomials.len() implies #[trigger]
                            next.can_declare_at(polynomials, from + 1, i) by {
                            let other = absolute_name(model.namespace, polynomials[i].name@);
                            assert(model.can_declare_at(polynomials, from, i));
                            assert(model.can_declare_at(polynomials, from, from));
                            lemma_is_declared_push(model.declarations, added, other);
                            assert(absolute_name(model.namespace, polynomials[from].name@)
                                != other);
                        }
                        assert(false);
                    }
                }
            },
        }
    }
}

/// A declaration keeps the absolute names pairwise different, and the
/// declaration of a name that is declared already fails.
pub proof fn lemma_declare_keeps_names_unique(
    model: ContextView,
    polynomial: ast::PolynomialName,
    kind: PolynomialType,
)
    requires
        unique_names(model.declarations),
    ensures
        model.declare(polynomial, kind) matches Ok(next) ==> unique_names(next.declarations),
        is_declared(model.declarations, absolute_name(model.namespace, polynomial.name@))
            ==> model.declare(polynomial, kind) is Err,
{
    match model.declare(polynomial, kind) {
        Ok(next) => {
            let name = absolute_name(model.namespace, polynomial.name@);
            assert forall|i: int, j: int|
                0 <= i < next.declarations.len() && 0 <= j < next.declarations.len() && i
                    != j implies (#[trigger] next.declarations[i]).absolute_name != (
            #[trigger] next.declarations[j]).absolute_name by {
                if i < model.declarations.len() {
                    assert(next.declarations[i] == model.declarations[i]);
                }
                if j < model.declarations.len() {
                    assert(next.declarations[j] == model.declarations[j]);
                }
            }
        },
        Err(_) => {},
    }
}

proof fn lemma_declare_all_keeps_names_unique(
    model: ContextView,
    polynomials: Seq<ast::PolynomialName>,
    kind: PolynomialType,
    from: int,
)
    requires
        unique_names(model.declarations),
    ensures
        model.declare_all(polynomials, kind, from) matches Ok(next) ==> unique_names(
            next.declarations,
        ),
    decreases polynomials.len() - from,
{
    if 0 <= from < polynomials.len() {
        lemma_declare_keeps_names_unique(model, polynomials[from], kind);
        match model.declare(polynomials[from], kind) {
            Ok(next) => {
                lemma_declare_all_keeps_names_unique(next, polynomials, kind, from + 1);
            },
            Err(_) => {},
        }
    }
}

/// Name uniqueness: whatever statements are processed, no two declarations
/// come to carry the same absolute name.
pub proof fn lemma_run_keeps_names_unique(
    model: ContextView,
    statements: Seq<ast::Statement>,
    from: int,
)
    requires
        unique_names(model.declarations),
    ensures
        match model.run(statements, from) {
            Progress::Finished(next) => unique_names(next.declarations),
            Progress::Suspended(next, _) => unique_names(next.declarations),
            Progress::Failed(_, _, _) => true,
        },
    decreases statements.len() - from,
{
    if 0 <= from < statements.len() && !(statements[from] is Include) {
        match statements[from] {
            ast::Statement::PolynomialConstantDeclaration(polynomials) => {
                lemma_declare_all_keeps_names_unique(
                    model,
                    polynomials@,
                    PolynomialType::Constant,
                    0,
                );
            },
            ast::Statement::PolynomialCommitDeclaration(polynomials) => {
                lemma_declare_all_keeps_names_unique(
                    model,
                    polynomials@,
                    PolynomialType::Committed,
                    0,
                );
            },
            _ => {},
        }
        match model.apply(statements[from]) {
            Ok(next) => {
                lemma_run_keeps_names_unique(next, statements, from + 1);
            },
            Err(_) => {},
        }
    }
}

/// In a well-formed result no two declarations carry the same absolute name.
pub proof fn lemma_analyzed_names_unique(analyzed: Analyzed)
    requires
        analyzed.wf(),
    ensures
        unique_names(polynomial_views(analyzed.declarations@)),
{
    let table = analyzed.declarations@;
    let views = polynomial_views(table);
    assert forall|i: int, j: int|
        0 <= i < views.len() && 0 <= j < views.len() && i != j implies (#[trigger] views[i]).absolute_name
        != (#[trigger] views[j]).absolute_name by {
        assert(table[i].0 == table[i].1.absolute_name@);
        assert(table[j].0 == table[j].1.absolute_name@);
    }
}

} // verus!
