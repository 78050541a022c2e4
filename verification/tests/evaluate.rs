use pil_core::analyzer::{BinaryOperator, Expression, PolynomialReference, UnaryOperator};
use pil_core::commit_evaluator::eval_error::EvalError;
use pil_core::commit_evaluator::expression_evaluator::{
    fixed_value, known_value, EvaluationData, EvaluationRow,
};
use pil_core::commit_evaluator::util::contains_next_ref;
use pil_core::commit_evaluator::FixedData;
use pil_core::number::{FieldElement, MODULUS};
use pil_core::table::NameTable;

fn fe(v: u64) -> FieldElement {
    FieldElement::new(v)
}

fn reference(name: &str, next: bool) -> Expression {
    Expression::PolynomialReference(PolynomialReference {
        name: name.to_string(),
        index: None,
        next,
    })
}

fn binary(left: Expression, op: BinaryOperator, right: Expression) -> Expression {
    Expression::BinaryOperation(Box::new(left), op, Box::new(right))
}

fn number(n: i128) -> Expression {
    Expression::Number(n)
}

fn fixed_data() -> FixedData {
    let mut constants = NameTable::new();
    assert!(constants.insert_new("N".to_string(), fe(16)));
    let mut fixed_cols = NameTable::new();
    assert!(fixed_cols.insert_new("c".to_string(), vec![fe(10), fe(11), fe(12)]));
    assert!(fixed_cols.insert_new("empty".to_string(), vec![]));
    FixedData::new(
        constants,
        fixed_cols,
        vec![("x".to_string(), None), ("y".to_string(), None)],
        false,
    )
}

struct Rows {
    fixed_data: FixedData,
    current: Vec<Option<FieldElement>>,
    next: Vec<Option<FieldElement>>,
}

impl Rows {
    fn new() -> Rows {
        Rows {
            fixed_data: fixed_data(),
            current: vec![Some(fe(3)), None],
            next: vec![None, Some(fe(8))],
        }
    }

    fn on(&self, next_row: u64, evaluate_row: EvaluationRow) -> EvaluationData<'_> {
        EvaluationData {
            fixed_data: &self.fixed_data,
            current_witnesses: &self.current,
            next_witnesses: &self.next,
            next_row,
            evaluate_row,
        }
    }
}

#[test]
fn fixed_columns_are_read_modulo_their_length() {
    let column = vec![fe(10), fe(11), fe(12)];
    for r in 0u64..10 {
        assert_eq!(
            fixed_value(&column, r, EvaluationRow::Next, false),
            column[(r % 3) as usize]
        );
        assert_eq!(
            fixed_value(&column, r, EvaluationRow::Next, true),
            column[((r + 1) % 3) as usize]
        );
        assert_eq!(
            fixed_value(&column, r, EvaluationRow::Current, false),
            column[((r + 2) % 3) as usize]
        );
        assert_eq!(
            fixed_value(&column, r, EvaluationRow::Current, true),
            column[(r % 3) as usize]
        );
    }
    assert_eq!(fixed_value(&column, u64::MAX, EvaluationRow::Next, true), column[1]);
    assert_eq!(fixed_value(&vec![fe(5)], 7, EvaluationRow::Current, true), fe(5));
}

#[test]
fn references_to_fixed_columns() {
    let rows = Rows::new();
    let c = "c".to_string();
    let value = |row: u64, mode: EvaluationRow, next: bool| {
        rows.on(row, mode)
            .value(&c, next)
            .unwrap()
            .constant_value()
            .unwrap()
            .to_u64()
    };
    assert_eq!(value(4, EvaluationRow::Next, false), 11);
    assert_eq!(value(4, EvaluationRow::Next, true), 12);
    assert_eq!(value(0, EvaluationRow::Current, false), 12);
    assert_eq!(value(0, EvaluationRow::Current, true), 10);
}

#[test]
fn references_to_witness_columns() {
    let rows = Rows::new();
    let x = "x".to_string();
    let y = "y".to_string();
    let current = rows.on(1, EvaluationRow::Current);
    let next = rows.on(1, EvaluationRow::Next);
    assert_eq!(current.value(&x, false).unwrap().constant_value(), Some(fe(3)));
    assert!(matches!(
        current.value(&y, false),
        Err(EvalError::PreviousValueUnknown(name)) if name == "y"
    ));
    let symbolic = current.value(&x, true).unwrap();
    assert!(!symbolic.is_constant());
    assert_eq!(symbolic.coefficient(0), fe(1));
    assert_eq!(symbolic.width(), 1);
    assert_eq!(current.value(&y, true).unwrap().constant_value(), Some(fe(8)));
    assert_eq!(next.value(&y, false).unwrap().constant_value(), Some(fe(8)));
    assert_eq!(next.value(&x, false).unwrap().coefficient(0), fe(1));
    assert!(matches!(
        next.value(&x, true),
        Err(EvalError::NextNextRow(name)) if name == "x"
    ));
}

#[test]
fn references_to_nothing() {
    let rows = Rows::new();
    let data = rows.on(0, EvaluationRow::Next);
    assert!(matches!(
        data.value(&"nope".to_string(), false),
        Err(EvalError::UnknownPolynomial(name)) if name == "nope"
    ));
    assert!(matches!(
        data.value(&"empty".to_string(), false),
        Err(EvalError::EmptyColumn(name)) if name == "empty"
    ));
    assert!(matches!(
        data.constant(&"M".to_string()),
        Err(EvalError::UnknownConstant(name)) if name == "M"
    ));
    assert_eq!(
        data.constant(&"N".to_string()).unwrap().constant_value(),
        Some(fe(16))
    );
}

#[test]
fn known_values_end_with_the_list() {
    let values = vec![Some(fe(1)), None];
    assert_eq!(known_value(&values, 0), Some(fe(1)));
    assert_eq!(known_value(&values, 1), None);
    assert_eq!(known_value(&values, 2), None);
}

#[test]
fn arithmetic_on_affine_values() {
    let rows = Rows::new();
    let data = rows.on(1, EvaluationRow::Next);
    // 2 * x + y - N  with y = 8, N = 16
    let e = binary(
        binary(
            binary(number(2), BinaryOperator::Mul, reference("x", false)),
            BinaryOperator::Add,
            reference("y", false),
        ),
        BinaryOperator::Sub,
        Expression::Constant("N".to_string()),
    );
    let value = data.evaluate(&e).unwrap();
    assert_eq!(value.coefficient(0), fe(2));
    assert_eq!(value.offset(), fe(MODULUS - 8));
    assert_eq!(value.solve(), Some((0, fe(4))));
    // -(x) / 2
    let e = binary(
        Expression::UnaryOperation(UnaryOperator::Minus, Box::new(reference("x", false))),
        BinaryOperator::Div,
        number(2),
    );
    let value = data.evaluate(&e).unwrap();
    assert_eq!(value.coefficient(0), fe(2).inverse().unwrap().neg());
    // numbers are mapped into the field
    assert_eq!(data.evaluate(&number(-1)).unwrap().constant_value(), Some(fe(MODULUS - 1)));
}

#[test]
fn what_is_not_affine_is_an_error() {
    let rows = Rows::new();
    let data = rows.on(1, EvaluationRow::Next);
    let x = || reference("x", false);
    assert!(matches!(
        data.evaluate(&binary(x(), BinaryOperator::Mul, x())),
        Err(EvalError::NonLinear)
    ));
    assert!(matches!(
        data.evaluate(&binary(number(1), BinaryOperator::Div, x())),
        Err(EvalError::NonConstantDivisor)
    ));
    assert!(matches!(
        data.evaluate(&binary(x(), BinaryOperator::Div, number(0))),
        Err(EvalError::DivisionByZero)
    ));
    assert!(matches!(
        data.evaluate(&binary(number(2), BinaryOperator::Pow, x())),
        Err(EvalError::NonConstantExponent)
    ));
    assert!(matches!(
        data.evaluate(&binary(x(), BinaryOperator::Pow, number(2))),
        Err(EvalError::NonLinear)
    ));
    // The left operand is reported first.
    assert!(matches!(
        data.evaluate(&binary(reference("a", false), BinaryOperator::Add, reference("b", false))),
        Err(EvalError::UnknownPolynomial(name)) if name == "a"
    ));
}

#[test]
fn powers() {
    let rows = Rows::new();
    let data = rows.on(1, EvaluationRow::Next);
    let x = || reference("x", false);
    let power = |base: Expression, exponent: i128| {
        data.evaluate(&binary(base, BinaryOperator::Pow, number(exponent)))
            .unwrap()
    };
    assert_eq!(power(number(2), 10).constant_value(), Some(fe(1024)));
    assert_eq!(power(reference("y", false), 2).constant_value(), Some(fe(64)));
    assert_eq!(power(x(), 0).constant_value(), Some(fe(1)));
    let first = power(x(), 1);
    assert_eq!(first.coefficient(0), fe(1));
    assert_eq!(first.offset(), fe(0));
}

#[test]
fn next_references_are_found() {
    assert!(!contains_next_ref(&number(1)));
    assert!(!contains_next_ref(&reference("x", false)));
    assert!(contains_next_ref(&reference("x", true)));
    assert!(contains_next_ref(&binary(
        number(1),
        BinaryOperator::Add,
        Expression::UnaryOperation(UnaryOperator::Minus, Box::new(reference("c", true)))
    )));
    assert!(!contains_next_ref(&binary(
        Expression::Constant("N".to_string()),
        BinaryOperator::Mul,
        reference("c", false)
    )));
}
