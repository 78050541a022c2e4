use pil_core::analyzer::{
    BinaryOperator, Expression, Identity, IdentityKind, PolynomialReference, SelectedExpressions,
};
use pil_core::commit_evaluator::affine_expression::AffineExpression;
use pil_core::commit_evaluator::eval_error::EvalError;
use pil_core::commit_evaluator::evaluator::{decide_lookup, decide_query, merge_columns, Evaluator};
use pil_core::commit_evaluator::machine::{LookupReturn, Machine};
use pil_core::commit_evaluator::{FixedData, QueryExpression};
use pil_core::number::{FieldElement, MODULUS};
use pil_core::table::NameTable;

type NoCallback = fn(&str) -> Option<FieldElement>;

fn reference(name: &str, next: bool) -> Expression {
    Expression::PolynomialReference(PolynomialReference {
        name: name.to_string(),
        index: None,
        next,
    })
}

fn binary(left: Expression, op: BinaryOperator, right: Expression) -> Expression {
    Expression::BinaryOperation(Box::new(left), op, Box::new(right))
}

fn empty_side() -> SelectedExpressions {
    SelectedExpressions {
        selector: None,
        expressions: vec![],
    }
}

fn polynomial_identity(expression: Expression) -> Identity {
    Identity {
        kind: IdentityKind::Polynomial,
        left: SelectedExpressions {
            selector: Some(expression),
            expressions: vec![],
        },
        right: empty_side(),
    }
}

fn lookup(selector: Option<Expression>, expressions: Vec<Expression>) -> Identity {
    Identity {
        kind: IdentityKind::Plookup,
        left: SelectedExpressions {
            selector,
            expressions,
        },
        right: empty_side(),
    }
}

fn witnesses(names: &[&str]) -> FixedData {
    FixedData::new(
        NameTable::new(),
        NameTable::new(),
        names.iter().map(|n| (n.to_string(), None)).collect(),
        false,
    )
}

fn values(row: &[FieldElement]) -> Vec<u64> {
    row.iter().map(|v| v.to_u64()).collect()
}

/// Gives the first witness column the value zero as long as it has none.
struct Seed;

impl Machine for Seed {
    fn process_plookup(
        &mut self,
        _fixed_data: &FixedData,
        _kind: IdentityKind,
        left: &Vec<Result<AffineExpression, EvalError>>,
        _right: &SelectedExpressions,
    ) -> Result<LookupReturn, EvalError> {
        match &left[0] {
            Ok(value) if !value.is_constant() => {
                Ok(LookupReturn::Assignments(vec![(0, FieldElement::zero())]))
            }
            _ => Ok(LookupReturn::Assignments(vec![])),
        }
    }

    fn witness_col_values(&mut self, _fixed_data: &FixedData) -> Vec<(String, Vec<FieldElement>)> {
        vec![("Seed.count".to_string(), vec![FieldElement::new(7)])]
    }
}

/// Answers every lookup with one assignment.
struct Always(usize, u64);

impl Machine for Always {
    fn process_plookup(
        &mut self,
        _fixed_data: &FixedData,
        _kind: IdentityKind,
        _left: &Vec<Result<AffineExpression, EvalError>>,
        _right: &SelectedExpressions,
    ) -> Result<LookupReturn, EvalError> {
        Ok(LookupReturn::Assignments(vec![(
            self.0,
            FieldElement::new(self.1),
        )]))
    }

    fn witness_col_values(&mut self, _fixed_data: &FixedData) -> Vec<(String, Vec<FieldElement>)> {
        vec![("Seed.count".to_string(), vec![FieldElement::new(9)])]
    }
}

struct Deaf;

impl Machine for Deaf {
    fn process_plookup(
        &mut self,
        _fixed_data: &FixedData,
        _kind: IdentityKind,
        _left: &Vec<Result<AffineExpression, EvalError>>,
        _right: &SelectedExpressions,
    ) -> Result<LookupReturn, EvalError> {
        Ok(LookupReturn::NotApplicable)
    }

    fn witness_col_values(&mut self, _fixed_data: &FixedData) -> Vec<(String, Vec<FieldElement>)> {
        vec![]
    }
}

#[test]
fn simple_identity_solves_every_row() {
    let fixed_data = witnesses(&["x"]);
    let identity = polynomial_identity(binary(
        reference("x", false),
        BinaryOperator::Add,
        Expression::Number(1),
    ));
    let mut evaluator: Evaluator<NoCallback> =
        Evaluator::new(&fixed_data, vec![&identity], vec![], None);
    for row in 0..4 {
        let solved = evaluator.compute_next_row(row).unwrap();
        assert_eq!(values(&solved), vec![MODULUS - 1]);
        assert_eq!(evaluator.pass_count(), 1);
    }
}

#[test]
fn shift_identity_counts_up_from_the_seed() {
    let fixed_data = witnesses(&["x"]);
    let step = polynomial_identity(binary(
        binary(
            reference("x", true),
            BinaryOperator::Sub,
            reference("x", false),
        ),
        BinaryOperator::Sub,
        Expression::Number(1),
    ));
    let seed = lookup(None, vec![reference("x", false)]);
    let mut evaluator: Evaluator<NoCallback> = Evaluator::new(
        &fixed_data,
        vec![&step, &seed],
        vec![Box::new(Seed)],
        None,
    );
    let mut column = vec![];
    for row in 0..8 {
        column.push(evaluator.compute_next_row(row).unwrap()[0].to_u64());
    }
    assert_eq!(column, vec![0, 1, 2, 3, 4, 5, 6, 7]);
}

#[test]
fn lookup_takes_the_first_machine_that_answers() {
    let fixed_data = witnesses(&["x"]);
    let identity = lookup(Some(Expression::Number(1)), vec![reference("x", false)]);
    let mut evaluator: Evaluator<NoCallback> = Evaluator::new(
        &fixed_data,
        vec![&identity],
        vec![Box::new(Deaf), Box::new(Always(0, 42)), Box::new(Always(0, 43))],
        None,
    );
    for row in 0..3 {
        assert_eq!(values(&evaluator.compute_next_row(row).unwrap()), vec![42]);
    }
}

#[test]
fn unsatisfiable_identity_fails_after_the_first_row() {
    let fixed_data = witnesses(&["x"]);
    let identity = polynomial_identity(Expression::Number(1));
    let mut evaluator: Evaluator<NoCallback> =
        Evaluator::new(&fixed_data, vec![&identity], vec![], None);
    assert_eq!(values(&evaluator.compute_next_row(0).unwrap()), vec![0]);
    let failure = evaluator.compute_next_row(1).unwrap_err();
    assert_eq!(failure.row, 1);
    assert_eq!(failure.unknown, vec!["x".to_string()]);
    assert_eq!(failure.values, vec![None]);
    assert_eq!(failure.reasons.len(), 1);
    assert_eq!(failure.reasons[0].identity, Some(0));
    assert_eq!(
        failure.reasons[0].error.message(&fixed_data),
        "Constraint is invalid (1 != 0)."
    );
}

#[test]
fn query_callback_fills_what_identities_leave_open() {
    let fixed_data = FixedData::new(
        NameTable::new(),
        NameTable::new(),
        vec![(
            "x".to_string(),
            Some(QueryExpression::Tuple(vec![
                QueryExpression::String("in\"put".to_string()),
                QueryExpression::LocalVariableReference(0),
                QueryExpression::Expression(Expression::Number(-3)),
            ])),
        )],
        false,
    );
    let mut asked = vec![];
    let callback = |query: &str| {
        asked.push(query.to_string());
        Some(FieldElement::new(5))
    };
    let mut evaluator = Evaluator::new(&fixed_data, vec![], vec![], Some(callback));
    assert_eq!(values(&evaluator.compute_next_row(0).unwrap()), vec![5]);
    assert_eq!(values(&evaluator.compute_next_row(1).unwrap()), vec![5]);
    drop(evaluator);
    assert_eq!(asked, vec!["\"in\\\"put\", 0, -3", "\"in\\\"put\", 1, -3"]);
}

#[test]
fn machine_columns_are_merged_and_the_later_machine_wins() {
    let fixed_data = witnesses(&["x"]);
    let mut evaluator: Evaluator<NoCallback> = Evaluator::new(
        &fixed_data,
        vec![],
        vec![Box::new(Seed), Box::new(Deaf), Box::new(Always(0, 1))],
        None,
    );
    let columns = evaluator.machine_witness_col_values();
    assert_eq!(columns.len(), 1);
    assert_eq!(
        columns.get(&"Seed.count".to_string()),
        Some(&vec![FieldElement::new(9)])
    );
}

struct Stray;

impl Machine for Stray {
    fn process_plookup(
        &mut self,
        _fixed_data: &FixedData,
        _kind: IdentityKind,
        _left: &Vec<Result<AffineExpression, EvalError>>,
        _right: &SelectedExpressions,
    ) -> Result<LookupReturn, EvalError> {
        Ok(LookupReturn::Assignments(vec![
            (0, FieldElement::new(1)),
            (5, FieldElement::new(2)),
        ]))
    }

    fn witness_col_values(&mut self, _fixed_data: &FixedData) -> Vec<(String, Vec<FieldElement>)> {
        vec![]
    }
}

struct Refusing;

impl Machine for Refusing {
    fn process_plookup(
        &mut self,
        _fixed_data: &FixedData,
        _kind: IdentityKind,
        _left: &Vec<Result<AffineExpression, EvalError>>,
        _right: &SelectedExpressions,
    ) -> Result<LookupReturn, EvalError> {
        Err(EvalError::Generic("not in the table".to_string()))
    }

    fn witness_col_values(&mut self, _fixed_data: &FixedData) -> Vec<(String, Vec<FieldElement>)> {
        vec![]
    }
}

fn number(n: i128) -> Expression {
    Expression::Number(n)
}

#[test]
fn passes_go_on_while_values_are_found() {
    // y is found from x only, and x stands after y among the identities.
    let fixed_data = witnesses(&["x", "y", "z"]);
    let z_from_y = polynomial_identity(binary(
        reference("z", false),
        BinaryOperator::Sub,
        binary(reference("y", false), BinaryOperator::Mul, number(2)),
    ));
    let y_from_x = polynomial_identity(binary(
        reference("y", false),
        BinaryOperator::Sub,
        binary(reference("x", false), BinaryOperator::Add, number(1)),
    ));
    let x = polynomial_identity(binary(reference("x", false), BinaryOperator::Sub, number(5)));
    let mut evaluator: Evaluator<NoCallback> =
        Evaluator::new(&fixed_data, vec![&z_from_y, &y_from_x, &x], vec![], None);
    assert_eq!(evaluator.pass_count(), 0);
    assert_eq!(values(&evaluator.compute_next_row(0).unwrap()), vec![5, 6, 12]);
    assert_eq!(evaluator.pass_count(), 3);
    assert!(evaluator.pass_count() <= 3 + 1);
    // Nothing failed in the last pass.
    assert_eq!(values(&evaluator.compute_next_row(1).unwrap()), vec![5, 6, 12]);
    // In the other order one pass finds everything, and a second one is not needed.
    let mut evaluator: Evaluator<NoCallback> =
        Evaluator::new(&fixed_data, vec![&x, &y_from_x, &z_from_y], vec![], None);
    assert_eq!(values(&evaluator.compute_next_row(1).unwrap()), vec![5, 6, 12]);
    assert_eq!(evaluator.pass_count(), 1);
}

#[test]
fn failure_in_the_last_pass_counts_after_the_first_row() {
    let fixed_data = witnesses(&["x", "y"]);
    let y_from_x = polynomial_identity(binary(
        reference("y", false),
        BinaryOperator::Sub,
        binary(reference("x", false), BinaryOperator::Mul, number(2)),
    ));
    let x = polynomial_identity(binary(reference("x", false), BinaryOperator::Sub, number(5)));
    let y = polynomial_identity(binary(reference("y", false), BinaryOperator::Sub, number(10)));
    let mut evaluator: Evaluator<NoCallback> =
        Evaluator::new(&fixed_data, vec![&y_from_x, &x, &y], vec![], None);
    // The row is full after one pass, in which the first identity found nothing.
    assert_eq!(values(&evaluator.compute_next_row(0).unwrap()), vec![5, 10]);
    assert_eq!(evaluator.pass_count(), 1);
    let failure = evaluator.compute_next_row(1).unwrap_err();
    assert_eq!(
        failure.values,
        vec![Some(FieldElement::new(5)), Some(FieldElement::new(10))]
    );
    assert!(failure.unknown.is_empty());
    assert_eq!(failure.reasons.len(), 1);
    assert_eq!(failure.reasons[0].identity, Some(0));
    assert_eq!(
        failure.reasons[0].error.message(&fixed_data),
        "Could not solve expression -2 * x + y = 0."
    );
}

#[test]
fn a_pass_without_progress_ends_the_row() {
    let fixed_data = witnesses(&["x", "y"]);
    let sum = polynomial_identity(binary(
        reference("x", false),
        BinaryOperator::Add,
        reference("y", false),
    ));
    let mut evaluator: Evaluator<NoCallback> =
        Evaluator::new(&fixed_data, vec![&sum], vec![], None);
    assert_eq!(values(&evaluator.compute_next_row(0).unwrap()), vec![0, 0]);
    assert_eq!(evaluator.pass_count(), 1);
    let failure = evaluator.compute_next_row(1).unwrap_err();
    assert_eq!(failure.unknown, vec!["x".to_string(), "y".to_string()]);
    assert_eq!(
        failure.reasons[0].error.message(&fixed_data),
        "Could not solve expression x + y = 0."
    );
}

#[test]
fn written_values_are_kept() {
    let fixed_data = witnesses(&["x", "y"]);
    let mut evaluator: Evaluator<NoCallback> = Evaluator::new(&fixed_data, vec![], vec![], None);
    evaluator.handle_eval_result(None, Ok(vec![(1, FieldElement::new(4))]));
    evaluator.handle_eval_result(
        Some(0),
        Ok(vec![
            (1, FieldElement::new(5)),
            (0, FieldElement::new(7)),
            (0, FieldElement::new(8)),
        ]),
    );
    evaluator.handle_eval_result(Some(1), Err(EvalError::NoMatchingMachine));
    assert_eq!(
        evaluator.format_next_values(),
        vec!["x = 7".to_string(), "y = 4".to_string()]
    );
}

#[test]
fn unknown_values_are_shown_as_such() {
    let fixed_data = witnesses(&["x", "y"]);
    let mut evaluator: Evaluator<NoCallback> = Evaluator::new(&fixed_data, vec![], vec![], None);
    evaluator.handle_eval_result(None, Ok(vec![(1, FieldElement::new(MODULUS - 2))]));
    assert_eq!(
        evaluator.format_next_values(),
        vec!["x = <unknown>".to_string(), "y = -2".to_string()]
    );
}

#[test]
fn selector_decides_whether_a_lookup_applies() {
    let fixed_data = witnesses(&["x"]);
    let mut evaluator: Evaluator<NoCallback> =
        Evaluator::new(&fixed_data, vec![], vec![Box::new(Always(0, 42))], None);
    let skipped = lookup(Some(number(0)), vec![reference("x", false)]);
    assert_eq!(evaluator.process_plookup(&skipped).unwrap(), vec![]);
    let applied = lookup(Some(number(1)), vec![reference("x", false)]);
    assert_eq!(
        evaluator.process_plookup(&applied).unwrap(),
        vec![(0, FieldElement::new(42))]
    );
    let neither = lookup(Some(number(2)), vec![]);
    let error = evaluator.process_plookup(&neither).unwrap_err();
    assert_eq!(
        error.message(&fixed_data),
        "Value of the selector on the left hand side unknown or not boolean: 2"
    );
    let open = lookup(Some(reference("x", false)), vec![]);
    let error = evaluator.process_plookup(&open).unwrap_err();
    assert_eq!(
        error.message(&fixed_data),
        "Value of the selector on the left hand side unknown or not boolean: x"
    );
    let failing = lookup(Some(reference("x", true)), vec![]);
    assert!(matches!(
        evaluator.process_plookup(&failing),
        Err(EvalError::NextNextRow(name)) if name == "x"
    ));
}

#[test]
fn lookup_without_answer_is_an_error() {
    let fixed_data = witnesses(&["x"]);
    let identity = lookup(None, vec![reference("x", false)]);
    let mut evaluator: Evaluator<NoCallback> =
        Evaluator::new(&fixed_data, vec![], vec![Box::new(Deaf), Box::new(Deaf)], None);
    let error = evaluator.process_plookup(&identity).unwrap_err();
    assert_eq!(
        error.message(&fixed_data),
        "Could not find a matching machine for the lookup."
    );
    let mut evaluator: Evaluator<NoCallback> =
        Evaluator::new(&fixed_data, vec![], vec![], None);
    assert!(matches!(
        evaluator.process_plookup(&identity),
        Err(EvalError::NoMatchingMachine)
    ));
}

#[test]
fn error_of_a_machine_ends_the_lookup() {
    let fixed_data = witnesses(&["x"]);
    let identity = lookup(None, vec![reference("x", false)]);
    let mut evaluator: Evaluator<NoCallback> = Evaluator::new(
        &fixed_data,
        vec![],
        vec![Box::new(Deaf), Box::new(Refusing), Box::new(Always(0, 1))],
        None,
    );
    let error = evaluator.process_plookup(&identity).unwrap_err();
    assert_eq!(error.message(&fixed_data), "not in the table");
}

#[test]
fn assignment_to_a_missing_column_is_an_error() {
    let fixed_data = witnesses(&["x"]);
    let identity = lookup(None, vec![]);
    let mut evaluator: Evaluator<NoCallback> =
        Evaluator::new(&fixed_data, vec![&identity], vec![Box::new(Stray)], None);
    let error = evaluator.process_plookup(&identity).unwrap_err();
    assert_eq!(
        error.message(&fixed_data),
        "Assignment to witness column 5, which does not exist."
    );
    // Such an assignment ends the row, the first one too.
    let failure = evaluator.compute_next_row(0).unwrap_err();
    assert_eq!(failure.row, 0);
    assert_eq!(failure.values, vec![None]);
    assert_eq!(failure.reasons.len(), 1);
    assert!(matches!(
        failure.reasons[0].error,
        EvalError::UnknownWitness(5)
    ));
    assert_eq!(evaluator.pass_count(), 1);
}


#[test]
fn polynomial_identity_outcomes() {
    let mut constants = NameTable::new();
    assert!(constants.insert_new("K".to_string(), FieldElement::new(3)));
    let mut fixed_cols = NameTable::new();
    assert!(fixed_cols.insert_new(
        "c".to_string(),
        vec![FieldElement::new(1), FieldElement::new(2)]
    ));
    let fixed_data = FixedData::new(
        constants,
        fixed_cols,
        vec![("x".to_string(), None), ("y".to_string(), None)],
        true,
    );
    assert!(fixed_data.verbose());
    assert_eq!(fixed_data.witness_count(), 2);
    assert_eq!(fixed_data.witness_col(1).id, 1);
    assert_eq!(fixed_data.witness_col(1).name, "y");
    assert_eq!(fixed_data.witness_id(&"y".to_string()), Some(1));
    assert_eq!(fixed_data.witness_id(&"c".to_string()), None);
    let mut evaluator: Evaluator<NoCallback> = Evaluator::new(&fixed_data, vec![], vec![], None);
    evaluator.compute_next_row(0).unwrap();
    assert_eq!(evaluator.compute_next_row(1).unwrap().len(), 2);
    evaluator.handle_eval_result(None, Ok(vec![(1, FieldElement::new(4))]));
    // K * x - c - y = 0 on row 2 (c = 1): 3x - 1 - 4 = 0
    let e = binary(
        binary(
            binary(
                Expression::Constant("K".to_string()),
                BinaryOperator::Mul,
                reference("x", false),
            ),
            BinaryOperator::Sub,
            reference("c", false),
        ),
        BinaryOperator::Sub,
        reference("y", false),
    );
    let solved = evaluator.process_polynomial_identity(&e).unwrap();
    assert_eq!(solved.len(), 1);
    assert_eq!(solved[0].0, 0);
    assert_eq!(
        solved[0].1.mul(FieldElement::new(3)),
        FieldElement::new(5)
    );
    // y - 4 = 0 holds
    let holds = binary(reference("y", false), BinaryOperator::Sub, number(4));
    assert_eq!(evaluator.process_polynomial_identity(&holds).unwrap(), vec![]);
    // y - 5 = 0 does not
    let violated = binary(reference("y", false), BinaryOperator::Sub, number(5));
    let error = evaluator.process_polynomial_identity(&violated).unwrap_err();
    assert_eq!(error.message(&fixed_data), "Constraint is invalid (-1 != 0).");
    // x' - x: the row before is not known
    let shifted = binary(reference("x", true), BinaryOperator::Sub, reference("x", false));
    let error = evaluator.process_polynomial_identity(&shifted).unwrap_err();
    assert_eq!(
        error.message(&fixed_data),
        "Previous value of column x is not (yet) known."
    );
}

#[test]
fn queries_are_put_into_words() {
    let fixed_data = witnesses(&["x"]);
    let mut evaluator: Evaluator<NoCallback> = Evaluator::new(&fixed_data, vec![], vec![], None);
    evaluator.compute_next_row(0).unwrap();
    evaluator.compute_next_row(1).unwrap();
    evaluator.compute_next_row(17).unwrap();
    evaluator.handle_eval_result(None, Err(EvalError::NonLinear));
    let words = |q: QueryExpression| evaluator.interpolate_query(&q);
    // Row 17 is solved, so row 18 is the next.
    assert_eq!(words(QueryExpression::LocalVariableReference(0)).unwrap(), "18");
    assert!(matches!(
        words(QueryExpression::LocalVariableReference(1)),
        Err(EvalError::CannotEvaluateQuery(query)) if query == "$1"
    ));
    assert_eq!(
        words(QueryExpression::String("a\\b".to_string())).unwrap(),
        "\"a\\\\b\""
    );
    assert_eq!(words(QueryExpression::Tuple(vec![])).unwrap(), "");
    assert_eq!(
        words(QueryExpression::Expression(binary(
            number(2),
            BinaryOperator::Mul,
            number(21)
        )))
        .unwrap(),
        "42"
    );
    // x is not known on the row being solved
    // The part that has no words is named.
    assert!(matches!(
        words(QueryExpression::Tuple(vec![
            QueryExpression::LocalVariableReference(0),
            QueryExpression::Expression(reference("x", false)),
        ])),
        Err(EvalError::CannotEvaluateQuery(query)) if query == "x"
    ));
    assert!(matches!(
        words(QueryExpression::Expression(binary(
            reference("nothing", true),
            BinaryOperator::Pow,
            number(-2),
        ))),
        Err(EvalError::CannotEvaluateQuery(query)) if query == "(nothing' ^ -2)"
    ));
    let query = QueryExpression::Tuple(vec![
        QueryExpression::String("in".to_string()),
        QueryExpression::Tuple(vec![]),
        QueryExpression::LocalVariableReference(3),
        QueryExpression::Expression(Expression::UnaryOperation(
            pil_core::analyzer::UnaryOperator::Minus,
            Box::new(Expression::PolynomialReference(PolynomialReference {
                name: "m.a".to_string(),
                index: Some(12),
                next: false,
            })),
        )),
        QueryExpression::Expression(binary(
            Expression::Constant("N".to_string()),
            BinaryOperator::Div,
            number(i128::MIN),
        )),
    ]);
    assert_eq!(
        query.format(),
        format!("(\"in\", (), $3, -m.a[12], (N / {}))", i128::MIN)
    );
}

#[test]
fn query_without_answer_leaves_the_column_open() {
    let fixed_data = FixedData::new(
        NameTable::new(),
        NameTable::new(),
        vec![
            ("x".to_string(), Some(QueryExpression::String("in".to_string()))),
            ("y".to_string(), None),
        ],
        false,
    );
    let callback = |_query: &str| None;
    let y = polynomial_identity(binary(reference("y", false), BinaryOperator::Sub, number(1)));
    let mut evaluator = Evaluator::new(&fixed_data, vec![&y], vec![], Some(callback));
    // No identity fails, so the row is solved, with zero for what is open.
    assert_eq!(values(&evaluator.compute_next_row(1).unwrap()), vec![0, 1]);
    assert_eq!(evaluator.pass_count(), 2);
}

#[test]
fn decisions_on_answers() {
    assert!(decide_lookup(Ok(LookupReturn::NotApplicable), 3).is_none());
    assert_eq!(
        decide_lookup(
            Ok(LookupReturn::Assignments(vec![(2, FieldElement::new(1))])),
            3
        )
        .unwrap()
        .unwrap(),
        vec![(2, FieldElement::new(1))]
    );
    assert!(matches!(
        decide_lookup(
            Ok(LookupReturn::Assignments(vec![
                (2, FieldElement::new(1)),
                (3, FieldElement::new(1)),
                (9, FieldElement::new(1))
            ])),
            3
        ),
        Some(Err(EvalError::UnknownWitness(3)))
    ));
    assert!(matches!(
        decide_lookup(Err(EvalError::NonLinear), 3),
        Some(Err(EvalError::NonLinear))
    ));
    assert_eq!(
        decide_query(4, &"x".to_string(), "q".to_string(), Some(FieldElement::new(9))).unwrap(),
        vec![(4, FieldElement::new(9))]
    );
    assert!(matches!(
        decide_query(4, &"x".to_string(), "q".to_string(), None),
        Err(EvalError::NoQueryAnswer(name, query)) if name == "x" && query == "q"
    ));
    let mut table = NameTable::new();
    merge_columns(
        &mut table,
        vec![
            ("a".to_string(), vec![FieldElement::new(1)]),
            ("b".to_string(), vec![FieldElement::new(2)]),
            ("a".to_string(), vec![FieldElement::new(3)]),
        ],
    );
    assert_eq!(table.len(), 2);
    assert_eq!(table.name_at(0), "a");
    assert_eq!(table.value_at(0), &vec![FieldElement::new(3)]);
    assert_eq!(table.get(&"b".to_string()), Some(&vec![FieldElement::new(2)]));
    assert!(table.contains_key(&"a".to_string()));
    assert!(!table.contains_key(&"c".to_string()));
    assert_eq!(table.index_of(&"b".to_string()), Some(1));
}

#[test]
fn messages() {
    let fixed_data = witnesses(&["x"]);
    let message = |e: EvalError| e.message(&fixed_data);
    assert_eq!(
        message(EvalError::NextNextRow("x".to_string())),
        "x' references the next-next row when evaluating on the current row."
    );
    assert_eq!(
        message(EvalError::UnknownPolynomial("p".to_string())),
        "Polynomial p is neither a witness nor a fixed column."
    );
    assert_eq!(
        message(EvalError::UnknownConstant("N".to_string())),
        "Constant N is not defined."
    );
    assert_eq!(
        message(EvalError::EmptyColumn("c".to_string())),
        "Fixed column c has no rows."
    );
    assert_eq!(
        message(EvalError::NonLinear),
        "Multiplication of two non-constant expressions."
    );
    assert_eq!(
        message(EvalError::NonConstantDivisor),
        "Division by a non-constant expression."
    );
    assert_eq!(
        message(EvalError::DivisionByZero),
        "Division by a constant without inverse."
    );
    assert_eq!(
        message(EvalError::NonConstantExponent),
        "Power with a non-constant exponent."
    );
    assert_eq!(
        message(EvalError::MissingExpression),
        "Polynomial identity without an expression."
    );
    assert_eq!(
        message(EvalError::NoQueryAnswer("x".to_string(), "\"in\", 3".to_string())),
        "No query answer for x query: \"in\", 3."
    );
    assert_eq!(
        message(EvalError::CannotEvaluateQuery("(x + 1)".to_string())),
        "Cannot handle / evaluate (x + 1)."
    );
}

#[test]
fn identity_without_expression_fails() {
    let fixed_data = witnesses(&["x"]);
    let identity = Identity {
        kind: IdentityKind::Polynomial,
        left: empty_side(),
        right: empty_side(),
    };
    let mut evaluator: Evaluator<NoCallback> =
        Evaluator::new(&fixed_data, vec![&identity], vec![], None);
    let failure = evaluator.compute_next_row(3).unwrap_err();
    assert!(matches!(
        failure.reasons[0].error,
        EvalError::MissingExpression
    ));
    assert!(evaluator.run_pass());
}

#[test]
fn solving_twice_gives_the_same_rows() {
    let fixed_data = witnesses(&["x", "y"]);
    let step = polynomial_identity(binary(
        binary(
            reference("x", true),
            BinaryOperator::Sub,
            binary(reference("x", false), BinaryOperator::Mul, number(3)),
        ),
        BinaryOperator::Sub,
        number(1),
    ));
    let y = polynomial_identity(binary(
        reference("y", false),
        BinaryOperator::Sub,
        binary(reference("x", false), BinaryOperator::Mul, reference("x", false)),
    ));
    let seed = lookup(None, vec![reference("x", false)]);
    let run = || {
        let mut evaluator: Evaluator<NoCallback> = Evaluator::new(
            &fixed_data,
            vec![&step, &seed, &y],
            vec![Box::new(Seed)],
            None,
        );
        (0..16)
            .map(|row| values(&evaluator.compute_next_row(row).unwrap()))
            .collect::<Vec<_>>()
    };
    let first = run();
    assert_eq!(first, run());
    assert_eq!(first[0], vec![0, 0]);
    assert_eq!(first[1], vec![1, 1]);
    assert_eq!(first[2], vec![4, 16]);
    assert_eq!(first[3], vec![13, 169]);
}

#[test]
fn queries_are_asked_in_the_order_of_the_names() {
    let query = |text: &str| Some(QueryExpression::String(text.to_string()));
    let fixed_data = FixedData::new(
        NameTable::new(),
        NameTable::new(),
        vec![
            ("m.b".to_string(), query("first declared")),
            ("m.a".to_string(), query("second declared")),
            ("m".to_string(), query("shortest")),
            ("m.ab".to_string(), None),
            ("m.a".to_string(), query("same name")),
            ("M.z".to_string(), query("upper case")),
        ],
        false,
    );
    assert_eq!(fixed_data.witness_ids_by_name(), &vec![5usize, 2, 1, 4, 3, 0]);
    let mut asked = vec![];
    let callback = |query: &str| {
        asked.push(query.to_string());
        Some(FieldElement::new(asked.len() as u64))
    };
    let mut evaluator = Evaluator::new(&fixed_data, vec![], vec![], Some(callback));
    assert_eq!(
        values(&evaluator.compute_next_row(0).unwrap()),
        vec![5, 3, 2, 0, 4, 1]
    );
    drop(evaluator);
    assert_eq!(
        asked,
        vec![
            "\"upper case\"",
            "\"shortest\"",
            "\"second declared\"",
            "\"same name\"",
            "\"first declared\""
        ]
    );
}

#[test]
fn machines_are_handed_the_left_values() {
    let fixed_data = witnesses(&["x", "y"]);
    let identity = lookup(
        None,
        vec![
            binary(reference("x", false), BinaryOperator::Add, number(2)),
            reference("y", false),
            reference("nothing", false),
        ],
    );
    let mut evaluator: Evaluator<NoCallback> = Evaluator::new(&fixed_data, vec![], vec![], None);
    evaluator.handle_eval_result(None, Ok(vec![(1, FieldElement::new(9))]));
    let left = evaluator.left_values(&identity);
    assert_eq!(left.len(), 3);
    let first = left[0].as_ref().unwrap();
    assert_eq!(first.coefficient(0), FieldElement::new(1));
    assert_eq!(first.offset(), FieldElement::new(2));
    assert_eq!(
        left[1].as_ref().unwrap().constant_value(),
        Some(FieldElement::new(9))
    );
    assert!(matches!(
        &left[2],
        Err(EvalError::UnknownPolynomial(name)) if name == "nothing"
    ));
}
