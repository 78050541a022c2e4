use pil_core::analyzer::Expression as Normal;
use pil_core::analyzer::{analyze, AnalysisError, Context, PolynomialType};
use pil_core::ast::{BinaryOperator, Expression, PILFile, PolynomialName, Statement};

fn number(n: i128) -> Expression {
    Expression::Number(n)
}

fn binary(left: Expression, op: BinaryOperator, right: Expression) -> Expression {
    Expression::BinaryOperation(Box::new(left), op, Box::new(right))
}

fn name(text: &str) -> String {
    text.to_string()
}

#[test]
fn constant_definition_is_folded() {
    let file = PILFile(vec![Statement::ConstantDefinition(
        name("N"),
        binary(number(2), BinaryOperator::Pow, number(4)),
    )]);
    let analyzed = analyze(&file).unwrap();
    assert_eq!(analyzed.constants.len(), 1);
    assert_eq!(analyzed.constants.get(&name("N")), Some(&16));
}

#[test]
fn namespaces_separate_names_but_share_the_counter() {
    let commit_x = || {
        Statement::PolynomialCommitDeclaration(vec![PolynomialName {
            name: name("x"),
            array_size: None,
        }])
    };
    let file = PILFile(vec![
        Statement::Namespace(name("A"), number(8)),
        commit_x(),
        Statement::Namespace(name("B"), number(16)),
        commit_x(),
    ]);
    let analyzed = analyze(&file).unwrap();
    assert_eq!(analyzed.declarations.len(), 2);
    let a = analyzed.declarations.get(&name("A.x")).unwrap();
    let b = analyzed.declarations.get(&name("B.x")).unwrap();
    assert_eq!(a.id, 0);
    assert_eq!(b.id, 1);
    assert_eq!(a.degree, 8);
    assert_eq!(b.degree, 16);
    assert!(a.poly_type == PolynomialType::Committed);
    assert_eq!(analyzed.commitment_count(), 2);
    assert_eq!(analyzed.constant_count(), 0);
    assert_eq!(analyzed.intermediate_count(), 0);
}

#[test]
fn redeclaration_fails() {
    let commit_x = || {
        Statement::PolynomialCommitDeclaration(vec![PolynomialName {
            name: name("x"),
            array_size: None,
        }])
    };
    let file = PILFile(vec![commit_x(), commit_x()]);
    let failure = analyze(&file).unwrap_err();
    assert_eq!(failure.statement, 1);
    assert!(matches!(failure.error, AnalysisError::DuplicateDeclaration(ref n) if n == "Global.x"));
    let _ = Context::new();
}

fn commit(names: &[&str]) -> Statement {
    Statement::PolynomialCommitDeclaration(
        names
            .iter()
            .map(|n| PolynomialName {
                name: name(n),
                array_size: None,
            })
            .collect(),
    )
}

fn reference(text: &str) -> Expression {
    Expression::PolynomialReference(pil_core::ast::PolynomialReference {
        namespace: None,
        name: name(text),
        index: None,
        next: false,
    })
}

fn error_of(statements: Vec<Statement>) -> (usize, AnalysisError) {
    let failure = analyze(&PILFile(statements)).unwrap_err();
    (failure.statement, failure.error)
}

fn constant(text: &str, value: Expression) -> Statement {
    Statement::ConstantDefinition(name(text), value)
}

#[test]
fn undefined_constant_fails() {
    let (position, error) = error_of(vec![
        constant("A", number(1)),
        constant("B", Expression::Constant(name("C"))),
    ]);
    assert_eq!(position, 1);
    assert!(matches!(error, AnalysisError::UndefinedConstant(n) if n == "C"));
}

#[test]
fn duplicate_constant_fails() {
    let (position, error) = error_of(vec![constant("A", number(1)), constant("A", number(1))]);
    assert_eq!(position, 1);
    assert!(matches!(error, AnalysisError::DuplicateConstant(n) if n == "A"));
}

#[test]
fn constants_are_not_namespaced() {
    let (position, error) = error_of(vec![
        Statement::Namespace(name("A"), number(4)),
        constant("N", number(1)),
        Statement::Namespace(name("B"), number(4)),
        constant("N", number(2)),
    ]);
    assert_eq!(position, 3);
    assert!(matches!(error, AnalysisError::DuplicateConstant(n) if n == "N"));
}

#[test]
fn degree_must_be_a_number() {
    let (position, error) = error_of(vec![Statement::Namespace(name("A"), reference("x"))]);
    assert_eq!(position, 0);
    assert!(matches!(error, AnalysisError::NotConstant));
}

#[test]
fn array_size_must_be_a_number() {
    let (_, error) = error_of(vec![Statement::PolynomialConstantDeclaration(vec![
        PolynomialName {
            name: name("x"),
            array_size: Some(binary(number(1), BinaryOperator::Add, reference("y"))),
        },
    ])]);
    assert!(matches!(error, AnalysisError::NotConstant));
}

#[test]
fn arithmetic_failures() {
    let fails = |left: i128, op: BinaryOperator, right: i128| {
        error_of(vec![constant("A", binary(number(left), op, number(right)))]).1
    };
    assert!(matches!(
        fails(i128::MAX, BinaryOperator::Add, 1),
        AnalysisError::Overflow
    ));
    assert!(matches!(
        fails(i128::MIN, BinaryOperator::Sub, 1),
        AnalysisError::Overflow
    ));
    assert!(matches!(
        fails(i128::MAX, BinaryOperator::Mul, 2),
        AnalysisError::Overflow
    ));
    assert!(matches!(
        fails(i128::MIN, BinaryOperator::Div, -1),
        AnalysisError::Overflow
    ));
    assert!(matches!(
        fails(2, BinaryOperator::Pow, 127),
        AnalysisError::Overflow
    ));
    assert!(matches!(
        fails(1, BinaryOperator::Div, 0),
        AnalysisError::DivisionByZero
    ));
    assert!(matches!(
        fails(2, BinaryOperator::Pow, -1),
        AnalysisError::InvalidExponent
    ));
    assert!(matches!(
        fails(1, BinaryOperator::Pow, 1 << 32),
        AnalysisError::InvalidExponent
    ));
    let (_, error) = error_of(vec![constant(
        "A",
        Expression::UnaryOperation(
            pil_core::ast::UnaryOperator::Minus,
            Box::new(number(i128::MIN)),
        ),
    )]);
    assert!(matches!(error, AnalysisError::Overflow));
}

#[test]
fn compile_time_arithmetic() {
    let value = |e: Expression| {
        let analyzed = analyze(&PILFile(vec![constant("A", e)])).unwrap();
        *analyzed.constants.get(&name("A")).unwrap()
    };
    let op = |l: i128, op: BinaryOperator, r: i128| value(binary(number(l), op, number(r)));
    assert_eq!(op(3, BinaryOperator::Add, 4), 7);
    assert_eq!(op(3, BinaryOperator::Sub, 4), -1);
    assert_eq!(op(-3, BinaryOperator::Mul, 4), -12);
    assert_eq!(op(-12, BinaryOperator::Div, 4), -3);
    assert_eq!(op(12, BinaryOperator::Div, -4), -3);
    assert_eq!(op(-12, BinaryOperator::Div, -4), 3);
    // A quotient that leaves a remainder is cut toward zero.
    assert_eq!(op(7, BinaryOperator::Div, 2), 3);
    assert_eq!(op(-7, BinaryOperator::Div, 2), -3);
    assert_eq!(op(7, BinaryOperator::Div, -2), -3);
    assert_eq!(op(-7, BinaryOperator::Div, -2), 3);
    assert_eq!(op(1, BinaryOperator::Div, 2), 0);
    assert_eq!(op(-1, BinaryOperator::Div, 2), 0);
    assert_eq!(op(0, BinaryOperator::Div, -5), 0);
    assert_eq!(op(i128::MIN, BinaryOperator::Div, 2), i128::MIN / 2);
    assert_eq!(op(i128::MAX, BinaryOperator::Div, -1), -i128::MAX);
    assert_eq!(op(2, BinaryOperator::Pow, 126), 1 << 126);
    assert_eq!(op(-2, BinaryOperator::Pow, 127), i128::MIN);
    assert_eq!(op(0, BinaryOperator::Pow, 0), 1);
    assert_eq!(op(0, BinaryOperator::Pow, 5), 0);
    assert_eq!(op(1, BinaryOperator::Pow, u32::MAX as i128), 1);
    assert_eq!(op(-1, BinaryOperator::Pow, u32::MAX as i128), -1);
    assert_eq!(op(-1, BinaryOperator::Pow, 4_000_000_000), 1);
    assert_eq!(op(-3, BinaryOperator::Pow, 3), -27);
    assert_eq!(
        value(Expression::UnaryOperation(
            pil_core::ast::UnaryOperator::Minus,
            Box::new(binary(number(2), BinaryOperator::Mul, number(3)))
        )),
        -6
    );
}

#[test]
fn index_must_fit() {
    let indexed = |index: i128| {
        Statement::PolynomialIdentity(Expression::PolynomialReference(
            pil_core::ast::PolynomialReference {
                namespace: None,
                name: name("x"),
                index: Some(Box::new(number(index))),
                next: false,
            },
        ))
    };
    assert!(matches!(
        error_of(vec![indexed(-1)]).1,
        AnalysisError::IndexOutOfRange
    ));
    assert!(matches!(
        error_of(vec![indexed(1 << 64)]).1,
        AnalysisError::IndexOutOfRange
    ));
    let analyzed = analyze(&PILFile(vec![indexed(3)])).unwrap();
    match &analyzed.polynomial_identities[0] {
        pil_core::analyzer::Expression::PolynomialReference(r) => {
            assert_eq!(r.name, "Global.x");
            assert_eq!(r.index, Some(3));
            assert!(!r.next);
        }
        other => panic!("{other:?}"),
    }
}

#[test]
fn polynomial_definition_is_not_supported() {
    let (position, error) = error_of(vec![
        commit(&["x"]),
        Statement::PolynomialDefinition(name("y"), number(1)),
    ]);
    assert_eq!(position, 1);
    assert!(matches!(error, AnalysisError::Unsupported));
}

#[test]
fn include_needs_a_reader() {
    let (position, error) = error_of(vec![commit(&["x"]), Statement::Include(name("other.pil"))]);
    assert_eq!(position, 1);
    assert!(matches!(error, AnalysisError::UnresolvedInclude(p) if p == "other.pil"));
}

#[test]
fn includes_suspend_the_file() {
    let outer = PILFile(vec![
        Statement::Namespace(name("A"), number(4)),
        Statement::Include(name("inner.pil")),
        commit(&["y"]),
    ]);
    let inner = PILFile(vec![commit(&["x"]), Statement::Namespace(name("B"), number(8))]);
    let mut ctx = Context::new();
    assert!(ctx.enter_file(name("/outer.pil")));
    let suspension = ctx.process_file(&outer, 0).unwrap().unwrap();
    assert_eq!(suspension.path, "inner.pil");
    assert_eq!(suspension.resume_at, 2);
    assert!(ctx.enter_file(name("/inner.pil")));
    assert!(ctx.process_file(&inner, 0).unwrap().is_none());
    // A file is entered once.
    assert!(!ctx.enter_file(name("/inner.pil")));
    assert!(!ctx.enter_file(name("/outer.pil")));
    assert!(ctx.process_file(&outer, suspension.resume_at).unwrap().is_none());
    let analyzed = ctx.into_analyzed();
    // The namespace that the included file opened stays open.
    assert_eq!(analyzed.declarations.name_at(0), "A.x");
    assert_eq!(analyzed.declarations.name_at(1), "B.y");
    assert_eq!(analyzed.declarations.value_at(1).degree, 8);
    assert_eq!(analyzed.declarations.value_at(1).id, 1);
}

#[test]
fn counters_are_per_type() {
    let file = PILFile(vec![
        commit(&["a", "b"]),
        Statement::PolynomialConstantDeclaration(vec![PolynomialName {
            name: name("c"),
            array_size: Some(binary(number(2), BinaryOperator::Mul, number(3))),
        }]),
        commit(&["d"]),
    ]);
    let analyzed = analyze(&file).unwrap();
    let id = |n: &str| analyzed.declarations.get(&name(n)).unwrap().id;
    assert_eq!(id("Global.a"), 0);
    assert_eq!(id("Global.b"), 1);
    assert_eq!(id("Global.c"), 0);
    assert_eq!(id("Global.d"), 2);
    let c = analyzed.declarations.get(&name("Global.c")).unwrap();
    assert!(c.is_array());
    assert_eq!(c.length, Some(6));
    assert!(c.poly_type == PolynomialType::Constant);
    assert!(!analyzed.declarations.get(&name("Global.a")).unwrap().is_array());
    assert_eq!(analyzed.commitment_count(), 3);
    assert_eq!(analyzed.constant_count(), 1);
    assert_eq!(analyzed.intermediate_count(), 0);
}

#[test]
fn identities_are_normalized() {
    let x_next = Expression::PolynomialReference(pil_core::ast::PolynomialReference {
        namespace: Some(name("Other")),
        name: name("x"),
        index: None,
        next: true,
    });
    let file = PILFile(vec![
        constant("N", number(5)),
        Statement::Namespace(name("Main"), number(8)),
        // (N * 2 + 1) * x' - y
        Statement::PolynomialIdentity(binary(
            binary(
                binary(
                    binary(Expression::Constant(name("N")), BinaryOperator::Mul, number(2)),
                    BinaryOperator::Add,
                    number(1),
                ),
                BinaryOperator::Mul,
                x_next,
            ),
            BinaryOperator::Sub,
            reference("y"),
        )),
        Statement::PolynomialIdentity(Expression::Constant(name("N"))),
        Statement::PlookupIdentity(
            pil_core::ast::SelectedExpressions {
                selector: Some(binary(number(3), BinaryOperator::Sub, number(2))),
                expressions: vec![reference("y"), number(4)],
            },
            pil_core::ast::SelectedExpressions {
                selector: None,
                expressions: vec![],
            },
        ),
    ]);
    let analyzed = analyze(&file).unwrap();
    assert_eq!(analyzed.polynomial_identities.len(), 2);
    match &analyzed.polynomial_identities[0] {
        Normal::BinaryOperation(left, BinaryOperator::Sub, right) => {
            match &**left {
                Normal::BinaryOperation(factor, BinaryOperator::Mul, x) => {
                    assert!(matches!(**factor, Normal::Number(11)));
                    assert!(
                        matches!(&**x, Normal::PolynomialReference(r) if r.name == "Other.x" && r.next)
                    );
                }
                other => panic!("{other:?}"),
            }
            assert!(
                matches!(&**right, Normal::PolynomialReference(r) if r.name == "Main.y" && !r.next)
            );
        }
        other => panic!("{other:?}"),
    }
    // A bare reference to a constant stays a reference.
    assert!(matches!(&analyzed.polynomial_identities[1], Normal::Constant(n) if n == "N"));
    assert_eq!(analyzed.plookup_identities.len(), 1);
    let key = &analyzed.plookup_identities[0].key;
    assert!(matches!(key.selector, Some(Normal::Number(1))));
    assert_eq!(key.expressions.len(), 2);
    assert!(matches!(key.expressions[1], Normal::Number(4)));
    assert!(analyzed.plookup_identities[0].haystack.selector.is_none());

    let identities = analyzed.identities();
    assert_eq!(identities.len(), 3);
    assert!(identities[0].kind == pil_core::analyzer::IdentityKind::Polynomial);
    assert!(matches!(
        identities[1].left.selector,
        Some(Normal::Constant(ref n)) if n == "N"
    ));
    assert!(identities[2].kind == pil_core::analyzer::IdentityKind::Plookup);
    assert_eq!(identities[2].left.expressions.len(), 2);
}

#[test]
fn evaluation_tells_numbers_from_polynomials() {
    let mut ctx = Context::new();
    assert!(ctx
        .process_file(&PILFile(vec![constant("N", number(5))]), 0)
        .unwrap()
        .is_none());
    let product = binary(Expression::Constant(name("N")), BinaryOperator::Mul, number(3));
    assert_eq!(ctx.evaluate_expression(&product).unwrap(), Some(15));
    let symbolic = binary(product, BinaryOperator::Add, reference("x"));
    assert_eq!(ctx.evaluate_expression(&symbolic).unwrap(), None);
    // A failure on the right is found though the left is a polynomial.
    let failing = binary(
        reference("x"),
        BinaryOperator::Add,
        Expression::Constant(name("M")),
    );
    assert!(matches!(
        ctx.evaluate_expression(&failing),
        Err(AnalysisError::UndefinedConstant(n)) if n == "M"
    ));
    assert!(matches!(
        ctx.process_expression(&failing),
        Err(AnalysisError::UndefinedConstant(n)) if n == "M"
    ));
}

#[test]
fn failures_in_words() {
    assert_eq!(
        AnalysisError::UndefinedConstant(name("N")).message(),
        "Constant N is not defined."
    );
    assert_eq!(
        AnalysisError::DuplicateConstant(name("N")).message(),
        "Constant N is defined twice."
    );
    assert_eq!(
        AnalysisError::DuplicateDeclaration(name("A.x")).message(),
        "Polynomial A.x is declared twice."
    );
    assert_eq!(AnalysisError::NotConstant.message(), "Expression is not constant.");
    assert_eq!(AnalysisError::Overflow.message(), "Arithmetic overflow.");
    assert_eq!(AnalysisError::DivisionByZero.message(), "Division by zero.");
    assert_eq!(
        AnalysisError::InvalidExponent.message(),
        "Exponent is negative or too large."
    );
    assert_eq!(
        AnalysisError::IndexOutOfRange.message(),
        "Array index is negative or too large."
    );
    assert_eq!(AnalysisError::Unsupported.message(), "Statement is not supported.");
    assert_eq!(
        AnalysisError::UnresolvedInclude(name("a.pil")).message(),
        "Include of a.pil is not resolved."
    );
}

fn names(list: &[&str]) -> Vec<PolynomialName> {
    list.iter()
        .map(|n| PolynomialName {
            name: name(n),
            array_size: None,
        })
        .collect()
}

#[test]
fn declarations_keep_names_apart() {
    let mut ctx = Context::new();
    assert!(ctx
        .handle_polynomial_declaration(&names(&["a", "b"]), PolynomialType::Committed)
        .is_ok());
    // The type does not matter: the name is taken.
    assert!(matches!(
        ctx.handle_polynomial_declaration(&names(&["c", "a", "d"]), PolynomialType::Constant),
        Err(AnalysisError::DuplicateDeclaration(n)) if n == "Global.a"
    ));
    // A name twice in one statement.
    assert!(matches!(
        ctx.handle_polynomial_declaration(&names(&["e", "e"]), PolynomialType::Committed),
        Err(AnalysisError::DuplicateDeclaration(n)) if n == "Global.e"
    ));
    assert!(ctx
        .handle_polynomial_declaration(&names(&[]), PolynomialType::Committed)
        .is_ok());
    let analyzed = ctx.into_analyzed();
    // Those before the one that failed are declared.
    let declared: Vec<&str> = (0..analyzed.declarations.len())
        .map(|i| analyzed.declarations.name_at(i).as_str())
        .collect();
    assert_eq!(declared, vec!["Global.a", "Global.b", "Global.c", "Global.e"]);
    for i in 0..declared.len() {
        assert_eq!(analyzed.declarations.value_at(i).absolute_name, declared[i]);
        for j in 0..i {
            assert_ne!(declared[i], declared[j]);
        }
    }
    assert_eq!(analyzed.declarations.get(&name("Global.e")).unwrap().id, 2);
    assert_eq!(analyzed.declarations.get(&name("Global.c")).unwrap().id, 0);
}
