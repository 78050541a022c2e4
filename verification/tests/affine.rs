use pil_core::commit_evaluator::affine_expression::AffineExpression;
use pil_core::commit_evaluator::FixedData;
use pil_core::number::{FieldElement, MODULUS};
use pil_core::table::NameTable;

fn constant(v: u64) -> AffineExpression {
    AffineExpression::from_constant(FieldElement::new(v))
}

fn witness(id: usize) -> AffineExpression {
    AffineExpression::from_wittness_poly_value(id)
}

fn coefficients(e: &AffineExpression) -> Vec<u64> {
    (0..e.width()).map(|i| e.coefficient(i).to_u64()).collect()
}

fn names(list: &[&str]) -> FixedData {
    FixedData::new(
        NameTable::new(),
        NameTable::new(),
        list.iter().map(|n| (n.to_string(), None)).collect(),
        false,
    )
}

#[test]
fn construction() {
    let k = constant(7);
    assert!(k.is_constant());
    assert_eq!(k.constant_value(), Some(FieldElement::new(7)));
    assert_eq!(k.offset().to_u64(), 7);
    assert_eq!(k.width(), 0);
    let x = witness(2);
    assert!(!x.is_constant());
    assert_eq!(x.constant_value(), None);
    assert_eq!(coefficients(&x), vec![0, 0, 1]);
    assert_eq!(x.offset().to_u64(), 0);
    assert_eq!(x.coefficient(7).to_u64(), 0);
}

#[test]
fn sums_and_differences_are_componentwise() {
    let a = witness(0).scale(FieldElement::new(2)).add(&constant(5));
    let b = witness(2).add(&witness(0)).add(&constant(1));
    let sum = a.add(&b);
    assert_eq!(coefficients(&sum), vec![3, 0, 1]);
    assert_eq!(sum.offset().to_u64(), 6);
    let difference = a.sub(&b);
    assert_eq!(coefficients(&difference), vec![1, 0, MODULUS - 1]);
    assert_eq!(difference.offset().to_u64(), 4);
    let negated = a.neg();
    assert_eq!(coefficients(&negated), vec![MODULUS - 2]);
    assert_eq!(negated.offset().to_u64(), MODULUS - 5);
    let same = a.duplicate();
    assert_eq!(coefficients(&same), coefficients(&a));
    assert_eq!(same.offset(), a.offset());
}

#[test]
fn product_needs_a_constant() {
    let x = witness(0).add(&constant(1));
    let by_three = x.mul(&constant(3)).unwrap();
    assert_eq!(coefficients(&by_three), vec![3]);
    assert_eq!(by_three.offset().to_u64(), 3);
    let three_by = constant(3).mul(&x).unwrap();
    assert_eq!(coefficients(&three_by), vec![3]);
    assert_eq!(three_by.offset().to_u64(), 3);
    assert_eq!(constant(3).mul(&constant(4)).unwrap().offset().to_u64(), 12);
    assert!(x.mul(&witness(1)).is_none());
}

#[test]
fn validity() {
    assert!(constant(1).is_invalid());
    assert!(!constant(0).is_invalid());
    assert!(!witness(0).is_invalid());
    // All coefficients zero, though stored.
    let zero = witness(1).sub(&witness(1)).add(&constant(2));
    assert!(zero.is_constant());
    assert!(zero.is_invalid());
    assert_eq!(zero.constant_value(), Some(FieldElement::new(2)));
}

#[test]
fn solve_finds_the_one_unknown() {
    // 2x + 6 = 0  =>  x = -3
    let e = witness(1).scale(FieldElement::new(2)).add(&constant(6));
    assert_eq!(e.solve(), Some((1, FieldElement::new(MODULUS - 3))));
    // x + 1 = 0  =>  x = -1
    assert_eq!(
        witness(0).add(&constant(1)).solve(),
        Some((0, FieldElement::new(MODULUS - 1)))
    );
    // -x + 5 = 0  =>  x = 5
    assert_eq!(
        witness(0).neg().add(&constant(5)).solve(),
        Some((0, FieldElement::new(5)))
    );
    // x = 0
    assert_eq!(witness(3).solve(), Some((3, FieldElement::zero())));
}

#[test]
fn solve_gives_up_on_none_or_two_unknowns() {
    assert_eq!(constant(0).solve(), None);
    assert_eq!(constant(4).solve(), None);
    assert_eq!(witness(0).add(&witness(1)).solve(), None);
    assert_eq!(witness(0).sub(&witness(0)).solve(), None);
}

#[test]
fn expressions_are_written_as_sums() {
    let fixed_data = names(&["x", "y", "z"]);
    assert_eq!(constant(0).format(&fixed_data), "0");
    assert_eq!(constant(1).format(&fixed_data), "1");
    assert_eq!(constant(MODULUS - 1).format(&fixed_data), "-1");
    assert_eq!(witness(0).format(&fixed_data), "x");
    assert_eq!(witness(1).neg().format(&fixed_data), "-y");
    let e = witness(0)
        .scale(FieldElement::new(2))
        .sub(&witness(1))
        .add(&witness(2).scale(FieldElement::new(MODULUS - 4)))
        .add(&constant(7));
    assert_eq!(e.format(&fixed_data), "2 * x + -y + -4 * z + 7");
    assert_eq!(witness(0).add(&witness(2)).format(&fixed_data), "x + z");
    assert_eq!(witness(4).format(&fixed_data), "_4");
}
