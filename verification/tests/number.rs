use pil_core::number::{format_number, FieldElement, MODULUS};
use pil_core::text::{decimal_string, is_text_less, join_strings, quote};

#[test]
fn elements_are_reduced() {
    assert_eq!(FieldElement::new(MODULUS).to_u64(), 0);
    assert_eq!(FieldElement::new(MODULUS + 5).to_u64(), 5);
    assert_eq!(FieldElement::new(u64::MAX).to_u64(), u64::MAX - MODULUS);
    assert_eq!(FieldElement::from_i128(-1).to_u64(), MODULUS - 1);
    assert_eq!(FieldElement::from_i128(MODULUS as i128 * 3 + 2).to_u64(), 2);
    assert_eq!(FieldElement::from_i128(i128::MIN).to_u64(), {
        let m = MODULUS as i128;
        (((i128::MIN % m) + m) % m) as u64
    });
    assert_eq!(FieldElement::zero().to_u64(), 0);
    assert_eq!(FieldElement::one().to_u64(), 1);
}

#[test]
fn field_operations_wrap_at_the_modulus() {
    let a = FieldElement::new(MODULUS - 1);
    let b = FieldElement::new(2);
    assert_eq!(a.add(b).to_u64(), 1);
    assert_eq!(b.sub(a).to_u64(), 3);
    assert_eq!(b.neg().to_u64(), MODULUS - 2);
    assert_eq!(FieldElement::zero().neg().to_u64(), 0);
    assert_eq!(a.mul(a).to_u64(), 1);
    assert_eq!(a.mul(b).to_u64(), MODULUS - 2);
    assert_eq!(
        FieldElement::new(1 << 32).mul(FieldElement::new(1 << 32)).to_u64(),
        (1u64 << 32) - 1
    );
    assert!(FieldElement::zero().is_zero());
    assert!(!b.is_zero());
    assert!(FieldElement::one().is_one());
}

#[test]
fn inverse_times_element_is_one() {
    for v in [1u64, 2, 3, 7, 1 << 32, 123456789, MODULUS - 1, MODULUS - 2] {
        let x = FieldElement::new(v);
        let inverse = x.inverse().unwrap();
        assert_eq!(x.mul(inverse), FieldElement::one());
    }
    assert_eq!(FieldElement::new(2).inverse().unwrap().to_u64(), (MODULUS + 1) / 2);
    assert_eq!(FieldElement::zero().inverse(), None);
}

#[test]
fn power_is_repeated_multiplication() {
    let three = FieldElement::new(3);
    assert_eq!(three.pow(0).to_u64(), 1);
    assert_eq!(three.pow(1).to_u64(), 3);
    assert_eq!(three.pow(5).to_u64(), 243);
    assert_eq!(FieldElement::new(2).pow(64).to_u64(), (1u64 << 32) - 1);
    assert_eq!(FieldElement::zero().pow(0).to_u64(), 1);
    // Fermat: x^(p-1) = 1
    assert_eq!(FieldElement::new(7).pow(MODULUS - 1).to_u64(), 1);
}

#[test]
fn numbers_are_written_with_sign() {
    assert_eq!(format_number(&FieldElement::new(0)), "0");
    assert_eq!(format_number(&FieldElement::new(5)), "5");
    assert_eq!(format_number(&FieldElement::new(1234567890)), "1234567890");
    assert_eq!(format_number(&FieldElement::new(MODULUS - 1)), "-1");
    assert_eq!(format_number(&FieldElement::new(MODULUS - 42)), "-42");
    let half = MODULUS / 2;
    assert_eq!(format_number(&FieldElement::new(half)), half.to_string());
    assert_eq!(
        format_number(&FieldElement::new(half + 1)),
        format!("-{}", MODULUS - half - 1)
    );
}

#[test]
fn decimal_agrees_with_the_standard_library() {
    for n in [0u64, 1, 9, 10, 11, 99, 100, 101, 65535, 1 << 40, u64::MAX] {
        assert_eq!(decimal_string(n), n.to_string());
    }
}

#[test]
fn join_puts_the_separator_between() {
    let parts = |items: &[&str]| items.iter().map(|s| s.to_string()).collect::<Vec<_>>();
    assert_eq!(join_strings(&parts(&[]), ", "), "");
    assert_eq!(join_strings(&parts(&["a"]), ", "), "a");
    assert_eq!(join_strings(&parts(&["a", "b", "c"]), ", "), "a, b, c");
    assert_eq!(join_strings(&parts(&["", ""]), "+"), "+");
}

#[test]
fn quote_escapes_backslash_and_quote() {
    assert_eq!(quote(""), "\"\"");
    assert_eq!(quote("abc"), "\"abc\"");
    assert_eq!(quote("a\"b"), "\"a\\\"b\"");
    assert_eq!(quote("a\\b"), "\"a\\\\b\"");
    assert_eq!(quote("\\\""), "\"\\\\\\\"\"");
    assert_eq!(quote("é\"ü"), "\"é\\\"ü\"");
}

#[test]
fn texts_are_ordered_as_strings_are() {
    let texts = ["", "a", "ab", "b", "B", "a.b", "a.a", "é", "z", "zz", "\u{10000}"];
    for a in texts {
        for b in texts {
            assert_eq!(is_text_less(a, b), a < b, "{a:?} < {b:?}");
        }
    }
}
