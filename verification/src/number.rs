//! Arithmetic in the prime field that witness values live in.
//!
//! Field elements are kept as canonical representatives in `[0, MODULUS)`.
//! The mathematical model of an element is that representative as an `int`;
//! the operations are modelled by the `field_*` spec functions.

use crate::text::{decimal, push_char, push_decimal};
use vstd::arithmetic::div_mod::*;
use vstd::prelude::*;

verus! {

/// Index of a row of the trace table.
pub type DegreeType = u64;

/// Numbers of the constraint language before they are mapped into the field.
pub type ConstantNumberType = i128;

/// The field modulus, `2^64 - 2^32 + 1`.
pub const MODULUS: u64 = 0xFFFF_FFFF_0000_0001;

/// The canonical representative of the residue class of `v`.
pub open spec fn canonical(v: int) -> int {
    v % (MODULUS as int)
}

pub open spec fn field_add(a: int, b: int) -> int {
    (a + b) % (MODULUS as int)
}

pub open spec fn field_sub(a: int, b: int) -> int {
    (a - b) % (MODULUS as int)
}

pub open spec fn field_neg(a: int) -> int {
    (-a) % (MODULUS as int)
}

pub open spec fn field_mul(a: int, b: int) -> int {
    (a * b) % (MODULUS as int)
}

/// `w` is the canonical multiplicative inverse of `a`.
pub open spec fn is_inverse(a: int, w: int) -> bool {
    0 <= w < MODULUS && field_mul(a, w) == 1
}

/// The multiplicative inverse of `a`, where one exists.
pub open spec fn field_inverse(a: int) -> Option<int> {
    if exists|w: int| is_inverse(a, w) {
        Some(choose|w: int| is_inverse(a, w))
    } else {
        None
    }
}

/// `a` multiplied with itself `e` times, starting from one.
pub open spec fn field_pow(a: int, e: nat) -> int
    decreases e,
{
    if e == 0 {
        1
    } else {
        field_mul(a, field_pow(a, (e - 1) as nat))
    }
}

/// `d` divides both `x` and `y`.
pub open spec fn common_divisor(d: int, x: int, y: int) -> bool {
    d > 0 && x % d == 0 && y % d == 0
}

pub proof fn lemma_field_mul_associative(a: int, b: int, c: int)
    ensures
        field_mul(field_mul(a, b), c) == field_mul(a, field_mul(b, c)),
{
    let m = MODULUS as int;
    lemma_mul_mod_noop_left(a * b, c, m);
    lemma_mul_mod_noop_right(a, b * c, m);
    assert((a * b) * c == a * (b * c)) by (nonlinear_arith);
}

pub proof fn lemma_field_mul_commutative(a: int, b: int)
    ensures
        field_mul(a, b) == field_mul(b, a),
{
    assert(a * b == b * a) by (nonlinear_arith);
}

/// An element has at most one canonical inverse.
pub proof fn lemma_inverse_unique(a: int, v: int, w: int)
    requires
        is_inverse(a, v),
        is_inverse(a, w),
    ensures
        v == w,
{
    let m = MODULUS as int;
    // v == v * (a * w) == (v * a) * w == w, all modulo m
    lemma_field_mul_associative(v, a, w);
    lemma_field_mul_commutative(v, a);
    assert(field_mul(v, 1) == v) by {
        assert(v * 1 == v);
        lemma_small_mod(v as nat, m as nat);
    }
    assert(field_mul(1, w) == w) by {
        assert(1 * w == w);
        lemma_small_mod(w as nat, m as nat);
    }
}

/// The inverse named by `field_inverse` is the only one.
pub proof fn lemma_field_inverse_is(a: int, w: int)
    requires
        is_inverse(a, w),
    ensures
        field_inverse(a) == Some(w),
{
    let chosen = choose|v: int| is_inverse(a, v);
    lemma_inverse_unique(a, chosen, w);
}

proof fn lemma_divides_combination(d: int, q: int, x: int, y: int)
    requires
        d > 0,
        x % d == 0,
        y % d == 0,
    ensures
        (q * x + y) % d == 0,
{
    lemma_mul_mod_noop_right(q, x, d);
    assert(q * (x % d) == 0) by (nonlinear_arith)
        requires
            x % d == 0,
    ;
    lemma_small_mod(0, d as nat);
    assert((q * x) % d == 0);
    lemma_add_mod_noop(q * x, y, d);
}

/// One step of the extended Euclidean algorithm keeps the cofactor congruence.
proof fn lemma_cofactor_step(a: int, t0: int, t1: int, q: int, r0: int, r1: int)
    requires
        field_mul(t0, a) == canonical(r0),
        field_mul(t1, a) == canonical(r1),
    ensures
        field_mul(field_sub(t0, field_mul(canonical(q), t1)), a) == canonical(r0 - q * r1),
{
    let m = MODULUS as int;
    let x = field_mul(canonical(q), t1);
    lemma_mul_mod_noop_left(t0 - x, a, m);
    assert((t0 - x) * a == t0 * a - x * a) by (nonlinear_arith);
    lemma_sub_mod_noop(t0 * a, x * a, m);
    // (x * a) % m == (q * r1) % m
    lemma_field_mul_associative(canonical(q), t1, a);
    lemma_mul_mod_noop_right(canonical(q), r1, m);
    lemma_mul_mod_noop_left(q, r1, m);
    lemma_sub_mod_noop(r0, q * r1, m);
}

/// A common divisor of `a` and the modulus that is not one rules out an inverse.
proof fn lemma_no_inverse(a: int, g: int)
    requires
        g > 1,
        common_divisor(g, MODULUS as int, a),
    ensures
        forall|w: int| !is_inverse(a, w),
{
    let m = MODULUS as int;
    assert forall|w: int| !is_inverse(a, w) by {
        if is_inverse(a, w) {
            let x = a * w;
            lemma_fundamental_div_mod(x, m);
            let k = x / m;
            assert(x == m * k + 1);
            // x is a multiple of g
            lemma_mul_mod_noop_left(a, w, g);
            assert(0 * w == 0);
            assert(x % g == 0);
            // but m * k + 1 leaves remainder one
            assert(m * k == k * m) by (nonlinear_arith);
            lemma_divides_combination(g, k, m, 0);
            assert((m * k) % g == 0);
            lemma_add_mod_noop(m * k, 1, g);
            lemma_small_mod(1, g as nat);
            assert(false);
        }
    }
}

/// Powers are canonical representatives.
pub proof fn lemma_field_pow_canonical(a: int, e: nat)
    ensures
        0 <= field_pow(a, e) < MODULUS,
{
    if e > 0 {
        lemma_mod_bound(a * field_pow(a, (e - 1) as nat), MODULUS as int);
    }
}

/// Squaring the base halves the exponent.
proof fn lemma_field_pow_square(b: int, k: nat)
    ensures
        field_pow(field_mul(b, b), k) == field_pow(b, 2 * k),
    decreases k,
{
    if k > 0 {
        lemma_field_pow_square(b, (k - 1) as nat);
        lemma_field_mul_associative(b, b, field_pow(b, (2 * k - 2) as nat));
        assert(field_pow(b, 2 * k) == field_mul(b, field_pow(b, (2 * k - 1) as nat)));
        assert(field_pow(b, (2 * k - 1) as nat) == field_mul(
            b,
            field_pow(b, (2 * k - 2) as nat),
        ));
    }
}

/// An element of the field, held as its canonical representative.
#[derive(Clone, Copy, PartialEq, Eq, Structural, Debug)]
pub struct FieldElement {
    value: u64,
}

impl View for FieldElement {
    type V = int;

    closed spec fn view(&self) -> int {
        self.value as int
    }
}

impl FieldElement {
    /// Every element is a canonical representative.
    #[verifier::type_invariant]
    pub open spec fn is_canonical(self) -> bool {
        0 <= self@ < MODULUS
    }

    /// The residue class of `v`.
    pub fn new(v: u64) -> (r: FieldElement)
        ensures
            r@ == canonical(v as int),
            r.is_canonical(),
    {
        FieldElement { value: v % MODULUS }
    }

    /// The residue class of a signed number.
    pub fn from_i128(v: i128) -> (r: FieldElement)
        ensures
            r@ == canonical(v as int),
            r.is_canonical(),
    {
        proof {
            lemma_mod_bound(v as int, MODULUS as int);
        }
        match v.checked_rem_euclid(MODULUS as i128) {
            Some(rem) => FieldElement { value: rem as u64 },
            None => FieldElement { value: 0 },
        }
    }

    pub fn zero() -> (r: FieldElement)
        ensures
            r@ == 0,
    {
        FieldElement { value: 0 }
    }

    pub fn one() -> (r: FieldElement)
        ensures
            r@ == 1,
    {
        FieldElement { value: 1 }
    }

    /// The canonical representative.
    pub fn to_u64(self) -> (r: u64)
        ensures
            r == self@,
            r < MODULUS,
    {
        proof {
            use_type_invariant(&self);
        }
        self.value
    }

    pub fn is_zero(self) -> (r: bool)
        ensures
            r == (self@ == 0),
    {
        self.value == 0
    }

    pub fn is_one(self) -> (r: bool)
        ensures
            r == (self@ == 1),
    {
        self.value == 1
    }

    pub fn add(self, other: FieldElement) -> (r: FieldElement)
        ensures
            r@ == field_add(self@, other@),
            r.is_canonical(),
    {
        proof {
            use_type_invariant(&self);
            use_type_invariant(&other);
        }
        let sum: u128 = self.value as u128 + other.value as u128;
        FieldElement { value: (sum % (MODULUS as u128)) as u64 }
    }

    pub fn sub(self, other: FieldElement) -> (r: FieldElement)
        ensures
            r@ == field_sub(self@, other@),
            r.is_canonical(),
    {
        proof {
            use_type_invariant(&self);
            use_type_invariant(&other);
        }
        let shifted: u128 = self.value as u128 + MODULUS as u128 - other.value as u128;
        proof {
            lemma_mod_add_multiples_vanish(self@ - other@, MODULUS as int);
        }
        FieldElement { value: (shifted % (MODULUS as u128)) as u64 }
    }

    pub fn neg(self) -> (r: FieldElement)
        ensures
            r@ == field_neg(self@),
            r.is_canonical(),
    {
        proof {
            use_type_invariant(&self);
        }
        let shifted: u128 = MODULUS as u128 - self.value as u128;
        proof {
            lemma_mod_add_multiples_vanish(-self@, MODULUS as int);
        }
        FieldElement { value: (shifted % (MODULUS as u128)) as u64 }
    }

    pub fn mul(self, other: FieldElement) -> (r: FieldElement)
        ensures
            r@ == field_mul(self@, other@),
            r.is_canonical(),
    {
        proof {
            use_type_invariant(&self);
            use_type_invariant(&other);
            assert(self@ * other@ <= 0xFFFF_FFFF_FFFF_FFFF * 0xFFFF_FFFF_FFFF_FFFF) by (nonlinear_arith)
                requires
                    0 <= self@ <= 0xFFFF_FFFF_FFFF_FFFF,
                    0 <= other@ <= 0xFFFF_FFFF_FFFF_FFFF,
            ;
            assert(0 <= self@ * other@) by (nonlinear_arith)
                requires
                    0 <= self@,
                    0 <= other@,
            ;
        }
        let product: u128 = self.value as u128 * other.value as u128;
        FieldElement { value: (product % (MODULUS as u128)) as u64 }
    }

    /// The power with the given exponent, by squaring and multiplying.
    pub fn pow(self, exponent: u64) -> (r: FieldElement)
        ensures
            r@ == field_pow(self@, exponent as nat),
            r.is_canonical(),
    {
        let mut result = FieldElement::one();
        let mut base = self;
        let mut e: u64 = exponent;
        proof {
            lemma_field_pow_canonical(self@, exponent as nat);
            assert(1 * field_pow(self@, exponent as nat) == field_pow(self@, exponent as nat));
            lemma_small_mod(field_pow(self@, exponent as nat) as nat, MODULUS as nat);
        }
        while e > 0
            invariant
                field_mul(result@, field_pow(base@, e as nat)) == field_pow(
                    self@,
                    exponent as nat,
                ),
            decreases e,
        {
            let half: u64 = e / 2;
            proof {
                lemma_field_pow_square(base@, half as nat);
            }
            if e % 2 == 1 {
                proof {
                    assert(field_pow(base@, e as nat) == field_mul(
                        base@,
                        field_pow(base@, (e - 1) as nat),
                    ));
                    lemma_field_mul_associative(
                        result@,
                        base@,
                        field_pow(base@, (e - 1) as nat),
                    );
                }
                result = result.mul(base);
            }
            base = base.mul(base);
            e = half;
        }
        proof {
            use_type_invariant(&result);
            assert(result@ * 1 == result@);
            lemma_small_mod(result@ as nat, MODULUS as nat);
        }
        result
    }

    /// The multiplicative inverse, by the extended Euclidean algorithm.
    /// `None` exactly if the element has no inverse.
    pub fn inverse(self) -> (r: Option<FieldElement>)
        ensures
            match r {
                Some(w) => field_inverse(self@) == Some(w@) && is_inverse(self@, w@),
                None => field_inverse(self@) is None,
            },
    {
        proof {
            use_type_invariant(&self);
        }
        let a: u64 = self.value;
        let mut r0: u64 = MODULUS;
        let mut r1: u64 = a;
        let mut t0 = FieldElement::zero();
        let mut t1 = FieldElement::one();
        proof {
            assert(0 * (a as int) == 0);
            assert(1 * (a as int) == a as int);
        }
        while r1 != 0
            invariant
                a == self@,
                0 <= r1 < r0 <= MODULUS,
                field_mul(t0@, a as int) == canonical(r0 as int),
                field_mul(t1@, a as int) == canonical(r1 as int),
                forall|d: int| #[trigger]
                    common_divisor(d, r0 as int, r1 as int) ==> common_divisor(
                        d,
                        MODULUS as int,
                        a as int,
                    ),
            decreases r1,
        {
            let q: u64 = r0 / r1;
            let r2: u64 = r0 % r1;
            let t2 = t0.sub(FieldElement::new(q).mul(t1));
            proof {
                lemma_fundamental_div_mod(r0 as int, r1 as int);
                assert(r1 as int * (q as int) == q as int * (r1 as int)) by (nonlinear_arith);
                assert(r2 as int == r0 as int - q as int * (r1 as int));
                lemma_cofactor_step(a as int, t0@, t1@, q as int, r0 as int, r1 as int);
                assert forall|d: int| #[trigger]
                    common_divisor(d, r1 as int, r2 as int) implies common_divisor(
                    d,
                    MODULUS as int,
                    a as int,
                ) by {
                    lemma_divides_combination(d, q as int, r1 as int, r2 as int);
                    assert(common_divisor(d, r0 as int, r1 as int));
                }
            }
            r0 = r1;
            r1 = r2;
            t0 = t1;
            t1 = t2;
        }
        if r0 == 1 {
            proof {
                lemma_field_mul_commutative(t0@, a as int);
                use_type_invariant(&t0);
                lemma_field_inverse_is(self@, t0@);
            }
            Some(t0)
        } else {
            proof {
                lemma_mod_self_0(r0 as int);
                assert(common_divisor(r0 as int, r0 as int, r1 as int));
                lemma_no_inverse(self@, r0 as int);
            }
            None
        }
    }
}

/// A field element as a signed decimal: elements above half the modulus are
/// shown as the negative number of the same residue class.
pub open spec fn number_text(v: int) -> Seq<char> {
    if 2 * v > MODULUS {
        seq!['-'] + decimal((MODULUS - v) as nat)
    } else {
        decimal(v as nat)
    }
}

/// The element as a signed decimal.
pub fn format_number(x: &FieldElement) -> (r: String)
    ensures
        r@ == number_text(x@),
{
    let v = x.to_u64();
    let mut result = String::new();
    if v > MODULUS / 2 {
        push_char(&mut result, '-');
        push_decimal(&mut result, MODULUS - v);
        assert(result@ =~= number_text(x@));
    } else {
        push_decimal(&mut result, v);
        assert(result@ =~= number_text(x@));
    }
    result
}

/// The element with the given canonical representative.
pub closed spec fn element(v: int) -> FieldElement {
    FieldElement { value: v as u64 }
}

/// `element` and the view are inverse to each other on canonical representatives.
pub proof fn lemma_element(v: int, x: FieldElement)
    ensures
        0 <= v < MODULUS ==> element(v)@ == v && element(v).is_canonical(),
        x.is_canonical() ==> element(x@) == x,
{
}

} // verus!
