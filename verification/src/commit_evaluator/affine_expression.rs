//! Expressions that are affine in the witness values of the row being solved.

use crate::commit_evaluator::FixedData;
use crate::number::{
    field_add, field_inverse, field_mul, field_neg, field_sub, format_number, number_text,
    FieldElement, MODULUS,
};
use crate::text::{decimal, join, join_strings, push_decimal, views};
use vstd::prelude::*;
use vstd::string::*;

verus! {

/// The sum of `coefficients[i] * x_i` over the witness columns `i`, plus an offset.
/// A column beyond the end of the list has the coefficient zero.
#[derive(Debug)]
pub struct AffineExpression {
    coefficients: Vec<FieldElement>,
    offset: FieldElement,
}

pub struct AffineView {
    pub coefficients: Seq<int>,
    pub offset: int,
}

impl View for AffineExpression {
    type V = AffineView;

    closed spec fn view(&self) -> AffineView {
        AffineView {
            coefficients: Seq::new(self.coefficients@.len(), |i: int| self.coefficients@[i]@),
            offset: self.offset@,
        }
    }
}

pub open spec fn max_int(a: int, b: int) -> int {
    if a >= b {
        a
    } else {
        b
    }
}

/// The name of a witness column by its id, or a stand-in where the list has none.
pub open spec fn column_name(names: Seq<Seq<char>>, id: int) -> Seq<char> {
    if 0 <= id < names.len() {
        names[id]
    } else {
        seq!['_'] + decimal(id as nat)
    }
}

/// How one term `coefficient * name` is written.
pub open spec fn term_text(coefficient: int, name: Seq<char>) -> Seq<char> {
    if coefficient == 1 {
        name
    } else if coefficient == MODULUS - 1 {
        seq!['-'] + name
    } else {
        number_text(coefficient) + seq![' ', '*', ' '] + name
    }
}

impl AffineView {
    pub open spec fn constant(value: int) -> AffineView {
        AffineView { coefficients: Seq::empty(), offset: value }
    }

    /// The value of one witness column: coefficient one for it, nothing else.
    pub open spec fn witness(id: int) -> AffineView {
        AffineView {
            coefficients: Seq::new(
                (id + 1) as nat,
                |i: int|
                    if i == id {
                        1int
                    } else {
                        0int
                    },
            ),
            offset: 0,
        }
    }

    pub open spec fn coefficient(self, i: int) -> int {
        if 0 <= i < self.coefficients.len() {
            self.coefficients[i]
        } else {
            0
        }
    }

    /// All coefficients are zero.
    pub open spec fn is_constant(self) -> bool {
        forall|i: int| 0 <= i < self.coefficients.len() ==> self.coefficients[i] == 0
    }

    pub open spec fn constant_value(self) -> Option<int> {
        if self.is_constant() {
            Some(self.offset)
        } else {
            None
        }
    }

    /// A constant that is not zero: as a constraint `= 0` it cannot hold.
    pub open spec fn is_invalid(self) -> bool {
        self.is_constant() && self.offset != 0
    }

    pub open spec fn plus(self, other: AffineView) -> AffineView {
        AffineView {
            coefficients: Seq::new(
                max_int(self.coefficients.len() as int, other.coefficients.len() as int) as nat,
                |i: int| field_add(self.coefficient(i), other.coefficient(i)),
            ),
            offset: field_add(self.offset, other.offset),
        }
    }

    pub open spec fn minus(self, other: AffineView) -> AffineView {
        AffineView {
            coefficients: Seq::new(
                max_int(self.coefficients.len() as int, other.coefficients.len() as int) as nat,
                |i: int| field_sub(self.coefficient(i), other.coefficient(i)),
            ),
            offset: field_sub(self.offset, other.offset),
        }
    }

    pub open spec fn negated(self) -> AffineView {
        AffineView {
            coefficients: Seq::new(
                self.coefficients.len(),
                |i: int| field_neg(self.coefficients[i]),
            ),
            offset: field_neg(self.offset),
        }
    }

    pub open spec fn scaled(self, factor: int) -> AffineView {
        AffineView {
            coefficients: Seq::new(
                self.coefficients.len(),
                |i: int| field_mul(self.coefficients[i], factor),
            ),
            offset: field_mul(self.offset, factor),
        }
    }

    /// The product, which is affine only if one of the two is constant.
    pub open spec fn times(self, other: AffineView) -> Option<AffineView> {
        if other.is_constant() {
            Some(self.scaled(other.offset))
        } else if self.is_constant() {
            Some(other.scaled(self.offset))
        } else {
            None
        }
    }

    /// The coefficient of column `id` is the only one that is not zero.
    pub open spec fn is_single(self, id: int) -> bool {
        &&& 0 <= id < self.coefficients.len()
        &&& self.coefficients[id] != 0
        &&& forall|j: int| 0 <= j < self.coefficients.len() && j != id ==> self.coefficients[j] == 0
    }

    /// The solution of `self = 0`: where exactly one coefficient `c` is not
    /// zero and has an inverse, its column with the value `-offset / c`.
    pub open spec fn solve(self) -> Option<(int, int)> {
        if exists|id: int| self.is_single(id) {
            let id = choose|id: int| self.is_single(id);
            match field_inverse(self.coefficients[id]) {
                Some(inverse) => Some((id, field_mul(field_neg(self.offset), inverse))),
                None => None,
            }
        } else {
            None
        }
    }

    /// The terms of the first `n` columns that have a coefficient other than zero.
    pub open spec fn terms(self, names: Seq<Seq<char>>, n: int) -> Seq<Seq<char>>
        decreases n,
    {
        if n <= 0 {
            Seq::empty()
        } else if self.coefficient(n - 1) != 0 {
            self.terms(names, n - 1).push(
                term_text(self.coefficient(n - 1), column_name(names, n - 1)),
            )
        } else {
            self.terms(names, n - 1)
        }
    }

    /// The terms, then the offset unless it is zero and there are terms.
    pub open spec fn parts(self, names: Seq<Seq<char>>) -> Seq<Seq<char>> {
        let terms = self.terms(names, self.coefficients.len() as int);
        if self.offset != 0 || terms.len() == 0 {
            terms.push(number_text(self.offset))
        } else {
            terms
        }
    }

    /// The expression as a sum, such as `2 * x + -y + 7`.
    pub open spec fn text(self, names: Seq<Seq<char>>) -> Seq<char> {
        join(self.parts(names), seq![' ', '+', ' '])
    }
}

impl AffineExpression {
    /// The constant expression with the given value.
    pub fn from_constant(value: FieldElement) -> (r: AffineExpression)
        ensures
            r@ == AffineView::constant(value@),
    {
        let r = AffineExpression { coefficients: Vec::new(), offset: value };
        assert(r@.coefficients =~= Seq::empty());
        r
    }

    /// The value of the witness column with the given id in the row being solved.
    pub fn from_wittness_poly_value(id: usize) -> (r: AffineExpression)
        ensures
            r@ == AffineView::witness(id as int),
    {
        let mut coefficients: Vec<FieldElement> = Vec::new();
        let mut i: usize = 0;
        while i < id
            invariant
                i <= id,
                coefficients@.len() == i,
                forall|j: int| 0 <= j < i ==> (#[trigger] coefficients@[j])@ == 0,
            decreases id - i,
        {
            coefficients.push(FieldElement::zero());
            i += 1;
        }
        coefficients.push(FieldElement::one());
        let r = AffineExpression { coefficients, offset: FieldElement::zero() };
        assert(r@.coefficients =~= AffineView::witness(id as int).coefficients);
        r
    }

    /// The coefficient of a column.
    pub fn coefficient(&self, id: usize) -> (r: FieldElement)
        ensures
            r@ == self@.coefficient(id as int),
    {
        if id < self.coefficients.len() {
            self.coefficients[id]
        } else {
            FieldElement::zero()
        }
    }

    /// The offset: the value of the expression where all witness values are zero.
    pub fn offset(&self) -> (r: FieldElement)
        ensures
            r@ == self@.offset,
    {
        self.offset
    }

    /// One more than the highest column that the expression stores a coefficient for.
    pub fn width(&self) -> (r: usize)
        ensures
            r == self@.coefficients.len(),
    {
        self.coefficients.len()
    }

    /// A copy of the expression.
    pub fn duplicate(&self) -> (r: AffineExpression)
        ensures
            r@ == self@,
    {
        let mut coefficients: Vec<FieldElement> = Vec::new();
        let mut i: usize = 0;
        while i < self.coefficients.len()
            invariant
                i <= self.coefficients@.len(),
                coefficients@.len() == i,
                forall|j: int| 0 <= j < i ==> (#[trigger] coefficients@[j]) == self.coefficients@[j],
            decreases self.coefficients@.len() - i,
        {
            coefficients.push(self.coefficients[i]);
            i += 1;
        }
        let r = AffineExpression { coefficients, offset: self.offset };
        assert(r@.coefficients =~= self@.coefficients);
        r
    }

    pub fn is_constant(&self) -> (r: bool)
        ensures
            r == self@.is_constant(),
    {
        let mut i: usize = 0;
        while i < self.coefficients.len()
            invariant
                i <= self.coefficients@.len(),
                forall|j: int| 0 <= j < i ==> (#[trigger] self@.coefficients[j]) == 0,
            decreases self.coefficients@.len() - i,
        {
            if !self.coefficients[i].is_zero() {
                assert(self@.coefficients[i as int] != 0);
                return false;
            }
            i += 1;
        }
        true
    }

    pub fn constant_value(&self) -> (r: Option<FieldElement>)
        ensures
            match self@.constant_value() {
                Some(value) => r matches Some(v) && v@ == value,
                None => r is None,
            },
    {
        if self.is_constant() {
            Some(self.offset)
        } else {
            None
        }
    }

    pub fn is_invalid(&self) -> (r: bool)
        ensures
            r == self@.is_invalid(),
    {
        self.is_constant() && !self.offset.is_zero()
    }

    pub fn add(&self, other: &AffineExpression) -> (r: AffineExpression)
        ensures
            r@ == self@.plus(other@),
    {
        let n = if self.coefficients.len() >= other.coefficients.len() {
            self.coefficients.len()
        } else {
            other.coefficients.len()
        };
        let mut coefficients: Vec<FieldElement> = Vec::new();
        let mut i: usize = 0;
        while i < n
            invariant
                i <= n,
                n == max_int(self@.coefficients.len() as int, other@.coefficients.len() as int),
                coefficients@.len() == i,
                forall|j: int|
                    0 <= j < i ==> (#[trigger] coefficients@[j])@ == field_add(
                        self@.coefficient(j),
                        other@.coefficient(j),
                    ),
            decreases n - i,
        {
            coefficients.push(self.coefficient(i).add(other.coefficient(i)));
            i += 1;
        }
        let r = AffineExpression { coefficients, offset: self.offset.add(other.offset) };
        assert(r@.coefficients =~= self@.plus(other@).coefficients);
        r
    }

    pub fn sub(&self, other: &AffineExpression) -> (r: AffineExpression)
        ensures
            r@ == self@.minus(other@),
    {
        let n = if self.coefficients.len() >= other.coefficients.len() {
            self.coefficients.len()
        } else {
            other.coefficients.len()
        };
        let mut coefficients: Vec<FieldElement> = Vec::new();
        let mut i: usize = 0;
        while i < n
            invariant
                i <= n,
                n == max_int(self@.coefficients.len() as int, other@.coefficients.len() as int),
                coefficients@.len() == i,
                forall|j: int|
                    0 <= j < i ==> (#[trigger] coefficients@[j])@ == field_sub(
                        self@.coefficient(j),
                        other@.coefficient(j),
                    ),
            decreases n - i,
        {
            coefficients.push(self.coefficient(i).sub(other.coefficient(i)));
            i += 1;
        }
        let r = AffineExpression { coefficients, offset: self.offset.sub(other.offset) };
        assert(r@.coefficients =~= self@.minus(other@).coefficients);
        r
    }

    pub fn neg(&self) -> (r: AffineExpression)
        ensures
            r@ == self@.negated(),
    {
        let mut coefficients: Vec<FieldElement> = Vec::new();
        let mut i: usize = 0;
        while i < self.coefficients.len()
            invariant
                i <= self.coefficients@.len(),
                coefficients@.len() == i,
                forall|j: int|
                    0 <= j < i ==> (#[trigger] coefficients@[j])@ == field_neg(
                        self@.coefficients[j],
                    ),
            decreases self.coefficients@.len() - i,
        {
            coefficients.push(self.coefficients[i].neg());
            i += 1;
        }
        let r = AffineExpression { coefficients, offset: self.offset.neg() };
        assert(r@.coefficients =~= self@.negated().coefficients);
        r
    }

    /// The expression multiplied by a field element.
    pub fn scale(&self, factor: FieldElement) -> (r: AffineExpression)
        ensures
            r@ == self@.scaled(factor@),
    {
        let mut coefficients: Vec<FieldElement> = Vec::new();
        let mut i: usize = 0;
        while i < self.coefficients.len()
            invariant
                i <= self.coefficients@.len(),
                coefficients@.len() == i,
                forall|j: int|
                    0 <= j < i ==> (#[trigger] coefficients@[j])@ == field_mul(
                        self@.coefficients[j],
                        factor@,
                    ),
            decreases self.coefficients@.len() - i,
        {
            coefficients.push(self.coefficients[i].mul(factor));
            i += 1;
        }
        let r = AffineExpression { coefficients, offset: self.offset.mul(factor) };
        assert(r@.coefficients =~= self@.scaled(factor@).coefficients);
        r
    }

    /// The product of two expressions, `None` unless one of them is constant.
    pub fn mul(&self, other: &AffineExpression) -> (r: Option<AffineExpression>)
        ensures
            match self@.times(other@) {
                Some(product) => r matches Some(p) && p@ == product,
                None => r is None,
            },
    {
        if other.is_constant() {
            Some(self.scale(other.offset))
        } else if self.is_constant() {
            Some(other.scale(self.offset))
        } else {
            None
        }
    }

    /// Solves `self = 0` for the one witness value that the expression depends on.
    pub fn solve(&self) -> (r: Option<(usize, FieldElement)>)
        ensures
            match self@.solve() {
                Some((id, value)) => r matches Some((i, v)) && i == id && v@ == value,
                None => r is None,
            },
    {
        let mut found: Option<usize> = None;
        let mut i: usize = 0;
        while i < self.coefficients.len()
            invariant
                i <= self.coefficients@.len(),
                match found {
                    None => forall|j: int| 0 <= j < i ==> (#[trigger] self@.coefficients[j]) == 0,
                    Some(k) => k < i && self@.coefficients[k as int] != 0 && forall|j: int|
                        0 <= j < i && j != k ==> (#[trigger] self@.coefficients[j]) == 0,
                },
            decreases self.coefficients@.len() - i,
        {
            if !self.coefficients[i].is_zero() {
                if found.is_some() {
                    proof {
                        let k = found.unwrap() as int;
                        assert(self@.coefficients[i as int] != 0);
                        assert forall|id: int| !self@.is_single(id) by {
                            if self@.is_single(id) {
                                if id == k {
                                    assert(self@.coefficients[i as int] == 0);
                                } else {
                                    assert(self@.coefficients[k] == 0);
                                }
                            }
                        }
                    }
                    return None;
                }
                found = Some(i);
            }
            i += 1;
        }
        match found {
            None => {
                proof {
                    assert forall|id: int| !self@.is_single(id) by {
                        if self@.is_single(id) {
                            assert(self@.coefficients[id] == 0);
                        }
                    }
                }
                None
            },
            Some(k) => {
                proof {
                    assert(self@.is_single(k as int));
                    let chosen = choose|id: int| self@.is_single(id);
                    if chosen != k {
                        assert(self@.coefficients[chosen] == 0);
                    }
                }
                match self.coefficients[k].inverse() {
                    None => None,
                    Some(inverse) => Some((k, self.offset.neg().mul(inverse))),
                }
            },
        }
    }

    /// The expression as a sum, with the witness columns named as in the fixed data.
    pub fn format(&self, fixed_data: &FixedData) -> (r: String)
        ensures
            r@ == self@.text(fixed_data@.witness_names),
    {
        let ghost texts = fixed_data@.witness_names;
        let mut parts: Vec<String> = Vec::new();
        let mut i: usize = 0;
        assert(views(parts@) =~= self@.terms(texts, 0));
        while i < self.coefficients.len()
            invariant
                i <= self.coefficients@.len(),
                texts == fixed_data@.witness_names,
                views(parts@) == self@.terms(texts, i as int),
            decreases self.coefficients@.len() - i,
        {
            let c = self.coefficients[i];
            if !c.is_zero() {
                let mut name = String::new();
                if i < fixed_data.witness_count() {
                    name.append(fixed_data.witness_name(i).as_str());
                    assert(name@ =~= column_name(texts, i as int));
                } else {
                    name.append("_");
                    push_decimal(&mut name, i as u64);
                    proof {
                        reveal_strlit("_");
                        assert(name@ =~= column_name(texts, i as int));
                    }
                }
                let mut term = String::new();
                if c.is_one() {
                    term.append(name.as_str());
                    assert(term@ =~= term_text(c@, name@));
                } else if c.to_u64() == MODULUS - 1 {
                    term.append("-");
                    term.append(name.as_str());
                    proof {
                        reveal_strlit("-");
                        assert(term@ =~= term_text(c@, name@));
                    }
                } else {
                    term.append(format_number(&c).as_str());
                    term.append(" * ");
                    term.append(name.as_str());
                    proof {
                        reveal_strlit(" * ");
                        assert(term@ =~= term_text(c@, name@));
                    }
                }
                let ghost before = views(parts@);
                parts.push(term);
                assert(views(parts@) =~= before.push(term@));
            }
            i += 1;
        }
        if !self.offset.is_zero() || parts.len() == 0 {
            let ghost before = views(parts@);
            let constant = format_number(&self.offset);
            parts.push(constant);
            assert(views(parts@) =~= before.push(constant@));
        }
        proof {
            reveal_strlit(" + ");
            assert(" + "@ =~= seq![' ', '+', ' ']);
        }
        join_strings(&parts, " + ")
    }
}

} // verus!
