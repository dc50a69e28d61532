use vstd::prelude::*;
use crate::error::EccError;
use crate::field_element::{fadd, fdiv, fmul, fsub, FieldElement, FieldModel};
use crate::number_theory::{
    cong,
    is_prime,
    lemma_cancel,
    lemma_cong_add,
    lemma_cong_cancel_zero,
    lemma_cong_mod,
    lemma_cong_mul,
    lemma_cong_sub,
    lemma_distinct_residues,
    lemma_euclid,
    lemma_inverse_cancels,
};
use vstd::arithmetic::div_mod::{
    lemma_add_mod_noop,
    lemma_mod_twice,
    lemma_mul_mod_noop_right,
    lemma_small_mod,
    lemma_sub_mod_noop,
};

verus! {

/// The mathematical content of a point of the curve `y^2 = x^3 + a*x + b`.
pub enum PointModel {
    Infinity { a: int, b: int },
    Coordinate { a: int, b: int, x: FieldModel, y: FieldModel },
}

impl PointModel {
    pub open spec fn coef_a(self) -> int {
        match self {
            PointModel::Infinity { a, .. } => a,
            PointModel::Coordinate { a, .. } => a,
        }
    }

    pub open spec fn coef_b(self) -> int {
        match self {
            PointModel::Infinity { b, .. } => b,
            PointModel::Coordinate { b, .. } => b,
        }
    }

    /// Either the identity, or two residues of one field that satisfy the curve equation.
    pub open spec fn valid(self) -> bool {
        match self {
            PointModel::Infinity { .. } => true,
            PointModel::Coordinate { a, b, x, y } => {
                &&& x.num < x.prime
                &&& y.num < y.prime
                &&& x.prime == y.prime
                &&& on_curve(a, b, x.prime, x.num as int, y.num as int)
            },
        }
    }
}

/// `y^2 = x^3 + a*x + b (mod p)`.
pub open spec fn on_curve(a: int, b: int, p: nat, x: int, y: int) -> bool {
    (y * y) % (p as int) == (x * x * x + a * x + b) % (p as int)
}

/// The residue of `v` modulo `p`.
pub open spec fn res(v: int, p: nat) -> nat {
    (v % (p as int)) as nat
}

/// The affine point `(x, y)` if it lies on the curve; the addition law rejects anything else.
pub open spec fn checked(a: int, b: int, p: nat, x: nat, y: nat) -> Result<PointModel, EccError> {
    if on_curve(a, b, p, x as int, y as int) {
        Ok(
            PointModel::Coordinate {
                a,
                b,
                x: FieldModel { prime: p, num: x },
                y: FieldModel { prime: p, num: y },
            },
        )
    } else {
        Err(EccError::InvalidOperation)
    }
}

/// Doubling `(x, y)`: slope `(3x^2 + a) / (2y)`.
pub open spec fn tangent_sum(a: int, b: int, p: nat, x: nat, y: nat) -> Result<PointModel, EccError> {
    let denom = fmul(res(2, p) as int, y as int, p);
    if denom == 0 {
        Err(EccError::InvalidOperation)
    } else {
        let numer = fadd(fmul(res(3, p) as int, fmul(x as int, x as int, p) as int, p) as int, res(a, p) as int, p);
        let s = fdiv(numer as int, denom as int, p);
        let x3 = fsub(fmul(s as int, s as int, p) as int, fmul(res(2, p) as int, x as int, p) as int, p);
        let y3 = fsub(fmul(s as int, fsub(x as int, x3 as int, p) as int, p) as int, y as int, p);
        checked(a, b, p, x3, y3)
    }
}

/// Sum of two points with different x: slope `(y2 - y1) / (x2 - x1)`.
pub open spec fn chord_sum(a: int, b: int, p: nat, x1: nat, y1: nat, x2: nat, y2: nat) -> Result<
    PointModel,
    EccError,
> {
    let s = fdiv(fsub(y2 as int, y1 as int, p) as int, fsub(x2 as int, x1 as int, p) as int, p);
    let x3 = fsub(fsub(fmul(s as int, s as int, p) as int, x1 as int, p) as int, x2 as int, p);
    let y3 = fsub(fmul(s as int, fsub(x1 as int, x3 as int, p) as int, p) as int, y1 as int, p);
    checked(a, b, p, x3, y3)
}

/// The addition law, case by case in order of precedence.
pub open spec fn sum_model(pt: PointModel, q: PointModel) -> Result<PointModel, EccError> {
    if pt.coef_a() != q.coef_a() || pt.coef_b() != q.coef_b() {
        Err(EccError::MismatchedCurve)
    } else {
        match (pt, q) {
            (PointModel::Infinity { .. }, _) => Ok(q),
            (_, PointModel::Infinity { .. }) => Ok(pt),
            (
                PointModel::Coordinate { a, b, x: x1, y: y1 },
                PointModel::Coordinate { x: x2, y: y2, .. },
            ) => {
                if x1.prime != x2.prime {
                    Err(EccError::MismatchedField)
                } else if x1 == x2 && y1 != y2 {
                    Ok(PointModel::Infinity { a, b })
                } else if x1 == x2 && (y1.num == 0 || y2.num == 0) {
                    Ok(PointModel::Infinity { a, b })
                } else if x1 == x2 {
                    tangent_sum(a, b, x1.prime, x1.num, y1.num)
                } else {
                    chord_sum(a, b, x1.prime, x1.num, y1.num, x2.num, y2.num)
                }
            },
        }
    }
}

/// The reflection of a point in the x axis.
pub open spec fn neg_model(pt: PointModel) -> PointModel {
    match pt {
        PointModel::Infinity { .. } => pt,
        PointModel::Coordinate { a, b, x, y } => PointModel::Coordinate {
            a,
            b,
            x,
            y: FieldModel { prime: y.prime, num: fsub(0, y.num as int, y.prime) },
        },
    }
}

/// `n * pt` for `n >= 0`: the identity with `pt` added to it `n` times.
pub open spec fn multiple_model(pt: PointModel, n: nat) -> Result<PointModel, EccError>
    decreases n,
{
    if n == 0 {
        Ok(PointModel::Infinity { a: pt.coef_a(), b: pt.coef_b() })
    } else {
        match multiple_model(pt, (n - 1) as nat) {
            Ok(q) => sum_model(q, pt),
            Err(e) => Err(e),
        }
    }
}

/// `n * pt` for any integer `n`; a negative `n` multiplies the reflection of `pt`.
pub open spec fn scalar_model(pt: PointModel, n: int) -> Result<PointModel, EccError> {
    if n >= 0 {
        multiple_model(pt, n as nat)
    } else {
        multiple_model(neg_model(pt), (-n) as nat)
    }
}

/// A point of the curve `y^2 = x^3 + a*x + b` over a prime field, or the point at infinity.
#[derive(Debug)]
pub enum Point {
    Infinity { a: i64, b: i64 },
    Coordinate { a: i64, b: i64, x: FieldElement, y: FieldElement },
}

impl View for Point {
    type V = PointModel;

    open spec fn view(&self) -> PointModel {
        match self {
            Point::Infinity { a, b } => PointModel::Infinity { a: *a as int, b: *b as int },
            Point::Coordinate { a, b, x, y } => PointModel::Coordinate {
                a: *a as int,
                b: *b as int,
                x: x@,
                y: y@,
            },
        }
    }
}

/// What a point operation returns, seen through the views.
pub open spec fn result_model(r: Result<Point, EccError>) -> Result<PointModel, EccError> {
    match r {
        Ok(q) => Ok(q@),
        Err(e) => Err(e),
    }
}

/// Whether `y^2 == x^3 + a*x + b` in the field that `x` and `y` share.
fn satisfies_curve(a: i64, b: i64, x: &FieldElement, y: &FieldElement) -> (r: bool)
    requires
        x.wf(),
        y.wf(),
        x@.prime == y@.prime,
    ensures
        r == on_curve(a as int, b as int, x@.prime, x@.num as int, y@.num as int),
{
    let p = x.prime();
    let ar = FieldElement::from_i64(p, a);
    let br = FieldElement::from_i64(p, b);
    let lhs = y.field_mul(y);
    let xx = x.field_mul(x);
    let xxx = xx.field_mul(x);
    let ax = ar.field_mul(x);
    let t = xxx.field_add(&ax);
    let rhs = t.field_add(&br);
    proof {
        lemma_curve_rhs(a as int, b as int, x@.prime as int, x@.num as int);
    }
    lhs == rhs
}

/// Evaluating the right-hand side of the curve equation residue by residue gives its
/// residue.
proof fn lemma_curve_rhs(a: int, b: int, p: int, x: int)
    requires
        p > 0,
    ensures
        ((((x * x) % p * x) % p + ((a % p) * x) % p) % p + b % p) % p == (x * x * x + a * x + b)
            % p,
{
    vstd::arithmetic::div_mod::lemma_mul_mod_noop_left(x * x, x, p);
    vstd::arithmetic::div_mod::lemma_mul_mod_noop_left(a, x, p);
    vstd::arithmetic::div_mod::lemma_add_mod_noop(x * x * x, a * x, p);
    vstd::arithmetic::div_mod::lemma_add_mod_noop(x * x * x + a * x, b, p);
}

impl Point {
    pub open spec fn wf(&self) -> bool {
        self@.valid()
    }

    /// The point `(x, y)` of the curve with coefficients `a` and `b`. Fails with
    /// `MismatchedField` when `x` and `y` lie in different fields, and with `NotOnCurve`
    /// when they do not satisfy the curve equation.
    pub fn new_point(a: i64, b: i64, x: FieldElement, y: FieldElement) -> (r: Result<Point, EccError>)
        requires
            x.wf(),
            y.wf(),
        ensures
            x@.prime != y@.prime ==> r == Err::<Point, EccError>(EccError::MismatchedField),
            x@.prime == y@.prime && !on_curve(a as int, b as int, x@.prime, x@.num as int, y@.num as int)
                ==> r == Err::<Point, EccError>(EccError::NotOnCurve),
            x@.prime == y@.prime && on_curve(a as int, b as int, x@.prime, x@.num as int, y@.num as int)
                ==> (r matches Ok(q) && q@ == (PointModel::Coordinate {
                a: a as int,
                b: b as int,
                x: x@,
                y: y@,
            })),
            r matches Ok(q) ==> q.wf(),
    {
        if !x.same_field(&y) {
            Err(EccError::MismatchedField)
        } else if satisfies_curve(a, b, &x, &y) {
            Ok(Point::Coordinate { a, b, x, y })
        } else {
            Err(EccError::NotOnCurve)
        }
    }

    /// The point at infinity of the curve with coefficients `a` and `b`.
    pub fn new_infinity(a: i64, b: i64) -> (r: Point)
        ensures
            r@ == (PointModel::Infinity { a: a as int, b: b as int }),
            r.wf(),
    {
        Point::Infinity { a, b }
    }

    pub fn coef_a(&self) -> (r: i64)
        ensures
            r == self@.coef_a(),
    {
        match self {
            Point::Infinity { a, .. } => *a,
            Point::Coordinate { a, .. } => *a,
        }
    }

    pub fn coef_b(&self) -> (r: i64)
        ensures
            r == self@.coef_b(),
    {
        match self {
            Point::Infinity { b, .. } => *b,
            Point::Coordinate { b, .. } => *b,
        }
    }

    /// A copy of this point.
    pub fn duplicate(&self) -> (r: Point)
        ensures
            r@ == self@,
    {
        match self {
            Point::Infinity { a, b } => Point::Infinity { a: *a, b: *b },
            Point::Coordinate { a, b, x, y } => Point::Coordinate {
                a: *a,
                b: *b,
                x: x.duplicate(),
                y: y.duplicate(),
            },
        }
    }

    /// The point built from the coordinates an addition produced; any failure here is
    /// a defect of the addition law.
    fn from_sum(a: i64, b: i64, x: FieldElement, y: FieldElement) -> (r: Result<Point, EccError>)
        requires
            x.wf(),
            y.wf(),
            x@.prime == y@.prime,
        ensures
            result_model(r) == checked(a as int, b as int, x@.prime, x@.num, y@.num),
            r matches Ok(q) ==> q.wf(),
    {
        match Point::new_point(a, b, x, y) {
            Ok(q) => Ok(q),
            Err(_) => Err(EccError::InvalidOperation),
        }
    }

    /// Doubling of `(x, y)`.
    fn double(a: i64, b: i64, x: &FieldElement, y: &FieldElement) -> (r: Result<Point, EccError>)
        requires
            x.wf(),
            y.wf(),
            x@.prime == y@.prime,
        ensures
            result_model(r) == tangent_sum(a as int, b as int, x@.prime, x@.num, y@.num),
            r matches Ok(q) ==> q.wf(),
    {
        let p = x.prime();
        let two = FieldElement::from_i64(p, 2);
        let three = FieldElement::from_i64(p, 3);
        let ar = FieldElement::from_i64(p, a);
        let denom = two.field_mul(y);
        if denom.is_zero() {
            return Err(EccError::InvalidOperation);
        }
        let xx = x.field_mul(x);
        let t = three.field_mul(&xx);
        let numer = t.field_add(&ar);
        let s = numer.field_div(&denom);
        let ss = s.field_mul(&s);
        let tx = two.field_mul(x);
        let x3 = ss.field_sub(&tx);
        let dx = x.field_sub(&x3);
        let sd = s.field_mul(&dx);
        let y3 = sd.field_sub(y);
        Point::from_sum(a, b, x3, y3)
    }

    /// Sum of `(x1, y1)` and `(x2, y2)` with `x1 != x2`.
    fn chord(
        a: i64,
        b: i64,
        x1: &FieldElement,
        y1: &FieldElement,
        x2: &FieldElement,
        y2: &FieldElement,
    ) -> (r: Result<Point, EccError>)
        requires
            x1.wf(),
            y1.wf(),
            x2.wf(),
            y2.wf(),
            x1@.prime == y1@.prime,
            x2@.prime == x1@.prime,
            y2@.prime == x1@.prime,
            x1@.num != x2@.num,
        ensures
            result_model(r) == chord_sum(
                a as int,
                b as int,
                x1@.prime,
                x1@.num,
                y1@.num,
                x2@.num,
                y2@.num,
            ),
            r matches Ok(q) ==> q.wf(),
    {
        let dy = y2.field_sub(y1);
        let dx = x2.field_sub(x1);
        proof {
            lemma_distinct_residues(x2@.num as int, x1@.num as int, x1@.prime as int);
        }
        let s = dy.field_div(&dx);
        let ss = s.field_mul(&s);
        let t = ss.field_sub(x1);
        let x3 = t.field_sub(x2);
        let d = x1.field_sub(&x3);
        let sd = s.field_mul(&d);
        let y3 = sd.field_sub(y1);
        Point::from_sum(a, b, x3, y3)
    }

    /// The group law. Fails with `MismatchedCurve` when the curves differ, with
    /// `MismatchedField` when the fields differ, and with `InvalidOperation` where the
    /// case analysis meets a zero denominator or a result off the curve.
    pub fn add(&self, other: &Point) -> (r: Result<Point, EccError>)
        requires
            self.wf(),
            other.wf(),
        ensures
            result_model(r) == sum_model(self@, other@),
            r matches Ok(q) ==> q.wf(),
    {
        if self.coef_a() != other.coef_a() || self.coef_b() != other.coef_b() {
            return Err(EccError::MismatchedCurve);
        }
        match (self, other) {
            (Point::Infinity { .. }, _) => Ok(other.duplicate()),
            (_, Point::Infinity { .. }) => Ok(self.duplicate()),
            (Point::Coordinate { a, b, x: x1, y: y1 }, Point::Coordinate { x: x2, y: y2, .. }) => {
                if !x1.same_field(x2) {
                    Err(EccError::MismatchedField)
                } else {
                    let same_x = *x1 == *x2;
                    let same_y = *y1 == *y2;
                    if same_x && !same_y {
                        Ok(Point::Infinity { a: *a, b: *b })
                    } else if same_x && (y1.is_zero() || y2.is_zero()) {
                        Ok(Point::Infinity { a: *a, b: *b })
                    } else if same_x {
                        Point::double(*a, *b, x1, y1)
                    } else {
                        Point::chord(*a, *b, x1, y1, x2, y2)
                    }
                }
            },
        }
    }

    /// The reflection `(x, -y)` of this point; the identity is its own reflection.
    pub fn neg(&self) -> (r: Point)
        requires
            self.wf(),
        ensures
            r@ == neg_model(self@),
            r.wf(),
    {
        match self {
            Point::Infinity { a, b } => Point::Infinity { a: *a, b: *b },
            Point::Coordinate { a, b, x, y } => {
                let zero = FieldElement::from_i64(y.prime(), 0);
                let ny = zero.field_sub(y);
                proof {
                    let p = y@.prime as int;
                    let v = y@.num as int;
                    vstd::arithmetic::div_mod::lemma_mul_mod_noop(0 - v, 0 - v, p);
                    assert((0 - v) * (0 - v) == v * v) by (nonlinear_arith);
                }
                Point::Coordinate { a: *a, b: *b, x: x.duplicate(), y: ny }
            },
        }
    }

    /// `n` times this point: the identity with the point added to it `n` times, or for
    /// a negative `n`, the reflection added `-n` times. The first failing addition, if
    /// any, ends the computation with its error.
    pub fn scalar_mul(&self, n: i64) -> (r: Result<Point, EccError>)
        requires
            self.wf(),
        ensures
            result_model(r) == scalar_model(self@, n as int),
            r matches Ok(q) ==> q.wf(),
    {
        let base = if n < 0 {
            self.neg()
        } else {
            self.duplicate()
        };
        let count: u64 = if n < 0 {
            (-(n as i128)) as u64
        } else {
            n as u64
        };
        let ghost bm = base@;
        let mut acc = Point::new_infinity(base.coef_a(), base.coef_b());
        let mut i: u64 = 0;
        while i < count
            invariant
                base.wf(),
                base@ == bm,
                n >= 0 ==> bm == self@ && count == n,
                n < 0 ==> bm == neg_model(self@) && count == -n,
                i <= count,
                acc.wf(),
                multiple_model(bm, i as nat) == Ok::<PointModel, EccError>(acc@),
            decreases count - i,
        {
            match acc.add(&base) {
                Ok(q) => {
                    acc = q;
                },
                Err(e) => {
                    proof {
                        assert(multiple_model(bm, (i + 1) as nat) == Err::<PointModel, EccError>(e));
                        lemma_multiple_err(bm, (i + 1) as nat, count as nat);
                    }
                    return Err(e);
                },
            }
            i = i + 1;
        }
        Ok(acc)
    }
}

/// Once a repeated addition fails, every longer one fails with the same error.
proof fn lemma_multiple_err(pt: PointModel, i: nat, n: nat)
    requires
        i <= n,
        multiple_model(pt, i) is Err,
    ensures
        multiple_model(pt, n) == multiple_model(pt, i),
    decreases n - i,
{
    if i < n {
        lemma_multiple_err(pt, i, (n - 1) as nat);
    }
}

impl PartialEq for Point {
    fn eq(&self, other: &Point) -> (r: bool) {
        match (self, other) {
            (Point::Infinity { a: a1, b: b1 }, Point::Infinity { a: a2, b: b2 }) => *a1 == *a2 && *b1
                == *b2,
            (
                Point::Coordinate { a: a1, b: b1, x: x1, y: y1 },
                Point::Coordinate { a: a2, b: b2, x: x2, y: y2 },
            ) => *a1 == *a2 && *b1 == *b2 && *x1 == *x2 && *y1 == *y2,
            _ => false,
        }
    }
}

impl vstd::std_specs::cmp::PartialEqSpecImpl for Point {
    open spec fn obeys_eq_spec() -> bool {
        true
    }

    open spec fn eq_spec(&self, other: &Point) -> bool {
        self@ == other@
    }
}

/// The point at infinity is a two-sided identity.
pub proof fn law_identity(pt: PointModel)
    ensures
        sum_model(pt, PointModel::Infinity { a: pt.coef_a(), b: pt.coef_b() }) == Ok::<
            PointModel,
            EccError,
        >(pt),
        sum_model(PointModel::Infinity { a: pt.coef_a(), b: pt.coef_b() }, pt) == Ok::<
            PointModel,
            EccError,
        >(pt),
{
}

/// A point that addition returns is the identity or satisfies the curve equation
/// (with both coordinates in one field); every other outcome is an error.
pub proof fn law_sum_on_curve(pt: PointModel, q: PointModel)
    requires
        pt.valid(),
        q.valid(),
    ensures
        sum_model(pt, q) matches Ok(r) ==> r.valid(),
{
}

/// The chord through two points of a prime field's curve is the same from either end.
proof fn lemma_chord_commutes(a: int, b: int, p: nat, x1: nat, y1: nat, x2: nat, y2: nat)
    requires
        is_prime(p),
        x1 < p,
        y1 < p,
        x2 < p,
        y2 < p,
        x1 != x2,
    ensures
        chord_sum(a, b, p, x1, y1, x2, y2) == chord_sum(a, b, p, x2, y2, x1, y1),
{
    let pi = p as int;
    let d = fsub(x2 as int, x1 as int, p);
    let e = fsub(x1 as int, x2 as int, p);
    let s = fdiv(fsub(y2 as int, y1 as int, p) as int, d as int, p);
    let t = fdiv(fsub(y1 as int, y2 as int, p) as int, e as int, p);
    lemma_distinct_residues(x2 as int, x1 as int, pi);
    lemma_distinct_residues(x1 as int, x2 as int, pi);
    // s * (x2 - x1) == y2 - y1, and t * (x1 - x2) == y1 - y2
    lemma_inverse_cancels(fsub(y2 as int, y1 as int, p) as int, d, p);
    lemma_inverse_cancels(fsub(y1 as int, y2 as int, p) as int, e, p);
    lemma_mod_twice(y2 - y1, pi);
    lemma_mod_twice(y1 - y2, pi);
    let si = s as int;
    let ti = t as int;
    lemma_mul_mod_noop_right(si, x2 - x1, pi);
    lemma_mul_mod_noop_right(ti, x1 - x2, pi);
    lemma_mul_mod_noop_right(ti, x2 - x1, pi);
    assert((si * d) % pi == (y2 - y1) % pi);
    assert((si * (x2 - x1)) % pi == (y2 - y1) % pi);
    assert((ti * (x1 - x2)) % pi == (y1 - y2) % pi);
    // t * (x2 - x1) == -(t * (x1 - x2)) == y2 - y1 as well
    assert(ti * (x2 - x1) == 0 - ti * (x1 - x2)) by (nonlinear_arith);
    lemma_sub_mod_noop(0, ti * (x1 - x2), pi);
    lemma_sub_mod_noop(0, y1 - y2, pi);
    assert((ti * (x2 - x1)) % pi == (y2 - y1) % pi);
    assert((ti * d) % pi == (si * d) % pi);
    lemma_cancel(s, t, d, p);
    // with one slope, the x coordinates agree
    let sq = fmul(si, si, p) as int;
    lemma_small_mod(x1, p);
    lemma_small_mod(x2, p);
    lemma_sub_mod_noop(sq - x1, x2 as int, pi);
    lemma_sub_mod_noop(sq - x2, x1 as int, pi);
    lemma_mod_twice(sq - x1, pi);
    lemma_mod_twice(sq - x2, pi);
    assert(sq - x1 - x2 == sq - x2 - x1);
    let x3 = fsub(fsub(sq, x1 as int, p) as int, x2 as int, p);
    assert(x3 == fsub(fsub(sq, x2 as int, p) as int, x1 as int, p));
    // and so do the y coordinates: s * (x1 - x3) - y1 == s * (x2 - x3) - y2
    let x3i = x3 as int;
    let u = si * (x1 - x3i) - y1;
    let v = si * (x2 - x3i) - y2;
    assert(u == v + (ti * (x1 - x2) - (y1 - y2))) by (nonlinear_arith)
        requires
            si == ti,
            u == si * (x1 - x3i) - y1,
            v == si * (x2 - x3i) - y2,
    ;
    lemma_sub_mod_noop(ti * (x1 - x2), y1 - y2, pi);
    lemma_small_mod(0, p);
    lemma_add_mod_noop(v, ti * (x1 - x2) - (y1 - y2), pi);
    lemma_mod_twice(v, pi);
    assert(u % pi == v % pi);
    lemma_mul_mod_noop_right(si, x1 - x3i, pi);
    lemma_mul_mod_noop_right(si, x2 - x3i, pi);
    lemma_small_mod(y1, p);
    lemma_small_mod(y2, p);
    lemma_sub_mod_noop(si * (x1 - x3i), y1 as int, pi);
    lemma_sub_mod_noop(si * (x2 - x3i), y2 as int, pi);
    lemma_mod_twice(si * (x1 - x3i), pi);
    lemma_mod_twice(si * (x2 - x3i), pi);
}

/// Over a prime field, addition does not depend on the order of its operands.
pub proof fn law_sum_commutes(pt: PointModel, q: PointModel)
    requires
        pt.valid(),
        q.valid(),
        pt matches PointModel::Coordinate { x, .. } ==> is_prime(x.prime),
        q matches PointModel::Coordinate { x, .. } ==> is_prime(x.prime),
    ensures
        sum_model(pt, q) == sum_model(q, pt),
{
    if let (
        PointModel::Coordinate { a, b, x: x1, y: y1 },
        PointModel::Coordinate { x: x2, y: y2, .. },
    ) = (pt, q) {
        if x1.prime == x2.prime && x1 != x2 {
            lemma_chord_commutes(a, b, x1.prime, x1.num, y1.num, x2.num, y2.num);
        }
    }
}

/// Right-hand side of the curve equation.
pub open spec fn curve_rhs(a: int, b: int, x: int) -> int {
    x * x * x + a * x + b
}

/// Writing `u = x - x1`: the cubic `f(x) - L(x)^2` for the line `L(x) = s * u + y1`,
/// less the cubic with roots `x1`, `r` and `s^2 - x1 - r`, is affine in `u`.
proof fn lemma_line_remainder(a: int, b: int, s: int, x1: int, y1: int, r: int, x: int)
    ensures
        ({
            let x3 = s * s - x1 - r;
            let l = s * (x - x1) + y1;
            let e = x1 - r;
            let g = x1 - x3;
            curve_rhs(a, b, x) - l * l - (x - x1) * (x - r) * (x - x3) == (3 * x1 * x1 + a - 2 * s
                * y1 - e * g) * (x - x1) + (curve_rhs(a, b, x1) - y1 * y1)
        }),
{
    let x3 = s * s - x1 - r;
    let l = s * (x - x1) + y1;
    let e = x1 - r;
    let g = x1 - x3;
    let u = x - x1;
    let fx = x * x * x + a * x + b;
    let f1 = x1 * x1 * x1 + a * x1 + b;
    let uu = u * u;
    let uuu = uu * u;
    assert(fx == uuu + 3 * x1 * uu + (3 * x1 * x1 + a) * u + f1) by (nonlinear_arith)
        requires
            x == u + x1,
            uu == u * u,
            uuu == uu * u,
            fx == x * x * x + a * x + b,
            f1 == x1 * x1 * x1 + a * x1 + b,
    ;
    assert(l * l == s * s * uu + 2 * s * y1 * u + y1 * y1) by (nonlinear_arith)
        requires
            l == s * u + y1,
            uu == u * u,
    ;
    let v = x - r;
    let w = x - x3;
    let uv = u * v;
    assert(uv == uu + e * u) by (nonlinear_arith)
        requires
            uv == u * v,
            v == u + e,
            uu == u * u,
    ;
    assert(uv * w == uu * u + uu * g + e * u * u + e * u * g) by (nonlinear_arith)
        requires
            uv == uu + e * u,
            w == u + g,
    ;
    assert(e * u * u == e * uu && uu * g == g * uu && e * u * g == e * g * u) by (nonlinear_arith)
        requires
            uu == u * u,
    ;
    assert(g * uu + e * uu == (e + g) * uu) by (nonlinear_arith);
    assert((x - x1) * (x - r) * (x - x3) == uuu + (e + g) * uu + e * g * u);
    assert(e + g == 3 * x1 - s * s);
    assert((e + g) * uu == 3 * x1 * uu - s * s * uu) by (nonlinear_arith)
        requires
            e + g == 3 * x1 - s * s,
    ;
    assert((3 * x1 * x1 + a) * u - 2 * s * y1 * u - e * g * u == (3 * x1 * x1 + a - 2 * s * y1 - e
        * g) * u) by (nonlinear_arith);
}

/// If a line through `(x1, y1)` meets the curve there and leaves an affine remainder
/// that vanishes, its third meeting point, reflected, lies on the curve.
proof fn lemma_line_meets_curve(a: int, b: int, p: nat, s: int, x1: int, y1: int, r: int, x3: int, y3: int)
    requires
        p > 0,
        cong(3 * x1 * x1 + a - 2 * s * y1 - (x1 - r) * (x1 - (s * s - x1 - r)), 0, p as int),
        cong(curve_rhs(a, b, x1) - y1 * y1, 0, p as int),
        cong(x3, s * s - x1 - r, p as int),
        cong(y3, s * (x1 - (s * s - x1 - r)) - y1, p as int),
    ensures
        on_curve(a, b, p, x3, y3),
{
    let pi = p as int;
    let t = s * s - x1 - r;
    let big_a = 3 * x1 * x1 + a - 2 * s * y1 - (x1 - r) * (x1 - t);
    let big_b = curve_rhs(a, b, x1) - y1 * y1;
    let l = s * (t - x1) + y1;
    lemma_line_remainder(a, b, s, x1, y1, r, t);
    assert((t - x1) * (t - r) * (t - t) == 0) by (nonlinear_arith);
    // the remainder vanishes at t
    assert(cong(t - x1, t - x1, pi));
    lemma_cong_mul(big_a, 0, t - x1, t - x1, pi);
    assert(0 * (t - x1) == 0);
    lemma_cong_add(big_a * (t - x1), 0, big_b, 0, pi);
    assert(cong(curve_rhs(a, b, t) - l * l, 0, pi));
    assert(cong(l * l, l * l, pi));
    lemma_cong_add(curve_rhs(a, b, t) - l * l, 0, l * l, l * l, pi);
    // y3 == -l and x3 == t
    assert(s * (x1 - t) - y1 == -l) by (nonlinear_arith)
        requires
            l == s * (t - x1) + y1,
    ;
    lemma_cong_mul(y3, -l, y3, -l, pi);
    assert((-l) * (-l) == l * l) by (nonlinear_arith);
    lemma_cong_mul(x3, t, x3, t, pi);
    lemma_cong_mul(x3 * x3, t * t, x3, t, pi);
    assert(cong(a, a, pi));
    lemma_cong_mul(a, a, x3, t, pi);
    lemma_cong_add(x3 * x3 * x3, t * t * t, a * x3, a * t, pi);
    assert(cong(b, b, pi));
    lemma_cong_add(x3 * x3 * x3 + a * x3, t * t * t + a * t, b, b, pi);
}

/// Over a prime field, the chord through two points of the curve with different x meets
/// it in a third point: the sum is never rejected.
proof fn lemma_chord_on_curve(a: int, b: int, p: nat, x1: nat, y1: nat, x2: nat, y2: nat)
    requires
        is_prime(p),
        x1 < p,
        y1 < p,
        x2 < p,
        y2 < p,
        x1 != x2,
        on_curve(a, b, p, x1 as int, y1 as int),
        on_curve(a, b, p, x2 as int, y2 as int),
    ensures
        chord_sum(a, b, p, x1, y1, x2, y2) is Ok,
{
    let pi = p as int;
    let d = fsub(x2 as int, x1 as int, p);
    let s = fdiv(fsub(y2 as int, y1 as int, p) as int, d as int, p);
    let si = s as int;
    let x3 = fsub(fsub(fmul(si, si, p) as int, x1 as int, p) as int, x2 as int, p);
    let y3 = fsub(fmul(si, fsub(x1 as int, x3 as int, p) as int, p) as int, y1 as int, p);
    let t = si * si - x1 - x2;
    lemma_distinct_residues(x2 as int, x1 as int, pi);
    // slope: s * (x2 - x1) == y2 - y1
    lemma_inverse_cancels(fsub(y2 as int, y1 as int, p) as int, d, p);
    lemma_mod_twice(y2 - y1, pi);
    lemma_mul_mod_noop_right(si, x2 - x1, pi);
    assert(cong(si * (x2 - x1), y2 - y1, pi));
    // x3 == s^2 - x1 - x2, y3 == s * (x1 - x3) - y1
    lemma_cong_mod(si * si, pi);
    assert(cong(x1 as int, x1 as int, pi));
    assert(cong(x2 as int, x2 as int, pi));
    assert(cong(y1 as int, y1 as int, pi));
    assert(cong(si, si, pi));
    lemma_cong_sub(fmul(si, si, p) as int, si * si, x1 as int, x1 as int, pi);
    lemma_cong_mod(fmul(si, si, p) - x1, pi);
    lemma_cong_sub(fsub(fmul(si, si, p) as int, x1 as int, p) as int, si * si - x1, x2 as int, x2 as int, pi);
    lemma_cong_mod(fsub(fmul(si, si, p) as int, x1 as int, p) - x2, pi);
    assert(cong(x3 as int, t, pi));
    lemma_cong_sub(x1 as int, x1 as int, x3 as int, t, pi);
    lemma_cong_mod(x1 - x3, pi);
    lemma_cong_mul(si, si, fsub(x1 as int, x3 as int, p) as int, x1 - t, pi);
    lemma_cong_mod(si * fsub(x1 as int, x3 as int, p), pi);
    lemma_cong_sub(fmul(si, fsub(x1 as int, x3 as int, p) as int, p) as int, si * (x1 - t), y1 as int, y1 as int, pi);
    lemma_cong_mod(fmul(si, fsub(x1 as int, x3 as int, p) as int, p) - y1, pi);
    assert(cong(y3 as int, si * (x1 - t) - y1, pi));
    // the remainder vanishes at x1 and at x2, so its slope vanishes
    let big_a = 3 * x1 * x1 + a - 2 * si * y1 - (x1 - x2) * (x1 - t);
    let big_b = curve_rhs(a, b, x1 as int) - y1 * y1;
    lemma_cong_sub(curve_rhs(a, b, x1 as int), (y1 * y1) as int, (y1 * y1) as int, (y1 * y1) as int, pi);
    assert(cong(big_b, 0, pi));
    lemma_line_remainder(a, b, si, x1 as int, y1 as int, x2 as int, x2 as int);
    let l2 = si * (x2 - x1) + y1;
    assert((x2 - x1) * (x2 - x2) * (x2 - t) == 0) by (nonlinear_arith);
    lemma_cong_add(si * (x2 - x1), y2 - y1, y1 as int, y1 as int, pi);
    lemma_cong_mul(l2, y2 as int, l2, y2 as int, pi);
    lemma_cong_sub(curve_rhs(a, b, x2 as int), (y2 * y2) as int, l2 * l2, (y2 * y2) as int, pi);
    assert(cong(curve_rhs(a, b, x2 as int) - l2 * l2, 0, pi));
    assert(cong(big_a * (x2 - x1) + big_b, 0, pi));
    lemma_cong_sub(big_a * (x2 - x1) + big_b, 0, big_b, 0, pi);
    assert(cong((x2 - x1) * big_a, 0, pi));
    lemma_cong_cancel_zero(x2 - x1, big_a, p);
    lemma_line_meets_curve(a, b, p, si, x1 as int, y1 as int, x2 as int, x3 as int, y3 as int);
}

/// Over an odd prime field, the tangent at a point of the curve with `y != 0` meets it
/// again: doubling is never rejected.
proof fn lemma_tangent_on_curve(a: int, b: int, p: nat, x: nat, y: nat)
    requires
        is_prime(p),
        p != 2,
        x < p,
        y < p,
        y != 0,
        on_curve(a, b, p, x as int, y as int),
    ensures
        tangent_sum(a, b, p, x, y) is Ok,
{
    let pi = p as int;
    let xi = x as int;
    let yi = y as int;
    lemma_small_mod(2, p);
    lemma_cong_mod(3, pi);
    lemma_cong_mod(a, pi);
    lemma_cong_mod(xi * xi, pi);
    assert(cong(xi, xi, pi));
    assert(cong(yi, yi, pi));
    // 2 * y is not zero
    let denom = fmul(res(2, p) as int, yi, p);
    assert(denom == (2 * yi) % pi);
    if denom == 0 {
        lemma_euclid(p, 2, yi);
        lemma_small_mod(y, p);
    }
    // s * (2 * y) == 3 * x^2 + a
    let sq = fmul(xi, xi, p) as int;
    lemma_cong_mul(3int % pi, 3, sq, xi * xi, pi);
    lemma_cong_mod((3int % pi) * sq, pi);
    let numer = fadd(fmul(res(3, p) as int, sq, p) as int, res(a, p) as int, p);
    lemma_cong_add(fmul(res(3, p) as int, sq, p) as int, 3 * (xi * xi), res(a, p) as int, a, pi);
    lemma_cong_mod((fmul(res(3, p) as int, sq, p) + res(a, p)) as int, pi);
    assert(cong(numer as int, 3 * (xi * xi) + a, pi));
    let s = fdiv(numer as int, denom as int, p);
    let si = s as int;
    lemma_inverse_cancels(numer as int, denom, p);
    lemma_cong_mod(2 * yi, pi);
    assert(cong(si, si, pi));
    lemma_cong_mul(si, si, denom as int, 2 * yi, pi);
    lemma_cong_mod(numer as int, pi);
    assert(cong(si * (2 * yi), 3 * (xi * xi) + a, pi));
    // x3 == s^2 - 2x, y3 == s * (x - x3) - y
    let t = si * si - xi - xi;
    let two_x = fmul(res(2, p) as int, xi, p) as int;
    assert(two_x == (2 * xi) % pi);
    lemma_cong_mod(2 * xi, pi);
    lemma_cong_mod(si * si, pi);
    let x3 = fsub(fmul(si, si, p) as int, two_x, p);
    lemma_cong_sub(fmul(si, si, p) as int, si * si, two_x, 2 * xi, pi);
    lemma_cong_mod(fmul(si, si, p) - two_x, pi);
    assert(cong(x3 as int, t, pi));
    let y3 = fsub(fmul(si, fsub(xi, x3 as int, p) as int, p) as int, yi, p);
    lemma_cong_sub(xi, xi, x3 as int, t, pi);
    lemma_cong_mod(xi - x3, pi);
    lemma_cong_mul(si, si, fsub(xi, x3 as int, p) as int, xi - t, pi);
    lemma_cong_mod(si * fsub(xi, x3 as int, p), pi);
    lemma_cong_sub(fmul(si, fsub(xi, x3 as int, p) as int, p) as int, si * (xi - t), yi, yi, pi);
    lemma_cong_mod(fmul(si, fsub(xi, x3 as int, p) as int, p) - yi, pi);
    assert(cong(y3 as int, si * (xi - t) - yi, pi));
    // the affine remainder's slope is 3x^2 + a - 2sy, which vanishes
    assert((xi - xi) * (xi - t) == 0) by (nonlinear_arith);
    assert(si * (2 * yi) == 2 * si * yi) by (nonlinear_arith);
    assert(3 * (xi * xi) == 3 * xi * xi) by (nonlinear_arith);
    assert(cong(2 * si * yi, 2 * si * yi, pi));
    lemma_cong_sub(3 * xi * xi + a, 2 * si * yi, 2 * si * yi, 2 * si * yi, pi);
    assert(cong(3 * xi * xi + a - 2 * si * yi - (xi - xi) * (xi - t), 0, pi));
    lemma_cong_sub(curve_rhs(a, b, xi), (yi * yi) as int, (yi * yi) as int, (yi * yi) as int, pi);
    lemma_line_meets_curve(a, b, p, si, xi, yi, xi, x3 as int, y3 as int);
}

/// Over an odd prime field, adding two valid points of one curve never fails, and the
/// sum is the identity or a point that satisfies the curve equation.
pub proof fn law_sum_closed(pt: PointModel, q: PointModel)
    requires
        pt.valid(),
        q.valid(),
        pt.coef_a() == q.coef_a(),
        pt.coef_b() == q.coef_b(),
        pt matches PointModel::Coordinate { x, .. } ==> is_prime(x.prime) && x.prime != 2,
        match (pt, q) {
            (PointModel::Coordinate { x: x1, .. }, PointModel::Coordinate { x: x2, .. }) => x1.prime
                == x2.prime,
            _ => true,
        },
    ensures
        sum_model(pt, q) matches Ok(r) && r.valid(),
{
    if let (
        PointModel::Coordinate { a, b, x: x1, y: y1 },
        PointModel::Coordinate { x: x2, y: y2, .. },
    ) = (pt, q) {
        if x1 != x2 {
            lemma_chord_on_curve(a, b, x1.prime, x1.num, y1.num, x2.num, y2.num);
        } else if y1 == y2 && y1.num != 0 {
            lemma_tangent_on_curve(a, b, x1.prime, x1.num, y1.num);
        }
    }
}

} // verus!
