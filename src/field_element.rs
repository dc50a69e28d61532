use vstd::prelude::*;
use vstd::arithmetic::power::pow;
use crate::error::EccError;
use crate::number_theory::{is_prime, lemma_fermat, lemma_inverse_cancels, lemma_pow_exponent_mod};
use crate::natural::{big_add, big_eq, big_lt, big_modpow, big_mul, big_rem, big_sub, Integer, Natural};

verus! {

/// The mathematical content of a field element: a modulus and a residue.
pub struct FieldModel {
    pub prime: nat,
    pub num: nat,
}

/// `(a + b) mod p`.
pub open spec fn fadd(a: int, b: int, p: nat) -> nat {
    ((a + b) % (p as int)) as nat
}

/// `(a - b) mod p`, always in `[0, p)`.
pub open spec fn fsub(a: int, b: int, p: nat) -> nat {
    ((a - b) % (p as int)) as nat
}

/// `(a * b) mod p`.
pub open spec fn fmul(a: int, b: int, p: nat) -> nat {
    ((a * b) % (p as int)) as nat
}

/// `a / b` in the field of `p` elements: `a * b^(p-2) mod p`.
pub open spec fn fdiv(a: int, b: int, p: nat) -> nat {
    ((a * pow(b, (p - 2) as nat)) % (p as int)) as nat
}

/// The exponent that a negative `e` is brought to: its residue modulo `p - 1`
/// (Fermat's little theorem), or 0 in the one-element field.
pub open spec fn reduced_exponent(e: int, p: nat) -> nat {
    if p > 1 {
        (e % (p - 1)) as nat
    } else {
        0
    }
}

/// `a ^ e`: a non-negative exponent is used as it is, a negative one is first brought
/// into `[0, p - 1)` by adding a multiple of `p - 1`.
pub open spec fn pow_model(a: FieldModel, e: int) -> FieldModel {
    FieldModel {
        prime: a.prime,
        num: if e >= 0 {
            (pow(a.num as int, e as nat) % (a.prime as int)) as nat
        } else {
            (pow(a.num as int, reduced_exponent(e, a.prime)) % (a.prime as int)) as nat
        },
    }
}

/// An element of the prime field of `prime` elements, `0 <= num < prime`.
#[derive(Debug)]
pub struct FieldElement {
    prime: Natural,
    num: Natural,
}

impl View for FieldElement {
    type V = FieldModel;

    closed spec fn view(&self) -> FieldModel {
        FieldModel { prime: self.prime@, num: self.num@ }
    }
}

impl FieldElement {
    /// The residue lies in `[0, prime)`.
    pub open spec fn wf(&self) -> bool {
        self@.num < self@.prime
    }

    /// The element `num` of the field of `prime` elements; fails with `Range` unless
    /// `0 <= num < prime`.
    pub fn new(prime: Natural, num: Integer) -> (r: Result<FieldElement, EccError>)
        ensures
            0 <= num@ < prime@ ==> (r matches Ok(fe) && fe@ == (FieldModel {
                prime: prime@,
                num: num@ as nat,
            })),
            !(0 <= num@ < prime@) ==> r == Err::<FieldElement, EccError>(EccError::Range),
            r matches Ok(fe) ==> fe.wf(),
    {
        if num.negative && !num.magnitude.is_zero() {
            Err(EccError::Range)
        } else if big_lt(&num.magnitude, &prime) {
            Ok(FieldElement { prime, num: num.magnitude })
        } else {
            Err(EccError::Range)
        }
    }

    /// The element of the field of `prime` elements congruent to `v`.
    pub fn from_i64(prime: &Natural, v: i64) -> (r: FieldElement)
        requires
            prime@ > 0,
        ensures
            r.wf(),
            r@ == (FieldModel { prime: prime@, num: ((v as int) % (prime@ as int)) as nat }),
    {
        let num = Integer::from_i64(v).modulo(prime);
        FieldElement { prime: prime.duplicate(), num }
    }

    pub fn prime(&self) -> (r: &Natural)
        ensures
            r@ == self@.prime,
    {
        &self.prime
    }

    pub fn num(&self) -> (r: &Natural)
        ensures
            r@ == self@.num,
    {
        &self.num
    }

    /// Whether this is the zero of its field.
    pub fn is_zero(&self) -> (r: bool)
        ensures
            r == (self@.num == 0),
    {
        self.num.is_zero()
    }

    /// Whether both elements belong to the same field.
    pub fn same_field(&self, other: &FieldElement) -> (r: bool)
        ensures
            r == (self@.prime == other@.prime),
    {
        big_eq(&self.prime, &other.prime)
    }

    /// A copy of this element.
    pub fn duplicate(&self) -> (r: FieldElement)
        ensures
            r@ == self@,
    {
        FieldElement { prime: self.prime.duplicate(), num: self.num.duplicate() }
    }

    /// Sum of two elements of one field.
    pub(crate) fn field_add(&self, other: &FieldElement) -> (r: FieldElement)
        requires
            self.wf(),
            other.wf(),
            self@.prime == other@.prime,
        ensures
            r.wf(),
            r@ == (FieldModel { prime: self@.prime, num: fadd(self@.num as int, other@.num as int, self@.prime) }),
    {
        let s = big_add(&self.num, &other.num);
        FieldElement { prime: self.prime.duplicate(), num: big_rem(&s, &self.prime) }
    }

    /// Difference of two elements of one field, brought back into `[0, prime)`.
    pub(crate) fn field_sub(&self, other: &FieldElement) -> (r: FieldElement)
        requires
            self.wf(),
            other.wf(),
            self@.prime == other@.prime,
        ensures
            r.wf(),
            r@ == (FieldModel { prime: self@.prime, num: fsub(self@.num as int, other@.num as int, self@.prime) }),
    {
        let ghost a = self@.num as int;
        let ghost b = other@.num as int;
        let ghost p = self@.prime as int;
        let num = if big_lt(&self.num, &other.num) {
            proof {
                vstd::arithmetic::div_mod::lemma_fundamental_div_mod_converse(a - b, p, -1, a - b + p);
            }
            let s = big_add(&self.num, &self.prime);
            big_sub(&s, &other.num)
        } else {
            proof {
                vstd::arithmetic::div_mod::lemma_fundamental_div_mod_converse(a - b, p, 0, a - b);
            }
            big_sub(&self.num, &other.num)
        };
        FieldElement { prime: self.prime.duplicate(), num }
    }

    /// Product of two elements of one field.
    pub(crate) fn field_mul(&self, other: &FieldElement) -> (r: FieldElement)
        requires
            self.wf(),
            other.wf(),
            self@.prime == other@.prime,
        ensures
            r.wf(),
            r@ == (FieldModel { prime: self@.prime, num: fmul(self@.num as int, other@.num as int, self@.prime) }),
    {
        let s = big_mul(&self.num, &other.num);
        FieldElement { prime: self.prime.duplicate(), num: big_rem(&s, &self.prime) }
    }

    /// Quotient of two elements of one field, the divisor being nonzero.
    pub(crate) fn field_div(&self, other: &FieldElement) -> (r: FieldElement)
        requires
            self.wf(),
            other.wf(),
            self@.prime == other@.prime,
            other@.num != 0,
        ensures
            r.wf(),
            r@ == (FieldModel { prime: self@.prime, num: fdiv(self@.num as int, other@.num as int, self@.prime) }),
    {
        let ghost p = self@.prime as int;
        let two = Natural::from_u64(2);
        let e = big_sub(&self.prime, &two);
        let inv = big_modpow(&other.num, &e, &self.prime);
        let s = big_mul(&self.num, &inv);
        proof {
            vstd::arithmetic::div_mod::lemma_mul_mod_noop_right(
                self@.num as int,
                pow(other@.num as int, e@),
                p,
            );
        }
        FieldElement { prime: self.prime.duplicate(), num: big_rem(&s, &self.prime) }
    }

    /// `self + other`; fails with `MismatchedField` when the primes differ.
    pub fn add(&self, other: &FieldElement) -> (r: Result<FieldElement, EccError>)
        requires
            self.wf(),
            other.wf(),
        ensures
            self@.prime != other@.prime ==> r == Err::<FieldElement, EccError>(EccError::MismatchedField),
            self@.prime == other@.prime ==> (r matches Ok(fe) && fe.wf() && fe@ == (FieldModel {
                prime: self@.prime,
                num: fadd(self@.num as int, other@.num as int, self@.prime),
            })),
    {
        if self.same_field(other) {
            Ok(self.field_add(other))
        } else {
            Err(EccError::MismatchedField)
        }
    }

    /// `self - other`; fails with `MismatchedField` when the primes differ.
    pub fn sub(&self, other: &FieldElement) -> (r: Result<FieldElement, EccError>)
        requires
            self.wf(),
            other.wf(),
        ensures
            self@.prime != other@.prime ==> r == Err::<FieldElement, EccError>(EccError::MismatchedField),
            self@.prime == other@.prime ==> (r matches Ok(fe) && fe.wf() && fe@ == (FieldModel {
                prime: self@.prime,
                num: fsub(self@.num as int, other@.num as int, self@.prime),
            })),
    {
        if self.same_field(other) {
            Ok(self.field_sub(other))
        } else {
            Err(EccError::MismatchedField)
        }
    }

    /// `self * other`; fails with `MismatchedField` when the primes differ.
    pub fn mul(&self, other: &FieldElement) -> (r: Result<FieldElement, EccError>)
        requires
            self.wf(),
            other.wf(),
        ensures
            self@.prime != other@.prime ==> r == Err::<FieldElement, EccError>(EccError::MismatchedField),
            self@.prime == other@.prime ==> (r matches Ok(fe) && fe.wf() && fe@ == (FieldModel {
                prime: self@.prime,
                num: fmul(self@.num as int, other@.num as int, self@.prime),
            })),
    {
        if self.same_field(other) {
            Ok(self.field_mul(other))
        } else {
            Err(EccError::MismatchedField)
        }
    }

    /// `self / other = self * other^(prime-2)`; fails with `MismatchedField` when the
    /// primes differ and with `DivisionByZero` when `other` is zero.
    pub fn div(&self, other: &FieldElement) -> (r: Result<FieldElement, EccError>)
        requires
            self.wf(),
            other.wf(),
        ensures
            self@.prime != other@.prime ==> r == Err::<FieldElement, EccError>(EccError::MismatchedField),
            self@.prime == other@.prime && other@.num == 0 ==> r == Err::<FieldElement, EccError>(
                EccError::DivisionByZero,
            ),
            self@.prime == other@.prime && other@.num != 0 ==> (r matches Ok(fe) && fe.wf() && fe@
                == (FieldModel {
                prime: self@.prime,
                num: fdiv(self@.num as int, other@.num as int, self@.prime),
            })),
    {
        if !self.same_field(other) {
            Err(EccError::MismatchedField)
        } else if other.is_zero() {
            Err(EccError::DivisionByZero)
        } else {
            Ok(self.field_div(other))
        }
    }

    /// `self ^ exponent` for any integer exponent. A non-negative exponent goes straight
    /// to modular exponentiation; a negative one is first reduced modulo `prime - 1`, so
    /// that no inverse is needed.
    pub fn pow(&self, exponent: &Integer) -> (r: FieldElement)
        requires
            self.wf(),
        ensures
            r.wf(),
            r@.prime == self@.prime,
            exponent@ >= 0 ==> r@.num == pow(self@.num as int, exponent@ as nat) % (
            self@.prime as int),
            exponent@ < 0 ==> r@.num == pow(self@.num as int, reduced_exponent(exponent@, self@.prime))
                % (self@.prime as int),
            r@ == pow_model(self@, exponent@),
    {
        let e = if !exponent.negative {
            exponent.magnitude.duplicate()
        } else {
            let one = Natural::from_u64(1);
            let order = big_sub(&self.prime, &one);
            if order.is_zero() {
                Natural::from_u64(0)
            } else {
                exponent.modulo(&order)
            }
        };
        let num = big_modpow(&self.num, &e, &self.prime);
        proof {
            if exponent.negative && exponent@ == 0 {
                if self@.prime > 1 {
                    vstd::arithmetic::div_mod::lemma_small_mod(0, (self@.prime - 1) as nat);
                }
            }
        }
        FieldElement { prime: self.prime.duplicate(), num }
    }
}

impl PartialEq for FieldElement {
    fn eq(&self, other: &FieldElement) -> (r: bool) {
        big_eq(&self.prime, &other.prime) && big_eq(&self.num, &other.num)
    }
}

impl vstd::std_specs::cmp::PartialEqSpecImpl for FieldElement {
    open spec fn obeys_eq_spec() -> bool {
        true
    }

    open spec fn eq_spec(&self, other: &FieldElement) -> bool {
        self@ == other@
    }
}

/// In a prime field, raising a nonzero element to the power `prime - 1` gives one.
pub proof fn law_pow_order_is_one(a: FieldModel)
    requires
        is_prime(a.prime),
        a.num < a.prime,
        a.num != 0,
    ensures
        pow_model(a, a.prime - 1) == (FieldModel { prime: a.prime, num: 1 }),
{
    lemma_fermat(a.prime, a.num);
}

/// In a prime field, any exponent of a nonzero element may be replaced by its
/// non-negative residue modulo `prime - 1`.
pub proof fn law_pow_exponent_reduces(a: FieldModel, e: int)
    requires
        is_prime(a.prime),
        a.num < a.prime,
        a.num != 0,
    ensures
        pow_model(a, e) == pow_model(a, e % (a.prime - 1)),
{
    let m = a.prime - 1;
    if e >= 0 {
        lemma_pow_exponent_mod(a.prime, a.num, e as nat);
    }
}

/// In a prime field, dividing by a nonzero element and then multiplying by it gives
/// back the dividend.
pub proof fn law_div_then_mul(a: FieldModel, b: FieldModel)
    requires
        is_prime(a.prime),
        a.num < a.prime,
        b.num < b.prime,
        a.prime == b.prime,
        b.num != 0,
    ensures
        fmul(fdiv(a.num as int, b.num as int, a.prime) as int, b.num as int, a.prime) == a.num,
{
    lemma_inverse_cancels(a.num as int, b.num, a.prime);
    vstd::arithmetic::div_mod::lemma_small_mod(a.num, a.prime);
}

} // verus!
