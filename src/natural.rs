use vstd::prelude::*;

verus! {

/// Value of little-endian base 2^32 digits.
pub open spec fn digits_value(d: Seq<u32>) -> nat
    decreases d.len(),
{
    if d.len() == 0 {
        0
    } else {
        d[0] as nat + 4294967296 * digits_value(d.subrange(1, d.len() as int))
    }
}

/// An arbitrary-precision natural number, held as little-endian base 2^32 digits.
/// Its arithmetic is carried out by `num_bigint::BigUint`.
#[derive(Debug)]
pub struct Natural {
    digits: Vec<u32>,
}

impl View for Natural {
    type V = nat;

    closed spec fn view(&self) -> nat {
        digits_value(self.digits@)
    }
}

/// Relies on `BigUint::from_slice`, `BigUint + BigUint` and `BigUint::to_u32_digits`:
/// exact addition of the numbers the digits denote.
#[verifier::external_body]
pub(crate) fn big_add(a: &Natural, b: &Natural) -> (r: Natural)
    ensures
        r@ == a@ + b@,
{
    let s = num_bigint::BigUint::from_slice(&a.digits) + num_bigint::BigUint::from_slice(&b.digits);
    Natural { digits: s.to_u32_digits() }
}

/// Relies on `BigUint - BigUint`, which is exact when the result is not negative
/// (and panics otherwise).
#[verifier::external_body]
pub(crate) fn big_sub(a: &Natural, b: &Natural) -> (r: Natural)
    requires
        a@ >= b@,
    ensures
        r@ == a@ - b@,
{
    let s = num_bigint::BigUint::from_slice(&a.digits) - num_bigint::BigUint::from_slice(&b.digits);
    Natural { digits: s.to_u32_digits() }
}

/// Relies on `BigUint * BigUint`: exact multiplication.
#[verifier::external_body]
pub(crate) fn big_mul(a: &Natural, b: &Natural) -> (r: Natural)
    ensures
        r@ == a@ * b@,
{
    let s = num_bigint::BigUint::from_slice(&a.digits) * num_bigint::BigUint::from_slice(&b.digits);
    Natural { digits: s.to_u32_digits() }
}

/// Relies on `BigUint % BigUint`: the remainder of division (panics on a zero divisor).
#[verifier::external_body]
pub(crate) fn big_rem(a: &Natural, m: &Natural) -> (r: Natural)
    requires
        m@ > 0,
    ensures
        r@ == a@ % m@,
{
    let s = num_bigint::BigUint::from_slice(&a.digits) % num_bigint::BigUint::from_slice(&m.digits);
    Natural { digits: s.to_u32_digits() }
}

/// Relies on `BigUint::modpow`: `(base ^ exponent) % modulus`, panicking on a zero modulus.
#[verifier::external_body]
pub(crate) fn big_modpow(base: &Natural, exponent: &Natural, modulus: &Natural) -> (r: Natural)
    requires
        modulus@ > 0,
    ensures
        r@ == vstd::arithmetic::power::pow(base@ as int, exponent@) % (modulus@ as int),
{
    let b = num_bigint::BigUint::from_slice(&base.digits);
    let s = b.modpow(
        &num_bigint::BigUint::from_slice(&exponent.digits),
        &num_bigint::BigUint::from_slice(&modulus.digits),
    );
    Natural { digits: s.to_u32_digits() }
}

/// Relies on `BigUint`'s `PartialOrd`: numeric order.
#[verifier::external_body]
pub(crate) fn big_lt(a: &Natural, b: &Natural) -> (r: bool)
    ensures
        r == (a@ < b@),
{
    num_bigint::BigUint::from_slice(&a.digits) < num_bigint::BigUint::from_slice(&b.digits)
}

/// Relies on `BigUint`'s `PartialEq`: numeric equality.
#[verifier::external_body]
pub(crate) fn big_eq(a: &Natural, b: &Natural) -> (r: bool)
    ensures
        r == (a@ == b@),
{
    num_bigint::BigUint::from_slice(&a.digits) == num_bigint::BigUint::from_slice(&b.digits)
}

impl Natural {
    /// The number `v`.
    pub fn from_u64(v: u64) -> (r: Natural)
        ensures
            r@ == v,
    {
        let lo: u32 = (v % 4294967296) as u32;
        let hi: u32 = (v / 4294967296) as u32;
        let mut digits: Vec<u32> = Vec::new();
        digits.push(lo);
        digits.push(hi);
        let r = Natural { digits };
        proof {
            let d = r.digits@;
            let tail = d.subrange(1, 2);
            assert(tail.subrange(1, 1) =~= Seq::<u32>::empty());
            assert(digits_value(Seq::<u32>::empty()) == 0);
            assert(tail[0] == hi);
            assert(digits_value(tail) == hi as nat);
            assert(digits_value(d) == lo as nat + 4294967296 * (hi as nat));
        }
        r
    }

    /// The number whose little-endian base 2^32 digits are `digits`.
    pub fn from_digits(digits: Vec<u32>) -> (r: Natural)
        ensures
            r@ == digits_value(digits@),
    {
        Natural { digits }
    }

    /// Little-endian base 2^32 digits of this number.
    pub fn digits(&self) -> (r: &Vec<u32>)
        ensures
            digits_value(r@) == self@,
    {
        &self.digits
    }

    /// A copy of this number.
    pub fn duplicate(&self) -> (r: Natural)
        ensures
            r@ == self@,
    {
        let mut digits: Vec<u32> = Vec::new();
        let mut i: usize = 0;
        while i < self.digits.len()
            invariant
                i <= self.digits@.len(),
                digits@ =~= self.digits@.subrange(0, i as int),
            decreases self.digits@.len() - i,
        {
            digits.push(self.digits[i]);
            i = i + 1;
        }
        assert(digits@ =~= self.digits@);
        Natural { digits }
    }

    pub fn is_zero(&self) -> (r: bool)
        ensures
            r == (self@ == 0),
    {
        let z = Natural::from_u64(0);
        big_eq(self, &z)
    }
}

} // verus!

verus! {

impl PartialEq for Natural {
    fn eq(&self, other: &Natural) -> (r: bool) {
        big_eq(self, other)
    }
}

impl vstd::std_specs::cmp::PartialEqSpecImpl for Natural {
    open spec fn obeys_eq_spec() -> bool {
        true
    }

    open spec fn eq_spec(&self, other: &Natural) -> bool {
        self@ == other@
    }
}

/// An arbitrary-precision signed integer: a sign and a magnitude.
#[derive(Debug)]
pub struct Integer {
    pub negative: bool,
    pub magnitude: Natural,
}

impl View for Integer {
    type V = int;

    open spec fn view(&self) -> int {
        if self.negative {
            -(self.magnitude@ as int)
        } else {
            self.magnitude@ as int
        }
    }
}

impl Integer {
    /// The number `v`.
    pub fn from_i64(v: i64) -> (r: Integer)
        ensures
            r@ == v,
    {
        if v < 0 {
            let m: u64 = (-(v as i128)) as u64;
            Integer { negative: true, magnitude: Natural::from_u64(m) }
        } else {
            Integer { negative: false, magnitude: Natural::from_u64(v as u64) }
        }
    }

    /// The residue of this integer modulo `m`, in `[0, m)`.
    pub fn modulo(&self, m: &Natural) -> (r: Natural)
        requires
            m@ > 0,
        ensures
            r@ == self@ % (m@ as int),
    {
        let k = big_rem(&self.magnitude, m);
        if self.negative && !k.is_zero() {
            proof {
                let mi = m@ as int;
                let mag = self.magnitude@ as int;
                vstd::arithmetic::div_mod::lemma_fundamental_div_mod(mag, mi);
                let q = mag / mi;
                let rm = mag % mi;
                assert(0 < rm < mi);
                assert(-mag == (-q - 1) * mi + (mi - rm)) by (nonlinear_arith)
                    requires
                        mag == mi * q + rm,
                ;
                vstd::arithmetic::div_mod::lemma_fundamental_div_mod_converse(
                    -mag,
                    mi,
                    -q - 1,
                    mi - mag % mi,
                );
            }
            big_sub(m, &k)
        } else {
            proof {
                if self.negative {
                    let mi = m@ as int;
                    let mag = self.magnitude@ as int;
                    vstd::arithmetic::div_mod::lemma_fundamental_div_mod(mag, mi);
                    let q = mag / mi;
                    assert(-mag == (-q) * mi + 0) by (nonlinear_arith)
                        requires
                            mag == mi * q + 0,
                    ;
                    vstd::arithmetic::div_mod::lemma_fundamental_div_mod_converse(-mag, mi, -q, 0);
                }
            }
            k
        }
    }
}

} // verus!
