use ecc_field::{EccError, FieldElement, Integer, Natural};

fn natural(v: u64) -> Natural {
    Natural::from_u64(v)
}

fn fe(prime: u64, num: u64) -> FieldElement {
    FieldElement::new(natural(prime), Integer::from_i64(num as i64)).unwrap()
}

#[test]
fn test_new() {
    let fe = FieldElement::new(natural(5), Integer::from_i64(3)).unwrap();
    assert_eq!(*fe.prime(), natural(5));
    assert_eq!(*fe.num(), natural(3));
}

#[test]
#[should_panic]
fn test_new_panic() {
    FieldElement::new(natural(5), Integer::from_i64(5)).unwrap();
}

#[test]
fn add_two_field_elements() {
    let a = fe(13, 7);
    let b = fe(13, 12);
    let c = fe(13, 6);
    assert_eq!(a.add(&b).unwrap(), c);
}

#[test]
fn sub_two_field_elements() {
    let a = fe(19, 6);
    let b = fe(19, 13);
    let c = fe(19, 12);
    assert_eq!(a.sub(&b).unwrap(), c);
}

#[test]
fn mul_two_field_elements() {
    let a = fe(13, 3);
    let b = fe(13, 12);
    let c = fe(13, 10);
    assert_eq!(a.mul(&b).unwrap(), c);
}

#[test]
fn divide_two_field_elements() {
    let a = fe(19, 2);
    let b = fe(19, 7);
    let c = fe(19, 3);
    assert_eq!(a.div(&b).unwrap(), c);
}

#[test]
fn power_a_field_element_to_a_positive_exponent() {
    let a = fe(13, 3);
    let b = fe(13, 1);
    assert_eq!(a.pow(&Integer::from_i64(3)), b);
}

#[test]
fn power_a_field_element_to_a_negative_exponent() {
    let a = fe(13, 7);
    let b = fe(13, 8);
    assert_eq!(a.pow(&Integer::from_i64(-3)), b);
}

#[test]
fn new_rejects_residue_above_prime() {
    assert_eq!(FieldElement::new(natural(5), Integer::from_i64(3)).is_ok(), true);
    assert_eq!(FieldElement::new(natural(5), Integer::from_i64(7)).unwrap_err(), EccError::Range);
    assert_eq!(FieldElement::new(natural(0), Integer::from_i64(0)).unwrap_err(), EccError::Range);
    assert_eq!(FieldElement::new(natural(5), Integer::from_i64(-1)).unwrap_err(), EccError::Range);
    assert_eq!(FieldElement::new(natural(5), Integer::from_i64(4)).unwrap(), fe(5, 4));
}

#[test]
fn operations_on_different_fields_fail() {
    let a = fe(13, 3);
    let b = fe(19, 3);
    assert_eq!(a.add(&b).unwrap_err(), EccError::MismatchedField);
    assert_eq!(a.sub(&b).unwrap_err(), EccError::MismatchedField);
    assert_eq!(a.mul(&b).unwrap_err(), EccError::MismatchedField);
    assert_eq!(a.div(&b).unwrap_err(), EccError::MismatchedField);
}

#[test]
fn division_by_zero_fails() {
    let a = fe(19, 2);
    let z = fe(19, 0);
    assert_eq!(a.div(&z).unwrap_err(), EccError::DivisionByZero);
}

#[test]
fn sub_wraps_below_zero() {
    assert_eq!(fe(7, 2).sub(&fe(7, 5)).unwrap(), fe(7, 4));
    assert_eq!(fe(7, 5).sub(&fe(7, 2)).unwrap(), fe(7, 3));
    assert_eq!(fe(7, 5).sub(&fe(7, 5)).unwrap(), fe(7, 0));
}

#[test]
fn quotient_times_divisor_gives_dividend() {
    let a = fe(31, 17);
    for n in 1..31 {
        let b = fe(31, n);
        let q = a.div(&b).unwrap();
        assert_eq!(q.mul(&b).unwrap(), fe(31, 17));
    }
}

#[test]
fn power_to_prime_minus_one_is_one() {
    for n in 1..31 {
        assert_eq!(fe(31, n).pow(&Integer::from_i64(30)), fe(31, 1));
    }
}

#[test]
fn negative_exponent_matches_reduced_exponent() {
    let a = fe(31, 3);
    for e in -40i64..40 {
        let reduced = e.rem_euclid(30);
        assert_eq!(a.pow(&Integer::from_i64(e)), a.pow(&Integer::from_i64(reduced)));
    }
    assert_eq!(a.pow(&Integer::from_i64(-1)).mul(&a).unwrap(), fe(31, 1));
}

#[test]
fn power_in_one_element_field_is_zero() {
    assert_eq!(fe(1, 0).pow(&Integer::from_i64(5)), fe(1, 0));
}

#[test]
fn arithmetic_beyond_machine_words() {
    // The prime 2^127 - 1.
    let p = Natural::from_digits(vec![u32::MAX, u32::MAX, u32::MAX, 0x7fff_ffff]);
    let residue = Integer {
        negative: false,
        magnitude: Natural::from_digits(vec![0, 0, 0, 0x4000_0000]),
    };
    let big = FieldElement::new(p, residue).unwrap();
    let two = FieldElement::from_i64(big.prime(), 2);
    // 2^126 * 2 = 2^127 = 1 (mod 2^127 - 1)
    assert_eq!(big.mul(&two).unwrap(), FieldElement::from_i64(big.prime(), 1));
    // 2^126 + 2^126 = 1 as well
    assert_eq!(big.add(&big).unwrap(), FieldElement::from_i64(big.prime(), 1));
    // 2^127 - 1 - 2 as the result of 0 - 2
    let zero = FieldElement::from_i64(big.prime(), 0);
    assert_eq!(zero.sub(&two).unwrap(), FieldElement::from_i64(big.prime(), -2));
    assert_eq!(
        FieldElement::from_i64(big.prime(), -2).num().digits().clone(),
        vec![u32::MAX - 2, u32::MAX, u32::MAX, 0x7fff_ffff]
    );
    // 2^126 / 2 = 2^125
    let half = big.div(&two).unwrap();
    assert_eq!(*half.num(), Natural::from_digits(vec![0, 0, 0, 0x2000_0000]));
}

#[test]
fn residue_of_negative_integer() {
    let p = natural(7);
    assert_eq!(FieldElement::from_i64(&p, -1), fe(7, 6));
    assert_eq!(FieldElement::from_i64(&p, -14), fe(7, 0));
    assert_eq!(FieldElement::from_i64(&p, 23), fe(7, 2));
    assert_eq!(Integer::from_i64(-15).modulo(&p), natural(6));
    assert_eq!(Integer::from_i64(i64::MIN).modulo(&natural(2)), natural(0));
}

#[test]
fn zero_to_a_positive_multiple_of_the_order_is_zero() {
    let zero = fe(13, 0);
    assert_eq!(zero.pow(&Integer::from_i64(12)), fe(13, 0));
    assert_eq!(zero.pow(&Integer::from_i64(24)), fe(13, 0));
    assert_eq!(zero.pow(&Integer::from_i64(0)), fe(13, 1));
}

#[test]
fn non_negative_exponent_is_used_unreduced() {
    // 2^13 = 8192 = 2 (mod 13), with 13 not reduced modulo 12 first
    assert_eq!(fe(13, 2).pow(&Integer::from_i64(13)), fe(13, 2));
    // 2^5 = 32 = 2 (mod 15): the modulus need not be prime for a non-negative exponent
    assert_eq!(fe(15, 2).pow(&Integer::from_i64(5)), fe(15, 2));
}
