use ecc_field::{EccError, FieldElement, Integer, Natural, Point};

fn fe(prime: u64, num: u64) -> FieldElement {
    FieldElement::new(Natural::from_u64(prime), Integer::from_i64(num as i64)).unwrap()
}

fn pt(a: i64, b: i64, prime: u64, x: u64, y: u64) -> Point {
    Point::new_point(a, b, fe(prime, x), fe(prime, y)).unwrap()
}

#[test]
fn test_on_curve() {
    let prime: u64 = 223;
    let _a = fe(prime, 0);
    let _b = fe(prime, 7);
    let valid = Point::new_point(0, 7, fe(prime, 192), fe(prime, 105));
    assert!(valid.is_ok());
}

#[test]
#[should_panic]
fn test_point_creation_fail() {
    Point::new_point(5, 7, fe(7, 1), fe(7, 1)).unwrap();
}

#[test]
fn test_point_creation() {
    Point::new_point(0, 7, fe(223, 192), fe(223, 105)).unwrap();
}

#[test]
fn test_ne() {
    let first = pt(0, 7, 223, 192, 105);
    let second = pt(0, 7, 223, 192, 105);
    let third = pt(0, 7, 223, 1, 193);
    let inf = Point::new_infinity(0, 7);
    assert_eq!(first, second);
    assert_ne!(first, third);
    assert_ne!(first, inf);
}

#[test]
fn add_two_points_with_different_x() {
    let first = pt(0, 7, 223, 192, 105);
    let second = pt(0, 7, 223, 17, 56);
    let third = pt(0, 7, 223, 170, 142);
    assert_eq!(first.add(&second).unwrap(), third);
}

#[test]
fn test_point_mul() {
    let p = pt(0, 7, 223, 47, 71);
    assert_eq!(p.scalar_mul(21).unwrap(), Point::new_infinity(0, 7));
}

#[test]
fn point_off_curve_is_rejected() {
    assert_eq!(
        Point::new_point(5, 7, fe(7, 1), fe(7, 1)).unwrap_err(),
        EccError::NotOnCurve
    );
    assert_eq!(
        Point::new_point(0, 7, fe(223, 200), fe(223, 119)).unwrap_err(),
        EccError::NotOnCurve
    );
    assert!(Point::new_point(0, 7, fe(223, 42), fe(223, 99)).is_err());
}

#[test]
fn point_over_large_prime_off_curve_is_rejected() {
    // 1^2 = 1 but 1 + 5 + 7 = 13 over a field far larger than the numbers involved.
    assert_eq!(
        Point::new_point(5, 7, fe(1_000_003, 1), fe(1_000_003, 1)).unwrap_err(),
        EccError::NotOnCurve
    );
}

#[test]
fn coordinates_from_different_fields_are_rejected() {
    assert_eq!(
        Point::new_point(0, 7, fe(223, 192), fe(227, 105)).unwrap_err(),
        EccError::MismatchedField
    );
}

#[test]
fn points_on_different_curves_do_not_add() {
    let p = pt(0, 7, 223, 192, 105);
    let q = Point::new_infinity(1, 7);
    assert_eq!(p.add(&q).unwrap_err(), EccError::MismatchedCurve);
}

#[test]
fn points_over_different_fields_do_not_add() {
    // (0, 0) lies on y^2 = x^3 + x over every field.
    let p = pt(1, 0, 223, 0, 0);
    let q = pt(1, 0, 227, 0, 0);
    assert_eq!(p.add(&q).unwrap_err(), EccError::MismatchedField);
}

#[test]
fn infinity_is_the_identity() {
    let p = pt(0, 7, 223, 192, 105);
    let inf = Point::new_infinity(0, 7);
    assert_eq!(p.add(&inf).unwrap(), p);
    assert_eq!(inf.add(&p).unwrap(), p);
    assert_eq!(inf.add(&inf).unwrap(), inf);
}

#[test]
fn addition_commutes() {
    let ps = [
        pt(0, 7, 223, 192, 105),
        pt(0, 7, 223, 17, 56),
        pt(0, 7, 223, 1, 193),
        pt(0, 7, 223, 47, 71),
        Point::new_infinity(0, 7),
    ];
    for p in ps.iter() {
        for q in ps.iter() {
            assert_eq!(p.add(q).unwrap(), q.add(p).unwrap());
        }
    }
}

#[test]
fn sums_stay_on_the_curve() {
    let p = pt(0, 7, 223, 47, 71);
    let mut acc = Point::new_infinity(0, 7);
    for _ in 0..25 {
        acc = acc.add(&p).unwrap();
        if let Point::Coordinate { a, b, x, y } = &acc {
            assert!(Point::new_point(*a, *b, x.duplicate(), y.duplicate()).is_ok());
        }
    }
}

#[test]
fn vertical_sum_is_infinity() {
    let p = pt(0, 7, 223, 47, 71);
    let q = pt(0, 7, 223, 47, 152);
    assert_eq!(p.add(&q).unwrap(), Point::new_infinity(0, 7));
    assert_eq!(p.neg(), q);
}

#[test]
fn doubling_a_point_of_order_two_is_infinity() {
    // (0, 0) on y^2 = x^3 + x has y = 0.
    let p = pt(1, 0, 223, 0, 0);
    assert_eq!(p.add(&p).unwrap(), Point::new_infinity(1, 0));
}

#[test]
fn doubling_follows_the_tangent() {
    // 2 * (47, 71) = (36, 111) on y^2 = x^3 + 7 over F_223.
    let p = pt(0, 7, 223, 47, 71);
    assert_eq!(p.add(&p).unwrap(), pt(0, 7, 223, 36, 111));
    assert_eq!(p.scalar_mul(2).unwrap(), pt(0, 7, 223, 36, 111));
}

#[test]
fn small_and_negative_multiples() {
    let p = pt(0, 7, 223, 47, 71);
    assert_eq!(p.scalar_mul(0).unwrap(), Point::new_infinity(0, 7));
    assert_eq!(p.scalar_mul(1).unwrap(), p);
    assert_eq!(p.scalar_mul(-1).unwrap(), pt(0, 7, 223, 47, 152));
    assert_eq!(p.scalar_mul(-2).unwrap(), p.scalar_mul(19).unwrap());
    assert_eq!(p.scalar_mul(22).unwrap(), p);
}

#[test]
fn zero_slope_denominator_is_an_invalid_operation() {
    // Over F_2, y^2 = x^3 + x + 1 holds at (0, 1); doubling needs 2 * y = 0 in the denominator.
    let p = pt(1, 1, 2, 0, 1);
    assert_eq!(p.add(&p).unwrap_err(), EccError::InvalidOperation);
}
