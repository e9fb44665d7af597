use p24::arg_parsing::Args;
use p24::maths::rational::Rational;

#[test]
fn from_int_evaluates_back() {
    for v in [0i128, 1, 24, -7, 1_000_000_000, -1_000_000_000] {
        assert_eq!(Some(v), Rational::from_int(v).evaluate_int());
    }
}

#[test]
fn div_by_zero_value_is_undefined() {
    let a = Rational::from_int(7);
    let zero = Rational::from_int(0);
    assert!(a.div(&zero).is_none());
}

#[test]
fn div_by_nonzero_value_is_defined() {
    let a = Rational::from_int(7);
    let b = Rational::from_int(-2);
    assert!(a.div(&b).is_some());
}

#[test]
fn non_integer_fraction_has_no_integer_value() {
    let half = Rational::from_int(1).div(&Rational::from_int(2)).unwrap();
    assert_eq!(None, half.evaluate_int());
}

#[test]
fn fraction_arithmetic_is_exact() {
    // 8 / (3 - 8 / 3) == 24 exactly; floating point would miss it.
    let eight = Rational::from_int(8);
    let three = Rational::from_int(3);
    let inner = eight.div(&three).unwrap();
    let diff = three.sub(&inner);
    let total = eight.div(&diff).unwrap();
    assert_eq!(Some(24), total.evaluate_int());
}

#[test]
fn is_zero_tracks_numerator() {
    assert!(Rational::from_int(0).is_zero());
    assert!(!Rational::from_int(3).is_zero());
    let diff = Rational::from_int(5).sub(&Rational::from_int(5));
    assert!(diff.is_zero());
}

#[test]
fn mul_and_add_combine_exactly() {
    let third = Rational::from_int(1).div(&Rational::from_int(3)).unwrap();
    let sum = third.add(&third).add(&third);
    assert_eq!(Some(1), sum.evaluate_int());
    let product = third.mul(&Rational::from_int(6));
    assert_eq!(Some(2), product.evaluate_int());
}

#[test]
fn div_unchecked_matches_div() {
    let a = Rational::from_int(9);
    let b = Rational::from_int(3);
    assert_eq!(Some(3), a.div_unchecked(&b).evaluate_int());
    assert_eq!(Some(3), a.div(&b).unwrap().evaluate_int());
}

#[test]
fn args_order_is_positional() {
    let args = Args { i1: 6, i2: 11, i3: 9, i4: 2 };
    assert_eq!([6, 11, 9, 2], args.into_numbers());
}
