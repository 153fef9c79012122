use simplex_solver::rat::Rat;

fn q(n: i64, d: i64) -> Rat {
    Rat::new(n, d).expect("nonzero denominator")
}

#[test]
fn test_rat_normalization() {
    let half = q(2, 4);
    assert_eq!(half.num(), 1);
    assert_eq!(half.den(), 2);
    let neg = q(3, -6);
    assert_eq!(neg.num(), -1);
    assert_eq!(neg.den(), 2);
    assert!(Rat::new(1, 0).is_none());
}

#[test]
fn test_rat_arithmetic_exact() {
    let a = q(1, 3);
    let b = q(1, 6);
    let sum = a.checked_add(&b).expect("fits");
    assert_eq!((sum.num(), sum.den()), (1, 2));
    let diff = a.checked_sub(&b).expect("fits");
    assert_eq!((diff.num(), diff.den()), (1, 6));
    let prod = a.checked_mul(&b).expect("fits");
    assert_eq!((prod.num(), prod.den()), (1, 18));
    let quot = a.checked_div(&b).expect("fits");
    assert_eq!((quot.num(), quot.den()), (2, 1));
    let quot_neg = a.checked_div(&q(-1, 6)).expect("fits");
    assert_eq!((quot_neg.num(), quot_neg.den()), (-2, 1));
}

#[test]
fn test_rat_comparisons() {
    let a = q(1, 3);
    let b = q(2, 6);
    assert!(a.eq_value(&b));
    assert!(q(1, 4).lt(&a));
    assert!(a.le(&b));
    assert!(!a.lt(&b));
    // a < -t for t = -1/2
    assert!(a.lt_neg(&q(-1, 2)));
    assert!(!a.lt_neg(&q(1, 2)));
}

#[test]
fn test_rat_overflow_reported() {
    let big = Rat::from_int(i64::MAX);
    assert!(big.checked_mul(&big).is_none());
    assert!(big.checked_add(&q(1, 3)).is_none());
}
