use estimators::rational::{
    rat_abs_le, rat_abs_lt, rat_add, rat_div, rat_eq, rat_is_nonneg, rat_is_pos, rat_le, rat_lt,
    rat_mul, rat_neg, rat_sub, Rat,
};

#[test]
fn add_reduces_to_lowest_terms() {
    let a = Rat::new(1, 2);
    let b = Rat::new(1, 3);
    let r = rat_add(&a, &b).unwrap();
    assert!(rat_eq(&r, &Rat::new(5, 6)));
    assert_eq!(r, Rat::new(5, 6));
}

#[test]
fn sub_and_neg() {
    let a = Rat::new(1, 4);
    let b = Rat::new(3, 4);
    let d = rat_sub(&a, &b).unwrap();
    assert!(rat_eq(&d, &Rat::new(-1, 2)));
    let n = rat_neg(&d).unwrap();
    assert!(rat_eq(&n, &Rat::new(1, 2)));
}

#[test]
fn mul_and_div_exact() {
    let a = Rat::new(2, 3);
    let b = Rat::new(9, 4);
    let p = rat_mul(&a, &b).unwrap();
    assert!(rat_eq(&p, &Rat::new(3, 2)));
    let q = rat_div(&p, &b).unwrap();
    assert!(rat_eq(&q, &a));
}

#[test]
fn div_by_zero_is_refused() {
    let a = Rat::new(5, 7);
    assert!(rat_div(&a, &Rat::zero()).is_none());
}

#[test]
fn div_sign_normalization() {
    let a = Rat::new(1, 2);
    let b = Rat::new(-2, 3);
    let q = rat_div(&a, &b).unwrap();
    assert!(q.den > 0);
    assert!(rat_eq(&q, &Rat::new(-3, 4)));
}

#[test]
fn order_and_sign_tests() {
    let a = Rat::new(-1, 3);
    let b = Rat::new(1, 4);
    assert!(rat_lt(&a, &b));
    assert!(rat_le(&a, &a));
    assert!(!rat_is_nonneg(&a));
    assert!(rat_is_nonneg(&b));
    assert!(rat_is_pos(&b));
    assert!(!rat_is_pos(&Rat::zero()));
}

#[test]
fn magnitude_comparisons() {
    let a = Rat::new(-3, 4);
    let b = Rat::new(1, 2);
    assert!(rat_abs_le(&b, &a));
    assert!(rat_abs_lt(&b, &a));
    assert!(!rat_abs_lt(&a, &a));
}

#[test]
fn overflow_is_reported_not_wrapped() {
    let big = Rat::new(i64::MAX, 1);
    assert!(rat_add(&big, &big).is_none());
    assert!(rat_mul(&big, &big).is_none());
}
