use quadtree::scalar::{minus, plus};
use quadtree::Scalar;

#[test]
fn halved_rounds_towards_zero() {
    assert_eq!(100i64.halved(), 50);
    assert_eq!(5i64.halved(), 2);
    assert_eq!(1i64.halved(), 0);
    assert_eq!(0i64.halved(), 0);
    assert_eq!((-1i64).halved(), 0);
    assert_eq!((-5i64).halved(), -2);
    assert_eq!((-6i64).halved(), -3);
    assert_eq!(i64::MIN.halved(), i64::MIN / 2);
    assert_eq!(i64::MAX.halved(), i64::MAX / 2);
    assert_eq!(7i32.halved(), 3);
    assert_eq!((-7i32).halved(), -3);
}

#[test]
fn checked_plus_refuses_what_does_not_fit() {
    assert_eq!(2i64.checked_plus(3), Some(5));
    assert_eq!(i64::MAX.checked_plus(0), Some(i64::MAX));
    assert_eq!(i64::MAX.checked_plus(1), None);
    assert_eq!(i64::MIN.checked_plus(-1), None);
    assert_eq!(i32::MAX.checked_plus(1), None);
    assert_eq!((-2i32).checked_plus(-3), Some(-5));
}

#[test]
fn checked_minus_refuses_what_does_not_fit() {
    assert_eq!(2i64.checked_minus(3), Some(-1));
    assert_eq!(i64::MIN.checked_minus(1), None);
    assert_eq!(0i64.checked_minus(i64::MIN), None);
    assert_eq!(0i64.checked_minus(i64::MIN + 1), Some(i64::MAX));
    assert_eq!(i32::MIN.checked_minus(1), None);
    assert_eq!(7i32.checked_minus(9), Some(-2));
}

#[test]
fn less_is_strict() {
    assert!(1i64.less(2));
    assert!(!2i64.less(1));
    assert!(!2i64.less(2));
    assert!((-3i32).less(-2));
    assert!(i64::MIN.less(i64::MAX));
}

#[test]
fn zero_is_zero() {
    assert_eq!(<i64 as Scalar>::zero(), 0);
    assert_eq!(<i32 as Scalar>::zero(), 0);
}

#[test]
fn plus_and_minus_of_values_that_fit() {
    assert_eq!(plus(40i64, 2), 42);
    assert_eq!(plus(-40i64, 2), -38);
    assert_eq!(minus(40i64, 2), 38);
    assert_eq!(minus(-40i32, 2), -42);
    assert_eq!(plus(i64::MAX, i64::MIN), -1);
}
