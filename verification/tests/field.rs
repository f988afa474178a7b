//! The field element layer: canonical limbs and arithmetic through the
//! backing curve library.

use waseki::fe::{fe_add, fe_minus_one, fe_mul, fe_neg, fe_sub, Fe};

fn fe(x: u64) -> Fe {
    Fe::from_u64(x)
}

#[test]
fn field_add_and_mul() {
    assert_eq!(fe_add(fe(2), fe(3)), fe(5));
    assert_eq!(fe_mul(fe(6), fe(7)), fe(42));
    assert_eq!(fe_add(fe(0), fe(9)), fe(9));
    assert_eq!(fe_mul(fe(1), fe(9)), fe(9));
    assert_eq!(fe_mul(fe(0), fe(9)), fe(0));
}

#[test]
fn field_negation_wraps() {
    // 5 - 7 is the same element as -(2)
    assert_eq!(fe_sub(fe(5), fe(7)), fe_neg(fe(2)));
    // minus one really is the additive inverse of one
    assert_eq!(fe_add(fe_minus_one(), fe(1)), fe(0));
    assert_eq!(fe_neg(fe(0)), fe(0));
    assert_eq!(fe_neg(fe(1)), fe_minus_one());
}

#[test]
fn field_large_values_reduce() {
    // (2^64 - 1)^2 spills well past one limb and still round-trips through
    // canonical form: (a*b)*1 == a*b
    let big = fe(u64::MAX);
    let sq = fe_mul(big, big);
    assert_eq!(fe_mul(sq, fe(1)), sq);
    assert_ne!(sq, big);
    // additions past the modulus wrap: p-1 + 2 == 1
    assert_eq!(fe_add(fe_minus_one(), fe(2)), fe(1));
}

#[test]
fn field_zero_is_detected() {
    assert!(fe(0).is_zero());
    assert!(!fe(3).is_zero());
    assert!(fe_add(fe_minus_one(), fe(1)).is_zero());
}
