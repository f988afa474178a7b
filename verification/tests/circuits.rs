//! Circuits exercising long linear chains, powers and repeated synthesis.

use ark_std::rand::RngCore;
use waseki::fe::Fe;
use waseki::{ConstraintSynthesizer, ConstraintSystem, V};

fn fe(x: u64) -> Fe {
    Fe::from_u64(x)
}

fn pow(s: &mut ConstraintSynthesizer, base: V, exp: u64) -> V {
    s.pow(base, exp)
}

#[test]
fn test_pow() {
    let mut cs = ConstraintSystem::new();
    let b = cs.synthesize_with(|mut s| {
        let a = s.allocate(fe(2));
        let b = pow(&mut s, a, 3);
        (s, b.value())
    });
    assert_eq!(b, fe(8));
}

fn waseki_pow(base: u64, exp: u64) -> ConstraintSystem {
    let mut cs = ConstraintSystem::new();
    cs.synthesize_with(|mut s| {
        let a = s.input(fe(base));
        let b = pow(&mut s, a, exp);
        s.inputize(b);
        (s, ())
    });
    cs
}

#[test]
fn trest_waseki_pow() {
    let cs = waseki_pow(2, 3);
    assert!(cs.is_satisfied())
}

#[test]
fn test_linearize() {
    let mut cs = ConstraintSystem::new();
    cs.synthesize_with(|mut s| {
        let mut parts: Vec<V> = Vec::new();
        for n in 0..64u64 {
            parts.push(s.allocate(fe(n)));
        }
        let a = s.sum(parts);
        s.inputize(a.clone());
        let x = s.allocate(fe(111));
        let a = s.add(a, x);
        let x = s.allocate(fe(222));
        let a = s.add(a, x);
        let x = s.allocate(fe(333));
        let a = s.add(a, x);
        let x = s.allocate(fe(444));
        let _a = s.add(a, x);
        (s, ())
    });
    assert!(cs.is_satisfied());
}

#[test]
fn test_only_correct_witness() {
    let mut rng = ark_std::test_rng();
    let mut cs = ConstraintSystem::new();
    let x1 = rng.next_u64();
    cs.synthesize_with(|mut s| {
        vitalik_example(&mut s, fe(x1));
        (s, ())
    });
    assert!(cs.is_satisfied());
    let x2 = rng.next_u64();
    cs.synthesize_with(|mut s| {
        vitalik_example(&mut s, fe(x2));
        (s, ())
    });
    assert!(cs.is_satisfied());
}

fn vitalik_example(s: &mut ConstraintSynthesizer, x: Fe) {
    let x = s.input(x);
    let x2 = s.mul(x.clone(), x.clone());
    let x3 = s.mul(x2, x.clone());
    let five = s.constant(fe(5));
    let expr = s.add(x3, x);
    let expr = s.add(expr, five);
    s.inputize(expr);
}

#[test]
fn test_large_linear_quadratic() {
    let mut cs = ConstraintSystem::new();
    cs.synthesize_with(|mut s| {
        let mut xs: Vec<V> = Vec::new();
        for i in 0..10u64 {
            xs.push(s.allocate(fe(i)));
        }
        let x = s.sum(xs);
        let mut ys: Vec<V> = Vec::new();
        for i in 0..10u64 {
            ys.push(s.allocate(fe(i)));
        }
        let y = s.sum(ys);
        let z = s.mul(x, y);
        let z = s.mul(z.clone(), z);
        s.inputize(z);
        (s, ())
    });
    assert!(cs.is_satisfied());
}
