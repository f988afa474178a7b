//! End-to-end circuits, checked against the compiled system and witness.

use waseki::fe::{fe_minus_one, Fe};
use waseki::{ConstraintSystem, V};

fn fe(x: u64) -> Fe {
    Fe::from_u64(x)
}

#[test]
fn s1_trivial_input() {
    let mut cs = ConstraintSystem::new();
    cs.synthesize_with(|mut s| {
        let x = s.input(fe(7));
        s.inputize(x);
        (s, ())
    });
    let r1 = cs.compiled().expect("compiled");
    assert_eq!(r1.num_inputs(), 2);
    assert_eq!(r1.num_inputs() + r1.num_auxs(), 2);
    assert_eq!(r1.num_constraints(), 0);
    assert_eq!(cs.witness_len(), 2);
    assert_eq!(cs.witness_at(0), fe(1));
    assert_eq!(cs.witness_at(1), fe(7));
    assert!(cs.is_satisfied());
}

#[test]
fn s2_multiplication() {
    let mut cs = ConstraintSystem::new();
    cs.synthesize_with(|mut s| {
        let x = s.input(fe(3));
        let y = s.input(fe(4));
        let p = s.mul(x, y);
        s.inputize(p);
        (s, ())
    });
    let r1 = cs.compiled().expect("compiled");
    assert_eq!(r1.num_constraints(), 1);
    // the table lists the declared inputs first: the constant wire, x, y,
    // then the product's wire
    assert_eq!(r1.wire_of(0), 0);
    assert_eq!(r1.wire_of(1), 1);
    assert_eq!(r1.wire_of(2), 2);
    assert_eq!(r1.wire_of(3), 3);
    let (a, b, c) = r1.row(0);
    assert_eq!(a, vec![(1, fe(1))]);
    assert_eq!(b, vec![(2, fe(1))]);
    assert_eq!(c, vec![(3, fe_minus_one())]);
    assert_eq!(cs.witness_len(), 4);
    assert_eq!(cs.witness_at(0), fe(1));
    assert_eq!(cs.witness_at(1), fe(3));
    assert_eq!(cs.witness_at(2), fe(4));
    assert_eq!(cs.witness_at(3), fe(12));
    assert!(cs.is_satisfied());
}

#[test]
fn s3_fibonacci_step() {
    let mut cs = ConstraintSystem::new();
    cs.synthesize_with(|mut s| {
        let f0 = s.input(fe(1));
        let f1 = s.input(fe(1));
        let f2 = s.add(f0, f1.clone());
        s.inputize(f2.clone());
        let f3 = s.add(f1, f2);
        s.inputize(f3);
        (s, ())
    });
    let r1 = cs.compiled().expect("compiled");
    assert_eq!(r1.num_constraints(), 2);
    for i in 0..2 {
        let (a, b, _c) = r1.row(i);
        assert!(a.is_empty());
        assert!(b.is_empty());
    }
    let values: Vec<Fe> = (0..cs.witness_len()).map(|i| cs.witness_at(i)).collect();
    for v in [fe(1), fe(1), fe(2), fe(3)] {
        assert!(values.contains(&v));
    }
    assert!(cs.is_satisfied());
}

#[test]
fn s4_cubic_polynomial() {
    let mut cs = ConstraintSystem::new();
    let e_val = cs.synthesize_with(|mut s| {
        let x = s.input(fe(3));
        let x2 = s.mul(x.clone(), x.clone());
        let x3 = s.mul(x2, x.clone());
        let e = s.add(x3, x);
        let five = s.constant(fe(5));
        let e = s.add(e, five);
        let v = e.value();
        s.inputize(e);
        (s, v)
    });
    assert_eq!(e_val, fe(35));
    let r1 = cs.compiled().expect("compiled");
    // one row binds x*x to its wire; the second binds x2*x together with the
    // folded linear tail x + 5 to the declared output wire
    assert_eq!(r1.num_constraints(), 2);
    for i in 0..2 {
        let (a, b, _c) = r1.row(i);
        assert!(!a.is_empty());
        assert!(!b.is_empty());
    }
    assert!(cs.is_satisfied());
}

#[test]
fn s5_unused_algebra_elided() {
    let mut cs = ConstraintSystem::new();
    cs.synthesize_with(|mut s| {
        let u = s.input(fe(2));
        let v = s.allocate(fe(9));
        let _w = s.mul(u, v);
        (s, ())
    });
    let r1 = cs.compiled().expect("compiled");
    assert_eq!(r1.num_constraints(), 0);
    assert_eq!(r1.num_auxs(), 0);
    assert_eq!(r1.num_inputs(), 2);
    assert_eq!(cs.witness_len(), 2);
    assert!(cs.is_satisfied());
}

#[test]
fn prune_unreached_definitions() {
    // squaring forces a wire definition for the inner product; with nothing
    // declared from it, the reachability pass drops it
    let mut cs = ConstraintSystem::new();
    cs.synthesize_with(|mut s| {
        let u = s.input(fe(2));
        let v = s.allocate(fe(9));
        let w = s.mul(u, v);
        let _w2 = s.mul(w.clone(), w);
        (s, ())
    });
    let r1 = cs.compiled().expect("compiled");
    assert_eq!(r1.num_constraints(), 0);
    assert_eq!(r1.num_auxs(), 0);
    assert_eq!(r1.num_inputs(), 2);
    assert!(cs.is_satisfied());
}

fn cubic(s: &mut waseki::ConstraintSynthesizer, x: Fe) {
    let x = s.input(x);
    let x2 = s.mul(x.clone(), x.clone());
    let x3 = s.mul(x2, x.clone());
    let e = s.add(x3, x);
    let five = s.constant(fe(5));
    let e = s.add(e, five);
    s.inputize(e);
}

fn rows_of(r1: &waseki::R1CS) -> Vec<(Vec<(usize, Fe)>, Vec<(usize, Fe)>, Vec<(usize, Fe)>)> {
    (0..r1.num_constraints()).map(|i| r1.row(i)).collect()
}

#[test]
fn s6_resynthesis() {
    let mut cs = ConstraintSystem::new();
    cs.synthesize_with(|mut s| {
        cubic(&mut s, fe(3));
        (s, ())
    });
    let rows1 = rows_of(cs.compiled().expect("compiled"));
    let wit1: Vec<Fe> = (0..cs.witness_len()).map(|i| cs.witness_at(i)).collect();
    assert!(cs.is_satisfied());

    // the same value again: the compiled system is reused and the witness
    // comes out equal
    cs.synthesize_with(|mut s| {
        cubic(&mut s, fe(3));
        (s, ())
    });
    let rows2 = rows_of(cs.compiled().expect("compiled"));
    let wit2: Vec<Fe> = (0..cs.witness_len()).map(|i| cs.witness_at(i)).collect();
    assert_eq!(rows1, rows2);
    assert_eq!(wit1, wit2);
    assert!(cs.is_satisfied());

    // a different value: same system, witness differing past the constant
    cs.synthesize_with(|mut s| {
        cubic(&mut s, fe(4));
        (s, ())
    });
    let rows3 = rows_of(cs.compiled().expect("compiled"));
    let wit3: Vec<Fe> = (0..cs.witness_len()).map(|i| cs.witness_at(i)).collect();
    assert_eq!(rows1, rows3);
    assert_eq!(wit1.len(), wit3.len());
    assert_ne!(wit1, wit3);
    assert_eq!(wit3[0], fe(1));
    assert!(cs.is_satisfied());
}

#[test]
fn resynthesis_with_fewer_wires_yields_no_witness() {
    // the driver reuses the compiled system and assumes the closure allocates
    // wires in a stable order; a second run with fewer wires cannot fill the
    // cached table, so the witness comes out empty and satisfies nothing
    let mut cs = ConstraintSystem::new();
    cs.synthesize_with(|mut s| {
        cubic(&mut s, fe(3));
        (s, ())
    });
    assert!(cs.is_satisfied());
    cs.synthesize_with(|mut s| {
        let x = s.input(fe(3));
        s.inputize(x);
        (s, ())
    });
    assert_eq!(cs.witness_len(), 0);
    assert!(!cs.is_satisfied());
}

#[test]
fn equality_holds_and_fails() {
    let mut cs = ConstraintSystem::new();
    cs.synthesize_with(|mut s| {
        let x = s.input(fe(5));
        let y = s.input(fe(5));
        s.equal(x, y);
        (s, ())
    });
    assert_eq!(cs.compiled().expect("compiled").num_constraints(), 1);
    assert!(cs.is_satisfied());

    let mut cs2 = ConstraintSystem::new();
    cs2.synthesize_with(|mut s| {
        let x = s.input(fe(3));
        let y = s.input(fe(4));
        s.equal(x, y);
        (s, ())
    });
    assert!(!cs2.is_satisfied());
}

#[test]
fn equals_const_obligation() {
    let mut cs = ConstraintSystem::new();
    cs.synthesize_with(|mut s| {
        let x = s.input(fe(3));
        let x2 = s.mul(x.clone(), x);
        s.equals_const(x2, fe(9));
        (s, ())
    });
    assert!(cs.is_satisfied());

    let mut cs2 = ConstraintSystem::new();
    cs2.synthesize_with(|mut s| {
        let x = s.input(fe(3));
        let x2 = s.mul(x.clone(), x);
        s.equals_const(x2, fe(10));
        (s, ())
    });
    assert!(!cs2.is_satisfied());
}

#[test]
fn empty_variable_is_identity() {
    let mut cs = ConstraintSystem::new();
    let (sum_v, prod_v) = cs.synthesize_with(|mut s| {
        let n = V::new();
        let x = s.input(fe(6));
        let sum = s.add(n.clone(), x.clone());
        let prod = s.mul(n, x);
        (s, (sum.value(), prod.value()))
    });
    assert_eq!(sum_v, fe(6));
    assert_eq!(prod_v, fe(6));
}
