//! The R1CS builder: multiplication and equality constraints, satisfaction, and the
//! finalized CCS instance.

use superneo::circuit::{ConstraintSystem, KVar, Lc};
use superneo::ext2::Ext2;
use superneo::fp::Fp;

#[test]
fn mul_gate_is_satisfied_and_finalizes() {
    let mut cs = ConstraintSystem::new();
    let x = cs.allocate(Fp::new(3));
    let y = cs.allocate(Fp::new(5));
    let z = cs.mul(&Lc::from_var(x), &Lc::from_var(y));
    assert_eq!(cs.eval(&Lc::from_var(z)), Fp::new(15));
    assert_eq!(cs.num_vars(), 4);
    assert_eq!(cs.num_constraints(), 1);
    assert!(cs.is_satisfied());
    let (s, w) = cs.finalize();
    assert_eq!(s.t(), 4);
    assert_eq!(s.m % 54, 0);
    assert_eq!(w.len(), s.m);
    assert!(cs.finalized_relation_holds());
}

#[test]
fn false_equality_breaks_satisfaction() {
    let mut cs = ConstraintSystem::new();
    let x = cs.allocate(Fp::new(3));
    let three = cs.constant(Fp::new(3));
    cs.assert_eq(&Lc::from_var(x), &three);
    assert!(cs.is_satisfied());
    let four = cs.constant(Fp::new(4));
    cs.assert_eq(&Lc::from_var(x), &four);
    assert!(!cs.is_satisfied());
    assert!(!cs.finalized_relation_holds());
}

#[test]
fn linear_combinations_evaluate() {
    let mut cs = ConstraintSystem::new();
    let x = cs.allocate(Fp::new(7));
    let y = cs.allocate(Fp::new(2));
    let lc = Lc::from_var(x).scale(Fp::new(3)).add(&Lc::from_var(y)).sub(&Lc::from_var(cs.one()));
    assert_eq!(cs.eval(&lc), Fp::new(22));
    assert_eq!(cs.eval(&Lc::zero()), Fp::zero());
}

#[test]
fn k_gadget_multiplies_in_the_extension() {
    let mut cs = ConstraintSystem::new();
    let a = KVar::allocate(&mut cs, Ext2::new(Fp::new(1), Fp::new(2)));
    let b = KVar::allocate(&mut cs, Ext2::new(Fp::new(3), Fp::new(4)));
    let p = a.mul(&mut cs, &b);
    let expected = KVar::constant(&cs, Ext2::new(Fp::new(59), Fp::new(10)));
    p.assert_eq(&mut cs, &expected);
    assert!(cs.is_satisfied());
    let wrong = KVar::constant(&cs, Ext2::new(Fp::new(59), Fp::new(11)));
    p.assert_eq(&mut cs, &wrong);
    assert!(!cs.is_satisfied());
}
