//! `R_K = K[X]/(Phi)`: the embedding `R_F -> R_K` is a ring homomorphism and the mixed
//! product `R_K x R_F -> R_K` agrees with `R_F` multiplication.

use rand::{RngCore, SeedableRng};
use rand_chacha::ChaCha8Rng;
use superneo::ext2::Ext2;
use superneo::fp::Fp;
use superneo::ring::{RingElem, D};
use superneo::ring_k::RingK;

fn rng() -> ChaCha8Rng {
    ChaCha8Rng::seed_from_u64(0x0BAD_F00D_5EED_1234)
}

fn rand_rf(r: &mut ChaCha8Rng) -> RingElem {
    let mut c = [Fp::zero(); D];
    for x in c.iter_mut() {
        *x = Fp::new(r.next_u64());
    }
    RingElem::from_coeffs(c)
}

#[test]
fn embedding_is_ring_homomorphism() {
    let mut r = rng();
    for _ in 0..5_000 {
        let a = rand_rf(&mut r);
        let b = rand_rf(&mut r);
        let lhs = RingK::from_rf(&a).mul_rf(&b);
        let rhs = RingK::from_rf(&(a * b));
        assert_eq!(lhs, rhs);
    }
}

#[test]
fn add_and_scale_are_consistent() {
    let mut r = rng();
    for _ in 0..5_000 {
        let a = rand_rf(&mut r);
        let b = rand_rf(&mut r);
        let ka = RingK::from_rf(&a);
        let kb = RingK::from_rf(&b);
        assert_eq!(ka.add(&kb), RingK::from_rf(&(a + b)));
        let s = Fp::new(r.next_u64());
        assert_eq!(ka.scale_fp(s), RingK::from_rf(&a.scale(s)));
    }
}

#[test]
fn ct_picks_constant_coefficient() {
    let mut r = rng();
    for _ in 0..2_000 {
        let a = rand_rf(&mut r);
        assert_eq!(RingK::from_rf(&a).ct(), Ext2::from_base(a.coeffs()[0]));
    }
}

#[test]
fn ext_scaling_distributes_over_constant() {
    let mut r = rng();
    for _ in 0..2_000 {
        let k = Ext2::new(Fp::new(r.next_u64()), Fp::new(r.next_u64()));
        let m = Ext2::new(Fp::new(r.next_u64()), Fp::new(r.next_u64()));
        assert_eq!(RingK::from_const(k).scale_ext(m).ct(), k * m);
    }
}

#[test]
fn ring_k_constant_and_zero() {
    let k = Ext2::new(Fp::new(3), Fp::new(4));
    let c = RingK::from_const(k);
    assert_eq!(c.coeff(0), k);
    assert_eq!(c.coeff(1), Ext2::zero());
    assert!(RingK::zero().equals(&RingK::from_const(Ext2::zero())));
}

fn rand_rk(r: &mut ChaCha8Rng) -> RingK {
    let mut c = [Ext2::zero(); D];
    for x in c.iter_mut() {
        *x = Ext2::new(Fp::new(r.next_u64()), Fp::new(r.next_u64()));
    }
    RingK::from_coeffs(c)
}

#[test]
fn mixed_product_is_a_module_action() {
    let mut r = rng();
    for _ in 0..200 {
        let y = rand_rk(&mut r);
        let y2 = rand_rk(&mut r);
        let a = rand_rf(&mut r);
        let b = rand_rf(&mut r);
        assert_eq!(y.mul_rf(&RingElem::one()), y);
        assert_eq!(y.mul_rf(&a).mul_rf(&b), y.mul_rf(&(a * b)));
        assert_eq!(y.mul_rf(&(a + b)), y.mul_rf(&a).add(&y.mul_rf(&b)));
        assert_eq!(y.add(&y2).mul_rf(&a), y.mul_rf(&a).add(&y2.mul_rf(&a)));
    }
}
