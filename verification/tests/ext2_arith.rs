//! `Ext2 = F_q[u]/(u^2 - 7)`: non-residue check, field axioms, inverse, and the
//! Frobenius identity `z^q = conj(z)`.

use rand::{RngCore, SeedableRng};
use rand_chacha::ChaCha8Rng;
use superneo::ext2::Ext2;
use superneo::fp::Fp;
use superneo::Q;

fn rng() -> ChaCha8Rng {
    ChaCha8Rng::seed_from_u64(0x00C0_FFEE_1234_5678)
}

fn rand_fp(r: &mut ChaCha8Rng) -> Fp {
    Fp::new(r.next_u64())
}

fn rand_ext2(r: &mut ChaCha8Rng) -> Ext2 {
    Ext2::new(rand_fp(r), rand_fp(r))
}

#[test]
fn seven_is_a_non_residue() {
    let legendre = Fp::new(7).pow((Q - 1) / 2);
    assert_eq!(legendre, Fp::new(Q - 1), "7 must be a quadratic non-residue");
}

#[test]
fn u_squared_is_seven() {
    let u = Ext2::new(Fp::zero(), Fp::one());
    assert_eq!(u.square(), Ext2::from_base(Fp::new(7)));
}

#[test]
fn ext2_arith_field_axioms() {
    let mut r = rng();
    for _ in 0..50_000 {
        let (a, b, c) = (rand_ext2(&mut r), rand_ext2(&mut r), rand_ext2(&mut r));
        assert_eq!(a + b, b + a);
        assert_eq!(a * b, b * a);
        assert_eq!((a + b) + c, a + (b + c));
        assert_eq!((a * b) * c, a * (b * c));
        assert_eq!(a * (b + c), a * b + a * c);
        assert_eq!(a + Ext2::zero(), a);
        assert_eq!(a * Ext2::one(), a);
        assert_eq!(a + (-a), Ext2::zero());
    }
}

#[test]
fn base_field_embedding_is_a_homomorphism() {
    let mut r = rng();
    for _ in 0..20_000 {
        let (x, y) = (rand_fp(&mut r), rand_fp(&mut r));
        assert_eq!(Ext2::from_base(x) + Ext2::from_base(y), Ext2::from_base(x + y));
        assert_eq!(Ext2::from_base(x) * Ext2::from_base(y), Ext2::from_base(x * y));
        let z = rand_ext2(&mut r);
        assert_eq!(z.mul_base(x), z * Ext2::from_base(x));
    }
}

#[test]
fn inverse_roundtrip() {
    let mut r = rng();
    for _ in 0..20_000 {
        let z = rand_ext2(&mut r);
        if z.is_zero() {
            assert!(z.inv().is_err());
            continue;
        }
        assert_eq!(z * z.inv().unwrap(), Ext2::one());
    }
}

#[test]
fn frobenius_is_conjugation() {
    let mut r = rng();
    for _ in 0..2_000 {
        let z = rand_ext2(&mut r);
        assert_eq!(z.pow(Q), z.conjugate());
    }
}

#[test]
fn norm_lands_in_base_field_and_is_multiplicative() {
    let mut r = rng();
    for _ in 0..20_000 {
        let (x, y) = (rand_ext2(&mut r), rand_ext2(&mut r));
        assert_eq!((x * y).norm(), x.norm() * y.norm());
        assert_eq!(Ext2::from_base(x.norm()), x * x.conjugate());
    }
}

#[test]
fn ext2_exact_products() {
    // (1 + 2u)(3 + 4u) = (3 + 7*8) + (4 + 6)u = 59 + 10u.
    let a = Ext2::new(Fp::new(1), Fp::new(2));
    let b = Ext2::new(Fp::new(3), Fp::new(4));
    assert_eq!(a * b, Ext2::new(Fp::new(59), Fp::new(10)));
    // norm(1 + 2u) = 1 - 7*4 = -27.
    assert_eq!(a.norm(), Fp::from_i64(-27));
    assert!(Ext2::zero().inv().is_err());
}

#[test]
fn norm_vanishes_only_at_zero() {
    let samples = [
        Ext2::new(Fp::new(0), Fp::new(1)),
        Ext2::new(Fp::new(1), Fp::new(0)),
        Ext2::new(Fp::new(7), Fp::new(1)),
        Ext2::new(Fp::new(123456789), Fp::new(987654321)),
    ];
    for z in samples.iter() {
        assert!(z.inv().is_ok());
        assert_eq!(*z * z.inv().unwrap(), Ext2::one());
    }
    assert!(Ext2::zero().inv().is_err());
}
