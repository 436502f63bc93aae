//! Goldilocks `Fp`: field axioms, Solinas known vectors, Fermat, and a reduce128
//! cross-check against `%` on `u128`.

use rand::{RngCore, SeedableRng};
use rand_chacha::ChaCha8Rng;
use superneo::fp::Fp;
use superneo::Q;

fn rng() -> ChaCha8Rng {
    ChaCha8Rng::seed_from_u64(0x5142_3370_DEAD_BEEF)
}

fn rand_fp(r: &mut ChaCha8Rng) -> Fp {
    Fp::new(r.next_u64())
}

#[test]
fn solinas_known_vectors() {
    // (q - 1) = -1, so (q - 1)^2 = 1.
    assert_eq!(Fp::new(Q - 1) * Fp::new(Q - 1), Fp::one());
    // 2^64 = 2^32 - 1 (mod q).
    let two32 = Fp::new(1 << 32);
    assert_eq!(two32 * two32, Fp::new((1 << 32) - 1));
    // 2^96 = -1.
    let two64 = two32 * two32;
    assert_eq!(two32 * two64, Fp::new(Q - 1));
    // 1^-1 = 1.
    assert_eq!(Fp::one().inv().unwrap(), Fp::one());
}

#[test]
fn reduce128_matches_reference() {
    let mut r = rng();
    for _ in 0..200_000 {
        let x = ((r.next_u64() as u128) << 64) | (r.next_u64() as u128);
        let got = Fp::reduce128(x).to_u64();
        let want = (x % (Q as u128)) as u64;
        assert_eq!(got, want, "reduce128 mismatch for x = {x:#034x}");
    }
}

#[test]
fn fp_arith_field_axioms() {
    let mut r = rng();
    for _ in 0..50_000 {
        let (a, b, c) = (rand_fp(&mut r), rand_fp(&mut r), rand_fp(&mut r));
        assert_eq!(a + b, b + a);
        assert_eq!(a * b, b * a);
        assert_eq!((a + b) + c, a + (b + c));
        assert_eq!((a * b) * c, a * (b * c));
        assert_eq!(a * (b + c), a * b + a * c);
        assert_eq!(a + Fp::zero(), a);
        assert_eq!(a * Fp::one(), a);
        assert_eq!(a + (-a), Fp::zero());
        assert_eq!(a - b, a + (-b));
    }
}

#[test]
fn inverse_roundtrip_and_fermat() {
    let mut r = rng();
    for _ in 0..20_000 {
        let a = rand_fp(&mut r);
        if a.is_zero() {
            assert!(a.inv().is_err());
            continue;
        }
        assert_eq!(a * a.inv().unwrap(), Fp::one());
        assert_eq!(a.pow(Q - 1), Fp::one());
    }
}

#[test]
fn balanced_representative() {
    assert_eq!(Fp::zero().balanced(), 0);
    assert_eq!(Fp::one().balanced(), 1);
    assert_eq!(Fp::new(Q - 1).balanced(), -1);
    assert_eq!(Fp::new(Q - 1).abs_balanced(), 1);
    assert!(Fp::new(Q / 2 + 1).balanced() < 0);
    assert!(Fp::new(Q / 2).balanced() > 0);
    let mut r = rng();
    for _ in 0..10_000 {
        assert!(rand_fp(&mut r).abs_balanced() <= Q / 2);
    }
}

#[test]
fn pow_small_consistency() {
    let mut r = rng();
    for _ in 0..5_000 {
        let a = rand_fp(&mut r);
        assert_eq!(a.pow(0), Fp::one());
        assert_eq!(a.pow(1), a);
        assert_eq!(a.pow(2), a.square());
        assert_eq!(a.pow(3), a * a * a);
    }
}

#[test]
fn zero_has_no_inverse() {
    assert!(Fp::zero().inv().is_err());
}

#[test]
fn from_canonical_rejects_q() {
    assert!(Fp::from_canonical(Q).is_err());
    assert_eq!(Fp::from_canonical(Q - 1).unwrap(), Fp::new(Q - 1));
}

#[test]
fn from_i64_wraps_negatives() {
    assert_eq!(Fp::from_i64(-1), Fp::new(Q - 1));
    assert_eq!(Fp::from_i64(5), Fp::new(5));
    assert_eq!(Fp::new(Q + 3), Fp::new(3));
}
