//! The bar / inner-product transform: `ct(bar(a) b) = <a, b>`, `Mz = ct(Mbar z)`,
//! `det(G) = +-1`, and bar linearity.

use rand::{RngCore, SeedableRng};
use rand_chacha::ChaCha8Rng;
use superneo::bar::{bar_block, bar_matrix, bar_ring, determinant, gram};
use superneo::fp::Fp;
use superneo::maps::{bar_matrix_row, embed_vector, mbar_row_dot_z};
use superneo::ring::{RingElem, D};

fn rng() -> ChaCha8Rng {
    ChaCha8Rng::seed_from_u64(0xB5_AD_4E_CE_DA_1C_E2_A9)
}

fn rand_block(r: &mut ChaCha8Rng) -> [Fp; D] {
    let mut c = [Fp::zero(); D];
    for x in c.iter_mut() {
        *x = Fp::new(r.next_u64());
    }
    c
}

fn dot(a: &[Fp; D], b: &[Fp; D]) -> Fp {
    let mut acc = Fp::zero();
    for i in 0..D {
        acc = acc + a[i] * b[i];
    }
    acc
}

#[test]
fn gram_determinant_is_plus_or_minus_one() {
    let det = determinant(&gram());
    assert!(det == Fp::one() || det == -Fp::one(), "det(G) must be +-1, got {det:?}");
}

#[test]
fn bar_matrix_inverts_gram() {
    let b = bar_matrix();
    let g = gram();
    for j in 0..D {
        for k in 0..D {
            let mut acc = Fp::zero();
            for m in 0..D {
                acc = acc + b[j][m] * g[m][k];
            }
            let expected = if j == k { Fp::one() } else { Fp::zero() };
            assert_eq!(acc, expected, "(B G)[{j}][{k}]");
        }
    }
}

#[test]
fn theorem5_on_basis_vectors() {
    for i in 0..D {
        let mut ei = [Fp::zero(); D];
        ei[i] = Fp::one();
        let bar_ei = bar_ring(&ei);
        for j in 0..D {
            let mut ej = [Fp::zero(); D];
            ej[j] = Fp::one();
            let got = (bar_ei * RingElem::from_coeffs(ej)).ct();
            let want = if i == j { Fp::one() } else { Fp::zero() };
            assert_eq!(got, want, "inner-product transform failed at (e{i}, e{j})");
        }
    }
}

#[test]
fn theorem5_on_random_vectors() {
    let mut r = rng();
    for _ in 0..20_000 {
        let a = rand_block(&mut r);
        let b = rand_block(&mut r);
        let got = (bar_ring(&a) * RingElem::from_coeffs(b)).ct();
        assert_eq!(got, dot(&a, &b));
    }
}

#[test]
fn theorem6_matrix_vector_transform() {
    let mut r = rng();
    let m = 6usize;
    let n_r = 3usize;
    let n_f = D * n_r;
    for _ in 0..200 {
        let z: Vec<Fp> = (0..n_f).map(|_| Fp::new(r.next_u64())).collect();
        let z_ring = embed_vector(&z).unwrap();
        for _row in 0..m {
            let row: Vec<Fp> = (0..n_f).map(|_| Fp::new(r.next_u64())).collect();
            let mut mz = Fp::zero();
            for k in 0..n_f {
                mz = mz + row[k] * z[k];
            }
            let bar_row = bar_matrix_row(&row).unwrap();
            let got = mbar_row_dot_z(&bar_row, &z_ring).ct();
            assert_eq!(got, mz, "matrix-vector transform failed");
        }
    }
}

#[test]
fn bar_is_linear() {
    let mut r = rng();
    for _ in 0..10_000 {
        let a = rand_block(&mut r);
        let b = rand_block(&mut r);
        let s = Fp::new(r.next_u64());

        let sum: [Fp; D] = std::array::from_fn(|i| a[i] + b[i]);
        let ba = bar_block(&a);
        let bb = bar_block(&b);
        let bsum = bar_block(&sum);
        for i in 0..D {
            assert_eq!(bsum[i], ba[i] + bb[i], "bar not additive");
        }

        let scaled: [Fp; D] = std::array::from_fn(|i| a[i] * s);
        let bscaled = bar_block(&scaled);
        for i in 0..D {
            assert_eq!(bscaled[i], ba[i] * s, "bar not scalar-linear");
        }
    }
}

#[test]
fn bar_fixes_constant_and_negates_reverses() {
    // bar(e_0) = e_0, and bar(e_1) has its only nonzero coefficient at X^53.
    let mut e0 = [Fp::zero(); D];
    e0[0] = Fp::one();
    assert_eq!(bar_block(&e0), e0);
    let mut e1 = [Fp::zero(); D];
    e1[1] = Fp::one();
    let b1 = bar_block(&e1);
    let nonzero: Vec<usize> = (0..D).filter(|&i| b1[i] != Fp::zero()).collect();
    assert!(!nonzero.is_empty());
    assert!(nonzero.iter().all(|&i| i != 0));
}
