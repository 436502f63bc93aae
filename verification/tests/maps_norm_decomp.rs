//! Embedding, the balanced infinity norm, and the base-`b` decomposition `split_b`
//! (round trip and norm bound).

use rand::{Rng, RngCore, SeedableRng};
use rand_chacha::ChaCha8Rng;
use superneo::decomp::{recompose_b, split_b};
use superneo::error::RingError;
use superneo::fp::Fp;
use superneo::maps::embed_vector;
use superneo::norm::{norm_inf_fp, norm_inf_ring, norm_inf_ring_vec};
use superneo::ring::{RingElem, D};

fn rng() -> ChaCha8Rng {
    ChaCha8Rng::seed_from_u64(0x1357_9BDF_2468_ACE0)
}

#[test]
fn embed_chunks_into_d_blocks() {
    let mut r = rng();
    let n_r = 5usize;
    let z: Vec<Fp> = (0..D * n_r).map(|_| Fp::new(r.next_u64())).collect();
    let ring = embed_vector(&z).unwrap();
    assert_eq!(ring.len(), n_r);
    for (i, elem) in ring.iter().enumerate() {
        for j in 0..D {
            assert_eq!(elem.coeffs()[j], z[i * D + j]);
        }
    }
}

#[test]
fn embed_rejects_misaligned() {
    let z = vec![Fp::one(); D + 1];
    assert!(matches!(embed_vector(&z), Err(RingError::Misaligned(_))));
}

#[test]
fn norm_inf_is_max_balanced_magnitude() {
    let v = vec![Fp::one(), -Fp::new(5), Fp::new(3), Fp::zero()];
    assert_eq!(norm_inf_fp(&v), 5);
    let ring = embed_vector(&{
        let mut z = vec![Fp::zero(); D * 2];
        z[0] = Fp::new(7);
        z[D] = -Fp::new(9);
        z
    })
    .unwrap();
    assert_eq!(norm_inf_ring_vec(&ring), 9);
}

#[test]
fn split_b_roundtrip_and_norm_bound() {
    let b = 2u64;
    let k = 14usize;
    let bound = b.pow(k as u32) as i64;
    let mut r = rng();
    for _ in 0..2_000 {
        let z: Vec<Fp> = (0..32)
            .map(|_| {
                let v = r.random_range(-(bound - 1)..bound);
                Fp::from_i64(v)
            })
            .collect();
        let parts = split_b(&z, b, k).unwrap();
        assert_eq!(parts.len(), k);
        for part in &parts {
            assert!(norm_inf_fp(part) < b, "decomposition part exceeds norm bound");
        }
        assert_eq!(recompose_b(&parts, b), z);
    }
}

#[test]
fn split_b_rejects_out_of_range() {
    let b = 2u64;
    let k = 4usize;
    let z = vec![Fp::from_i64(16)];
    assert!(matches!(split_b(&z, b, k), Err(RingError::NormBound { .. })));
    let z_ok = vec![Fp::from_i64(15)];
    assert!(split_b(&z_ok, b, k).is_ok());
}

#[test]
fn split_b_general_base() {
    let b = 5u64;
    let k = 6usize;
    let bound = b.pow(k as u32) as i64;
    let mut r = rng();
    for _ in 0..2_000 {
        let z: Vec<Fp> = (0..16).map(|_| Fp::from_i64(r.random_range(-(bound - 1)..bound))).collect();
        let parts = split_b(&z, b, k).unwrap();
        for part in &parts {
            assert!(norm_inf_fp(part) < b);
        }
        assert_eq!(recompose_b(&parts, b), z);
    }
}

#[test]
fn split_b_exact_digits() {
    // -3 in base 2 with 3 digits: -1 - 2 = -3 (balanced digits carry the sign).
    let parts = split_b(&[Fp::from_i64(-3)], 2, 3).unwrap();
    assert_eq!(recompose_b(&parts, 2), vec![Fp::from_i64(-3)]);
    assert_eq!(parts[0], vec![Fp::from_i64(-1)]);
    assert_eq!(parts[1], vec![Fp::from_i64(-1)]);
    assert_eq!(parts[2], vec![Fp::zero()]);
    // The error names the offending magnitude and the bound.
    assert_eq!(split_b(&[Fp::from_i64(-16)], 2, 4), Err(RingError::NormBound { got: 16, bound: 16 }));
}

#[test]
fn norm_of_a_single_ring_element() {
    let mut c = [Fp::zero(); D];
    c[3] = Fp::from_i64(-12);
    c[7] = Fp::new(11);
    assert_eq!(norm_inf_ring(&RingElem::from_coeffs(c)), 12);
    assert_eq!(embed_vector(&[]).unwrap().len(), 0);
}
