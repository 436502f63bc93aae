//! Sum-check: completeness, the `Q(r')` reduction, and soundness (a wrong claim or a
//! tampered round polynomial is rejected).

use rand::{RngCore, SeedableRng};
use rand_chacha::ChaCha8Rng;
use superneo::error::FoldError;
use superneo::ext2::Ext2;
use superneo::fp::Fp;
use superneo::multilinear::mle_eval_ext;
use superneo::sumcheck::{lagrange_eval, sumcheck_prove, sumcheck_verify, RoundPoly, SumCheckProof};
use superneo::transcript::Transcript;

fn rng() -> ChaCha8Rng {
    ChaCha8Rng::seed_from_u64(0x5C_5C_5C_5C_DE_AD_BE_EF)
}

fn rand_ext(r: &mut ChaCha8Rng) -> Ext2 {
    Ext2::new(Fp::new(r.next_u64()), Fp::new(r.next_u64()))
}

/// combine = t0 t1 + t2 (per-variable degree 2).
fn combine(v: &[Ext2]) -> Ext2 {
    v[0] * v[1] + v[2]
}

fn setup(ell: usize, r: &mut ChaCha8Rng) -> (Vec<Vec<Ext2>>, Ext2) {
    let n = 1usize << ell;
    let tables: Vec<Vec<Ext2>> = (0..3).map(|_| (0..n).map(|_| rand_ext(r)).collect()).collect();
    let mut claimed = Ext2::zero();
    for x in 0..n {
        claimed = claimed + combine(&[tables[0][x], tables[1][x], tables[2][x]]);
    }
    (tables, claimed)
}

#[test]
fn completeness_and_reduction() {
    let mut r = rng();
    for ell in 1..=8 {
        let (tables, claimed) = setup(ell, &mut r);
        let degree = 2;

        let mut tp = Transcript::new(b"sc-test");
        let (proof, rp) = sumcheck_prove(tables.clone(), combine, degree, ell, &mut tp);
        assert_eq!(proof.rounds[0].sum_over_bit(), claimed, "round-0 sum != T");

        let mut tv = Transcript::new(b"sc-test");
        let (rp2, claim) = sumcheck_verify(&proof, claimed, degree, ell, &mut tv).unwrap();
        assert_eq!(rp, rp2, "prover/verifier challenge points diverge");

        let q = combine(&[
            mle_eval_ext(&tables[0], &rp),
            mle_eval_ext(&tables[1], &rp),
            mle_eval_ext(&tables[2], &rp),
        ]);
        assert_eq!(claim, q, "reduced claim != Q(r')");
    }
}

#[test]
fn rejects_wrong_claimed_sum() {
    let mut r = rng();
    let ell = 5;
    let (tables, claimed) = setup(ell, &mut r);
    let degree = 2;
    let mut tp = Transcript::new(b"sc-test");
    let (proof, _) = sumcheck_prove(tables, combine, degree, ell, &mut tp);

    let mut tv = Transcript::new(b"sc-test");
    let bad = claimed + Ext2::one();
    assert!(sumcheck_verify(&proof, bad, degree, ell, &mut tv).is_err());
}

#[test]
fn rejects_tampered_round_poly() {
    let mut r = rng();
    let ell = 6;
    let (tables, claimed) = setup(ell, &mut r);
    let degree = 2;
    let mut tp = Transcript::new(b"sc-test");
    let (mut proof, _) = sumcheck_prove(tables, combine, degree, ell, &mut tp);

    proof.rounds[2].0[0] = proof.rounds[2].0[0] + Ext2::one();
    let mut tv = Transcript::new(b"sc-test");
    assert!(sumcheck_verify(&proof, claimed, degree, ell, &mut tv).is_err());
}

#[test]
fn transcript_is_deterministic() {
    let mut a = Transcript::new(b"dom");
    let mut b = Transcript::new(b"dom");
    a.absorb_fp(b"x", Fp::new(42));
    b.absorb_fp(b"x", Fp::new(42));
    assert_eq!(a.challenge_ext(b"c"), b.challenge_ext(b"c"));
    let mut c = Transcript::new(b"dom");
    c.absorb_fp(b"x", Fp::new(43));
    assert_ne!(a.challenge_ext(b"c"), c.challenge_ext(b"c"));
}

#[test]
fn wrong_round_count_is_malformed() {
    let mut r = rng();
    let ell = 3;
    let (tables, claimed) = setup(ell, &mut r);
    let mut tp = Transcript::new(b"sc-test");
    let (proof, _) = sumcheck_prove(tables, combine, 2, ell, &mut tp);
    let mut tv = Transcript::new(b"sc-test");
    assert!(matches!(sumcheck_verify(&proof, claimed, 2, ell + 1, &mut tv), Err(FoldError::Malformed(_))));
    let short = SumCheckProof { rounds: vec![RoundPoly(vec![Ext2::zero(); 2]); ell] };
    let mut tv2 = Transcript::new(b"sc-test");
    assert!(matches!(sumcheck_verify(&short, claimed, 2, ell, &mut tv2), Err(FoldError::Malformed(_))));
}

#[test]
fn lagrange_interpolates_a_line_and_a_parabola() {
    // g(x) = 3 + 2x through (0, 3), (1, 5): g(10) = 23.
    let line = [Ext2::from_base(Fp::new(3)), Ext2::from_base(Fp::new(5))];
    assert_eq!(lagrange_eval(&line, Ext2::from_base(Fp::new(10))), Ext2::from_base(Fp::new(23)));
    // g(x) = x^2 through (0, 0), (1, 1), (2, 4): g(7) = 49.
    let sq = [Ext2::zero(), Ext2::one(), Ext2::from_base(Fp::new(4))];
    assert_eq!(lagrange_eval(&sq, Ext2::from_base(Fp::new(7))), Ext2::from_base(Fp::new(49)));
    let g = RoundPoly(sq.to_vec());
    assert_eq!(g.eval_at(Ext2::from_base(Fp::new(7))), Ext2::from_base(Fp::new(49)));
    assert_eq!(g.sum_over_bit(), Ext2::one());
}

#[test]
fn interpolation_reproduces_a_cubic_off_the_base_field() {
    // p(t) = 1 + 2t + 3t^2 + 4t^3 through its values at 0, 1, 2, 3.
    let samples = [
        Ext2::from_base(Fp::new(1)),
        Ext2::from_base(Fp::new(10)),
        Ext2::from_base(Fp::new(49)),
        Ext2::from_base(Fp::new(142)),
    ];
    // At t = u with u^2 = 7: 1 + 2u + 21 + 28u = 22 + 30u.
    let u = Ext2::new(Fp::new(0), Fp::new(1));
    assert_eq!(lagrange_eval(&samples, u), Ext2::new(Fp::new(22), Fp::new(30)));
    // At t = 5: 1 + 10 + 75 + 500 = 586.
    assert_eq!(lagrange_eval(&samples, Ext2::from_base(Fp::new(5))), Ext2::from_base(Fp::new(586)));
}

#[test]
fn range_product_with_a_large_base() {
    let b: u64 = 2000;
    let inside = Ext2::from_base(Fp::from_i64(-1999));
    assert_eq!(superneo::pi_ccs::range_product(inside, b), Ext2::zero());
    let outside = Ext2::from_base(Fp::new(2000));
    assert_ne!(superneo::pi_ccs::range_product(outside, b), Ext2::zero());
}

#[test]
fn round_count_error_names_both_counts() {
    let mut r = rng();
    let (tables, sum) = setup(3, &mut r);
    let mut tp = Transcript::new(b"sc");
    let (proof, _) = sumcheck_prove(tables, combine, 2, 3, &mut tp);
    let mut tv = Transcript::new(b"sc");
    match sumcheck_verify(&proof, sum, 2, 4, &mut tv) {
        Err(FoldError::Malformed(msg)) => assert_eq!(msg, "sum-check has 3 rounds, expected 4"),
        other => panic!("expected a malformed proof, got {:?}", other),
    }
}

#[test]
fn eq_table_sums_into_the_multilinear_extension() {
    let mut r = rng();
    for ell in 0..=5 {
        let n = 1usize << ell;
        let vals: Vec<Ext2> = (0..n).map(|_| rand_ext(&mut r)).collect();
        let point: Vec<Ext2> = (0..ell).map(|_| rand_ext(&mut r)).collect();
        let eq = superneo::multilinear::eq_table(&point);
        let mut acc = Ext2::zero();
        for x in 0..n {
            acc = acc + eq[x] * vals[x];
        }
        assert_eq!(acc, mle_eval_ext(&vals, &point));
    }
}
