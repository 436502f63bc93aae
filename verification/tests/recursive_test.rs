//! The recursive verifier circuit: a sum-check verifier synthesized as CCS
//! constraints accepts an honest transcript, rejects a tampered one, and finalizes into
//! a fold-compatible CCS instance whose witness satisfies the relation (loop closure).

use rand::{RngCore, SeedableRng};
use rand_chacha::ChaCha8Rng;
use superneo::circuit::build_sumcheck_verifier_circuit;
use superneo::ext2::Ext2;
use superneo::fp::Fp;
use superneo::sumcheck::{sumcheck_prove, sumcheck_verify};
use superneo::transcript::Transcript;

const ELL: usize = 6;
const DEGREE: usize = 4;
const N_TABLES: usize = 4;
const SC_DOMAIN: &[u8] = b"recursive/sumcheck";

fn rand_ext(r: &mut ChaCha8Rng) -> Ext2 {
    Ext2::new(Fp::new(r.next_u64()), Fp::new(r.next_u64()))
}

/// Produce a degree-`DEGREE` sum-check transcript: round polynomials, challenges, the
/// claimed sum `T`, and the verifier's final reduced claim.
fn sumcheck_trace() -> (Vec<Vec<Ext2>>, Vec<Ext2>, Ext2, Ext2) {
    let mut r = ChaCha8Rng::seed_from_u64(0x5EC0_0DED_1234_5678);
    let n = 1usize << ELL;
    let tables: Vec<Vec<Ext2>> = (0..N_TABLES)
        .map(|_| (0..n).map(|_| rand_ext(&mut r)).collect())
        .collect();
    let combine = |v: &[Ext2]| v.iter().copied().fold(Ext2::one(), |a, b| a * b);

    let mut tp = Transcript::new(SC_DOMAIN);
    let (proof, _r_prime) = sumcheck_prove(tables, combine, DEGREE, ELL, &mut tp);

    let init_claim = proof.rounds[0].sum_over_bit();
    let mut tv = Transcript::new(SC_DOMAIN);
    let (challenges, final_claim) =
        sumcheck_verify(&proof, init_claim, DEGREE, ELL, &mut tv).expect("honest verify");

    let round_evals: Vec<Vec<Ext2>> = proof.rounds.iter().map(|p| p.0.clone()).collect();
    (round_evals, challenges, init_claim, final_claim)
}

#[test]
fn recursive_sumcheck_circuit_is_satisfied() {
    let (rounds, challenges, init, final_claim) = sumcheck_trace();
    let cs = build_sumcheck_verifier_circuit(init, &rounds, &challenges, final_claim);
    assert!(
        cs.is_satisfied(),
        "honest transcript must satisfy the circuit"
    );

    // Report the recursion cost.
    println!(
        "recursive sum-check verifier: {} vars, {} constraints",
        cs.num_vars(),
        cs.num_constraints()
    );
    assert!(
        (50..20_000).contains(&cs.num_constraints()),
        "constraint count {} outside the expected band",
        cs.num_constraints()
    );
}

#[test]
fn finalizes_to_satisfying_ccs_instance() {
    let (rounds, challenges, init, final_claim) = sumcheck_trace();
    let cs = build_sumcheck_verifier_circuit(init, &rounds, &challenges, final_claim);
    // Loop closure: the verifier circuit is a CCS instance of the shape `fold` consumes,
    // and its witness satisfies the CCS relation.
    let (structure, z) = cs.finalize();
    assert_eq!(structure.t(), 4);
    assert_eq!(structure.m % superneo::ring::D, 0);
    assert_eq!(z.len(), structure.m);
    assert!(cs.finalized_relation_holds(), "CCS relation must hold");
}

#[test]
fn rejects_tampered_round_polynomial() {
    let (mut rounds, challenges, init, final_claim) = sumcheck_trace();
    // Corrupt one evaluation of a middle round polynomial.
    rounds[2][0] = rounds[2][0] + Ext2::one();
    let cs = build_sumcheck_verifier_circuit(init, &rounds, &challenges, final_claim);
    assert!(
        !cs.is_satisfied(),
        "a tampered round polynomial must break the circuit"
    );
}

#[test]
fn rejects_tampered_final_claim() {
    let (rounds, challenges, init, final_claim) = sumcheck_trace();
    // The circuit binds the reduced claim to the wrong final value.
    let cs = build_sumcheck_verifier_circuit(init, &rounds, &challenges, final_claim + Ext2::one());
    assert!(!cs.is_satisfied(), "a wrong final claim must be rejected");
}

#[test]
fn sumcheck_circuit_constraint_count_is_exact() {
    let (rounds, challenges, init, final_claim) = sumcheck_trace();
    let cs = build_sumcheck_verifier_circuit(init, &rounds, &challenges, final_claim);
    // Per round of n = DEGREE + 1 evaluations: 2 + 3 n (n - 1); then 2 for the binding.
    let n = DEGREE + 1;
    assert_eq!(cs.num_constraints(), ELL * (2 + 3 * n * (n - 1)) + 2);
}
