//! The recursive verifier: the in-circuit Pi_DEC verifier.
//!
//! Builds the Pi_DEC verifier circuit from a *real* `pi_dec_prove` proof on a non-trivial
//! CE instance and asserts the circuit is satisfied **iff** the native `pi_dec_verify`
//! accepts. The two additivity relations are linear (constant base-`b` weights), so this
//! phase has no challenges and no multiplication gadgets. Tampering a child commitment or
//! a child evaluation must break both the native check and the circuit.

use superneo::circuit::{build_pi_dec_verifier_circuit, ConstraintSystem, Lc};
use superneo::ext2::Ext2;
use superneo::fp::Fp;
use superneo::pi_dec::{pi_dec_prove, pi_dec_verify};
use superneo::pp::PublicParams;
use superneo::ring::RingElem;
use superneo::ring_k::RingK;
use superneo::transcript::Transcript;
use superneo::types::{compute_evals, embed_witness, CcsStructure, CeInstance, CeWitness, GlobalParams};

const KAPPA: usize = 18;
const N_R: usize = 1;
const DOMAIN: &[u8] = b"test/pidec/circuit";

/// A `t = 4` structure built with the constraint builder (its witness is unused here).
fn structure() -> CcsStructure {
    let mut b = ConstraintSystem::new();
    let x = b.allocate(Fp::one());
    let y = b.allocate(Fp::one());
    let _z = b.mul(&Lc::from_var(x), &Lc::from_var(y));
    b.finalize().0
}

/// A non-trivial, high-norm-but-decomposable CE instance and its witness: values are well
/// under `B = b^k = 16384`, so `split_b` produces several non-zero base-`b` pieces.
fn nontrivial_ce(
    gp: &GlobalParams,
    pp: &PublicParams,
    s: &CcsStructure,
) -> (CeInstance, CeWitness) {
    let zf: Vec<Fp> = (0..gp.n_f)
        .map(|i| Fp::new(((i * 37 + 11) % 4000) as u64))
        .collect();
    let zr = embed_witness(&zf);
    let r: Vec<Ext2> = (0..gp.log_m)
        .map(|i| Ext2::from_base(Fp::new(i as u64 + 2)))
        .collect();
    let y = compute_evals(s, &zr, &r);
    let c = pp.commit(&zr).expect("commit");
    (CeInstance { c, r, y }, CeWitness { z_ring: zr })
}

fn setup() -> (GlobalParams, PublicParams, CcsStructure) {
    (
        GlobalParams::goldilocks(N_R),
        PublicParams::setup_seeded([3u8; 32], KAPPA, N_R),
        structure(),
    )
}

#[test]
fn pi_dec_verifier_circuit_accepts_honest() {
    let (gp, pp, s) = setup();
    let (ce, ce_wit) = nontrivial_ce(&gp, &pp, &s);

    let mut tp = Transcript::new(DOMAIN);
    let (_out, _outw, proof) =
        pi_dec_prove(&mut tp, &gp, &pp, &s, &ce, &ce_wit).expect("honest Pi_DEC prove");

    let mut tv = Transcript::new(DOMAIN);
    pi_dec_verify(&mut tv, &gp, &ce, &proof).expect("honest Pi_DEC proof must verify natively");

    let cs = build_pi_dec_verifier_circuit(&gp, &ce, &proof);
    assert!(
        cs.is_satisfied(),
        "honest Pi_DEC proof must satisfy the verifier circuit"
    );
    println!(
        "Pi_DEC verifier circuit (k={}): {} vars, {} constraints",
        gp.k,
        cs.num_vars(),
        cs.num_constraints()
    );
}

#[test]
fn pi_dec_verifier_circuit_rejects_tampered_child_eval() {
    let (gp, pp, s) = setup();
    let (ce, ce_wit) = nontrivial_ce(&gp, &pp, &s);
    let mut tp = Transcript::new(DOMAIN);
    let (_o, _ow, proof) = pi_dec_prove(&mut tp, &gp, &pp, &s, &ce, &ce_wit).expect("prove");

    // Break evaluation additivity: perturb one coefficient of a child evaluation.
    let mut bad = proof.clone();
    let mut coeffs = *bad.child_evals[0][0].coeffs();
    coeffs[0] = coeffs[0] + Ext2::one();
    bad.child_evals[0][0] = RingK::from_coeffs(coeffs);

    let mut tv = Transcript::new(DOMAIN);
    assert!(
        pi_dec_verify(&mut tv, &gp, &ce, &bad).is_err(),
        "native Pi_DEC must reject a tampered child evaluation"
    );
    let cs = build_pi_dec_verifier_circuit(&gp, &ce, &bad);
    assert!(
        !cs.is_satisfied(),
        "tampered child evaluation must break evaluation additivity"
    );
}

#[test]
fn pi_dec_verifier_circuit_rejects_tampered_child_commitment() {
    let (gp, pp, s) = setup();
    let (ce, ce_wit) = nontrivial_ce(&gp, &pp, &s);
    let mut tp = Transcript::new(DOMAIN);
    let (_o, _ow, proof) = pi_dec_prove(&mut tp, &gp, &pp, &s, &ce, &ce_wit).expect("prove");

    // Break commitment additivity: perturb one coefficient of a child commitment slot.
    let mut bad = proof.clone();
    let mut coeffs = *bad.child_commitments[0].0[0].coeffs();
    coeffs[0] = coeffs[0] + Fp::one();
    bad.child_commitments[0].0[0] = RingElem::from_coeffs(coeffs);

    let mut tv = Transcript::new(DOMAIN);
    assert!(
        pi_dec_verify(&mut tv, &gp, &ce, &bad).is_err(),
        "native Pi_DEC must reject a tampered child commitment"
    );
    let cs = build_pi_dec_verifier_circuit(&gp, &ce, &bad);
    assert!(
        !cs.is_satisfied(),
        "tampered child commitment must break commitment additivity"
    );
}
