//! The recursive verifier circuit: the folding verifier's checks expressed as R1CS
//! constraints over a builder that finalizes into the CCS shape `fold` consumes.
//!
//! The sum-check verifier is the dominant component; the Π_CCS, Π_RLC and Π_DEC
//! verifier checks are built on it and on the extension-field and ring gadgets. The
//! Fiat-Shamir challenges are supplied as advice.

pub mod cs;
pub mod gadgets;
pub mod pi_ccs_verifier;
pub mod pi_dec_verifier;
pub mod pi_rlc_verifier;
pub mod ring_gadgets;
pub mod sumcheck_verifier;

pub use cs::{ConstraintSystem, Lc, Var};
pub use gadgets::KVar;
pub use pi_ccs_verifier::build_pi_ccs_verifier_circuit;
pub use pi_dec_verifier::build_pi_dec_verifier_circuit;
pub use pi_rlc_verifier::build_pi_rlc_verifier_circuit;
pub use ring_gadgets::{RFVar, RKVar};
pub use sumcheck_verifier::synthesize_sumcheck_verifier;

use vstd::prelude::*;

use crate::circuit::cs::{cs_satisfied, cs_wf, lemma_extends_trans};
use crate::circuit::gadgets::kv_value;
use crate::circuit::sumcheck_verifier::{chain_claim, chain_constraints, chain_ok, lemma_kv_stable, rounds_view};
use crate::ext2::{e2_seq, Ext2};

verus! {

/// Build a complete sum-check-verifier circuit: synthesize the verifier chain and bind
/// its final reduced claim to `expected_final`.
///
/// The system is satisfied exactly when every round's `g(0) + g(1)` equals the running
/// claim and the chain ends at `expected_final`. It has `2 + 3 n (n - 1)` constraints per
/// round of `n` evaluations, and two more for the final binding.
pub fn build_sumcheck_verifier_circuit(
    init_claim: Ext2,
    round_evals: &[Vec<Ext2>],
    challenges: &[Ext2],
    expected_final: Ext2,
) -> (cs: ConstraintSystem)
    requires
        round_evals@.len() == challenges@.len(),
        forall|i: int| 0 <= i < round_evals@.len() ==> 2 <= (#[trigger] round_evals@[i])@.len() < crate::Q,
    ensures
        cs_wf(cs@),
        cs@.1.len() == chain_constraints(rounds_view(round_evals@), round_evals@.len() as int) + 2,
        cs_satisfied(cs@) <==> (chain_ok(
            rounds_view(round_evals@),
            e2_seq(challenges@),
            init_claim@,
            round_evals@.len() as int,
        ) && chain_claim(rounds_view(round_evals@), e2_seq(challenges@), init_claim@, round_evals@.len() as int)
            == expected_final@),
{
    let mut cs = ConstraintSystem::new();
    assert(cs_satisfied(cs@));
    let (claim, _r_wires) = synthesize_sumcheck_verifier(&mut cs, init_claim, round_evals, challenges);
    let ghost s1 = cs@;
    let expected = KVar::allocate(&mut cs, expected_final);
    proof {
        lemma_kv_stable(claim, s1, cs@);
    }
    claim.assert_eq(&mut cs, &expected);
    cs
}

} // verus!
