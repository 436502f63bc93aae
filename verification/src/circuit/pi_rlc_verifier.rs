//! The in-circuit Π_RLC verifier: the ring linear combination.
//!
//! The native verifier recomputes the output instance from the inputs under the
//! challenges `rho_i` in `R_F`:
//!
//! ```text
//! c_out   = sum_i rho_i c_i        (commitment combination, over R_F per slot)
//! y_out_j = sum_i rho_i y_{i,j}    (claim combination, over R_K, per j)
//! ```
//!
//! This module synthesizes that combination over the ring gadgets and asserts it equals
//! the claimed output. The `rho_i` are advice; the inputs and the output are the public
//! statement, pinned as constants.

use vstd::prelude::*;

use crate::circuit::cs::{
    cs_extends, cs_satisfied, cs_wf, lemma_extends_refl, lemma_extends_trans, lemma_lc_value_lt, ConstraintSystem,
    CsView,
};
use crate::circuit::ring_gadgets::{lcs_value, lemma_lcs_stable, rf_valid, rf_value, rk_valid, rk_value, RFVar, RKVar};
use crate::circuit::sumcheck_verifier::lemma_kv_stable;
use crate::circuit::pi_ccs_verifier::lemma_kv_canon;
use crate::commit::{commit_add, commit_scale_ring};
use crate::ext2::{e2_add, e2_canon, e2_zero, E2};
use crate::fp::{fadd, lemma_fp_lt_q};
use crate::pi_rlc::{lemma_rlc_commit_len, rlc_claim, rlc_commit, rlc_output};
use crate::ring::{lemma_ring_wf, ring_add, ring_mul, ring_seq, ring_zero};
use crate::ring_k::{lemma_rk_wf, rk_add, rk_mul_rf, rk_zero};
use crate::types::{CeInstance, PiRlcProof};

verus! {

broadcast use {lemma_fp_lt_q, lemma_ring_wf, lemma_rk_wf};

/// An `R_F` wire keeps its value and validity when the system grows.
pub proof fn lemma_rf_stable(x: RFVar, old: CsView, new: CsView)
    requires
        cs_extends(old, new),
        rf_valid(x, old.0.len()),
    ensures
        rf_value(x, new.0) == rf_value(x, old.0),
        rf_valid(x, new.0.len()),
{
    lemma_lcs_stable(x.coeffs@, old, new);
}

/// An `R_K` wire keeps its value and validity when the system grows.
pub proof fn lemma_rk_stable(x: RKVar, old: CsView, new: CsView)
    requires
        cs_extends(old, new),
        rk_valid(x, old.0.len()),
    ensures
        rk_value(x, new.0) == rk_value(x, old.0),
        rk_valid(x, new.0.len()),
{
    assert forall|l: int| 0 <= l < 54 implies crate::circuit::gadgets::kv_valid(
        #[trigger] x.coeffs@[l],
        new.0.len(),
    ) && crate::circuit::gadgets::kv_value(x.coeffs@[l], new.0) == crate::circuit::gadgets::kv_value(
        x.coeffs@[l],
        old.0,
    ) by {
        lemma_kv_stable(x.coeffs@[l], old, new);
    }
    assert(rk_value(x, new.0) =~= rk_value(x, old.0));
}

/// The value of an `R_F` wire is a ring element.
pub proof fn lemma_rf_canon(x: RFVar, w: Seq<nat>)
    requires
        x.coeffs@.len() == 54,
    ensures
        ring_add(ring_zero(), rf_value(x, w)) == rf_value(x, w),
{
    assert forall|l: int| 0 <= l < 54 implies #[trigger] rf_value(x, w)[l] < crate::Q by {
        lemma_lc_value_lt(x.coeffs@[l]@, w);
    }
    assert(ring_add(ring_zero(), rf_value(x, w)) =~= rf_value(x, w));
}

/// The value of an `R_K` wire is a ring element.
pub proof fn lemma_rk_canon(x: RKVar, w: Seq<nat>)
    requires
        x.coeffs@.len() == 54,
    ensures
        rk_add(rk_zero(), rk_value(x, w)) == rk_value(x, w),
{
    assert forall|l: int| 0 <= l < 54 implies #[trigger] e2_canon(rk_value(x, w)[l]) by {
        lemma_kv_canon(x.coeffs@[l], w);
    }
    assert(rk_add(rk_zero(), rk_value(x, w)) =~= rk_value(x, w));
}

/// The number of instances the combination runs over: one per input paired with a
/// challenge.
pub open spec fn rlc_count(ce: Seq<CeInstance>, proof: PiRlcProof) -> nat {
    if ce.len() < proof.rhos@.len() {
        ce.len()
    } else {
        proof.rhos@.len()
    }
}

/// The commitments of the first `n` inputs.
pub open spec fn rlc_cs(ce: Seq<CeInstance>, n: nat) -> Seq<Seq<Seq<nat>>> {
    Seq::new(n, |i: int| ce[i]@.0)
}

/// The claims of the first `n` inputs.
pub open spec fn rlc_ys(ce: Seq<CeInstance>, n: nat) -> Seq<Seq<Seq<E2>>> {
    Seq::new(n, |i: int| ce[i]@.2)
}

/// Slot `s` of the claimed output commitment is the combination of the inputs'.
pub open spec fn rlc_slot_ok(ce: Seq<CeInstance>, proof: PiRlcProof, out: CeInstance, s: int) -> bool {
    let n = rlc_count(ce, proof);
    out.c@[s] == rlc_commit(rlc_cs(ce, n), ring_seq(proof.rhos@), ce[0].c@.len(), n as int)[s]
}

/// Claim `j` of the claimed output is the combination of the inputs'.
pub open spec fn rlc_claim_ok(ce: Seq<CeInstance>, proof: PiRlcProof, out: CeInstance, j: int) -> bool {
    let n = rlc_count(ce, proof);
    out.y@[j]@ == rlc_claim(rlc_ys(ce, n), ring_seq(proof.rhos@), j, n as int)
}

/// Tie slot `s` of the output commitment to `sum_{i<n} rho_i c_i[s]`.
fn commit_slot(
    cs: &mut ConstraintSystem,
    ce: &[CeInstance],
    rhos: &Vec<RFVar>,
    out: &CeInstance,
    s: usize,
    n: usize,
    Ghost(rv): Ghost<Seq<Seq<nat>>>,
)
    requires
        cs_wf(old(cs)@),
        1 <= n <= ce@.len(),
        n <= rhos@.len(),
        forall|i: int| 0 <= i < n ==> rf_valid(#[trigger] rhos@[i], old(cs)@.0.len()),
        forall|i: int| 0 <= i < n ==> rf_value(#[trigger] rhos@[i], old(cs)@.0) == rv[i],
        s < ce@[0].c@.len(),
        s < out.c@.len(),
        forall|i: int| 0 <= i < n ==> (#[trigger] ce@[i]).c@.len() >= ce@[0].c@.len(),
    ensures
        cs_wf(final(cs)@),
        cs_extends(old(cs)@, final(cs)@),
        cs_satisfied(final(cs)@) <==> (cs_satisfied(old(cs)@) && out.c@[s as int] == rlc_commit(
            rlc_cs(ce@, n as nat),
            rv,
            ce@[0].c@.len(),
            n as int,
        )[s as int]),
{
    let ghost s0 = cs@;
    let ghost kappa = ce@[0].c@.len();
    let ghost cv = rlc_cs(ce@, n as nat);
    proof {
        lemma_extends_refl(s0);
    }
    let mut acc: Option<RFVar> = None;
    let mut i: usize = 0;
    while i < n
        invariant
            i <= n,
            1 <= n <= ce@.len(),
            n <= rhos@.len(),
            forall|i2: int| 0 <= i2 < n ==> rf_valid(#[trigger] rhos@[i2], s0.0.len()),
            forall|i2: int| 0 <= i2 < n ==> rf_value(#[trigger] rhos@[i2], s0.0) == rv[i2],
            s < kappa,
            kappa == ce@[0].c@.len(),
            forall|i2: int| 0 <= i2 < n ==> (#[trigger] ce@[i2]).c@.len() >= kappa,
            cv == rlc_cs(ce@, n as nat),
            cs_wf(s0),
            cs_wf(cs@),
            cs_extends(s0, cs@),
            cs_satisfied(cs@) <==> cs_satisfied(s0),
            i == 0 <==> acc is None,
            acc matches Some(a) ==> rf_valid(a, cs@.0.len()) && rf_value(a, cs@.0) == rlc_commit(cv, rv, kappa, i as int)[s as int],
        decreases n - i,
    {
        let ghost s1 = cs@;
        let ci = RFVar::constant(cs, &ce[i].c.0[s]);
        proof {
            lemma_rf_stable(rhos@[i as int], s0, s1);
            assert(ce@[i as int].c@[s as int] == ce@[i as int].c.0@[s as int]@);
        }
        let term = ci.mul(cs, &rhos[i]);
        proof {
            lemma_extends_trans(s0, s1, cs@);
            lemma_rlc_commit_len(cv, rv, kappa, i as int);
            assert(cv[i as int] == ce@[i as int]@.0);
            assert(commit_scale_ring(cv[i as int], rv[i as int])[s as int] == ring_mul(cv[i as int][s as int], rv[i as int]));
            assert(rlc_commit(cv, rv, kappa, i + 1)[s as int] == ring_add(
                rlc_commit(cv, rv, kappa, i as int)[s as int],
                ring_mul(cv[i as int][s as int], rv[i as int]),
            ));
            if i == 0 {
                lemma_rf_canon(term, cs@.0);
                assert(rlc_commit(cv, rv, kappa, 0)[s as int] == ring_zero());
            } else {
                lemma_rf_stable(acc->0, s1, cs@);
            }
        }
        let next = match acc {
            None => term,
            Some(a) => a.add(&term),
        };
        acc = Some(next);
        i = i + 1;
    }
    let parent = RFVar::constant(cs, &out.c.0[s]);
    proof {
        assert(out.c@[s as int] == out.c.0@[s as int]@);
    }
    if let Some(a) = acc {
        let ghost s2 = cs@;
        a.assert_eq(cs, &parent);
        proof {
            lemma_extends_trans(s0, s2, cs@);
        }
    }
}

/// Tie claim `j` of the output to `sum_{i<n} rho_i y_{i,j}`.
fn claim_slot(
    cs: &mut ConstraintSystem,
    ce: &[CeInstance],
    rhos: &Vec<RFVar>,
    out: &CeInstance,
    j: usize,
    n: usize,
    Ghost(rv): Ghost<Seq<Seq<nat>>>,
)
    requires
        cs_wf(old(cs)@),
        1 <= n <= ce@.len(),
        n <= rhos@.len(),
        forall|i: int| 0 <= i < n ==> rf_valid(#[trigger] rhos@[i], old(cs)@.0.len()),
        forall|i: int| 0 <= i < n ==> rf_value(#[trigger] rhos@[i], old(cs)@.0) == rv[i],
        forall|i: int| 0 <= i < n ==> j < (#[trigger] ce@[i]).y@.len(),
        j < out.y@.len(),
    ensures
        cs_wf(final(cs)@),
        cs_extends(old(cs)@, final(cs)@),
        cs_satisfied(final(cs)@) <==> (cs_satisfied(old(cs)@) && out.y@[j as int]@ == rlc_claim(
            rlc_ys(ce@, n as nat),
            rv,
            j as int,
            n as int,
        )),
{
    let ghost s0 = cs@;
    let ghost yv = rlc_ys(ce@, n as nat);
    proof {
        lemma_extends_refl(s0);
    }
    let mut acc: Option<RKVar> = None;
    let mut i: usize = 0;
    while i < n
        invariant
            i <= n,
            1 <= n <= ce@.len(),
            n <= rhos@.len(),
            forall|i2: int| 0 <= i2 < n ==> rf_valid(#[trigger] rhos@[i2], s0.0.len()),
            forall|i2: int| 0 <= i2 < n ==> rf_value(#[trigger] rhos@[i2], s0.0) == rv[i2],
            forall|i2: int| 0 <= i2 < n ==> j < (#[trigger] ce@[i2]).y@.len(),
            yv == rlc_ys(ce@, n as nat),
            cs_wf(s0),
            cs_wf(cs@),
            cs_extends(s0, cs@),
            cs_satisfied(cs@) <==> cs_satisfied(s0),
            i == 0 <==> acc is None,
            acc matches Some(a) ==> rk_valid(a, cs@.0.len()) && rk_value(a, cs@.0) == rlc_claim(yv, rv, j as int, i as int),
        decreases n - i,
    {
        let ghost s1 = cs@;
        assert(j < ce@[i as int].y@.len());
        let yij = RKVar::constant(cs, &ce[i].y[j]);
        proof {
            lemma_rf_stable(rhos@[i as int], s0, s1);
        }
        let term = yij.mul_rf(cs, &rhos[i]);
        proof {
            lemma_extends_trans(s0, s1, cs@);
            assert(yv[i as int][j as int] == ce@[i as int].y@[j as int]@);
            assert(rk_value(term, cs@.0) == rk_mul_rf(yv[i as int][j as int], rv[i as int]));
            assert(rlc_claim(yv, rv, j as int, i + 1) == rk_add(
                rlc_claim(yv, rv, j as int, i as int),
                rk_mul_rf(yv[i as int][j as int], rv[i as int]),
            ));
            if i == 0 {
                lemma_rk_canon(term, cs@.0);
                assert(rlc_claim(yv, rv, j as int, 0) == rk_zero());
            } else {
                lemma_rk_stable(acc->0, s1, cs@);
            }
        }
        let next = match acc {
            None => term,
            Some(a) => a.add(&term),
        };
        acc = Some(next);
        i = i + 1;
    }
    let parent = RKVar::constant(cs, &out.y[j]);
    if let Some(a) = acc {
        let ghost s2 = cs@;
        a.assert_eq(cs, &parent);
        proof {
            lemma_extends_trans(s0, s2, cs@);
        }
    }
}

/// Allocate one `R_F` advice wire per challenge.
fn alloc_rhos(cs: &mut ConstraintSystem, proof: &PiRlcProof) -> (rhos: Vec<RFVar>)
    requires
        cs_wf(old(cs)@),
    ensures
        cs_wf(final(cs)@),
        cs_extends(old(cs)@, final(cs)@),
        cs_satisfied(final(cs)@) <==> cs_satisfied(old(cs)@),
        rhos@.len() == proof.rhos@.len(),
        forall|i: int| 0 <= i < rhos@.len() ==> rf_valid(#[trigger] rhos@[i], final(cs)@.0.len()),
        forall|i: int| 0 <= i < rhos@.len() ==> rf_value(#[trigger] rhos@[i], final(cs)@.0) == proof.rhos@[i]@,
{
    let ghost s0 = cs@;
    proof {
        lemma_extends_refl(s0);
    }
    let mut rhos: Vec<RFVar> = Vec::new();
    let mut i: usize = 0;
    while i < proof.rhos.len()
        invariant
            i <= proof.rhos@.len(),
            cs_wf(s0),
            cs_wf(cs@),
            cs_extends(s0, cs@),
            cs_satisfied(cs@) <==> cs_satisfied(s0),
            rhos@.len() == i,
            forall|i2: int| 0 <= i2 < i ==> rf_valid(#[trigger] rhos@[i2], cs@.0.len()),
            forall|i2: int| 0 <= i2 < i ==> rf_value(#[trigger] rhos@[i2], cs@.0) == proof.rhos@[i2]@,
        decreases proof.rhos@.len() - i,
    {
        let ghost s1 = cs@;
        let r = RFVar::allocate(cs, &proof.rhos[i]);
        let ghost old_rhos = rhos@;
        proof {
            lemma_extends_trans(s0, s1, cs@);
            assert forall|i2: int| 0 <= i2 < i implies rf_valid(#[trigger] old_rhos[i2], cs@.0.len()) && rf_value(
                old_rhos[i2],
                cs@.0,
            ) == proof.rhos@[i2]@ by {
                lemma_rf_stable(old_rhos[i2], s1, cs@);
            }
        }
        rhos.push(r);
        proof {
            assert forall|i2: int| 0 <= i2 < i + 1 implies rf_valid(#[trigger] rhos@[i2], cs@.0.len()) && rf_value(
                rhos@[i2],
                cs@.0,
            ) == proof.rhos@[i2]@ by {
                if i2 < i {
                    assert(rhos@[i2] == old_rhos[i2]);
                }
            }
        }
        i = i + 1;
    }
    rhos
}

/// Build the in-circuit Π_RLC verifier from the input instances, a proof (its
/// challenges) and the claimed output instance.
///
/// The system is satisfied exactly when every slot of the output commitment and every
/// output claim is the combination of the inputs' under the challenges, over the first
/// `n` inputs, `n` the number of inputs paired with a challenge.
pub fn build_pi_rlc_verifier_circuit(ce: &[CeInstance], proof: &PiRlcProof, out: &CeInstance) -> (cs: ConstraintSystem)
    requires
        ce@.len() >= 1,
        proof.rhos@.len() >= 1,
        forall|i: int| 0 <= i < rlc_count(ce@, *proof) ==> (#[trigger] ce@[i]).c@.len() >= ce@[0].c@.len(),
        forall|i: int| 0 <= i < rlc_count(ce@, *proof) ==> (#[trigger] ce@[i]).y@.len() >= ce@[0].y@.len(),
        out.c@.len() >= ce@[0].c@.len(),
        out.y@.len() >= ce@[0].y@.len(),
    ensures
        cs_wf(cs@),
        cs_satisfied(cs@) <==> (forall|s: int| 0 <= s < ce@[0].c@.len() ==> #[trigger] rlc_slot_ok(ce@, *proof, *out, s))
            && (forall|j: int| 0 <= j < ce@[0].y@.len() ==> #[trigger] rlc_claim_ok(ce@, *proof, *out, j)),
{
    let kappa = ce[0].c.dim();
    let t = ce[0].y.len();
    let n: usize = if ce.len() < proof.rhos.len() {
        ce.len()
    } else {
        proof.rhos.len()
    };
    let ghost rv = ring_seq(proof.rhos@);
    let mut cs = ConstraintSystem::new();
    let ghost s0 = cs@;
    assert(cs_satisfied(s0));
    let rhos = alloc_rhos(&mut cs, proof);
    let ghost s1 = cs@;
    proof {
        lemma_extends_refl(s1);
    }
    let mut s: usize = 0;
    while s < kappa
        invariant
            s <= kappa,
            kappa == ce@[0].c@.len(),
            t == ce@[0].y@.len(),
            n == rlc_count(ce@, *proof),
            1 <= n <= ce@.len(),
            n <= rhos@.len(),
            rv == ring_seq(proof.rhos@),
            rhos@.len() == proof.rhos@.len(),
            forall|i: int| 0 <= i < rhos@.len() ==> rf_valid(#[trigger] rhos@[i], s1.0.len()),
            forall|i: int| 0 <= i < rhos@.len() ==> rf_value(#[trigger] rhos@[i], s1.0) == proof.rhos@[i]@,
            forall|i: int| 0 <= i < n ==> (#[trigger] ce@[i]).c@.len() >= ce@[0].c@.len(),
            out.c@.len() >= kappa,
            cs_wf(s1),
            cs_wf(cs@),
            cs_extends(s1, cs@),
            cs_satisfied(cs@) <==> (cs_satisfied(s1) && forall|s2: int|
                0 <= s2 < s ==> #[trigger] rlc_slot_ok(ce@, *proof, *out, s2)),
        decreases kappa - s,
    {
        let ghost s2 = cs@;
        proof {
            assert forall|i: int| 0 <= i < n implies rf_valid(#[trigger] rhos@[i], s2.0.len()) && rf_value(
                rhos@[i],
                s2.0,
            ) == rv[i] by {
                lemma_rf_stable(rhos@[i], s1, s2);
            }
        }
        commit_slot(&mut cs, ce, &rhos, out, s, n, Ghost(rv));
        proof {
            lemma_extends_trans(s1, s2, cs@);
            assert(rlc_slot_ok(ce@, *proof, *out, s as int) == (out.c@[s as int] == rlc_commit(
                rlc_cs(ce@, n as nat),
                rv,
                ce@[0].c@.len(),
                n as int,
            )[s as int]));
            if cs_satisfied(cs@) {
                assert forall|s3: int| 0 <= s3 < s + 1 implies #[trigger] rlc_slot_ok(ce@, *proof, *out, s3) by {
                    if s3 == s {
                        assert(rlc_slot_ok(ce@, *proof, *out, s as int));
                    }
                }
            }
        }
        s = s + 1;
    }
    let ghost s3 = cs@;
    proof {
        lemma_extends_refl(s3);
    }
    let mut j: usize = 0;
    while j < t
        invariant
            j <= t,
            kappa == ce@[0].c@.len(),
            t == ce@[0].y@.len(),
            n == rlc_count(ce@, *proof),
            1 <= n <= ce@.len(),
            n <= rhos@.len(),
            rv == ring_seq(proof.rhos@),
            rhos@.len() == proof.rhos@.len(),
            forall|i: int| 0 <= i < rhos@.len() ==> rf_valid(#[trigger] rhos@[i], s1.0.len()),
            forall|i: int| 0 <= i < rhos@.len() ==> rf_value(#[trigger] rhos@[i], s1.0) == proof.rhos@[i]@,
            forall|i: int| 0 <= i < n ==> (#[trigger] ce@[i]).y@.len() >= ce@[0].y@.len(),
            out.y@.len() >= t,
            cs_wf(s1),
            cs_wf(s3),
            cs_wf(cs@),
            cs_extends(s1, s3),
            cs_extends(s3, cs@),
            cs_satisfied(s3) <==> (cs_satisfied(s1) && forall|s2: int|
                0 <= s2 < kappa ==> #[trigger] rlc_slot_ok(ce@, *proof, *out, s2)),
            cs_satisfied(cs@) <==> (cs_satisfied(s3) && forall|j2: int|
                0 <= j2 < j ==> #[trigger] rlc_claim_ok(ce@, *proof, *out, j2)),
        decreases t - j,
    {
        let ghost s2 = cs@;
        proof {
            lemma_extends_trans(s1, s3, s2);
            assert forall|i: int| 0 <= i < n implies rf_valid(#[trigger] rhos@[i], s2.0.len()) && rf_value(
                rhos@[i],
                s2.0,
            ) == rv[i] by {
                lemma_rf_stable(rhos@[i], s1, s2);
            }
        }
        claim_slot(&mut cs, ce, &rhos, out, j, n, Ghost(rv));
        proof {
            lemma_extends_trans(s3, s2, cs@);
            assert(rlc_claim_ok(ce@, *proof, *out, j as int) == (out.y@[j as int]@ == rlc_claim(
                rlc_ys(ce@, n as nat),
                rv,
                j as int,
                n as int,
            )));
            if cs_satisfied(cs@) {
                assert forall|j3: int| 0 <= j3 < j + 1 implies #[trigger] rlc_claim_ok(ce@, *proof, *out, j3) by {
                    if j3 == j {
                        assert(rlc_claim_ok(ce@, *proof, *out, j as int));
                    }
                }
            }
        }
        j = j + 1;
    }
    cs
}

/// The in-circuit Π_RLC verifier accepts exactly the combined instance the native
/// verifier returns: with one challenge per input and outputs of the inputs' shape, the
/// circuit's checks hold iff the claimed output's commitment and claims are those of
/// `rlc_output` under the proof's challenges.
pub proof fn law_pi_rlc_circuit_matches_output(ce: Seq<CeInstance>, proof: PiRlcProof, out: CeInstance)
    requires
        ce.len() >= 1,
        proof.rhos@.len() == ce.len(),
        out.c@.len() == ce[0].c@.len(),
        out.y@.len() == ce[0].y@.len(),
    ensures
        ((forall|s: int| 0 <= s < ce[0].c@.len() ==> #[trigger] rlc_slot_ok(ce, proof, out, s)) && (forall|j: int|
            0 <= j < ce[0].y@.len() ==> #[trigger] rlc_claim_ok(ce, proof, out, j))) <==> (out@.0 == rlc_output(
            ce,
            ring_seq(proof.rhos@),
        ).0 && out@.2 == rlc_output(ce, ring_seq(proof.rhos@)).2),
{
    let rhos = ring_seq(proof.rhos@);
    let n = ce.len();
    let kappa = ce[0].c@.len();
    let t = ce[0].y@.len();
    let expect = rlc_output(ce, rhos);
    assert(rlc_count(ce, proof) == n);
    assert(rlc_cs(ce, n) =~= Seq::new(ce.len(), |i: int| ce[i]@.0));
    assert(rlc_ys(ce, n) =~= Seq::new(ce.len(), |i: int| ce[i]@.2));
    lemma_rlc_commit_len(rlc_cs(ce, n), rhos, kappa, n as int);
    if (forall|s: int| 0 <= s < kappa ==> #[trigger] rlc_slot_ok(ce, proof, out, s)) && (forall|j: int|
        0 <= j < t ==> #[trigger] rlc_claim_ok(ce, proof, out, j)) {
        assert forall|s: int| 0 <= s < kappa implies out@.0[s] == expect.0[s] by {
            assert(rlc_slot_ok(ce, proof, out, s));
        }
        assert(out@.0 =~= expect.0);
        assert forall|j: int| 0 <= j < t implies out@.2[j] == expect.2[j] by {
            assert(rlc_claim_ok(ce, proof, out, j));
        }
        assert(out@.2 =~= expect.2);
    }
    if out@.0 == expect.0 && out@.2 == expect.2 {
        assert forall|s: int| 0 <= s < kappa implies #[trigger] rlc_slot_ok(ce, proof, out, s) by {
            assert(out@.0[s] == expect.0[s]);
        }
        assert forall|j: int| 0 <= j < t implies #[trigger] rlc_claim_ok(ce, proof, out, j) by {
            assert(out@.2[j] == expect.2[j]);
        }
    }
}

} // verus!
