//! The in-circuit Π_DEC verifier: the decomposition additivity checks.
//!
//! The native verifier accepts iff the `k` children recompose the parent under the
//! base-`b` weights:
//!
//! ```text
//! c   = sum_{i<k} b^i c_i        (commitment additivity, over R_F)
//! y_j = sum_{i<k} b^i y_{i,j}    (claim additivity, over R_K, each j)
//! ```
//!
//! Both checks are linear: the weights are base-field constants, so each coefficient of
//! the parent is tied by one equality to a constant-scaled sum of advice (the children).
//! Commitments use plain `Lc` wires; claims use `K` wires, whose scaling is free.

use vstd::prelude::*;

use crate::circuit::cs::{
    cs_extends, cs_satisfied, cs_wf, lc_valid, lc_value, lemma_extends_refl, lemma_extends_trans,
    lemma_lc_value_append, lemma_lc_value_extend, lemma_lc_value_scale, lemma_lc_value_single, lemma_value_stable,
    ConstraintSystem, Lc,
};
use crate::circuit::gadgets::{kv_valid, kv_value, KVar};
use crate::circuit::sumcheck_verifier::lemma_kv_stable;
use crate::commit::{commit_add, commit_scale_fp, Commitment};
use crate::ext2::{e2_add, e2_base, e2_mul, e2_scale, e2_zero, lemma_e2_mul_comm, Ext2, E2};
use crate::fp::{fadd, fmod, fmul, lemma_fp_lt_q, Fp};
use crate::pi_dec::{dec_claim, dec_claims_ok, dec_commit, dec_commit_ok, dec_cs, dec_weight, dec_ys};
use crate::ring::{lemma_ring_wf, ring_add, ring_scale, ring_zero};
use crate::ring_k::{lemma_rk_wf, rk_add, rk_scale_fp, rk_zero, RingK};
use crate::types::{CeInstance, GlobalParams, PiDecProof};

verus! {

broadcast use {lemma_fp_lt_q, lemma_ring_wf, lemma_rk_wf};

/// The base-`b` weights `b^0, ..., b^(k-1)` as field constants.
fn base_weights(b: u64, k: usize) -> (w: Vec<Fp>)
    ensures
        w@.len() == k,
        forall|i: int| 0 <= i < k ==> (#[trigger] w@[i])@ == dec_weight(b as nat, i as nat),
{
    let b_fp = Fp::new(b);
    let mut weights: Vec<Fp> = Vec::new();
    let mut w = Fp::one();
    let mut i: usize = 0;
    while i < k
        invariant
            i <= k,
            b_fp@ == fmod(b as int),
            weights@.len() == i,
            w@ == dec_weight(b as nat, i as nat),
            forall|i2: int| 0 <= i2 < i ==> (#[trigger] weights@[i2])@ == dec_weight(b as nat, i2 as nat),
        decreases k - i,
    {
        weights.push(w);
        w = w * b_fp;
        i = i + 1;
    }
    weights
}

/// Coefficient `(s, l)` of `sum_{i<n} b^i c_i`.
pub open spec fn dec_coeff(cs: Seq<Seq<Seq<nat>>>, b: nat, s: int, l: int, n: int) -> nat
    decreases n,
{
    if n <= 0 {
        0
    } else {
        fadd(dec_coeff(cs, b, s, l, n - 1), fmul(cs[n - 1][s][l], dec_weight(b, (n - 1) as nat)))
    }
}

/// Coefficient `l` of `sum_{i<n} b^i y_{i,j}`.
pub open spec fn dec_claim_coeff(ys: Seq<Seq<Seq<E2>>>, b: nat, j: int, l: int, n: int) -> E2
    decreases n,
{
    if n <= 0 {
        e2_zero()
    } else {
        e2_add(dec_claim_coeff(ys, b, j, l, n - 1), e2_scale(ys[n - 1][j][l], dec_weight(b, (n - 1) as nat)))
    }
}

/// The recomposed commitment, read coefficient by coefficient.
pub proof fn lemma_dec_commit_coeff(cs: Seq<Seq<Seq<nat>>>, b: nat, kappa: nat, s: int, l: int, n: int)
    requires
        0 <= s < kappa,
        0 <= l < 54,
        forall|i: int| 0 <= i < n ==> (#[trigger] cs[i]).len() >= kappa,
    ensures
        dec_commit(cs, b, kappa, n)[s][l] == dec_coeff(cs, b, s, l, n),
        dec_commit(cs, b, kappa, n).len() == kappa,
        dec_commit(cs, b, kappa, n)[s].len() == 54,
    decreases n,
{
    if n > 0 {
        lemma_dec_commit_coeff(cs, b, kappa, s, l, n - 1);
        let w = dec_weight(b, (n - 1) as nat);
        assert(commit_scale_fp(cs[n - 1], w)[s] == ring_scale(cs[n - 1][s], w));
    }
}

/// The recomposed commitment has rank `kappa`.
pub proof fn lemma_dec_commit_len(cs: Seq<Seq<Seq<nat>>>, b: nat, kappa: nat, n: int)
    ensures
        dec_commit(cs, b, kappa, n).len() == kappa,
    decreases n,
{
    if n > 0 {
        lemma_dec_commit_len(cs, b, kappa, n - 1);
    }
}

/// The recomposed claim, read coefficient by coefficient.
pub proof fn lemma_dec_claim_coeff(ys: Seq<Seq<Seq<E2>>>, b: nat, j: int, l: int, n: int)
    requires
        0 <= l < 54,
    ensures
        dec_claim(ys, b, j, n)[l] == dec_claim_coeff(ys, b, j, l, n),
        dec_claim(ys, b, j, n).len() == 54,
    decreases n,
{
    if n > 0 {
        lemma_dec_claim_coeff(ys, b, j, l, n - 1);
        let w = dec_weight(b, (n - 1) as nat);
        lemma_e2_mul_comm(ys[n - 1][j][l], e2_base(w));
        let y = ys[n - 1][j][l];
        assert(y.1 * 0 == 0);
        assert(y.0 * 0 == 0);
        assert(e2_mul(y, e2_base(w)) == e2_scale(y, w));
    }
}

/// Tie coefficient `(s, l)` of the parent commitment to `sum_i b^i c_i[s][l]`.
fn commit_slot(
    cs: &mut ConstraintSystem,
    weights: &Vec<Fp>,
    children: &Vec<Commitment>,
    parent: &Commitment,
    s: usize,
    l: usize,
    Ghost(b): Ghost<nat>,
)
    requires
        cs_wf(old(cs)@),
        l < 54,
        s < parent@.len(),
        weights@.len() <= children@.len(),
        forall|i: int| 0 <= i < weights@.len() ==> (#[trigger] weights@[i])@ == dec_weight(b, i as nat),
        forall|i: int| 0 <= i < weights@.len() ==> (#[trigger] children@[i])@.len() >= parent@.len(),
    ensures
        cs_wf(final(cs)@),
        cs_extends(old(cs)@, final(cs)@),
        cs_satisfied(final(cs)@) <==> (cs_satisfied(old(cs)@) && parent@[s as int][l as int] == dec_coeff(
            Seq::new(weights@.len() as nat, |i: int| children@[i]@),
            b,
            s as int,
            l as int,
            weights@.len() as int,
        )),
{
    let ghost s0 = cs@;
    let ghost kids = Seq::new(weights@.len() as nat, |i: int| children@[i]@);
    proof {
        lemma_extends_refl(s0);
    }
    let mut acc = Lc::zero();
    let mut i: usize = 0;
    while i < weights.len()
        invariant
            i <= weights@.len(),
            l < 54,
            s < parent@.len(),
            weights@.len() <= children@.len(),
            forall|i2: int| 0 <= i2 < weights@.len() ==> (#[trigger] weights@[i2])@ == dec_weight(b, i2 as nat),
            forall|i2: int| 0 <= i2 < weights@.len() ==> (#[trigger] children@[i2])@.len() >= parent@.len(),
            kids == Seq::new(weights@.len() as nat, |i2: int| children@[i2]@),
            cs_wf(s0),
            cs_wf(cs@),
            cs_extends(s0, cs@),
            cs_satisfied(cs@) <==> cs_satisfied(s0),
            lc_valid(acc@, cs@.0.len()),
            lc_value(acc@, cs@.0) == dec_coeff(kids, b, s as int, l as int, i as int),
        decreases weights@.len() - i,
    {
        let coeff = children[i].0[s].coeffs()[l];
        let ghost s1 = cs@;
        let var = cs.allocate(coeff);
        let wi = weights[i];
        let term = Lc::from_var(var).scale(wi);
        proof {
            lemma_extends_trans(s0, s1, cs@);
            lemma_lc_value_extend(acc@, s1.0, coeff@);
            lemma_lc_value_scale(seq![(var.0, 1nat)], wi@, cs@.0);
            lemma_lc_value_single(var.0, 1, cs@.0);
            lemma_lc_value_append(acc@, term@, cs@.0);
            assert(coeff@ == kids[i as int][s as int][l as int]) by {
                assert(children@[i as int]@[s as int] == children@[i as int].0@[s as int]@);
            }
            assert(fmul(1, coeff@) == coeff@);
            assert(fmul(coeff@, wi@) == fmul(wi@, coeff@)) by (nonlinear_arith);
            assert forall|t: int| 0 <= t < (acc@ + term@).len() implies (#[trigger] (acc@ + term@)[t]).0 < cs@.0.len() by {
                if t < acc@.len() {
                    assert((acc@ + term@)[t] == acc@[t]);
                }
            }
        }
        acc = acc.add(&term);
        i = i + 1;
    }
    let p = cs.constant(parent.0[s].coeffs()[l]);
    proof {
        lemma_lc_value_single(0, parent@[s as int][l as int], cs@.0);
        assert(parent@[s as int] == parent.0@[s as int]@);
        assert(fmul(parent@[s as int][l as int], 1) == parent@[s as int][l as int]);
    }
    let ghost s2 = cs@;
    cs.assert_eq(&p, &acc);
    proof {
        lemma_extends_trans(s0, s2, cs@);
    }
}

/// Tie coefficient `l` of parent claim `j` to `sum_i b^i y_{i,j}[l]`.
fn claim_slot(
    cs: &mut ConstraintSystem,
    weights: &Vec<Fp>,
    child_evals: &Vec<Vec<RingK>>,
    parent: &RingK,
    j: usize,
    l: usize,
    Ghost(b): Ghost<nat>,
)
    requires
        cs_wf(old(cs)@),
        l < 54,
        weights@.len() <= child_evals@.len(),
        forall|i: int| 0 <= i < weights@.len() ==> (#[trigger] weights@[i])@ == dec_weight(b, i as nat),
        forall|i: int| 0 <= i < weights@.len() ==> j < (#[trigger] child_evals@[i])@.len(),
    ensures
        cs_wf(final(cs)@),
        cs_extends(old(cs)@, final(cs)@),
        cs_satisfied(final(cs)@) <==> (cs_satisfied(old(cs)@) && parent@[l as int] == dec_claim_coeff(
            Seq::new(weights@.len() as nat, |i: int| crate::types::rk_views(child_evals@[i]@)),
            b,
            j as int,
            l as int,
            weights@.len() as int,
        )),
{
    let ghost s0 = cs@;
    let ghost ys = Seq::new(weights@.len() as nat, |i: int| crate::types::rk_views(child_evals@[i]@));
    proof {
        lemma_extends_refl(s0);
    }
    let mut acc = KVar::constant(cs, Ext2::zero());
    let mut i: usize = 0;
    while i < weights.len()
        invariant
            i <= weights@.len(),
            l < 54,
            weights@.len() <= child_evals@.len(),
            forall|i2: int| 0 <= i2 < weights@.len() ==> (#[trigger] weights@[i2])@ == dec_weight(b, i2 as nat),
            forall|i2: int| 0 <= i2 < weights@.len() ==> j < (#[trigger] child_evals@[i2])@.len(),
            ys == Seq::new(weights@.len() as nat, |i2: int| crate::types::rk_views(child_evals@[i2]@)),
            cs_wf(s0),
            cs_wf(cs@),
            cs_extends(s0, cs@),
            cs_satisfied(cs@) <==> cs_satisfied(s0),
            kv_valid(acc, cs@.0.len()),
            kv_value(acc, cs@.0) == dec_claim_coeff(ys, b, j as int, l as int, i as int),
        decreases weights@.len() - i,
    {
        let ghost s1 = cs@;
        assert(j < child_evals@[i as int]@.len());
        let kv = KVar::allocate(cs, child_evals[i][j].coeff(l));
        proof {
            lemma_extends_trans(s0, s1, cs@);
            lemma_kv_stable(acc, s1, cs@);
            assert(ys[i as int][j as int] == child_evals@[i as int]@[j as int]@);
        }
        acc = acc.add(&kv.scale(weights[i]));
        i = i + 1;
    }
    let p = KVar::constant(cs, parent.coeff(l));
    let ghost s2 = cs@;
    p.assert_eq(cs, &acc);
    proof {
        lemma_extends_trans(s0, s2, cs@);
    }
}

/// Coefficient `(s, l)` of the parent commitment is the weighted sum of the children's.
pub open spec fn commit_coeff_ok(proof: PiDecProof, ce: CeInstance, b: nat, k: nat, s: int, l: int) -> bool {
    ce.c@[s][l] == dec_coeff(dec_cs(proof, k), b, s, l, k as int)
}

/// Coefficient `l` of parent claim `j` is the weighted sum of the children's.
pub open spec fn claim_coeff_ok(proof: PiDecProof, ce: CeInstance, b: nat, k: nat, j: int, l: int) -> bool {
    ce.y@[j]@[l] == dec_claim_coeff(dec_ys(proof, k), b, j, l, k as int)
}

/// The commitment additivity constraints, slot by slot and coefficient by coefficient.
fn commit_checks(cs: &mut ConstraintSystem, weights: &Vec<Fp>, ce: &CeInstance, proof: &PiDecProof, Ghost(b): Ghost<nat>)
    requires
        cs_wf(old(cs)@),
        weights@.len() <= proof.child_commitments@.len(),
        forall|i: int| 0 <= i < weights@.len() ==> (#[trigger] weights@[i])@ == dec_weight(b, i as nat),
        forall|i: int| 0 <= i < weights@.len() ==> (#[trigger] proof.child_commitments@[i])@.len() >= ce.c@.len(),
    ensures
        cs_wf(final(cs)@),
        cs_extends(old(cs)@, final(cs)@),
        cs_satisfied(final(cs)@) <==> (cs_satisfied(old(cs)@) && forall|s: int, l: int|
            0 <= s < ce.c@.len() && 0 <= l < 54 ==> #[trigger] commit_coeff_ok(
                *proof,
                *ce,
                b,
                weights@.len() as nat,
                s,
                l,
            )),
{
    let ghost s0 = cs@;
    let ghost k = weights@.len() as nat;
    proof {
        lemma_extends_refl(s0);
        assert(Seq::new(k, |i: int| proof.child_commitments@[i]@) == dec_cs(*proof, k));
    }
    let kappa = ce.c.dim();
    let mut s: usize = 0;
    while s < kappa
        invariant
            s <= kappa,
            kappa == ce.c@.len(),
            k == weights@.len(),
            Seq::new(k, |i: int| proof.child_commitments@[i]@) == dec_cs(*proof, k),
            weights@.len() <= proof.child_commitments@.len(),
            forall|i: int| 0 <= i < weights@.len() ==> (#[trigger] weights@[i])@ == dec_weight(b, i as nat),
            forall|i: int| 0 <= i < weights@.len() ==> (#[trigger] proof.child_commitments@[i])@.len() >= ce.c@.len(),
            cs_wf(s0),
            cs_wf(cs@),
            cs_extends(s0, cs@),
            cs_satisfied(cs@) <==> (cs_satisfied(s0) && forall|s2: int, l2: int|
                0 <= s2 < s && 0 <= l2 < 54 ==> #[trigger] commit_coeff_ok(*proof, *ce, b, k, s2, l2)),
        decreases kappa - s,
    {
        let mut l: usize = 0;
        while l < 54
            invariant
                s < kappa,
                l <= 54,
                kappa == ce.c@.len(),
                k == weights@.len(),
                Seq::new(k, |i: int| proof.child_commitments@[i]@) == dec_cs(*proof, k),
                weights@.len() <= proof.child_commitments@.len(),
                forall|i: int| 0 <= i < weights@.len() ==> (#[trigger] weights@[i])@ == dec_weight(b, i as nat),
                forall|i: int|
                    0 <= i < weights@.len() ==> (#[trigger] proof.child_commitments@[i])@.len() >= ce.c@.len(),
                cs_wf(s0),
                cs_wf(cs@),
                cs_extends(s0, cs@),
                cs_satisfied(cs@) <==> (cs_satisfied(s0) && (forall|s2: int, l2: int|
                    0 <= s2 < s && 0 <= l2 < 54 ==> #[trigger] commit_coeff_ok(*proof, *ce, b, k, s2, l2)) && (
                forall|l2: int| 0 <= l2 < l ==> #[trigger] commit_coeff_ok(*proof, *ce, b, k, s as int, l2))),
            decreases 54 - l,
        {
            let ghost s1 = cs@;
            commit_slot(cs, weights, &proof.child_commitments, &ce.c, s, l, Ghost(b));
            proof {
                lemma_extends_trans(s0, s1, cs@);
                let ok = commit_coeff_ok(*proof, *ce, b, k, s as int, l as int);
                assert(ok == (ce.c@[s as int][l as int] == dec_coeff(
                    Seq::new(weights@.len() as nat, |i: int| proof.child_commitments@[i]@),
                    b,
                    s as int,
                    l as int,
                    weights@.len() as int,
                )));
                if cs_satisfied(cs@) {
                    assert forall|l2: int| 0 <= l2 < l + 1 implies #[trigger] commit_coeff_ok(
                        *proof,
                        *ce,
                        b,
                        k,
                        s as int,
                        l2,
                    ) by {
                        if l2 == l {
                            assert(ok);
                        }
                    }
                }
            }
            l = l + 1;
        }
        proof {
            assert forall|s2: int, l2: int| 0 <= s2 < s + 1 && 0 <= l2 < 54 && cs_satisfied(cs@) implies
                #[trigger] commit_coeff_ok(*proof, *ce, b, k, s2, l2) by {
                if s2 == s {
                    assert(commit_coeff_ok(*proof, *ce, b, k, s as int, l2));
                }
            }
        }
        s = s + 1;
    }
}

/// The claim additivity constraints, claim by claim and coefficient by coefficient.
fn claim_checks(cs: &mut ConstraintSystem, weights: &Vec<Fp>, ce: &CeInstance, proof: &PiDecProof, Ghost(b): Ghost<nat>)
    requires
        cs_wf(old(cs)@),
        weights@.len() <= proof.child_evals@.len(),
        forall|i: int| 0 <= i < weights@.len() ==> (#[trigger] weights@[i])@ == dec_weight(b, i as nat),
        forall|i: int| 0 <= i < weights@.len() ==> ce.y@.len() <= (#[trigger] proof.child_evals@[i])@.len(),
    ensures
        cs_wf(final(cs)@),
        cs_extends(old(cs)@, final(cs)@),
        cs_satisfied(final(cs)@) <==> (cs_satisfied(old(cs)@) && forall|j: int, l: int|
            0 <= j < ce.y@.len() && 0 <= l < 54 ==> #[trigger] claim_coeff_ok(
                *proof,
                *ce,
                b,
                weights@.len() as nat,
                j,
                l,
            )),
{
    let ghost s0 = cs@;
    let ghost k = weights@.len() as nat;
    proof {
        lemma_extends_refl(s0);
        assert(Seq::new(k, |i: int| crate::types::rk_views(proof.child_evals@[i]@)) == dec_ys(*proof, k));
    }
    let t = ce.y.len();
    let mut j: usize = 0;
    while j < t
        invariant
            j <= t,
            t == ce.y@.len(),
            k == weights@.len(),
            Seq::new(k, |i: int| crate::types::rk_views(proof.child_evals@[i]@)) == dec_ys(*proof, k),
            weights@.len() <= proof.child_evals@.len(),
            forall|i: int| 0 <= i < weights@.len() ==> (#[trigger] weights@[i])@ == dec_weight(b, i as nat),
            forall|i: int| 0 <= i < weights@.len() ==> ce.y@.len() <= (#[trigger] proof.child_evals@[i])@.len(),
            cs_wf(s0),
            cs_wf(cs@),
            cs_extends(s0, cs@),
            cs_satisfied(cs@) <==> (cs_satisfied(s0) && forall|j2: int, l2: int|
                0 <= j2 < j && 0 <= l2 < 54 ==> #[trigger] claim_coeff_ok(*proof, *ce, b, k, j2, l2)),
        decreases t - j,
    {
        let mut l: usize = 0;
        while l < 54
            invariant
                j < t,
                l <= 54,
                t == ce.y@.len(),
                k == weights@.len(),
                Seq::new(k, |i: int| crate::types::rk_views(proof.child_evals@[i]@)) == dec_ys(*proof, k),
                weights@.len() <= proof.child_evals@.len(),
                forall|i: int| 0 <= i < weights@.len() ==> (#[trigger] weights@[i])@ == dec_weight(b, i as nat),
                forall|i: int| 0 <= i < weights@.len() ==> ce.y@.len() <= (#[trigger] proof.child_evals@[i])@.len(),
                cs_wf(s0),
                cs_wf(cs@),
                cs_extends(s0, cs@),
                cs_satisfied(cs@) <==> (cs_satisfied(s0) && (forall|j2: int, l2: int|
                    0 <= j2 < j && 0 <= l2 < 54 ==> #[trigger] claim_coeff_ok(*proof, *ce, b, k, j2, l2)) && (
                forall|l2: int| 0 <= l2 < l ==> #[trigger] claim_coeff_ok(*proof, *ce, b, k, j as int, l2))),
            decreases 54 - l,
        {
            let ghost s1 = cs@;
            claim_slot(cs, weights, &proof.child_evals, &ce.y[j], j, l, Ghost(b));
            proof {
                lemma_extends_trans(s0, s1, cs@);
                let ok = claim_coeff_ok(*proof, *ce, b, k, j as int, l as int);
                assert(ok == (ce.y@[j as int]@[l as int] == dec_claim_coeff(
                    Seq::new(weights@.len() as nat, |i: int| crate::types::rk_views(proof.child_evals@[i]@)),
                    b,
                    j as int,
                    l as int,
                    weights@.len() as int,
                )));
                if cs_satisfied(cs@) {
                    assert forall|l2: int| 0 <= l2 < l + 1 implies #[trigger] claim_coeff_ok(
                        *proof,
                        *ce,
                        b,
                        k,
                        j as int,
                        l2,
                    ) by {
                        if l2 == l {
                            assert(ok);
                        }
                    }
                }
            }
            l = l + 1;
        }
        proof {
            assert forall|j2: int, l2: int| 0 <= j2 < j + 1 && 0 <= l2 < 54 && cs_satisfied(cs@) implies
                #[trigger] claim_coeff_ok(*proof, *ce, b, k, j2, l2) by {
                if j2 == j {
                    assert(claim_coeff_ok(*proof, *ce, b, k, j as int, l2));
                }
            }
        }
        j = j + 1;
    }
}

/// The coefficient checks say exactly what the native recomposition checks say.
pub proof fn lemma_dec_checks(proof: PiDecProof, ce: CeInstance, b: nat, k: nat)
    requires
        proof.child_commitments@.len() >= k,
        proof.child_evals@.len() >= k,
        forall|i: int| 0 <= i < k ==> (#[trigger] proof.child_commitments@[i])@.len() >= ce.c@.len(),
    ensures
        (forall|s: int, l: int|
            0 <= s < ce.c@.len() && 0 <= l < 54 ==> #[trigger] commit_coeff_ok(proof, ce, b, k, s, l))
            <==> dec_commit_ok(proof, ce, b, k),
        (forall|j: int, l: int|
            0 <= j < ce.y@.len() && 0 <= l < 54 ==> #[trigger] claim_coeff_ok(proof, ce, b, k, j, l))
            <==> dec_claims_ok(proof, ce, b, k),
{
    let kids = dec_cs(proof, k);
    let kappa = ce.c@.len();
    assert forall|i: int| 0 <= i < k implies (#[trigger] kids[i]).len() >= kappa by {
        assert(kids[i] == proof.child_commitments@[i]@);
    }
    let rec = dec_commit(kids, b, kappa, k as int);
    assert forall|s: int, l: int| 0 <= s < kappa && 0 <= l < 54 implies #[trigger] rec[s][l] == dec_coeff(
        kids,
        b,
        s,
        l,
        k as int,
    ) && rec[s].len() == 54 && ce.c@[s].len() == 54 by {
        lemma_dec_commit_coeff(kids, b, kappa, s, l, k as int);
        assert(ce.c@[s] == ce.c.0@[s]@);
        assert(crate::ring::ring_wf(ce.c.0@[s]@));
    }
    if forall|s: int, l: int| 0 <= s < kappa && 0 <= l < 54 ==> #[trigger] commit_coeff_ok(proof, ce, b, k, s, l) {
        lemma_dec_commit_len(kids, b, kappa, k as int);
        assert forall|s: int| 0 <= s < kappa implies rec[s] =~= ce.c@[s] by {
            lemma_dec_commit_coeff(kids, b, kappa, s, 0, k as int);
            assert(ce.c@[s] == ce.c.0@[s]@);
            assert(crate::ring::ring_wf(ce.c.0@[s]@));
            assert forall|l: int| 0 <= l < 54 implies rec[s][l] == ce.c@[s][l] by {
                assert(commit_coeff_ok(proof, ce, b, k, s, l));
            }
        }
        assert(rec =~= ce.c@);
    }
    if dec_commit_ok(proof, ce, b, k) {
        assert forall|s: int, l: int| 0 <= s < kappa && 0 <= l < 54 implies #[trigger] commit_coeff_ok(
            proof,
            ce,
            b,
            k,
            s,
            l,
        ) by {
            assert(rec[s][l] == ce.c@[s][l]);
        }
    }
    let ys = dec_ys(proof, k);
    assert forall|j: int, l: int| 0 <= j < ce.y@.len() && 0 <= l < 54 implies #[trigger] dec_claim(ys, b, j, k as int)[l]
        == dec_claim_coeff(ys, b, j, l, k as int) && dec_claim(ys, b, j, k as int).len() == 54 && ce.y@[j]@.len()
        == 54 by {
        lemma_dec_claim_coeff(ys, b, j, l, k as int);
        assert(crate::ring_k::rk_wf(ce.y@[j]@));
    }
    if forall|j: int, l: int| 0 <= j < ce.y@.len() && 0 <= l < 54 ==> #[trigger] claim_coeff_ok(proof, ce, b, k, j, l) {
        assert forall|j: int| 0 <= j < ce.y@.len() implies #[trigger] dec_claim(ys, b, j, k as int) == ce.y@[j]@ by {
            lemma_dec_claim_coeff(ys, b, j, 0, k as int);
            assert(crate::ring_k::rk_wf(ce.y@[j]@));
            assert forall|l: int| 0 <= l < 54 implies dec_claim(ys, b, j, k as int)[l] == ce.y@[j]@[l] by {
                assert(claim_coeff_ok(proof, ce, b, k, j, l));
            }
            assert(dec_claim(ys, b, j, k as int) =~= ce.y@[j]@);
        }
    }
    if dec_claims_ok(proof, ce, b, k) {
        assert forall|j: int, l: int| 0 <= j < ce.y@.len() && 0 <= l < 54 implies #[trigger] claim_coeff_ok(
            proof,
            ce,
            b,
            k,
            j,
            l,
        ) by {
            assert(dec_claim(ys, b, j, k as int) == ce.y@[j]@);
        }
    }
}

/// Build the in-circuit Π_DEC verifier from a proof and its parent CE instance.
///
/// The parent `(c, y)` is the public statement, pinned as constants; the children's
/// commitments and claims are advice. The system is satisfied exactly when the
/// children recompose the parent, the two checks the native verifier makes.
pub fn build_pi_dec_verifier_circuit(gp: &GlobalParams, ce: &CeInstance, proof: &PiDecProof) -> (cs: ConstraintSystem)
    requires
        proof.child_commitments@.len() >= gp.k,
        proof.child_evals@.len() >= gp.k,
        forall|i: int| 0 <= i < gp.k ==> (#[trigger] proof.child_commitments@[i])@.len() >= ce.c@.len(),
        forall|i: int| 0 <= i < gp.k ==> ce.y@.len() <= (#[trigger] proof.child_evals@[i])@.len(),
    ensures
        cs_wf(cs@),
        cs_satisfied(cs@) <==> dec_commit_ok(*proof, *ce, gp.b as nat, gp.k as nat) && dec_claims_ok(
            *proof,
            *ce,
            gp.b as nat,
            gp.k as nat,
        ),
{
    let weights = base_weights(gp.b, gp.k);
    let mut cs = ConstraintSystem::new();
    assert(cs_satisfied(cs@));
    commit_checks(&mut cs, &weights, ce, proof, Ghost(gp.b as nat));
    claim_checks(&mut cs, &weights, ce, proof, Ghost(gp.b as nat));
    proof {
        lemma_dec_checks(*proof, *ce, gp.b as nat, gp.k as nat);
    }
    cs
}

} // verus!
