//! The folding scheme: `Π_DEC ∘ Π_RLC ∘ Π_CCS`.
//!
//! Folds `K` fresh CCS instances together with the `k` running CE instances of the
//! accumulator into a fresh accumulator of `k` CE instances of norm bound `b`.

use vstd::prelude::*;

use crate::error::FoldError;
use crate::ext2::e2_seq;
use crate::ext2::E2;
use crate::fp::abs_balanced_of;
use crate::ccs_complete::{law_pi_ccs_complete, piccs_honest};
use crate::pi_ccs::{
    absorb_rows, outputs_ok, piccs_final_claim, piccs_inputs_ok, piccs_q, piccs_rprime, piccs_sc_ok, piccs_shape_ok,
    piccs_t2, piccs_yprime_tag, pi_ccs_prove, pi_ccs_verify, witness_ring,
};
use crate::pi_dec::{dec_absorbed, dec_claim, dec_commit, dec_cs, dec_shape_ok, dec_ys, pi_dec_prove, pi_dec_verify};
use crate::pi_rlc::{
    lemma_rlc_bound_views, lemma_rlc_output_views, pi_rlc_prove, pi_rlc_verify, rlc_bound_views,
    rlc_inputs_ok, rlc_output_views, rlc_rhos,
};
use crate::sumcheck::sc_state;
use crate::transcript::{after_squeeze, TrView};
use crate::pp::PublicParams;
use crate::ring::{lemma_ring_wf, ring_seq, ring_wf};
use crate::ring_k::lemma_rk_wf;
use crate::transcript::Transcript;
use crate::types::{
    ce_views, rk_views, CcsInstance, CcsStructure, CcsWitness, CeInstance, CeWitness, FoldProof, GlobalParams,
};

verus! {

broadcast use {lemma_ring_wf, lemma_rk_wf};

/// The commitment rank of a folding step: that of its first instance.
pub open spec fn fold_kappa(fresh: Seq<CcsInstance>, carried: Seq<CeInstance>) -> nat {
    if fresh.len() > 0 {
        fresh[0].c@.len()
    } else {
        carried[0].c@.len()
    }
}

/// The inputs of one folding step: Π_CCS inputs, at least one instance, and one
/// commitment rank throughout.
pub open spec fn fold_inputs_ok(
    gp: GlobalParams,
    s: CcsStructure,
    fresh: Seq<CcsInstance>,
    carried: Seq<CeInstance>,
) -> bool {
    let kappa = fold_kappa(fresh, carried);
    &&& piccs_inputs_ok(gp, s, fresh, carried)
    &&& fresh.len() + carried.len() > 0
    &&& forall|i: int| 0 <= i < fresh.len() ==> (#[trigger] fresh[i]).c@.len() == kappa
    &&& forall|i: int| 0 <= i < carried.len() ==> (#[trigger] carried[i]).c@.len() == kappa
}

/// The Π_RLC inputs a Π_CCS run produces are well formed.
proof fn lemma_mid_ok(
    gp: GlobalParams,
    s: CcsStructure,
    fresh: Seq<CcsInstance>,
    carried: Seq<CeInstance>,
    mid: Seq<CeInstance>,
    evals: Seq<Vec<crate::ring_k::RingK>>,
    r: Seq<crate::ext2::E2>,
)
    requires
        fold_inputs_ok(gp, s, fresh, carried),
        outputs_ok(mid, fresh, carried, r, evals),
        piccs_shape_ok(evals, fresh.len() + carried.len(), s.matrices@.len()),
    ensures
        rlc_inputs_ok(gp, mid),
        forall|i: int| 0 <= i < mid.len() ==> (#[trigger] mid[i]).c@.len() == fold_kappa(fresh, carried),
        forall|i: int| 0 <= i < mid.len() ==> (#[trigger] mid[i]).r@.len() == r.len(),
        forall|i: int| 0 <= i < mid.len() ==> (#[trigger] mid[i]).y@.len() == s.matrices@.len(),
{
    crate::pi_ccs::lemma_dims(fresh.len() as int, carried.len() as int, s.matrices@.len() as int);
    let kappa = fold_kappa(fresh, carried);
    assert forall|i: int| 0 <= i < mid.len() implies (#[trigger] mid[i]).c@.len() == kappa && mid[i].y@.len()
        == s.matrices@.len() && mid[i].r@.len() == r.len() by {
        assert(mid[i]@.0.len() == mid[i].c@.len());
        assert(rk_views(mid[i].y@).len() == mid[i].y@.len());
        assert(e2_seq(mid[i].r@).len() == mid[i].r@.len());
        if i < fresh.len() {
            assert(fresh[i]@ == fresh[i].c@);
        } else {
            assert(carried[i - fresh.len()]@.0 == carried[i - fresh.len()].c@);
        }
    }
    assert(8 * 54 * mid.len() <= usize::MAX);
}

/// The views of the instances Π_CCS hands on: each input's commitment at the point `r`
/// with the proof's claims for it.
pub open spec fn ccs_output_views(
    fresh: Seq<CcsInstance>,
    carried: Seq<CeInstance>,
    r: Seq<E2>,
    evals: Seq<Vec<crate::ring_k::RingK>>,
) -> Seq<(Seq<Seq<nat>>, Seq<E2>, Seq<Seq<E2>>)> {
    Seq::new(
        fresh.len() + carried.len(),
        |i: int|
            (
                if i < fresh.len() {
                    fresh[i]@
                } else {
                    carried[i - fresh.len()]@.0
                },
                r,
                rk_views(evals[i]@),
            ),
    )
}

/// The transcript of a folding step once Π_CCS is done: its sum-check rounds and its
/// claims absorbed.
pub open spec fn fold_after_ccs(
    t: TrView,
    gp: GlobalParams,
    s: CcsStructure,
    fresh: Seq<CcsInstance>,
    carried: Seq<CeInstance>,
    proof: FoldProof,
) -> TrView {
    absorb_rows(sc_state(piccs_t2(t, gp, s, fresh, carried), proof.ccs.sumcheck@), piccs_yprime_tag(), proof.ccs.evals@)
}

/// The instances Π_RLC combines in a folding step.
pub open spec fn fold_mid(
    t: TrView,
    gp: GlobalParams,
    s: CcsStructure,
    fresh: Seq<CcsInstance>,
    carried: Seq<CeInstance>,
    proof: FoldProof,
) -> Seq<(Seq<Seq<nat>>, Seq<E2>, Seq<Seq<E2>>)> {
    ccs_output_views(fresh, carried, piccs_rprime(t, gp, s, fresh, carried, proof.ccs), proof.ccs.evals@)
}

/// The Π_RLC challenges of a folding step.
pub open spec fn fold_rhos(
    t: TrView,
    gp: GlobalParams,
    s: CcsStructure,
    fresh: Seq<CcsInstance>,
    carried: Seq<CeInstance>,
    proof: FoldProof,
) -> Seq<Seq<nat>> {
    rlc_rhos(
        rlc_bound_views(fold_after_ccs(t, gp, s, fresh, carried, proof), fold_mid(t, gp, s, fresh, carried, proof)),
        fresh.len() + carried.len(),
        2,
    )
}

/// The Π_RLC and Π_DEC part of accepting a folding step: the Π_RLC challenges are the
/// transcript's, and the Π_DEC children are well shaped and recompose the combined
/// commitment and every combined claim.
pub open spec fn fold_accepts_after_ccs(
    t: TrView,
    gp: GlobalParams,
    s: CcsStructure,
    fresh: Seq<CcsInstance>,
    carried: Seq<CeInstance>,
    proof: FoldProof,
) -> bool {
    let rlc = rlc_output_views(fold_mid(t, gp, s, fresh, carried, proof), fold_rhos(t, gp, s, fresh, carried, proof));
    let k = gp.k as nat;
    let b = gp.b as nat;
    &&& ring_seq(proof.rlc.rhos@) == fold_rhos(t, gp, s, fresh, carried, proof)
    &&& dec_shape_ok(proof.dec, k, rlc.2.len())
    &&& dec_commit(dec_cs(proof.dec, k), b, rlc.0.len(), k as int) == rlc.0
    &&& forall|j: int| 0 <= j < rlc.2.len() ==> #[trigger] dec_claim(dec_ys(proof.dec, k), b, j, k as int) == rlc.2[j]
}

/// The Π_CCS part of accepting a folding step: every sum-check round passes, the claims
/// have one row per instance, and the final claim is `Q(r')`.
pub open spec fn fold_ccs_ok(
    t: TrView,
    gp: GlobalParams,
    s: CcsStructure,
    fresh: Seq<CcsInstance>,
    carried: Seq<CeInstance>,
    proof: FoldProof,
) -> bool {
    &&& piccs_sc_ok(t, gp, s, fresh, carried, proof.ccs)
    &&& piccs_shape_ok(proof.ccs.evals@, fresh.len() + carried.len(), s.matrices@.len())
    &&& piccs_q(t, gp, s, fresh, carried, proof.ccs) == piccs_final_claim(t, gp, s, fresh, carried, proof.ccs)
}

/// The verifier accepts a folding step: Π_CCS checks out, then Π_RLC and Π_DEC do.
pub open spec fn fold_accepts(
    t: TrView,
    gp: GlobalParams,
    s: CcsStructure,
    fresh: Seq<CcsInstance>,
    carried: Seq<CeInstance>,
    proof: FoldProof,
) -> bool {
    &&& fold_ccs_ok(t, gp, s, fresh, carried, proof)
    &&& fold_accepts_after_ccs(t, gp, s, fresh, carried, proof)
}

/// The transcript once a folding step is verified: Π_CCS, the Π_RLC binding and
/// challenges, then the Π_DEC children.
pub open spec fn fold_final_state(
    t: TrView,
    gp: GlobalParams,
    s: CcsStructure,
    fresh: Seq<CcsInstance>,
    carried: Seq<CeInstance>,
    proof: FoldProof,
) -> TrView {
    dec_absorbed(
        after_squeeze(
            rlc_bound_views(fold_after_ccs(t, gp, s, fresh, carried, proof), fold_mid(t, gp, s, fresh, carried, proof)),
        ),
        proof.dec,
    )
}

/// The accumulator a verified folding step hands on: the Π_DEC children at the
/// sum-check point.
pub open spec fn fold_out_views(
    t: TrView,
    gp: GlobalParams,
    s: CcsStructure,
    fresh: Seq<CcsInstance>,
    carried: Seq<CeInstance>,
    proof: FoldProof,
) -> Seq<(Seq<Seq<nat>>, Seq<E2>, Seq<Seq<E2>>)> {
    Seq::new(
        gp.k as nat,
        |i: int|
            (
                proof.dec.child_commitments@[i]@,
                piccs_rprime(t, gp, s, fresh, carried, proof.ccs),
                rk_views(proof.dec.child_evals@[i]@),
            ),
    )
}

/// A folding step reads the carried instances only through their views.
pub proof fn lemma_fold_views(
    t: TrView,
    gp: GlobalParams,
    s: CcsStructure,
    fresh: Seq<CcsInstance>,
    c1: Seq<CeInstance>,
    c2: Seq<CeInstance>,
    proof: FoldProof,
)
    requires
        ce_views(c1) == ce_views(c2),
    ensures
        fold_inputs_ok(gp, s, fresh, c1) == fold_inputs_ok(gp, s, fresh, c2),
        fresh.len() + c1.len() > 0 ==> fold_kappa(fresh, c1) == fold_kappa(fresh, c2),
        fold_ccs_ok(t, gp, s, fresh, c1, proof) == fold_ccs_ok(t, gp, s, fresh, c2, proof),
        fold_accepts_after_ccs(t, gp, s, fresh, c1, proof) == fold_accepts_after_ccs(t, gp, s, fresh, c2, proof),
        fold_accepts(t, gp, s, fresh, c1, proof) == fold_accepts(t, gp, s, fresh, c2, proof),
        fold_final_state(t, gp, s, fresh, c1, proof) == fold_final_state(t, gp, s, fresh, c2, proof),
        fold_out_views(t, gp, s, fresh, c1, proof) == fold_out_views(t, gp, s, fresh, c2, proof),
{
    crate::pi_ccs::lemma_piccs_views(t, gp, s, fresh, c1, c2, proof.ccs);
    assert forall|i: int| 0 <= i < c1.len() implies #[trigger] c1[i].c@ == c2[i].c@ by {
        assert(ce_views(c1)[i] == ce_views(c2)[i]);
        assert(c1[i]@.0 == c1[i].c@ && c2[i]@.0 == c2[i].c@);
    }
    if fresh.len() == 0 && c1.len() > 0 {
        assert(c1[0].c@ == c2[0].c@);
    }
    if fold_inputs_ok(gp, s, fresh, c1) {
        assert forall|i: int| 0 <= i < c2.len() implies (#[trigger] c2[i]).c@.len() == fold_kappa(fresh, c2) by {
            assert(c1[i].c@ == c2[i].c@);
        }
    }
    if fold_inputs_ok(gp, s, fresh, c2) {
        assert forall|i: int| 0 <= i < c1.len() implies (#[trigger] c1[i]).c@.len() == fold_kappa(fresh, c1) by {
            assert(c1[i].c@ == c2[i].c@);
        }
    }
    assert(fold_mid(t, gp, s, fresh, c1, proof) =~= fold_mid(t, gp, s, fresh, c2, proof));
    assert(fold_out_views(t, gp, s, fresh, c1, proof) =~= fold_out_views(t, gp, s, fresh, c2, proof));
}

/// Every input instance of a folding step commits to its witness.
pub open spec fn fold_inputs_committed(
    pp: PublicParams,
    fresh: Seq<CcsInstance>,
    fresh_wit: Seq<CcsWitness>,
    carried: Seq<CeInstance>,
    carried_wit: Seq<CeWitness>,
) -> bool {
    &&& forall|i: int| 0 <= i < fresh.len() ==> (#[trigger] fresh[i])@ == pp.commit_spec(witness_ring(fresh_wit, carried_wit, i))
    &&& forall|i: int|
        0 <= i < carried.len() ==> (#[trigger] carried[i]).c@ == pp.commit_spec(
            witness_ring(fresh_wit, carried_wit, fresh.len() + i),
        )
}

/// The honest Π_RLC and Π_DEC messages of a folding step pass the verifier's Π_RLC and
/// Π_DEC checks, once Π_CCS has handed on instances that hold for their witnesses.
proof fn lemma_fold_complete_after_ccs(
    t0: TrView,
    t1: TrView,
    gp: GlobalParams,
    pp: PublicParams,
    s: CcsStructure,
    fresh: Seq<CcsInstance>,
    fresh_wit: Seq<CcsWitness>,
    carried: Seq<CeInstance>,
    carried_wit: Seq<CeWitness>,
    mid: Seq<CeInstance>,
    mid_w: Seq<CeWitness>,
    rlc_i: CeInstance,
    rlc_w: CeWitness,
    proof: FoldProof,
)
    requires
        fold_inputs_ok(gp, s, fresh, carried),
        pp.wf(),
        pp.n_cols == gp.n_r,
        fold_inputs_committed(pp, fresh, fresh_wit, carried, carried_wit),
        fresh_wit.len() == fresh.len(),
        carried_wit.len() == carried.len(),
        forall|i: int| 0 <= i < fresh_wit.len() ==> (#[trigger] fresh_wit[i]).z@.len() == gp.m,
        forall|i: int| 0 <= i < carried_wit.len() ==> (#[trigger] carried_wit[i]).z_ring@.len() == gp.n_r,
        t1 == fold_after_ccs(t0, gp, s, fresh, carried, proof),
        outputs_ok(mid, fresh, carried, piccs_rprime(t0, gp, s, fresh, carried, proof.ccs), proof.ccs.evals@),
        piccs_shape_ok(proof.ccs.evals@, fresh.len() + carried.len(), s.matrices@.len()),
        forall|i: int, j: int|
            0 <= i < fresh.len() + carried.len() && 0 <= j < s.matrices@.len() ==> (#[trigger] proof.ccs.evals@[i]@[j])@
                == crate::types::eval_claim(
                s.mat(j),
                witness_ring(fresh_wit, carried_wit, i),
                piccs_rprime(t0, gp, s, fresh, carried, proof.ccs),
            ),
        mid_w.len() == fresh.len() + carried.len(),
        forall|i: int| 0 <= i < mid_w.len() ==> ring_seq((#[trigger] mid_w[i]).z_ring@) == witness_ring(fresh_wit, carried_wit, i),
        ring_seq(proof.rlc.rhos@) == crate::pi_rlc::rlc_rhos(crate::pi_rlc::rlc_bound(t1, mid), mid.len(), 2),
        rlc_i@ == crate::pi_rlc::rlc_output(mid, ring_seq(proof.rlc.rhos@)),
        ring_seq(rlc_w.z_ring@) == crate::pi_rlc::rlc_witness(
            Seq::new(mid_w.len(), |i: int| ring_seq(mid_w[i].z_ring@)),
            ring_seq(proof.rlc.rhos@),
            mid_w[0].z_ring@.len(),
            mid_w.len() as int,
        ),
        rlc_w.z_ring@.len() == gp.n_r,
        crate::pi_dec::dec_norm_ok(ring_seq(rlc_w.z_ring@), gp.cap_b as int),
        proof.dec.child_commitments@.len() == gp.k,
        proof.dec.child_evals@.len() == gp.k,
        forall|i: int|
            0 <= i < gp.k ==> (#[trigger] proof.dec.child_commitments@[i])@ == pp.commit_spec(
                crate::pi_dec::dec_child(ring_seq(rlc_w.z_ring@), gp.b as nat, i as nat),
            ),
        forall|i: int| 0 <= i < gp.k ==> (#[trigger] proof.dec.child_evals@[i])@.len() == s.matrices@.len(),
        forall|i: int, j: int|
            0 <= i < gp.k && 0 <= j < s.matrices@.len() ==> (#[trigger] proof.dec.child_evals@[i]@[j])@
                == crate::types::eval_claim(
                s.mat(j),
                crate::pi_dec::dec_child(ring_seq(rlc_w.z_ring@), gp.b as nat, i as nat),
                e2_seq(rlc_i.r@),
            ),
    ensures
        fold_accepts_after_ccs(t0, gp, s, fresh, carried, proof),
{
    let n = fresh.len() + carried.len();
    let rp = piccs_rprime(t0, gp, s, fresh, carried, proof.ccs);
    let rhos = ring_seq(proof.rlc.rhos@);
    let zs = Seq::new(mid_w.len(), |i: int| ring_seq(mid_w[i].z_ring@));
    lemma_mid_ok(gp, s, fresh, carried, mid, proof.ccs.evals@, rp);
    assert(ce_views(mid) =~= fold_mid(t0, gp, s, fresh, carried, proof));
    lemma_rlc_bound_views(t1, mid);
    lemma_rlc_output_views(mid, rhos);
    crate::pi_ccs::lemma_dims(fresh.len() as int, carried.len() as int, s.matrices@.len() as int);
    // Π_RLC: the combined instance holds for the combined witness.
    assert forall|i: int| 0 <= i < n implies (#[trigger] zs[i]).len() == pp.n_cols && (forall|j: int|
        0 <= j < pp.n_cols ==> ring_wf(#[trigger] zs[i][j])) && mid[i].c@ == pp.commit_spec(zs[i]) && e2_seq(mid[i].r@)
        == e2_seq(mid[0].r@) && (forall|j: int|
        0 <= j < s.matrices@.len() ==> (#[trigger] mid[i].y@[j])@ == crate::types::eval_claim(
            s.mat(j),
            zs[i],
            e2_seq(mid[i].r@),
        )) by {
        assert(zs[i] == witness_ring(fresh_wit, carried_wit, i));
        if i < fresh.len() {
            assert(fresh_wit[i].z@.len() == gp.m);
            assert(fresh[i]@ == pp.commit_spec(witness_ring(fresh_wit, carried_wit, i)));
        } else {
            assert(carried_wit[i - fresh.len()].z_ring@.len() == gp.n_r);
            assert(carried[i - fresh.len()].c@ == pp.commit_spec(
                witness_ring(fresh_wit, carried_wit, fresh.len() + (i - fresh.len())),
            ));
        }
        assert(ring_seq(mid_w[i].z_ring@).len() == mid_w[i].z_ring@.len());
        assert forall|j: int| 0 <= j < pp.n_cols implies ring_wf(#[trigger] zs[i][j]) by {
            lemma_ring_wf(mid_w[i].z_ring@[j]);
        }
        assert(mid[i]@.0 == mid[i].c@);
        assert forall|j: int| 0 <= j < s.matrices@.len() implies (#[trigger] mid[i].y@[j])@ == crate::types::eval_claim(
            s.mat(j),
            zs[i],
            e2_seq(mid[i].r@),
        ) by {
            assert(rk_views(mid[i].y@) == rk_views(proof.ccs.evals@[i]@));
            assert(rk_views(mid[i].y@)[j] == mid[i].y@[j]@);
            assert(rk_views(proof.ccs.evals@[i]@)[j] == proof.ccs.evals@[i]@[j]@);
        }
    }
    assert forall|i: int| 0 <= i < n implies ring_wf(#[trigger] rhos[i]) by {
        lemma_ring_wf(proof.rlc.rhos@[i]);
    }
    crate::pi_rlc::law_pi_rlc_complete(pp, s, mid, zs, rhos);
    // Π_DEC: the children recompose the combined instance.
    let w = crate::pi_rlc::rlc_witness(zs, rhos, pp.n_cols as nat, n as int);
    assert(mid_w[0].z_ring@.len() == gp.n_r) by {
        assert(ring_seq(mid_w[0].z_ring@).len() == mid_w[0].z_ring@.len());
        assert(witness_ring(fresh_wit, carried_wit, 0).len() == gp.n_r);
    }
    assert(ring_seq(rlc_w.z_ring@) == w);
    let out = crate::pi_rlc::rlc_output(mid, rhos);
    assert(rlc_i.c@ == out.0);
    assert(out.2.len() == s.matrices@.len());
    assert(rlc_i.y@.len() == s.matrices@.len()) by {
        assert(rk_views(rlc_i.y@).len() == rlc_i.y@.len());
    }
    assert forall|j: int| 0 <= j < s.matrices@.len() implies (#[trigger] rlc_i.y@[j])@ == crate::types::eval_claim(
        s.mat(j),
        ring_seq(rlc_w.z_ring@),
        e2_seq(rlc_i.r@),
    ) by {
        assert(rk_views(rlc_i.y@)[j] == rlc_i.y@[j]@);
        assert(out.2[j] == crate::types::eval_claim(s.mat(j), w, out.1));
    }
    crate::pi_dec::law_pi_dec_complete(gp, pp, s, rlc_i, rlc_w, proof.dec);
}

/// The norm budget of a folding step: the commitment key has one column per ring entry,
/// every input witness has coefficients of balanced magnitude below `b`, and the guard
/// `n T (b - 1) < B` holds with the expansion factor `T = 216` of a challenge
/// (coefficients in `{-2, ..., 2}`).
pub open spec fn fold_low_norm(
    gp: GlobalParams,
    pp: PublicParams,
    fresh_wit: Seq<CcsWitness>,
    carried_wit: Seq<CeWitness>,
    n: int,
) -> bool {
    let budget = n * 216 * (gp.b - 1);
    &&& pp.n_cols == gp.n_r
    &&& forall|i: int, c: int, l: int|
        0 <= i < n && 0 <= c < gp.n_r && 0 <= l < 54 ==> abs_balanced_of(
            #[trigger] witness_ring(fresh_wit, carried_wit, i)[c][l],
        ) < gp.b
    &&& budget < gp.cap_b
}

/// Within the norm budget, the combined witness of Π_RLC is within the norm bound `B`.
proof fn lemma_fold_norm_budget(
    gp: GlobalParams,
    pp: PublicParams,
    fresh_wit: Seq<CcsWitness>,
    carried_wit: Seq<CeWitness>,
    mid_w: Seq<CeWitness>,
    rhos_v: Seq<crate::ring::RingElem>,
    rlc_w: CeWitness,
    t1: TrView,
    mid: Seq<CeInstance>,
)
    requires
        gp.wf(),
        fold_low_norm(gp, pp, fresh_wit, carried_wit, (fresh_wit.len() + carried_wit.len()) as int),
        fresh_wit.len() + carried_wit.len() > 0,
        mid_w.len() == fresh_wit.len() + carried_wit.len(),
        mid.len() == mid_w.len(),
        forall|i: int| 0 <= i < fresh_wit.len() ==> (#[trigger] fresh_wit[i]).z@.len() == gp.m,
        forall|i: int| 0 <= i < carried_wit.len() ==> (#[trigger] carried_wit[i]).z_ring@.len() == gp.n_r,
        forall|i: int| 0 <= i < mid_w.len() ==> ring_seq((#[trigger] mid_w[i]).z_ring@) == witness_ring(fresh_wit, carried_wit, i),
        ring_seq(rhos_v) == rlc_rhos(crate::pi_rlc::rlc_bound(t1, mid), mid.len(), 2),
        ring_seq(rlc_w.z_ring@) == crate::pi_rlc::rlc_witness(
            Seq::new(mid_w.len(), |i: int| ring_seq(mid_w[i].z_ring@)),
            ring_seq(rhos_v),
            mid_w[0].z_ring@.len(),
            mid_w.len() as int,
        ),
    ensures
        crate::pi_dec::dec_norm_ok(ring_seq(rlc_w.z_ring@), gp.cap_b as int),
{
    let n = mid_w.len() as int;
    let rhos = ring_seq(rhos_v);
    let zs = Seq::new(mid_w.len(), |i: int| ring_seq(mid_w[i].z_ring@));
    let n_r = gp.n_r as nat;
    assert(mid_w[0].z_ring@.len() == gp.n_r) by {
        assert(ring_seq(mid_w[0].z_ring@).len() == mid_w[0].z_ring@.len());
        if fresh_wit.len() > 0 {
            assert(fresh_wit[0].z@.len() == gp.m);
        } else {
            assert(carried_wit[0].z_ring@.len() == gp.n_r);
        }
    }
    assert forall|i: int| 0 <= i < n implies (#[trigger] zs[i]).len() == n_r by {
        assert(ring_seq(mid_w[i].z_ring@).len() == mid_w[i].z_ring@.len());
        assert(zs[i] == witness_ring(fresh_wit, carried_wit, i));
        if i < fresh_wit.len() {
            assert(fresh_wit[i].z@.len() == gp.m);
        } else {
            assert(carried_wit[i - fresh_wit.len()].z_ring@.len() == gp.n_r);
        }
    }
    assert forall|i: int, c: int| 0 <= i < n && 0 <= c < n_r implies ring_wf(#[trigger] zs[i][c]) by {
        assert(zs[i].len() == n_r);
        lemma_ring_wf(mid_w[i].z_ring@[c]);
    }
    assert forall|i: int, c: int, l: int| 0 <= i < n && 0 <= c < n_r && 0 <= l < 54 implies abs_balanced_of(
        #[trigger] zs[i][c][l],
    ) <= (gp.b - 1) as nat by {
        assert(zs[i] == witness_ring(fresh_wit, carried_wit, i));
    }
    assert forall|i: int| 0 <= i < n implies ring_wf(#[trigger] rhos[i]) by {
        lemma_ring_wf(rhos_v[i]);
    }
    assert forall|i: int, l: int| 0 <= i < n && 0 <= l < 54 implies abs_balanced_of(#[trigger] rhos[i][l]) <= 2 by {
        let t = crate::pi_rlc::rlc_bound(t1, mid);
        assert(rhos[i] == rlc_rhos(t, mid.len(), 2)[i]);
        crate::challenge::lemma_challenge_coeff_small(
            crate::transcript::word_at(
                crate::transcript::squeeze_spec(t, crate::pi_rlc::pirlc_rho_tag(), (8 * 54 * mid.len()) as nat),
                i * 54 + l,
            ),
            2,
        );
    }
    let mz = (gp.b - 1) as nat;
    let w = crate::pi_rlc::rlc_witness(zs, rhos, n_r, n);
    assert(ring_seq(rlc_w.z_ring@) == w);
    assert(n * (108 * (mz * 2)) == n * 216 * (gp.b - 1)) by (nonlinear_arith)
        requires
            mz == gp.b - 1,
    ;
    if n * (108 * (mz * 2)) <= crate::Q / 2 {
        crate::pi_rlc::lemma_rlc_witness_norm(zs, rhos, n_r, n, mz, 2);
        assert forall|col: int, l: int| 0 <= col < w.len() && 0 <= l < 54 implies (abs_balanced_of(#[trigger] w[col][l]) as int)
            < gp.cap_b by {
            assert(abs_balanced_of(w[col][l]) <= n * (108 * (mz * 2)));
        }
    } else {
        assert forall|col: int, l: int| 0 <= col < w.len() && 0 <= l < 54 implies (abs_balanced_of(#[trigger] w[col][l]) as int)
            < gp.cap_b by {
            assert(ring_seq(rlc_w.z_ring@)[col] == rlc_w.z_ring@[col]@);
            lemma_ring_wf(rlc_w.z_ring@[col]);
            crate::norm::lemma_abs_balanced_half(w[col][l]);
        }
    }
}

/// Prove one folding step: Π_CCS, then Π_RLC on its outputs, then Π_DEC on the
/// combination. Returns the new accumulator (`k` CE instances), its witnesses, and the
/// proof; fails (with `Reduction`) exactly when Π_DEC does. When the inputs commit to
/// honest witnesses (see `piccs_honest`), the proof passes every check of the verifier.
pub fn fold(
    tr: &mut Transcript,
    gp: &GlobalParams,
    pp: &PublicParams,
    s: &CcsStructure,
    fresh: &[CcsInstance],
    fresh_wit: &[CcsWitness],
    carried: &[CeInstance],
    carried_wit: &[CeWitness],
) -> (res: Result<(Vec<CeInstance>, Vec<CeWitness>, FoldProof), FoldError>)
    requires
        fold_inputs_ok(*gp, *s, fresh@, carried@),
        pp.wf(),
        fresh_wit@.len() == fresh@.len(),
        carried_wit@.len() == carried@.len(),
        forall|i: int| 0 <= i < fresh_wit@.len() ==> (#[trigger] fresh_wit@[i]).z@.len() == gp.m,
        forall|i: int| 0 <= i < carried_wit@.len() ==> (#[trigger] carried_wit@[i]).z_ring@.len() == gp.n_r,
    ensures
        res matches Err(e) ==> e is Reduction,
        res matches Ok((acc, wits, proof)) ==> {
            let rp = piccs_rprime(old(tr)@, *gp, *s, fresh@, carried@, proof.ccs);
            &&& acc@.len() == gp.k
            &&& wits@.len() == gp.k
            &&& proof.ccs.sumcheck@.len() == gp.log_m
            &&& proof.rlc.rhos@.len() == fresh@.len() + carried@.len()
            &&& proof.dec.child_commitments@.len() == gp.k
            &&& forall|i: int|
                0 <= i < gp.k ==> (#[trigger] acc@[i])@ == (
                    proof.dec.child_commitments@[i]@,
                    rp,
                    rk_views(proof.dec.child_evals@[i]@),
                )
            &&& forall|i: int| 0 <= i < gp.k ==> (#[trigger] wits@[i]).z_ring@.len() == gp.n_r
            &&& forall|i: int|
                0 <= i < gp.k ==> (#[trigger] proof.dec.child_commitments@[i])@ == pp.commit_spec(
                    ring_seq(wits@[i].z_ring@),
                )
            &&& forall|i: int|
                0 <= i < gp.k ==> {
                    &&& (#[trigger] acc@[i]).c@.len() == pp.kappa
                    &&& acc@[i].r@.len() == gp.log_m
                    &&& acc@[i].y@.len() == s.matrices@.len()
                }
        },
        res matches Ok((acc, wits, proof)) ==> (fold_inputs_committed(*pp, fresh@, fresh_wit@, carried@, carried_wit@)
            ==> fold_accepts_after_ccs(old(tr)@, *gp, *s, fresh@, carried@, proof)),
        res matches Ok((acc, wits, proof)) ==> (piccs_honest(*gp, *s, carried@, fresh_wit@, carried_wit@) ==> fold_ccs_ok(
            old(tr)@,
            *gp,
            *s,
            fresh@,
            carried@,
            proof,
        )),
        res matches Ok((acc, wits, proof)) ==> (fold_inputs_committed(*pp, fresh@, fresh_wit@, carried@, carried_wit@)
            && piccs_honest(*gp, *s, carried@, fresh_wit@, carried_wit@) ==> fold_accepts(
            old(tr)@,
            *gp,
            *s,
            fresh@,
            carried@,
            proof,
        )),
        fold_low_norm(*gp, *pp, fresh_wit@, carried_wit@, (fresh@.len() + carried@.len()) as int) ==> res is Ok,
        res matches Ok((acc, wits, proof)) ==> final(tr)@ == fold_final_state(old(tr)@, *gp, *s, fresh@, carried@, proof),
        res matches Ok((acc, wits, proof)) ==> forall|i: int, j: int|
            0 <= i < gp.k && 0 <= j < s.matrices@.len() ==> (#[trigger] acc@[i].y@[j])@ == crate::types::eval_claim(
                s.mat(j),
                ring_seq(wits@[i].z_ring@),
                e2_seq(acc@[i].r@),
            ),
        res matches Ok((acc, wits, proof)) ==> forall|i: int, c: int, l: int|
            0 <= i < gp.k && 0 <= c < gp.n_r && 0 <= l < 54 ==> abs_balanced_of(
                #[trigger] ring_seq(wits@[i].z_ring@)[c][l],
            ) < gp.b,
{
    let ghost t0 = tr@;
    let (mid_i, mid_w, ccs) = pi_ccs_prove(tr, gp, s, fresh, fresh_wit, carried, carried_wit);
    let ghost t1 = tr@;
    proof {
        if piccs_honest(*gp, *s, carried@, fresh_wit@, carried_wit@) {
            law_pi_ccs_complete(t0, *gp, *s, fresh@, carried@, fresh_wit@, carried_wit@, ccs);
        }
        lemma_mid_ok(
            *gp,
            *s,
            fresh@,
            carried@,
            mid_i@,
            ccs.evals@,
            piccs_rprime(old(tr)@, *gp, *s, fresh@, carried@, ccs),
        );
        assert forall|i: int| 0 <= i < mid_w@.len() implies (#[trigger] mid_w@[i]).z_ring@.len() == mid_w@[0].z_ring@.len() by {
            assert(ring_seq(mid_w@[i].z_ring@).len() == mid_w@[i].z_ring@.len());
            assert(ring_seq(mid_w@[0].z_ring@).len() == mid_w@[0].z_ring@.len());
            assert(witness_ring(fresh_wit@, carried_wit@, i).len() == gp.n_r);
            assert(witness_ring(fresh_wit@, carried_wit@, 0).len() == gp.n_r);
        }
        assert(ring_seq(mid_w@[0].z_ring@).len() == mid_w@[0].z_ring@.len());
        assert(witness_ring(fresh_wit@, carried_wit@, 0).len() == gp.n_r);
        assert(e2_seq(mid_i@[0].r@).len() == mid_i@[0].r@.len());
        crate::sumcheck::lemma_sc_prefix(
            crate::pi_ccs::piccs_t2(old(tr)@, *gp, *s, fresh@, carried@),
            ccs.sumcheck@,
            0,
        );
        reveal(piccs_rprime);
    }
    let (rlc_i, rlc_w, rlc) = pi_rlc_prove(tr, gp, mid_i.as_slice(), mid_w.as_slice());
    proof {
        assert(e2_seq(rlc_i.r@).len() == rlc_i.r@.len());
        assert(ring_seq(rlc_w.z_ring@).len() == rlc_w.z_ring@.len());
        if fold_low_norm(*gp, *pp, fresh_wit@, carried_wit@, (fresh@.len() + carried@.len()) as int) {
            lemma_fold_norm_budget(*gp, *pp, fresh_wit@, carried_wit@, mid_w@, rlc.rhos@, rlc_w, t1, mid_i@);
        }
    }
    let (dec_i, dec_w, dec) = match pi_dec_prove(tr, gp, pp, s, &rlc_i, &rlc_w) {
        Ok(v) => v,
        Err(e) => {
            return Err(e);
        },
    };
    proof {
        assert forall|i: int| 0 <= i < gp.k implies (#[trigger] dec_w@[i]).z_ring@.len() == gp.n_r by {
            assert(ring_seq(dec_w@[i].z_ring@).len() == dec_w@[i].z_ring@.len());
        }
        assert(rlc_i@.1 == mid_i@[0]@.1);
        assert(mid_i@[0]@.1 == piccs_rprime(old(tr)@, *gp, *s, fresh@, carried@, ccs));
        assert(ring_seq(rlc.rhos@).len() == rlc.rhos@.len());
        assert forall|i: int| 0 <= i < gp.k implies {
            &&& (#[trigger] dec_i@[i]).c@.len() == pp.kappa
            &&& dec_i@[i].r@.len() == gp.log_m
            &&& dec_i@[i].y@.len() == s.matrices@.len()
        } by {
            assert(dec_i@[i]@.0.len() == dec_i@[i].c@.len());
            assert(dec_i@[i]@.1.len() == dec_i@[i].r@.len());
            assert(dec_i@[i]@.2.len() == dec_i@[i].y@.len());
            assert(rk_views(dec.child_evals@[i]@).len() == dec.child_evals@[i]@.len());
        }
    }
    proof {
        assert forall|i: int, j: int| 0 <= i < gp.k && 0 <= j < s.matrices@.len() implies (
        #[trigger] dec_i@[i].y@[j])@ == crate::types::eval_claim(
            s.mat(j),
            ring_seq(dec_w@[i].z_ring@),
            e2_seq(dec_i@[i].r@),
        ) by {
            assert(dec_i@[i]@.2 == rk_views(dec.child_evals@[i]@));
            assert(rk_views(dec_i@[i].y@)[j] == dec_i@[i].y@[j]@);
            assert(rk_views(dec.child_evals@[i]@)[j] == dec.child_evals@[i]@[j]@);
            assert(dec_i@[i]@.1 == e2_seq(rlc_i.r@));
        }
    }
    let out_proof = FoldProof { ccs, rlc, dec };
    proof {
        lemma_mid_ok(
            *gp,
            *s,
            fresh@,
            carried@,
            mid_i@,
            out_proof.ccs.evals@,
            piccs_rprime(t0, *gp, *s, fresh@, carried@, out_proof.ccs),
        );
        assert(ce_views(mid_i@) =~= fold_mid(t0, *gp, *s, fresh@, carried@, out_proof));
        lemma_rlc_bound_views(t1, mid_i@);
        assert forall|i: int, c: int, l: int| 0 <= i < gp.k && 0 <= c < gp.n_r && 0 <= l < 54 implies abs_balanced_of(
            #[trigger] ring_seq(dec_w@[i].z_ring@)[c][l],
        ) < gp.b by {
            let zr = ring_seq(rlc_w.z_ring@);
            assert(ring_seq(dec_w@[i].z_ring@) == crate::pi_dec::dec_child(zr, gp.b as nat, i as nat));
            lemma_ring_wf(rlc_w.z_ring@[c]);
            crate::decomp::lemma_split_digit_small(zr[c][l], gp.b as nat, i as nat);
        }
        if fold_inputs_committed(*pp, fresh@, fresh_wit@, carried@, carried_wit@) {
            lemma_fold_complete_after_ccs(
                t0,
                t1,
                *gp,
                *pp,
                *s,
                fresh@,
                fresh_wit@,
                carried@,
                carried_wit@,
                mid_i@,
                mid_w@,
                rlc_i,
                rlc_w,
                out_proof,
            );
        }
    }
    Ok((dec_i, dec_w, out_proof))
}

/// Verify one folding step: Π_CCS, Π_RLC, Π_DEC in turn, each on the previous one's
/// output. Returns the new accumulator; fails with the first failing verifier's error.
pub fn verify_fold(
    tr: &mut Transcript,
    gp: &GlobalParams,
    s: &CcsStructure,
    fresh: &[CcsInstance],
    carried: &[CeInstance],
    proof: &FoldProof,
) -> (res: Result<Vec<CeInstance>, FoldError>)
    requires
        fold_inputs_ok(*gp, *s, fresh@, carried@),
        forall|i: int|
            0 <= i < proof.dec.child_commitments@.len() ==> (#[trigger] proof.dec.child_commitments@[i])@.len()
                == fold_kappa(fresh@, carried@),
    ensures
        res is Ok <==> fold_accepts(old(tr)@, *gp, *s, fresh@, carried@, *proof),
        res is Ok ==> final(tr)@ == fold_final_state(old(tr)@, *gp, *s, fresh@, carried@, *proof),
        res matches Ok(out) ==> out@.len() == gp.k && forall|i: int|
            0 <= i < gp.k ==> (#[trigger] out@[i])@ == (
                proof.dec.child_commitments@[i]@,
                piccs_rprime(old(tr)@, *gp, *s, fresh@, carried@, proof.ccs),
                rk_views(proof.dec.child_evals@[i]@),
            ),
        res is Ok ==> proof.dec.child_commitments@.len() == gp.k,
        res matches Ok(out) ==> forall|i: int|
            0 <= i < gp.k ==> {
                &&& (#[trigger] out@[i]).c@.len() == fold_kappa(fresh@, carried@)
                &&& out@[i].r@.len() == gp.log_m
                &&& out@[i].y@.len() == s.matrices@.len()
            },
{
    let ghost t0 = tr@;
    let mid = match pi_ccs_verify(tr, gp, s, fresh, carried, &proof.ccs) {
        Ok(v) => v,
        Err(e) => {
            return Err(e);
        },
    };
    proof {
        let rp = piccs_rprime(t0, *gp, *s, fresh@, carried@, proof.ccs);
        assert(ce_views(mid@) =~= fold_mid(t0, *gp, *s, fresh@, carried@, *proof));
        lemma_rlc_bound_views(tr@, mid@);
        lemma_mid_ok(
            *gp,
            *s,
            fresh@,
            carried@,
            mid@,
            proof.ccs.evals@,
            piccs_rprime(old(tr)@, *gp, *s, fresh@, carried@, proof.ccs),
        );
    }
    let rlc = match pi_rlc_verify(tr, gp, mid.as_slice(), &proof.rlc) {
        Ok(v) => v,
        Err(e) => {
            return Err(e);
        },
    };
    proof {
        lemma_rlc_output_views(mid@, ring_seq(proof.rlc.rhos@));
        let o = rlc@;
        assert(o.0 == rlc.c@);
        assert(o.2 == rk_views(rlc.y@));
        assert(o.2.len() == rlc.y@.len());
        assert(rlc@.0.len() == rlc.c@.len());
        crate::pi_rlc::lemma_rlc_commit_len(
            Seq::new(mid@.len(), |i: int| mid@[i]@.0),
            ring_seq(proof.rlc.rhos@),
            mid@[0].c@.len(),
            mid@.len() as int,
        );
    }
    let dec = pi_dec_verify(tr, gp, &rlc, &proof.dec);
    proof {
        if dec is Ok {
            let out = dec->Ok_0;
            assert(rlc@.2.len() == rlc.y@.len());
            reveal(piccs_sc_ok);
            reveal(piccs_rprime);
            crate::sumcheck::lemma_sc_prefix(
                crate::pi_ccs::piccs_t2(old(tr)@, *gp, *s, fresh@, carried@),
                proof.ccs.sumcheck@,
                0,
            );
            assert forall|i: int| 0 <= i < gp.k implies {
                &&& (#[trigger] out@[i]).c@.len() == fold_kappa(fresh@, carried@)
                &&& out@[i].r@.len() == gp.log_m
                &&& out@[i].y@.len() == s.matrices@.len()
            } by {
                assert(out@[i]@.0.len() == out@[i].c@.len());
                assert(out@[i]@.1.len() == out@[i].r@.len());
                assert(out@[i]@.2.len() == out@[i].y@.len());
                assert(rk_views(proof.dec.child_evals@[i]@).len() == proof.dec.child_evals@[i]@.len());
                assert(e2_seq(mid@[0].r@).len() == mid@[0].r@.len());
            }
        }
    }
    dec
}

} // verus!
