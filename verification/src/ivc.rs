//! Incrementally verifiable computation on the folding scheme.
//!
//! The driver folds a sequence of steps into a running accumulator of `k` CE instances,
//! binding each iteration to the next with an IO digest
//! `digest_i = H(digest_(i-1), i, acc_i)`. The genesis accumulator is the all-zero CE
//! tuple. Verification replays each step's `verify_fold` and the digest chain.

use vstd::bytes::u64_to_le_bytes;
use vstd::prelude::*;

use crate::commit::Commitment;
use crate::error::{FoldError, IvcError};
use crate::ext2::{e2_seq, e2_zero, Ext2, E2};
use crate::fold::{
    fold, fold_accepts, fold_accepts_after_ccs, fold_ccs_ok, fold_final_state, fold_inputs_committed, fold_inputs_ok, fold_kappa, fold_low_norm, fold_out_views, lemma_fold_views,
    verify_fold,
};
use crate::fp::{abs_balanced_of, fp_seq};
use crate::maps::embed_spec;
use crate::pi_ccs::{dims_ok, piccs_inputs_ok, witness_ring};
use crate::ccs_complete::{ccs_holds, lemma_honest_parts};
use crate::Q;
use crate::pp::PublicParams;
use crate::ring::{lemma_ring_wf, ring_seq, ring_zero, RingElem};
use crate::ring_k::{lemma_rk_wf, rk_zero, RingK};
use crate::transcript::{
    append_bytes, blake3_hash, blake3_hash_spec, fps_bytes, le64, mats_bytes, rows_bytes, transcript_init, Transcript, TrView,
};
use crate::types::{
    ce_views, commit_witness, rk_views, CcsInstance, CcsStructure, CcsWitness, CeInstance, CeWitness, FoldProof, GlobalParams,
};

verus! {

broadcast use {lemma_ring_wf, lemma_rk_wf};

/// The ASCII bytes of "superneo/ivc/v1", the IVC transcript's domain.
pub open spec fn ivc_domain() -> Seq<u8> {
    seq![115u8, 117, 112, 101, 114, 110, 101, 111, 47, 105, 118, 99, 47, 118, 49]
}

/// The ASCII bytes of "superneo/ivc/digest".
pub open spec fn digest_tag() -> Seq<u8> {
    seq![115u8, 117, 112, 101, 114, 110, 101, 111, 47, 105, 118, 99, 47, 100, 105, 103, 101, 115, 116]
}

/// The bytes hashed into one digest update: tag, previous digest, step number, and
/// every coefficient of every accumulator commitment.
pub open spec fn digest_input(prev: Seq<u8>, step: nat, cs: Seq<Seq<Seq<nat>>>) -> Seq<u8> {
    digest_tag() + prev + le64(step) + mats_bytes(cs)
}

/// The commitments of an accumulator.
pub open spec fn acc_commitments(acc: Seq<CeInstance>) -> Seq<Seq<Seq<nat>>> {
    Seq::new(acc.len(), |i: int| acc[i].c@)
}

/// The child commitments of a fold proof: the commitments of the accumulator it yields.
pub open spec fn proof_commitments(p: FoldProof) -> Seq<Seq<Seq<nat>>> {
    Seq::new(p.dec.child_commitments@.len(), |i: int| p.dec.child_commitments@[i]@)
}

/// The digest after the first `n` steps of a run with these fold proofs.
pub open spec fn ivc_digest(proofs: Seq<FoldProof>, n: int) -> Seq<u8>
    decreases n,
{
    if n <= 0 {
        Seq::new(32, |i: int| 0u8)
    } else {
        blake3_hash_spec(digest_input(ivc_digest(proofs, n - 1), (n - 1) as nat, proof_commitments(proofs[n - 1])))
    }
}

/// A native IVC proof for a run of folding steps.
#[derive(Clone, Debug)]
pub struct IvcProof {
    /// Fresh CCS instances contributed at each step.
    pub fresh: Vec<Vec<CcsInstance>>,
    /// The fold proof produced at each step.
    pub fold_proofs: Vec<FoldProof>,
    /// The final accumulator (`k` CE instances).
    pub final_acc: Vec<CeInstance>,
    /// The final IO digest.
    pub final_digest: [u8; 32],
}

/// The parameters an IVC run needs.
pub open spec fn ivc_params_ok(gp: GlobalParams, pp: PublicParams, s: CcsStructure) -> bool {
    &&& gp.wf()
    &&& pp.wf()
    &&& s.wf()
    &&& s.m == gp.m
    &&& s.f.degree_bounded((Q - 3) as nat)
    &&& s.f.degree_bounded((usize::MAX - 2) as nat)
}

/// The genesis accumulator instances: `k` copies of `(c = 0, r = 0, y = 0)`.
pub fn genesis_instances(gp: &GlobalParams, pp: &PublicParams, t: usize) -> (acc: Vec<CeInstance>)
    ensures
        acc@.len() == gp.k,
        forall|i: int|
            0 <= i < gp.k ==> (#[trigger] acc@[i])@ == (
                Seq::new(pp.kappa as nat, |j: int| ring_zero()),
                Seq::new(gp.log_m as nat, |j: int| e2_zero()),
                Seq::new(t as nat, |j: int| rk_zero()),
            ),
        forall|i: int|
            0 <= i < gp.k ==> (#[trigger] acc@[i]).c@.len() == pp.kappa && acc@[i].r@.len() == gp.log_m
                && acc@[i].y@.len() == t,
{
    let mut r0: Vec<Ext2> = Vec::new();
    let mut i: usize = 0;
    while i < gp.log_m
        invariant
            i <= gp.log_m,
            r0@.len() == i,
            forall|j: int| 0 <= j < i ==> (#[trigger] r0@[j])@ == e2_zero(),
        decreases gp.log_m - i,
    {
        r0.push(Ext2::zero());
        i = i + 1;
    }
    let mut y0: Vec<RingK> = Vec::new();
    let mut j: usize = 0;
    while j < t
        invariant
            j <= t,
            y0@.len() == j,
            forall|j2: int| 0 <= j2 < j ==> (#[trigger] y0@[j2])@ == rk_zero(),
        decreases t - j,
    {
        y0.push(RingK::zero());
        j = j + 1;
    }
    assert(e2_seq(r0@) =~= Seq::new(gp.log_m as nat, |j: int| e2_zero()));
    assert(rk_views(y0@) =~= Seq::new(t as nat, |j: int| rk_zero()));
    let mut acc: Vec<CeInstance> = Vec::new();
    let mut i: usize = 0;
    while i < gp.k
        invariant
            i <= gp.k,
            acc@.len() == i,
            r0@.len() == gp.log_m,
            y0@.len() == t,
            e2_seq(r0@) == Seq::new(gp.log_m as nat, |j: int| e2_zero()),
            rk_views(y0@) == Seq::new(t as nat, |j: int| rk_zero()),
            forall|i2: int|
                0 <= i2 < i ==> (#[trigger] acc@[i2])@ == (
                    Seq::new(pp.kappa as nat, |j: int| ring_zero()),
                    Seq::new(gp.log_m as nat, |j: int| e2_zero()),
                    Seq::new(t as nat, |j: int| rk_zero()),
                ),
            forall|i2: int|
                0 <= i2 < i ==> (#[trigger] acc@[i2]).c@.len() == pp.kappa && acc@[i2].r@.len() == gp.log_m
                    && acc@[i2].y@.len() == t,
        decreases gp.k - i,
    {
        let c = Commitment::zero(pp.kappa);
        assert(ring_seq(c.0@).len() == c.0@.len());
        acc.push(CeInstance {
            c,
            r: vstd::slice::slice_to_vec(r0.as_slice()),
            y: vstd::slice::slice_to_vec(y0.as_slice()),
        });
        i = i + 1;
    }
    acc
}

/// The genesis accumulator witnesses: `k` all-zero ring vectors of length `n_R`.
pub fn genesis_witnesses(gp: &GlobalParams) -> (w: Vec<CeWitness>)
    ensures
        w@.len() == gp.k,
        forall|i: int| 0 <= i < gp.k ==> (#[trigger] w@[i]).z_ring@.len() == gp.n_r,
        forall|i: int| 0 <= i < gp.k ==> ring_seq((#[trigger] w@[i]).z_ring@) == Seq::new(gp.n_r as nat, |c: int| ring_zero()),
{
    let mut w: Vec<CeWitness> = Vec::new();
    let mut i: usize = 0;
    while i < gp.k
        invariant
            i <= gp.k,
            w@.len() == i,
            forall|i2: int| 0 <= i2 < i ==> (#[trigger] w@[i2]).z_ring@.len() == gp.n_r,
            forall|i2: int| 0 <= i2 < i ==> ring_seq((#[trigger] w@[i2]).z_ring@) == Seq::new(gp.n_r as nat, |c: int| ring_zero()),
        decreases gp.k - i,
    {
        let mut z: Vec<RingElem> = Vec::new();
        let mut c: usize = 0;
        while c < gp.n_r
            invariant
                c <= gp.n_r,
                z@.len() == c,
                forall|c2: int| 0 <= c2 < c ==> (#[trigger] z@[c2])@ == ring_zero(),
            decreases gp.n_r - c,
        {
            z.push(RingElem::zero());
            c = c + 1;
        }
        assert(ring_seq(z@) =~= Seq::new(gp.n_r as nat, |c2: int| ring_zero()));
        w.push(CeWitness { z_ring: z });
        i = i + 1;
    }
    w
}

/// The IO digest update `H(prev, step, acc)`.
pub fn fold_digest(prev: &[u8; 32], step: usize, acc: &[CeInstance]) -> (r: [u8; 32])
    ensures
        r@ == blake3_hash_spec(digest_input(prev@, step as nat, acc_commitments(acc@))),
{
    let mut buf: Vec<u8> = Vec::new();
    let tag: [u8; 19] = [115u8, 117, 112, 101, 114, 110, 101, 111, 47, 105, 118, 99, 47, 100, 105, 103, 101, 115, 116];
    assert(tag@ =~= digest_tag());
    append_bytes(&mut buf, tag.as_slice());
    append_bytes(&mut buf, prev.as_slice());
    let sb = u64_to_le_bytes(step as u64);
    append_bytes(&mut buf, sb.as_slice());
    let ghost head = buf@;
    let ghost cs = acc_commitments(acc@);
    let mut i: usize = 0;
    while i < acc.len()
        invariant
            i <= acc@.len(),
            cs == acc_commitments(acc@),
            buf@ == head + mats_bytes(cs.take(i as int)),
        decreases acc@.len() - i,
    {
        let ring = &acc[i].c.0;
        let ghost before = buf@;
        let ghost rv = ring_seq(ring@);
        let mut j: usize = 0;
        while j < ring.len()
            invariant
                j <= ring@.len(),
                rv == ring_seq(ring@),
                buf@ == before + rows_bytes(rv.take(j as int)),
            decreases ring@.len() - j,
        {
            let cfs = ring[j].coeffs();
            let ghost cv = fp_seq(cfs@);
            let ghost b2 = buf@;
            let mut l: usize = 0;
            while l < 54
                invariant
                    l <= 54,
                    cv == fp_seq(cfs@),
                    cfs@.len() == 54,
                    buf@ == b2 + fps_bytes(cv.take(l as int)),
                decreases 54 - l,
            {
                let bb = u64_to_le_bytes(cfs[l].to_u64());
                append_bytes(&mut buf, bb.as_slice());
                proof {
                    assert(cv.take(l + 1).drop_last() =~= cv.take(l as int));
                }
                l = l + 1;
            }
            proof {
                assert(cv.take(54) =~= cv);
                assert(cv == ring@[j as int]@);
                assert(rv.take(j + 1).drop_last() =~= rv.take(j as int));
            }
            j = j + 1;
        }
        proof {
            assert(rv.take(ring@.len() as int) =~= rv);
            assert(cs.take(i + 1).drop_last() =~= cs.take(i as int));
        }
        i = i + 1;
    }
    assert(cs.take(acc@.len() as int) =~= cs);
    assert(buf@ =~= digest_input(prev@, step as nat, acc_commitments(acc@)));
    blake3_hash(buf.as_slice())
}

/// Every step of a run is small enough and carries witnesses of length `m`.
pub open spec fn steps_ok(gp: GlobalParams, s: CcsStructure, steps: Seq<Vec<CcsWitness>>) -> bool {
    forall|i: int|
        0 <= i < steps.len() ==> dims_ok((#[trigger] steps[i])@.len() as int, gp.k as int, s.matrices@.len() as int)
            && forall|j: int| 0 <= j < steps[i]@.len() ==> (#[trigger] steps[i]@[j]).z@.len() == gp.m
}

/// The fold of one step stays within the norm budget: its witnesses have coordinates of
/// balanced magnitude below `b`, and the guard `(K + k) T (b - 1) < B` holds with the
/// challenge expansion factor `T = 216`.
pub open spec fn step_low_norm(gp: GlobalParams, wits: Seq<CcsWitness>) -> bool {
    let budget = (wits.len() + gp.k) * 216 * (gp.b - 1);
    &&& budget < gp.cap_b
    &&& forall|j: int, t: int|
        0 <= j < wits.len() && 0 <= t < wits[j].z@.len() ==> abs_balanced_of(#[trigger] wits[j].z@[t]@) < gp.b
}

/// Every step of an IVC run stays within the folding norm budget.
pub open spec fn ivc_low_norm(gp: GlobalParams, steps: Seq<Vec<CcsWitness>>) -> bool {
    forall|i: int| 0 <= i < steps.len() ==> step_low_norm(gp, (#[trigger] steps[i])@)
}

/// The witnesses of one step are honest: each satisfies the structure, whose polynomial
/// vanishes at zero, and has coordinates of balanced magnitude below `b`.
pub open spec fn step_honest(gp: GlobalParams, s: CcsStructure, wits: Seq<CcsWitness>) -> bool {
    &&& s.f.eval_spec(Seq::new(s.matrices@.len() as nat, |j: int| e2_zero())) == e2_zero()
    &&& forall|j: int| 0 <= j < wits.len() ==> ccs_holds(s, fp_seq((#[trigger] wits[j]).z@))
    &&& forall|j: int, c: int| 0 <= j < wits.len() && 0 <= c < gp.m ==> abs_balanced_of(#[trigger] wits[j].z@[c]@) < gp.b
}

/// Every step of an IVC run is honest.
pub open spec fn ivc_steps_honest(gp: GlobalParams, s: CcsStructure, steps: Seq<Vec<CcsWitness>>) -> bool {
    forall|i: int| 0 <= i < steps.len() ==> step_honest(gp, s, (#[trigger] steps[i])@)
}

/// Every coefficient of every accumulator witness has balanced magnitude below `b`.
pub open spec fn acc_low_norm(gp: GlobalParams, acc_wit: Seq<CeWitness>) -> bool {
    forall|i: int, c: int, l: int|
        0 <= i < acc_wit.len() && 0 <= c < gp.n_r && 0 <= l < 54 ==> abs_balanced_of(
            #[trigger] ring_seq(acc_wit[i].z_ring@)[c][l],
        ) < gp.b
}

/// A step within the budget, folded into a low-norm accumulator, is within the fold's
/// norm budget.
proof fn lemma_step_fold_low_norm(gp: GlobalParams, pp: PublicParams, wits: Seq<CcsWitness>, acc_wit: Seq<CeWitness>)
    requires
        gp.wf(),
        pp.n_cols == gp.n_r,
        step_low_norm(gp, wits),
        acc_low_norm(gp, acc_wit),
        acc_wit.len() == gp.k,
        forall|j: int| 0 <= j < wits.len() ==> (#[trigger] wits[j]).z@.len() == gp.m,
    ensures
        fold_low_norm(gp, pp, wits, acc_wit, (wits.len() + acc_wit.len()) as int),
{
    let n = (wits.len() + acc_wit.len()) as int;
    assert forall|i: int, c: int, l: int| 0 <= i < n && 0 <= c < gp.n_r && 0 <= l < 54 implies abs_balanced_of(
        #[trigger] witness_ring(wits, acc_wit, i)[c][l],
    ) < gp.b by {
        if i < wits.len() {
            let z = fp_seq(wits[i].z@);
            assert(wits[i].z@.len() == gp.m);
            assert(c * 54 + l < gp.m) by (nonlinear_arith)
                requires
                    0 <= c < gp.n_r,
                    0 <= l < 54,
                    gp.m == 54 * gp.n_r,
            ;
            assert(z.len() / 54 == gp.n_r);
            assert(embed_spec(z)[c][l] == z[c * 54 + l]);
        } else {
            assert(witness_ring(wits, acc_wit, i) == ring_seq(acc_wit[i - wits.len()].z_ring@));
        }
    }
}

/// Prove an IVC run, also returning the final accumulator's witnesses.
///
/// Each step commits to its fresh witnesses, folds them into the accumulator, and
/// extends the digest chain. Fails with `Step` at the first step whose fold fails. When
/// every step's witnesses are honest, the proof it returns is accepted.
pub fn prove_ivc_with_witnesses(
    gp: &GlobalParams,
    pp: &PublicParams,
    s: &CcsStructure,
    steps: &[Vec<CcsWitness>],
) -> (res: Result<(IvcProof, Vec<CeWitness>), IvcError>)
    requires
        ivc_params_ok(*gp, *pp, *s),
        pp.n_cols == gp.n_r,
        steps_ok(*gp, *s, steps@),
    ensures
        res matches Err(e) ==> (e matches IvcError::Step { step, source } && step < steps@.len() && source is Reduction),
        ivc_low_norm(*gp, steps@) ==> res is Ok,
        res matches Ok((proof, wits)) ==> {
            &&& proof.fresh@.len() == steps@.len()
            &&& proof.fold_proofs@.len() == steps@.len()
            &&& forall|i: int, j: int|
                0 <= i < steps@.len() && 0 <= j < steps@[i]@.len() ==> (#[trigger] proof.fresh@[i]@[j]).c@
                    == pp.commit_spec(embed_spec(fp_seq(steps@[i]@[j].z@)))
            &&& forall|i: int| 0 <= i < steps@.len() ==> (#[trigger] proof.fresh@[i])@.len() == steps@[i]@.len()
            &&& proof.final_acc@.len() == gp.k
            &&& wits@.len() == gp.k
            &&& proof.final_digest@ == ivc_digest(proof.fold_proofs@, steps@.len() as int)
            &&& forall|i: int| 0 <= i < gp.k ==> (#[trigger] wits@[i]).z_ring@.len() == gp.n_r
            &&& forall|i: int|
                0 <= i < gp.k ==> (#[trigger] proof.final_acc@[i]).c@ == pp.commit_spec(ring_seq(wits@[i].z_ring@))
            &&& forall|i: int, j: int|
                0 <= i < gp.k && 0 <= j < s.matrices@.len() ==> (#[trigger] proof.final_acc@[i].y@[j])@
                    == crate::types::eval_claim(s.mat(j), ring_seq(wits@[i].z_ring@), e2_seq(proof.final_acc@[i].r@))
            &&& acc_low_norm(*gp, wits@)
            &&& steps@.len() == 0 ==> ce_views(proof.final_acc@) == genesis_views(*gp, *pp, s.matrices@.len())
                && proof.final_digest@ == Seq::new(32, |i: int| 0u8)
        },
        res matches Ok((proof, wits)) ==> (ivc_ccs_ok(*gp, *pp, *s, proof) ==> ivc_accepts(*gp, *pp, *s, proof)),
        res matches Ok((proof, wits)) ==> (ivc_steps_honest(*gp, *s, steps@) ==> ivc_accepts(*gp, *pp, *s, proof)),
{
    let mut acc = genesis_instances(gp, pp, s.t());
    let mut acc_wit = genesis_witnesses(gp);
    let mut digest: [u8; 32] = [0u8;32];
    let dom: [u8; 15] = [115u8, 117, 112, 101, 114, 110, 101, 111, 47, 105, 118, 99, 47, 118, 49];
    assert(dom@ =~= ivc_domain());
    let mut tr = Transcript::new(dom.as_slice());
    let mut fresh_all: Vec<Vec<CcsInstance>> = Vec::new();
    let mut proofs: Vec<FoldProof> = Vec::new();
    assert(digest@ =~= ivc_digest(proofs@, 0));
    let ghost mut accs: Seq<Seq<CeInstance>> = seq![acc@];
    let ghost mut ts: Seq<TrView> = seq![tr@];
    proof {
        assert(ce_views(acc@) =~= genesis_views(*gp, *pp, s.matrices@.len()));
        lemma_commit_zero(*pp);
        assert forall|i: int| 0 <= i < gp.k implies (#[trigger] acc@[i]).c@ == pp.commit_spec(ring_seq(acc_wit@[i].z_ring@)) by {
            assert(acc@[i]@.0 == acc@[i].c@);
            assert(ring_seq(acc_wit@[i].z_ring@) == Seq::new(gp.n_r as nat, |c: int| ring_zero()));
        }
        lemma_claims_of_zero(*gp, *s, acc@, acc_wit@);
        assert forall|i: int| 0 <= i < gp.k implies e2_seq((#[trigger] acc@[i]).r@) == e2_seq(acc@[0].r@) by {
            assert(acc@[i]@.1 == e2_seq(acc@[i].r@));
            assert(acc@[0]@.1 == e2_seq(acc@[0].r@));
        }
    }
    let mut step_idx: usize = 0;
    while step_idx < steps.len()
        invariant
            step_idx <= steps@.len(),
            ivc_params_ok(*gp, *pp, *s),
            pp.n_cols == gp.n_r,
            steps_ok(*gp, *s, steps@),
            acc@.len() == gp.k,
            acc_wit@.len() == gp.k,
            forall|i: int|
                0 <= i < gp.k ==> (#[trigger] acc@[i]).c@.len() == pp.kappa && acc@[i].r@.len() == gp.log_m
                    && acc@[i].y@.len() == s.matrices@.len(),
            forall|i: int| 0 <= i < gp.k ==> (#[trigger] acc_wit@[i]).z_ring@.len() == gp.n_r,
            fresh_all@.len() == step_idx,
            proofs@.len() == step_idx,
            forall|i: int, j: int|
                0 <= i < step_idx && 0 <= j < steps@[i]@.len() ==> (#[trigger] fresh_all@[i]@[j]).c@
                    == pp.commit_spec(embed_spec(fp_seq(steps@[i]@[j].z@))),
            forall|i: int| 0 <= i < step_idx ==> (#[trigger] fresh_all@[i])@.len() == steps@[i]@.len(),
            digest@ == ivc_digest(proofs@, step_idx as int),
            step_idx > 0 ==> acc_commitments(acc@) == proof_commitments(proofs@[step_idx - 1]),
            acc_low_norm(*gp, acc_wit@),
            ivc_replay(*gp, *pp, *s, fresh_all@, proofs@, accs, ts, step_idx as int),
            accs[step_idx as int] == acc@,
            ts[step_idx as int] == tr@,
            forall|i: int|
                0 <= i < step_idx ==> #[trigger] fold_accepts_after_ccs(ts[i], *gp, *s, fresh_all@[i]@, accs[i], proofs@[i]),
            forall|i: int|
                0 <= i < step_idx ==> (step_honest(*gp, *s, steps@[i]@) ==> #[trigger] fold_ccs_ok(
                    ts[i],
                    *gp,
                    *s,
                    fresh_all@[i]@,
                    accs[i],
                    proofs@[i],
                )),
            forall|i: int| 0 <= i < gp.k ==> e2_seq((#[trigger] acc@[i]).r@) == e2_seq(acc@[0].r@),
            forall|i: int| 0 <= i < gp.k ==> (#[trigger] acc@[i]).c@ == pp.commit_spec(ring_seq(acc_wit@[i].z_ring@)),
            forall|i: int, j: int|
                0 <= i < gp.k && 0 <= j < s.matrices@.len() ==> (#[trigger] acc@[i].y@[j])@
                    == crate::types::eval_claim(s.mat(j), ring_seq(acc_wit@[i].z_ring@), e2_seq(acc@[i].r@)),
        decreases steps@.len() - step_idx,
    {
        let wits = &steps[step_idx];
        let mut fresh: Vec<CcsInstance> = Vec::new();
        let mut j: usize = 0;
        while j < wits.len()
            invariant
                j <= wits@.len(),
                ivc_params_ok(*gp, *pp, *s),
                pp.n_cols == gp.n_r,
                forall|j2: int| 0 <= j2 < wits@.len() ==> (#[trigger] wits@[j2]).z@.len() == gp.m,
                fresh@.len() == j,
                forall|j2: int| 0 <= j2 < j ==> (#[trigger] fresh@[j2]).c@ == pp.commit_spec(embed_spec(fp_seq(wits@[j2].z@))),
                forall|j2: int| 0 <= j2 < j ==> (#[trigger] fresh@[j2]).c@.len() == pp.kappa,
            decreases wits@.len() - j,
        {
            let c = commit_witness(pp, wits[j].z.as_slice());
            fresh.push(CcsInstance { c });
            j = j + 1;
        }
        proof {
            assert(fold_kappa(fresh@, acc@) == pp.kappa);
            assert(fold_inputs_ok(*gp, *s, fresh@, acc@));
            if ivc_low_norm(*gp, steps@) {
                assert(step_low_norm(*gp, steps@[step_idx as int]@));
                lemma_step_fold_low_norm(*gp, *pp, wits@, acc_wit@);
            }
            assert forall|i: int| 0 <= i < fresh@.len() implies (#[trigger] fresh@[i])@ == pp.commit_spec(
                witness_ring(wits@, acc_wit@, i),
            ) by {}
            assert forall|i: int| 0 <= i < acc@.len() implies (#[trigger] acc@[i]).c@ == pp.commit_spec(
                witness_ring(wits@, acc_wit@, fresh@.len() + i),
            ) by {}
            assert(fold_inputs_committed(*pp, fresh@, wits@, acc@, acc_wit@));
            if step_honest(*gp, *s, wits@) {
                lemma_honest_parts(*gp, *s, acc@, wits@, acc_wit@);
            }
        }
        let ghost acc_old = acc@;
        let ghost tr_old = tr@;
        let (next_acc, next_wit, proof) = match fold(&mut tr, gp, pp, s, fresh.as_slice(), wits.as_slice(), acc.as_slice(), acc_wit.as_slice()) {
            Ok(v) => v,
            Err(e) => {
                return Err(IvcError::Step { step: step_idx, source: e });
            },
        };
        proof {
            assert(ce_views(next_acc@) =~= fold_out_views(tr_old, *gp, *s, fresh@, acc_old, proof));
            assert forall|i: int| 0 <= i < gp.k implies (#[trigger] next_acc@[i]).c@ == pp.commit_spec(
                ring_seq(next_wit@[i].z_ring@),
            ) by {
                assert(next_acc@[i]@.0 == next_acc@[i].c@);
            }
            assert forall|i: int| 0 <= i < gp.k implies e2_seq((#[trigger] next_acc@[i]).r@) == e2_seq(next_acc@[0].r@) by {
                assert(next_acc@[i]@.1 == e2_seq(next_acc@[i].r@));
                assert(next_acc@[0]@.1 == e2_seq(next_acc@[0].r@));
            }
        }
        acc = next_acc;
        acc_wit = next_wit;
        digest = fold_digest(&digest, step_idx, acc.as_slice());
        let ghost old_proofs = proofs@;
        let ghost old_fresh = fresh_all@;
        fresh_all.push(fresh);
        proofs.push(proof);
        proof {
            lemma_ivc_replay_push(*gp, *pp, *s, old_fresh, old_proofs, accs, ts, step_idx as int, fresh_all@, proofs@, acc@, tr@);
            let accs2 = accs.push(acc@);
            let ts2 = ts.push(tr@);
            assert forall|i: int| 0 <= i < step_idx + 1 implies #[trigger] fold_accepts_after_ccs(
                ts2[i],
                *gp,
                *s,
                fresh_all@[i]@,
                accs2[i],
                proofs@[i],
            ) by {
                if i < step_idx {
                    assert(fold_accepts_after_ccs(ts[i], *gp, *s, old_fresh[i]@, accs[i], old_proofs[i]));
                }
            }
            assert forall|i: int| 0 <= i < step_idx + 1 implies (step_honest(*gp, *s, steps@[i]@) ==> #[trigger] fold_ccs_ok(
                ts2[i],
                *gp,
                *s,
                fresh_all@[i]@,
                accs2[i],
                proofs@[i],
            )) by {
                if i < step_idx {
                    assert(step_honest(*gp, *s, steps@[i]@) ==> fold_ccs_ok(ts[i], *gp, *s, old_fresh[i]@, accs[i], old_proofs[i]));
                }
            }
            accs = accs2;
            ts = ts2;
            assert(acc_commitments(acc@) =~= proof_commitments(proofs@[step_idx as int]));
            assert(proofs@.drop_last() =~= old_proofs);
            assert(ivc_digest(proofs@, step_idx as int) == ivc_digest(old_proofs, step_idx as int)) by {
                lemma_ivc_digest_prefix(proofs@, old_proofs, step_idx as int);
            }
        }
        step_idx = step_idx + 1;
    }
    let out = IvcProof { fresh: fresh_all, fold_proofs: proofs, final_acc: acc, final_digest: digest };
    proof {
        assert(steps@.len() == 0 ==> proofs@.len() == 0);
        assert(ivc_digest(out.fold_proofs@, 0) =~= Seq::new(32, |i: int| 0u8));
        assert(ce_views(out.final_acc@) == ce_views(accs[out.fold_proofs@.len() as int]));
        if ivc_steps_honest(*gp, *s, steps@) {
            let n = out.fold_proofs@.len() as int;
            assert(ivc_replay(*gp, *pp, *s, out.fresh@, out.fold_proofs@, accs, ts, n));
            assert forall|i: int| 0 <= i < n implies #[trigger] fold_ccs_ok(
                ts[i],
                *gp,
                *s,
                out.fresh@[i]@,
                accs[i],
                out.fold_proofs@[i],
            ) by {
                assert(step_honest(*gp, *s, steps@[i]@));
            }
            assert(ivc_ccs_ok(*gp, *pp, *s, out));
        }
        if ivc_ccs_ok(*gp, *pp, *s, out) {
            lemma_ivc_complete_after_ccs(*gp, *pp, *s, out, accs, ts);
        }
    }
    Ok((out, acc_wit))
}

/// Extending a replay by one step whose fold hands on `next_acc` and `next_t`.
proof fn lemma_ivc_replay_push(
    gp: GlobalParams,
    pp: PublicParams,
    s: CcsStructure,
    fresh: Seq<Vec<CcsInstance>>,
    fps: Seq<FoldProof>,
    accs: Seq<Seq<CeInstance>>,
    ts: Seq<TrView>,
    n: int,
    fresh2: Seq<Vec<CcsInstance>>,
    fps2: Seq<FoldProof>,
    next_acc: Seq<CeInstance>,
    next_t: TrView,
)
    requires
        ivc_replay(gp, pp, s, fresh, fps, accs, ts, n),
        0 <= n,
        fresh.len() == n,
        fps.len() == n,
        fresh2.len() == n + 1,
        fps2.len() == n + 1,
        forall|i: int| 0 <= i < n ==> fresh2[i] == fresh[i] && fps2[i] == fps[i],
        next_t == fold_final_state(ts[n], gp, s, fresh2[n]@, accs[n], fps2[n]),
        ce_views(next_acc) == fold_out_views(ts[n], gp, s, fresh2[n]@, accs[n], fps2[n]),
    ensures
        ivc_replay(gp, pp, s, fresh2, fps2, accs.push(next_acc), ts.push(next_t), n + 1),
{
    let a2 = accs.push(next_acc);
    let t2 = ts.push(next_t);
    assert forall|i: int| 0 <= i < n + 1 implies #[trigger] ivc_step_next(gp, s, fresh2, fps2, a2, t2, i) by {
        if i < n {
            assert(ivc_step_next(gp, s, fresh, fps, accs, ts, i));
            assert(fresh2[i] == fresh[i] && fps2[i] == fps[i]);
        }
    }
}

/// The digest of the first `n` steps only reads the first `n` proofs.
pub proof fn lemma_ivc_digest_prefix(a: Seq<FoldProof>, b: Seq<FoldProof>, n: int)
    requires
        n <= a.len(),
        n <= b.len(),
        forall|i: int| 0 <= i < n ==> a[i] == b[i],
    ensures
        ivc_digest(a, n) == ivc_digest(b, n),
    decreases n,
{
    if n > 0 {
        lemma_ivc_digest_prefix(a, b, n - 1);
    }
}

/// Prove an IVC run (see [`prove_ivc_with_witnesses`]).
pub fn prove_ivc(
    gp: &GlobalParams,
    pp: &PublicParams,
    s: &CcsStructure,
    steps: &[Vec<CcsWitness>],
) -> (res: Result<IvcProof, IvcError>)
    requires
        ivc_params_ok(*gp, *pp, *s),
        pp.n_cols == gp.n_r,
        steps_ok(*gp, *s, steps@),
    ensures
        res matches Err(e) ==> (e matches IvcError::Step { step, source } && step < steps@.len() && source is Reduction),
        ivc_low_norm(*gp, steps@) ==> res is Ok,
        res matches Ok(proof) ==> {
            &&& proof.fresh@.len() == steps@.len()
            &&& proof.fold_proofs@.len() == steps@.len()
            &&& forall|i: int, j: int|
                0 <= i < steps@.len() && 0 <= j < steps@[i]@.len() ==> (#[trigger] proof.fresh@[i]@[j]).c@
                    == pp.commit_spec(embed_spec(fp_seq(steps@[i]@[j].z@)))
            &&& proof.final_acc@.len() == gp.k
            &&& proof.final_digest@ == ivc_digest(proof.fold_proofs@, steps@.len() as int)
        },
        res matches Ok(proof) ==> (ivc_ccs_ok(*gp, *pp, *s, proof) ==> ivc_accepts(*gp, *pp, *s, proof)),
        res matches Ok(proof) ==> (ivc_steps_honest(*gp, *s, steps@) ==> ivc_accepts(*gp, *pp, *s, proof)),
        res matches Ok(proof) ==> (steps@.len() == 0 ==> ce_views(proof.final_acc@) == genesis_views(
            *gp,
            *pp,
            s.matrices@.len(),
        ) && proof.final_digest@ == Seq::new(32, |i: int| 0u8)),
{
    match prove_ivc_with_witnesses(gp, pp, s, steps) {
        Ok((proof, _wits)) => Ok(proof),
        Err(e) => Err(e),
    }
}

/// Whether two digests are equal.
fn digests_equal(a: &[u8; 32], b: &[u8; 32]) -> (r: bool)
    ensures
        r == (a@ == b@),
{
    let mut i: usize = 0;
    while i < 32
        invariant
            i <= 32,
            a@.len() == 32,
            b@.len() == 32,
            forall|j: int| 0 <= j < i ==> a@[j] == b@[j],
        decreases 32 - i,
    {
        if a[i] != b[i] {
            return false;
        }
        i = i + 1;
    }
    assert(a@ =~= b@);
    true
}

/// Whether two accumulators are equal on residues.
fn accumulators_equal(a: &[CeInstance], b: &[CeInstance]) -> (r: bool)
    ensures
        r == (a@.len() == b@.len() && forall|i: int| 0 <= i < a@.len() ==> (#[trigger] a@[i])@ == b@[i]@),
{
    if a.len() != b.len() {
        return false;
    }
    let mut i: usize = 0;
    while i < a.len()
        invariant
            i <= a@.len(),
            a@.len() == b@.len(),
            forall|j: int| 0 <= j < i ==> (#[trigger] a@[j])@ == b@[j]@,
        decreases a@.len() - i,
    {
        if !a[i].equals(&b[i]) {
            return false;
        }
        i = i + 1;
    }
    true
}

/// The commitments a proof's steps carry all have rank `kappa`.
pub open spec fn ivc_proof_shapes_ok(gp: GlobalParams, s: CcsStructure, proof: IvcProof, kappa: nat) -> bool {
    &&& forall|i: int|
        0 <= i < proof.fresh@.len() ==> dims_ok((#[trigger] proof.fresh@[i])@.len() as int, gp.k as int, s.matrices@.len() as int)
            && forall|j: int| 0 <= j < proof.fresh@[i]@.len() ==> (#[trigger] proof.fresh@[i]@[j]).c@.len() == kappa
    &&& forall|i: int|
        0 <= i < proof.fold_proofs@.len() ==> forall|j: int|
            0 <= j < (#[trigger] proof.fold_proofs@[i]).dec.child_commitments@.len() ==> (
            #[trigger] proof.fold_proofs@[i].dec.child_commitments@[j])@.len() == kappa
}

/// The views of the genesis accumulator: `k` all-zero CE instances.
pub open spec fn genesis_views(gp: GlobalParams, pp: PublicParams, t: nat) -> Seq<(Seq<Seq<nat>>, Seq<E2>, Seq<Seq<E2>>)> {
    Seq::new(
        gp.k as nat,
        |i: int|
            (
                Seq::new(pp.kappa as nat, |j: int| ring_zero()),
                Seq::new(gp.log_m as nat, |j: int| e2_zero()),
                Seq::new(t, |j: int| rk_zero()),
            ),
    )
}

/// Step `i` of a replay: its fold is accepted from accumulator `accs[i]` and transcript
/// `ts[i]`, and hands on `accs[i + 1]` and `ts[i + 1]`.
pub open spec fn ivc_step_ok(
    gp: GlobalParams,
    s: CcsStructure,
    proof: IvcProof,
    accs: Seq<Seq<CeInstance>>,
    ts: Seq<TrView>,
    i: int,
) -> bool {
    let fresh = proof.fresh@[i]@;
    let fp = proof.fold_proofs@[i];
    &&& fold_accepts(ts[i], gp, s, fresh, accs[i], fp)
    &&& ts[i + 1] == fold_final_state(ts[i], gp, s, fresh, accs[i], fp)
    &&& ce_views(accs[i + 1]) == fold_out_views(ts[i], gp, s, fresh, accs[i], fp)
}

/// A replay of the first `n` steps: from the genesis accumulator and the IVC domain's
/// transcript, every step is accepted and hands on the next accumulator and transcript.
pub open spec fn ivc_chain(
    gp: GlobalParams,
    pp: PublicParams,
    s: CcsStructure,
    proof: IvcProof,
    accs: Seq<Seq<CeInstance>>,
    ts: Seq<TrView>,
    n: int,
) -> bool {
    &&& accs.len() == n + 1
    &&& ts.len() == n + 1
    &&& ce_views(accs[0]) == genesis_views(gp, pp, s.matrices@.len())
    &&& ts[0] == transcript_init(ivc_domain())
    &&& forall|i: int| 0 <= i < n ==> #[trigger] ivc_step_ok(gp, s, proof, accs, ts, i)
}

/// The IVC verifier accepts: the step lists pair up, every fold replays from genesis,
/// and the final accumulator and digest are the replayed ones.
pub open spec fn ivc_accepts(gp: GlobalParams, pp: PublicParams, s: CcsStructure, proof: IvcProof) -> bool {
    let n = proof.fold_proofs@.len() as int;
    &&& proof.fresh@.len() == proof.fold_proofs@.len()
    &&& exists|accs: Seq<Seq<CeInstance>>, ts: Seq<TrView>|
        #[trigger] ivc_chain(gp, pp, s, proof, accs, ts, n) && ce_views(proof.final_acc@) == ce_views(accs[n])
    &&& proof.final_digest@ == ivc_digest(proof.fold_proofs@, n)
}

/// Step `i` of a replay hands on the accumulator and transcript its fold produces.
pub open spec fn ivc_step_next(
    gp: GlobalParams,
    s: CcsStructure,
    fresh: Seq<Vec<CcsInstance>>,
    fps: Seq<FoldProof>,
    accs: Seq<Seq<CeInstance>>,
    ts: Seq<TrView>,
    i: int,
) -> bool {
    &&& ts[i + 1] == fold_final_state(ts[i], gp, s, fresh[i]@, accs[i], fps[i])
    &&& ce_views(accs[i + 1]) == fold_out_views(ts[i], gp, s, fresh[i]@, accs[i], fps[i])
}

/// The accumulators and transcripts of the first `n` steps, from genesis and the IVC
/// domain, whether or not the steps' checks pass.
pub open spec fn ivc_replay(
    gp: GlobalParams,
    pp: PublicParams,
    s: CcsStructure,
    fresh: Seq<Vec<CcsInstance>>,
    fps: Seq<FoldProof>,
    accs: Seq<Seq<CeInstance>>,
    ts: Seq<TrView>,
    n: int,
) -> bool {
    &&& accs.len() == n + 1
    &&& ts.len() == n + 1
    &&& ce_views(accs[0]) == genesis_views(gp, pp, s.matrices@.len())
    &&& ts[0] == transcript_init(ivc_domain())
    &&& forall|i: int| 0 <= i < n ==> #[trigger] ivc_step_next(gp, s, fresh, fps, accs, ts, i)
}

/// Along the replay of a run, every step's Π_CCS checks pass.
pub open spec fn ivc_ccs_ok(gp: GlobalParams, pp: PublicParams, s: CcsStructure, proof: IvcProof) -> bool {
    let n = proof.fold_proofs@.len() as int;
    exists|accs: Seq<Seq<CeInstance>>, ts: Seq<TrView>|
        #[trigger] ivc_replay(gp, pp, s, proof.fresh@, proof.fold_proofs@, accs, ts, n) && forall|i: int|
            0 <= i < n ==> #[trigger] fold_ccs_ok(ts[i], gp, s, proof.fresh@[i]@, accs[i], proof.fold_proofs@[i])
}

/// The commitment to the all-zero witness is the all-zero commitment.
proof fn lemma_commit_zero(pp: PublicParams)
    requires
        pp.wf(),
    ensures
        pp.commit_spec(Seq::new(pp.n_cols as nat, |c: int| ring_zero())) == Seq::new(pp.kappa as nat, |j: int| ring_zero()),
{
    let z = Seq::new(pp.n_cols as nat, |c: int| ring_zero());
    crate::pp::law_commit_homomorphism(pp, z, z, 0);
    assert(crate::ring::ring_scale(ring_zero(), 0) =~= ring_zero());
    assert(crate::ring::ring_vec_scale(z, 0) =~= z);
    let c = pp.commit_spec(z);
    assert forall|j: int| 0 <= j < pp.kappa implies #[trigger] crate::commit::commit_scale_fp(c, 0)[j] == ring_zero() by {
        assert(crate::ring::ring_scale(c[j], 0) =~= ring_zero());
    }
    assert(crate::commit::commit_scale_fp(c, 0) =~= Seq::new(pp.kappa as nat, |j: int| ring_zero()));
}

/// A replay whose steps all pass Π_RLC and Π_DEC, and whose final accumulator and
/// digest are the proof's, is accepted once every step's Π_CCS checks pass too.
#[verifier::spinoff_prover]
proof fn lemma_ivc_complete_after_ccs(
    gp: GlobalParams,
    pp: PublicParams,
    s: CcsStructure,
    proof: IvcProof,
    accs: Seq<Seq<CeInstance>>,
    ts: Seq<TrView>,
)
    requires
        proof.fresh@.len() == proof.fold_proofs@.len(),
        ivc_replay(gp, pp, s, proof.fresh@, proof.fold_proofs@, accs, ts, proof.fold_proofs@.len() as int),
        forall|i: int|
            0 <= i < proof.fold_proofs@.len() ==> #[trigger] fold_accepts_after_ccs(
                ts[i],
                gp,
                s,
                proof.fresh@[i]@,
                accs[i],
                proof.fold_proofs@[i],
            ),
        ce_views(proof.final_acc@) == ce_views(accs[proof.fold_proofs@.len() as int]),
        proof.final_digest@ == ivc_digest(proof.fold_proofs@, proof.fold_proofs@.len() as int),
        ivc_ccs_ok(gp, pp, s, proof),
    ensures
        ivc_accepts(gp, pp, s, proof),
{
    let n = proof.fold_proofs@.len() as int;
    let (a2, t2) = choose|a2: Seq<Seq<CeInstance>>, t2: Seq<TrView>|
        #[trigger] ivc_replay(gp, pp, s, proof.fresh@, proof.fold_proofs@, a2, t2, n) && forall|i: int|
            0 <= i < n ==> #[trigger] fold_ccs_ok(t2[i], gp, s, proof.fresh@[i]@, a2[i], proof.fold_proofs@[i]);
    assert(ivc_replay(gp, pp, s, proof.fresh@, proof.fold_proofs@, a2, t2, n));
    lemma_ivc_replay_unique(gp, pp, s, proof.fresh@, proof.fold_proofs@, accs, ts, a2, t2, n);
    assert forall|i: int| 0 <= i < n implies #[trigger] ivc_step_ok(gp, s, proof, accs, ts, i) by {
        assert(ce_views(accs[i]) == ce_views(a2[i]) && ts[i] == t2[i]);
        assert(fold_ccs_ok(t2[i], gp, s, proof.fresh@[i]@, a2[i], proof.fold_proofs@[i]));
        lemma_fold_views(ts[i], gp, s, proof.fresh@[i]@, accs[i], a2[i], proof.fold_proofs@[i]);
        assert(ivc_step_next(gp, s, proof.fresh@, proof.fold_proofs@, accs, ts, i));
        assert(fold_accepts_after_ccs(ts[i], gp, s, proof.fresh@[i]@, accs[i], proof.fold_proofs@[i]));
    }
    assert(ivc_chain(gp, pp, s, proof, accs, ts, n));
}

/// The genesis accumulator's claims are the claims of the all-zero witnesses.
proof fn lemma_claims_of_zero(gp: GlobalParams, s: CcsStructure, acc: Seq<CeInstance>, wits: Seq<CeWitness>)
    requires
        acc.len() == gp.k,
        wits.len() == gp.k,
        forall|i: int|
            0 <= i < gp.k ==> (#[trigger] acc[i])@.2 == Seq::new(s.matrices@.len() as nat, |j: int| rk_zero()),
        forall|i: int|
            0 <= i < gp.k ==> ring_seq((#[trigger] wits[i]).z_ring@) == Seq::new(gp.n_r as nat, |c: int| ring_zero()),
    ensures
        forall|i: int, j: int|
            0 <= i < gp.k && 0 <= j < s.matrices@.len() ==> (#[trigger] acc[i].y@[j])@ == crate::types::eval_claim(
                s.mat(j),
                ring_seq(wits[i].z_ring@),
                e2_seq(acc[i].r@),
            ),
{
    let z = Seq::new(gp.n_r as nat, |c: int| ring_zero());
    assert(crate::ring::ring_scale(ring_zero(), 0) =~= ring_zero());
    assert(crate::ring::ring_vec_scale(z, 0) =~= z);
    assert forall|i: int, j: int| 0 <= i < gp.k && 0 <= j < s.matrices@.len() implies (#[trigger] acc[i].y@[j])@
        == crate::types::eval_claim(s.mat(j), ring_seq(wits[i].z_ring@), e2_seq(acc[i].r@)) by {
        let point = e2_seq(acc[i].r@);
        assert forall|v: int| 0 <= v < point.len() implies crate::ext2::e2_canon(#[trigger] point[v]) by {
            assert(point[v] == acc[i].r@[v]@);
            crate::fp::lemma_fp_lt_q(acc[i].r@[v].c0);
            crate::fp::lemma_fp_lt_q(acc[i].r@[v].c1);
        }
        crate::types::lemma_eval_claim_linear(s.mat(j), z, z, 0, point);
        let y = crate::types::eval_claim(s.mat(j), z, point);
        assert forall|l: int| 0 <= l < 54 implies #[trigger] crate::ring_k::rk_scale_fp(y, 0)[l] == rk_zero()[l] by {
            assert(y[l].0 * 0nat + 7 * (y[l].1 * 0nat) == 0) by (nonlinear_arith);
            assert(y[l].0 * 0nat + y[l].1 * 0nat == 0) by (nonlinear_arith);
        }
        assert(crate::ring_k::rk_scale_fp(y, 0) =~= rk_zero());
        assert(rk_views(acc[i].y@).len() == acc[i].y@.len());
        assert(rk_views(acc[i].y@)[j] == acc[i].y@[j]@);
    }
}

/// Instance sequences that differ in length or in some view have different views.
proof fn lemma_views_differ(a: Seq<CeInstance>, b: Seq<CeInstance>)
    requires
        !(a.len() == b.len() && forall|i: int| 0 <= i < a.len() ==> (#[trigger] a[i])@ == b[i]@),
    ensures
        ce_views(a) != ce_views(b),
{
    if ce_views(a) == ce_views(b) {
        assert(a.len() == ce_views(a).len() && b.len() == ce_views(b).len());
        assert forall|i: int| 0 <= i < a.len() implies (#[trigger] a[i])@ == b[i]@ by {
            assert(ce_views(a)[i] == ce_views(b)[i]);
        }
    }
}

/// A replay of `n` steps starts with a replay of its first `m`.
proof fn lemma_ivc_replay_prefix(
    gp: GlobalParams,
    pp: PublicParams,
    s: CcsStructure,
    fresh: Seq<Vec<CcsInstance>>,
    fps: Seq<FoldProof>,
    accs: Seq<Seq<CeInstance>>,
    ts: Seq<TrView>,
    n: int,
    m: int,
)
    requires
        ivc_replay(gp, pp, s, fresh, fps, accs, ts, n),
        0 <= m <= n,
    ensures
        ivc_replay(gp, pp, s, fresh, fps, accs.take(m + 1), ts.take(m + 1), m),
{
    let a2 = accs.take(m + 1);
    let t2 = ts.take(m + 1);
    assert forall|i: int| 0 <= i < m implies #[trigger] ivc_step_next(gp, s, fresh, fps, a2, t2, i) by {
        assert(ivc_step_next(gp, s, fresh, fps, accs, ts, i));
        assert(a2[i] == accs[i] && a2[i + 1] == accs[i + 1]);
        assert(t2[i] == ts[i] && t2[i + 1] == ts[i + 1]);
    }
}

/// Two replays of the same `n` steps pass through accumulators with the same views and
/// through the same transcripts.
proof fn lemma_ivc_replay_unique(
    gp: GlobalParams,
    pp: PublicParams,
    s: CcsStructure,
    fresh: Seq<Vec<CcsInstance>>,
    fps: Seq<FoldProof>,
    a1: Seq<Seq<CeInstance>>,
    t1: Seq<TrView>,
    a2: Seq<Seq<CeInstance>>,
    t2: Seq<TrView>,
    n: int,
)
    requires
        ivc_replay(gp, pp, s, fresh, fps, a1, t1, n),
        ivc_replay(gp, pp, s, fresh, fps, a2, t2, n),
        0 <= n,
    ensures
        forall|i: int| 0 <= i <= n ==> ce_views(#[trigger] a1[i]) == ce_views(a2[i]) && t1[i] == t2[i],
    decreases n,
{
    if n > 0 {
        lemma_ivc_replay_prefix(gp, pp, s, fresh, fps, a1, t1, n, n - 1);
        lemma_ivc_replay_prefix(gp, pp, s, fresh, fps, a2, t2, n, n - 1);
        lemma_ivc_replay_unique(gp, pp, s, fresh, fps, a1.take(n), t1.take(n), a2.take(n), t2.take(n), n - 1);
        assert forall|i: int| 0 <= i < n implies ce_views(#[trigger] a1[i]) == ce_views(a2[i]) && t1[i] == t2[i] by {
            assert(a1.take(n)[i] == a1[i] && a2.take(n)[i] == a2[i]);
            assert(t1.take(n)[i] == t1[i] && t2.take(n)[i] == t2[i]);
        }
        assert(ivc_step_next(gp, s, fresh, fps, a1, t1, n - 1));
        assert(ivc_step_next(gp, s, fresh, fps, a2, t2, n - 1));
        assert(ce_views(a1[n - 1]) == ce_views(a2[n - 1]) && t1[n - 1] == t2[n - 1]);
        lemma_fold_views(t1[n - 1], gp, s, fresh[n - 1]@, a1[n - 1], a2[n - 1], fps[n - 1]);
    }
}

/// A replay of `n` steps starts with a replay of its first `m`.
proof fn lemma_ivc_chain_prefix(
    gp: GlobalParams,
    pp: PublicParams,
    s: CcsStructure,
    proof: IvcProof,
    accs: Seq<Seq<CeInstance>>,
    ts: Seq<TrView>,
    n: int,
    m: int,
)
    requires
        ivc_chain(gp, pp, s, proof, accs, ts, n),
        0 <= m <= n,
    ensures
        ivc_chain(gp, pp, s, proof, accs.take(m + 1), ts.take(m + 1), m),
{
    let a2 = accs.take(m + 1);
    let t2 = ts.take(m + 1);
    assert forall|i: int| 0 <= i < m implies #[trigger] ivc_step_ok(gp, s, proof, a2, t2, i) by {
        assert(ivc_step_ok(gp, s, proof, accs, ts, i));
        assert(a2[i] == accs[i] && a2[i + 1] == accs[i + 1]);
        assert(t2[i] == ts[i] && t2[i + 1] == ts[i + 1]);
    }
}

/// Two replays of the same `n` steps end in accumulators with the same views and in the
/// same transcript.
proof fn lemma_ivc_chain_unique(
    gp: GlobalParams,
    pp: PublicParams,
    s: CcsStructure,
    proof: IvcProof,
    a1: Seq<Seq<CeInstance>>,
    t1: Seq<TrView>,
    a2: Seq<Seq<CeInstance>>,
    t2: Seq<TrView>,
    n: int,
)
    requires
        ivc_chain(gp, pp, s, proof, a1, t1, n),
        ivc_chain(gp, pp, s, proof, a2, t2, n),
        0 <= n,
    ensures
        ce_views(a1[n]) == ce_views(a2[n]),
        t1[n] == t2[n],
    decreases n,
{
    if n > 0 {
        lemma_ivc_chain_prefix(gp, pp, s, proof, a1, t1, n, n - 1);
        lemma_ivc_chain_prefix(gp, pp, s, proof, a2, t2, n, n - 1);
        lemma_ivc_chain_unique(gp, pp, s, proof, a1.take(n), t1.take(n), a2.take(n), t2.take(n), n - 1);
        assert(ivc_step_ok(gp, s, proof, a1, t1, n - 1));
        assert(ivc_step_ok(gp, s, proof, a2, t2, n - 1));
        lemma_fold_views(t1[n - 1], gp, s, proof.fresh@[n - 1]@, a1[n - 1], a2[n - 1], proof.fold_proofs@[n - 1]);
    }
}

/// Verify an IVC run: replay each `verify_fold` and the digest chain, then check the
/// final accumulator and digest against the proof's.
///
/// Rejects with `AccumulatorMismatch` when the proof's step lists differ in length or
/// its final accumulator is not the one replayed, with `Step` when a fold fails, and
/// with `DigestMismatch` when only the digest differs.
pub fn verify_ivc(
    gp: &GlobalParams,
    pp: &PublicParams,
    s: &CcsStructure,
    proof: &IvcProof,
) -> (res: Result<(), IvcError>)
    requires
        ivc_params_ok(*gp, *pp, *s),
        ivc_proof_shapes_ok(*gp, *s, *proof, pp.kappa as nat),
    ensures
        res is Ok <==> ivc_accepts(*gp, *pp, *s, *proof),
        proof.fresh@.len() != proof.fold_proofs@.len() ==> res == Err::<(), IvcError>(IvcError::AccumulatorMismatch),
        res matches Err(IvcError::Step { step, source }) ==> step < proof.fold_proofs@.len(),
        res is Ok ==> {
            &&& proof.fresh@.len() == proof.fold_proofs@.len()
            &&& proof.final_digest@ == ivc_digest(proof.fold_proofs@, proof.fold_proofs@.len() as int)
            &&& proof.final_acc@.len() == gp.k
            &&& proof.fold_proofs@.len() > 0 ==> acc_commitments(proof.final_acc@) == proof_commitments(
                proof.fold_proofs@[proof.fold_proofs@.len() - 1],
            )
        },
{
    if proof.fresh.len() != proof.fold_proofs.len() {
        return Err(IvcError::AccumulatorMismatch);
    }
    let mut acc = genesis_instances(gp, pp, s.t());
    let mut digest: [u8; 32] = [0u8;32];
    let dom: [u8; 15] = [115u8, 117, 112, 101, 114, 110, 101, 111, 47, 105, 118, 99, 47, 118, 49];
    assert(dom@ =~= ivc_domain());
    let mut tr = Transcript::new(dom.as_slice());
    let ghost fps = proof.fold_proofs@;
    let ghost mut accs: Seq<Seq<CeInstance>> = seq![acc@];
    let ghost mut ts: Seq<TrView> = seq![tr@];
    assert(digest@ =~= ivc_digest(fps, 0));
    proof {
        assert(ce_views(acc@) =~= genesis_views(*gp, *pp, s.matrices@.len()));
        assert forall|a2: Seq<Seq<CeInstance>>, t2: Seq<TrView>| #[trigger] ivc_chain(*gp, *pp, *s, *proof, a2, t2, 0) implies ce_views(
            a2[0],
        ) == ce_views(acc@) && t2[0] == tr@ by {}
    }
    let n = proof.fold_proofs.len();
    let mut step_idx: usize = 0;
    while step_idx < n
        invariant
            step_idx <= n,
            n == fps.len(),
            fps == proof.fold_proofs@,
            proof.fresh@.len() == n,
            ivc_params_ok(*gp, *pp, *s),
            ivc_proof_shapes_ok(*gp, *s, *proof, pp.kappa as nat),
            acc@.len() == gp.k,
            forall|i: int|
                0 <= i < gp.k ==> (#[trigger] acc@[i]).c@.len() == pp.kappa && acc@[i].r@.len() == gp.log_m
                    && acc@[i].y@.len() == s.matrices@.len(),
            digest@ == ivc_digest(fps, step_idx as int),
            step_idx > 0 ==> acc_commitments(acc@) == proof_commitments(fps[step_idx - 1]),
            ivc_chain(*gp, *pp, *s, *proof, accs, ts, step_idx as int),
            accs[step_idx as int] == acc@,
            ts[step_idx as int] == tr@,
            forall|a2: Seq<Seq<CeInstance>>, t2: Seq<TrView>|
                #[trigger] ivc_chain(*gp, *pp, *s, *proof, a2, t2, step_idx as int) ==> ce_views(a2[step_idx as int])
                    == ce_views(acc@) && t2[step_idx as int] == tr@,
        decreases n - step_idx,
    {
        let fresh = &proof.fresh[step_idx];
        let fp = &proof.fold_proofs[step_idx];
        let ghost acc_old = acc@;
        let ghost tr_old = tr@;
        proof {
            assert(fold_kappa(fresh@, acc@) == pp.kappa);
            assert(fold_inputs_ok(*gp, *s, fresh@, acc@));
            assert forall|j: int| 0 <= j < fp.dec.child_commitments@.len() implies (#[trigger] fp.dec.child_commitments@[j])@.len()
                == fold_kappa(fresh@, acc@) by {
                assert(proof.fold_proofs@[step_idx as int] == *fp);
            }
        }
        acc = match verify_fold(&mut tr, gp, s, fresh.as_slice(), acc.as_slice(), fp) {
            Ok(v) => v,
            Err(e) => {
                proof {
                    assert(!fold_accepts(tr_old, *gp, *s, fresh@, acc_old, *fp));
                    lemma_ivc_rejects_at(*gp, *pp, *s, *proof, accs, ts, step_idx as int);
                }
                return Err(IvcError::Step { step: step_idx, source: e });
            },
        };
        digest = fold_digest(&digest, step_idx, acc.as_slice());
        proof {
            assert forall|i: int| 0 <= i < gp.k implies acc_commitments(acc@)[i] == proof_commitments(fps[step_idx as int])[i] by {
                assert(acc@[i].c@ == acc@[i]@.0);
            }
            assert(acc_commitments(acc@) =~= proof_commitments(fps[step_idx as int]));
            assert(ce_views(acc@) =~= fold_out_views(tr_old, *gp, *s, fresh@, acc_old, *fp));
            let accs_new = accs.push(acc@);
            let ts_new = ts.push(tr@);
            lemma_ivc_chain_extend(*gp, *pp, *s, *proof, accs, ts, step_idx as int, acc@, tr@);
            assert forall|a2: Seq<Seq<CeInstance>>, t2: Seq<TrView>|
                #[trigger] ivc_chain(*gp, *pp, *s, *proof, a2, t2, step_idx + 1) implies ce_views(a2[step_idx + 1])
                == ce_views(acc@) && t2[step_idx + 1] == tr@ by {
                lemma_ivc_chain_prefix(*gp, *pp, *s, *proof, a2, t2, step_idx + 1, step_idx as int);
                assert(ivc_chain(*gp, *pp, *s, *proof, a2.take(step_idx + 1), t2.take(step_idx + 1), step_idx as int));
                assert(a2.take(step_idx + 1)[step_idx as int] == a2[step_idx as int]);
                assert(t2.take(step_idx + 1)[step_idx as int] == t2[step_idx as int]);
                assert(ivc_step_ok(*gp, *s, *proof, a2, t2, step_idx as int));
                lemma_fold_views(t2[step_idx as int], *gp, *s, fresh@, a2[step_idx as int], acc_old, *fp);
            }
            accs = accs_new;
            ts = ts_new;
        }
        step_idx = step_idx + 1;
    }
    if !accumulators_equal(acc.as_slice(), proof.final_acc.as_slice()) {
        proof {
            lemma_views_differ(acc@, proof.final_acc@);
        }
        return Err(IvcError::AccumulatorMismatch);
    }
    proof {
        assert(ce_views(proof.final_acc@) =~= ce_views(acc@));
    }
    if !digests_equal(&digest, &proof.final_digest) {
        return Err(IvcError::DigestMismatch);
    }
    proof {
        if n > 0 {
            assert(acc_commitments(proof.final_acc@) =~= acc_commitments(acc@));
        }
        assert(ivc_chain(*gp, *pp, *s, *proof, accs, ts, n as int));
    }
    Ok(())
}

/// A replay extends by one step when that step's fold is accepted.
proof fn lemma_ivc_chain_extend(
    gp: GlobalParams,
    pp: PublicParams,
    s: CcsStructure,
    proof: IvcProof,
    accs: Seq<Seq<CeInstance>>,
    ts: Seq<TrView>,
    n: int,
    next_acc: Seq<CeInstance>,
    next_t: TrView,
)
    requires
        ivc_chain(gp, pp, s, proof, accs, ts, n),
        0 <= n,
        fold_accepts(ts[n], gp, s, proof.fresh@[n]@, accs[n], proof.fold_proofs@[n]),
        next_t == fold_final_state(ts[n], gp, s, proof.fresh@[n]@, accs[n], proof.fold_proofs@[n]),
        ce_views(next_acc) == fold_out_views(ts[n], gp, s, proof.fresh@[n]@, accs[n], proof.fold_proofs@[n]),
    ensures
        ivc_chain(gp, pp, s, proof, accs.push(next_acc), ts.push(next_t), n + 1),
{
    let a2 = accs.push(next_acc);
    let t2 = ts.push(next_t);
    assert forall|i: int| 0 <= i < n + 1 implies #[trigger] ivc_step_ok(gp, s, proof, a2, t2, i) by {
        if i < n {
            assert(ivc_step_ok(gp, s, proof, accs, ts, i));
        }
    }
}

/// When the fold of step `n` is rejected from the replayed accumulator, no replay of all
/// the steps exists.
proof fn lemma_ivc_rejects_at(
    gp: GlobalParams,
    pp: PublicParams,
    s: CcsStructure,
    proof: IvcProof,
    accs: Seq<Seq<CeInstance>>,
    ts: Seq<TrView>,
    n: int,
)
    requires
        ivc_chain(gp, pp, s, proof, accs, ts, n),
        0 <= n < proof.fold_proofs@.len(),
        !fold_accepts(ts[n], gp, s, proof.fresh@[n]@, accs[n], proof.fold_proofs@[n]),
    ensures
        !ivc_accepts(gp, pp, s, proof),
{
    if ivc_accepts(gp, pp, s, proof) {
        let m = proof.fold_proofs@.len() as int;
        let (a2, t2) = choose|a2: Seq<Seq<CeInstance>>, t2: Seq<TrView>|
            #[trigger] ivc_chain(gp, pp, s, proof, a2, t2, m) && ce_views(proof.final_acc@) == ce_views(a2[m]);
        lemma_ivc_chain_prefix(gp, pp, s, proof, a2, t2, m, n);
        lemma_ivc_chain_unique(gp, pp, s, proof, accs, ts, a2.take(n + 1), t2.take(n + 1), n);
        assert(a2.take(n + 1)[n] == a2[n] && t2.take(n + 1)[n] == t2[n]);
        assert(ivc_step_ok(gp, s, proof, a2, t2, n));
        lemma_fold_views(ts[n], gp, s, proof.fresh@[n]@, accs[n], a2[n], proof.fold_proofs@[n]);
    }
}

} // verus!
