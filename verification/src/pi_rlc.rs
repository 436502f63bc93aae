//! Π_RLC: the weak reduction `CE(b)^(K+k) -> CE(B)`.
//!
//! Sample `rho_1, ..., rho_(K+k)` from the strong sampling set and take the ring linear
//! combination of the input commitments, evaluation claims, and witnesses. By the
//! commitment and evaluation homomorphisms the result is a single CE instance.

use vstd::prelude::*;

use crate::challenge::challenge_coeff;
use crate::commit::{commit_add, commit_scale_fp, commit_scale_ring, Commitment};
use crate::error::FoldError;
use crate::ext2::{e2_canon, e2_seq, E2};
use crate::fp::{abs_balanced_of, lemma_fp_lt_q};
use crate::pp::{law_commit_homomorphism, law_commit_ring_homomorphism, PublicParams};
use crate::pi_ccs::{absorb_ringk_vec, absorb_ringks};
use crate::ring::{
    lemma_ring_wf, ring_add, ring_mul, ring_scale, ring_seq, ring_vec_add, ring_vec_mul, ring_vec_scale, ring_wf, ring_zero,
    RingElem,
};
use crate::ring_k::{lemma_rk_wf, rk_add, rk_mul_rf, rk_scale_fp, rk_zero, RingK};
use crate::sumcheck::absorb_exts;
use crate::transcript::{absorb_rings, after_squeeze, squeeze_spec, word_at, Transcript, TrView};
use crate::types::{
    ce_views, eval_claim, lemma_eval_claim_linear, lemma_eval_claim_mul, rk_views, CcsStructure, CeInstance, CeWitness, GlobalParams,
    PiRlcProof,
};

verus! {

broadcast use {lemma_ring_wf, lemma_rk_wf};

/// The ASCII bytes of "pirlc/c".
pub open spec fn pirlc_c_tag() -> Seq<u8> {
    seq![112u8, 105, 114, 108, 99, 47, 99]
}

/// The ASCII bytes of "pirlc/r".
pub open spec fn pirlc_r_tag() -> Seq<u8> {
    seq![112u8, 105, 114, 108, 99, 47, 114]
}

/// The ASCII bytes of "pirlc/y".
pub open spec fn pirlc_y_tag() -> Seq<u8> {
    seq![112u8, 105, 114, 108, 99, 47, 121]
}

/// The ASCII bytes of "pirlc/rho".
pub open spec fn pirlc_rho_tag() -> Seq<u8> {
    seq![112u8, 105, 114, 108, 99, 47, 114, 104, 111]
}

/// The transcript after absorbing the input instances: commitment, point, claims.
pub open spec fn rlc_bound(t: TrView, ce: Seq<CeInstance>) -> TrView
    decreases ce.len(),
{
    if ce.len() == 0 {
        t
    } else {
        let inst = ce.last()@;
        absorb_ringks(
            absorb_exts(absorb_rings(rlc_bound(t, ce.drop_last()), pirlc_c_tag(), inst.0), pirlc_r_tag(), inst.1),
            pirlc_y_tag(),
            inst.2,
        )
    }
}

/// The `n` challenges one squeeze of `8 * 54 * n` bytes yields.
pub open spec fn rlc_rhos(t: TrView, n: nat, bound: int) -> Seq<Seq<nat>> {
    Seq::new(
        n,
        |i: int|
            Seq::new(
                54,
                |l: int| challenge_coeff(word_at(squeeze_spec(t, pirlc_rho_tag(), (8 * 54 * n) as nat), i * 54 + l), bound),
            ),
    )
}

/// The inputs of Π_RLC: at least one instance, all of one commitment rank and claim count.
pub open spec fn rlc_inputs_ok(gp: GlobalParams, ce: Seq<CeInstance>) -> bool {
    &&& ce.len() > 0
    &&& 8 * 54 * ce.len() <= usize::MAX
    &&& gp.chal_bound == 2
    &&& forall|i: int|
        0 <= i < ce.len() ==> (#[trigger] ce[i]).c@.len() == ce[0].c@.len() && ce[i].y@.len() == ce[0].y@.len()
}

/// `sum_{i<n} rho_i c_i`, starting from the zero commitment of rank `kappa`.
pub open spec fn rlc_commit(cs: Seq<Seq<Seq<nat>>>, rhos: Seq<Seq<nat>>, kappa: nat, n: int) -> Seq<Seq<nat>>
    decreases n,
{
    if n <= 0 {
        Seq::new(kappa, |i: int| ring_zero())
    } else {
        commit_add(rlc_commit(cs, rhos, kappa, n - 1), commit_scale_ring(cs[n - 1], rhos[n - 1]))
    }
}

/// The combined commitment has the rank it started from.
pub proof fn lemma_rlc_commit_len(cs: Seq<Seq<Seq<nat>>>, rhos: Seq<Seq<nat>>, kappa: nat, n: int)
    ensures
        rlc_commit(cs, rhos, kappa, n).len() == kappa,
    decreases n,
{
    if n > 0 {
        lemma_rlc_commit_len(cs, rhos, kappa, n - 1);
    }
}

/// `sum_{i<n} rho_i y_{i,j}`.
pub open spec fn rlc_claim(ys: Seq<Seq<Seq<E2>>>, rhos: Seq<Seq<nat>>, j: int, n: int) -> Seq<E2>
    decreases n,
{
    if n <= 0 {
        rk_zero()
    } else {
        rk_add(rlc_claim(ys, rhos, j, n - 1), rk_mul_rf(ys[n - 1][j], rhos[n - 1]))
    }
}

/// `sum_{i<n} rho_i z_i` over ring vectors of length `n_r`.
pub open spec fn rlc_witness(zs: Seq<Seq<Seq<nat>>>, rhos: Seq<Seq<nat>>, n_r: nat, n: int) -> Seq<Seq<nat>>
    decreases n,
{
    if n <= 0 {
        Seq::new(n_r, |c: int| ring_zero())
    } else {
        Seq::new(n_r, |c: int| ring_add(rlc_witness(zs, rhos, n_r, n - 1)[c], ring_mul(zs[n - 1][c], rhos[n - 1])))
    }
}

/// The combined instance: `(sum rho_i c_i, r_0, [sum rho_i y_{i,j}]_j)`.
pub open spec fn rlc_output(ce: Seq<CeInstance>, rhos: Seq<Seq<nat>>) -> (Seq<Seq<nat>>, Seq<E2>, Seq<Seq<E2>>) {
    (
        rlc_commit(Seq::new(ce.len(), |i: int| ce[i]@.0), rhos, ce[0].c@.len(), ce.len() as int),
        ce[0]@.1,
        Seq::new(ce[0].y@.len(), |j: int| rlc_claim(Seq::new(ce.len(), |i: int| ce[i]@.2), rhos, j, ce.len() as int)),
    )
}

/// `rlc_bound` over instance views.
pub open spec fn rlc_bound_views(t: TrView, cv: Seq<(Seq<Seq<nat>>, Seq<E2>, Seq<Seq<E2>>)>) -> TrView
    decreases cv.len(),
{
    if cv.len() == 0 {
        t
    } else {
        let inst = cv.last();
        absorb_ringks(
            absorb_exts(absorb_rings(rlc_bound_views(t, cv.drop_last()), pirlc_c_tag(), inst.0), pirlc_r_tag(), inst.1),
            pirlc_y_tag(),
            inst.2,
        )
    }
}

/// `rlc_output` over instance views.
pub open spec fn rlc_output_views(cv: Seq<(Seq<Seq<nat>>, Seq<E2>, Seq<Seq<E2>>)>, rhos: Seq<Seq<nat>>) -> (
    Seq<Seq<nat>>,
    Seq<E2>,
    Seq<Seq<E2>>,
) {
    (
        rlc_commit(Seq::new(cv.len(), |i: int| cv[i].0), rhos, cv[0].0.len(), cv.len() as int),
        cv[0].1,
        Seq::new(cv[0].2.len(), |j: int| rlc_claim(Seq::new(cv.len(), |i: int| cv[i].2), rhos, j, cv.len() as int)),
    )
}

/// The transcript binding depends on the instances only through their views.
pub proof fn lemma_rlc_bound_views(t: TrView, ce: Seq<CeInstance>)
    ensures
        rlc_bound(t, ce) == rlc_bound_views(t, ce_views(ce)),
    decreases ce.len(),
{
    if ce.len() > 0 {
        lemma_rlc_bound_views(t, ce.drop_last());
        assert(ce_views(ce.drop_last()) =~= ce_views(ce).drop_last());
    }
}

/// The combined instance depends on the inputs only through their views.
pub proof fn lemma_rlc_output_views(ce: Seq<CeInstance>, rhos: Seq<Seq<nat>>)
    requires
        ce.len() > 0,
    ensures
        rlc_output(ce, rhos) == rlc_output_views(ce_views(ce), rhos),
{
    let cv = ce_views(ce);
    assert(Seq::new(ce.len(), |i: int| ce[i]@.0) =~= Seq::new(cv.len(), |i: int| cv[i].0));
    assert(Seq::new(ce.len(), |i: int| ce[i]@.2) =~= Seq::new(cv.len(), |i: int| cv[i].2));
    assert(rk_views(ce[0].y@).len() == ce[0].y@.len());
}

/// Absorb the input instances (binding) and squeeze the `rho` challenges.
fn absorb_and_sample(tr: &mut Transcript, gp: &GlobalParams, ce: &[CeInstance]) -> (rhos: Vec<RingElem>)
    requires
        8 * 54 * ce@.len() <= usize::MAX,
        gp.chal_bound == 2,
    ensures
        ring_seq(rhos@) == rlc_rhos(rlc_bound(old(tr)@, ce@), ce@.len(), 2),
        rhos@.len() == ce@.len(),
        final(tr)@ == after_squeeze(rlc_bound(old(tr)@, ce@)),
{
    let c_lbl: [u8; 7] = [112u8, 105, 114, 108, 99, 47, 99];
    let r_lbl: [u8; 7] = [112u8, 105, 114, 108, 99, 47, 114];
    let y_lbl: [u8; 7] = [112u8, 105, 114, 108, 99, 47, 121];
    let rho_lbl: [u8; 9] = [112u8, 105, 114, 108, 99, 47, 114, 104, 111];
    assert(c_lbl@ =~= pirlc_c_tag());
    assert(r_lbl@ =~= pirlc_r_tag());
    assert(y_lbl@ =~= pirlc_y_tag());
    assert(rho_lbl@ =~= pirlc_rho_tag());
    let mut i: usize = 0;
    while i < ce.len()
        invariant
            i <= ce@.len(),
            c_lbl@ == pirlc_c_tag(),
            r_lbl@ == pirlc_r_tag(),
            y_lbl@ == pirlc_y_tag(),
            tr@ == rlc_bound(old(tr)@, ce@.take(i as int)),
        decreases ce@.len() - i,
    {
        let inst = &ce[i];
        tr.absorb_commitment(c_lbl.as_slice(), &inst.c);
        let ghost before = tr@;
        let mut e: usize = 0;
        while e < inst.r.len()
            invariant
                e <= inst.r@.len(),
                r_lbl@ == pirlc_r_tag(),
                tr@ == absorb_exts(before, pirlc_r_tag(), e2_seq(inst.r@).take(e as int)),
            decreases inst.r@.len() - e,
        {
            tr.absorb_ext(r_lbl.as_slice(), inst.r[e]);
            proof {
                assert(e2_seq(inst.r@).take(e + 1).drop_last() =~= e2_seq(inst.r@).take(e as int));
            }
            e = e + 1;
        }
        assert(e2_seq(inst.r@).take(inst.r@.len() as int) =~= e2_seq(inst.r@));
        absorb_ringk_vec(tr, y_lbl.as_slice(), inst.y.as_slice());
        proof {
            assert(ce@.take(i + 1).drop_last() =~= ce@.take(i as int));
        }
        i = i + 1;
    }
    assert(ce@.take(ce@.len() as int) =~= ce@);
    let ghost tb = tr@;
    let rhos = tr.challenge_ring_set(rho_lbl.as_slice(), ce.len(), gp.chal_bound);
    proof {
        let target = rlc_rhos(tb, ce@.len(), 2);
        assert forall|i2: int| 0 <= i2 < ce@.len() implies ring_seq(rhos@)[i2] == target[i2] by {
            assert(ring_seq(rhos@)[i2] == rhos@[i2]@);
            assert(crate::ring::ring_wf(rhos@[i2]@));
            assert forall|l: int| 0 <= l < 54 implies ring_seq(rhos@)[i2][l] == target[i2][l] by {
                assert(rhos@[i2]@[l] == challenge_coeff(
                    word_at(squeeze_spec(tb, rho_lbl@, (8 * 54 * ce@.len()) as nat), i2 * 54 + l),
                    2,
                ));
            }
            assert(ring_seq(rhos@)[i2] =~= target[i2]);
        }
        assert(ring_seq(rhos@) =~= target);
    }
    rhos
}

/// Combine the public parts (commitments, claims) under the challenges `rho`.
fn combine_public(ce: &[CeInstance], rhos: &[RingElem]) -> (res: (Commitment, Vec<RingK>))
    requires
        ce@.len() > 0,
        rhos@.len() == ce@.len(),
        forall|i: int|
            0 <= i < ce@.len() ==> (#[trigger] ce@[i]).c@.len() == ce@[0].c@.len() && ce@[i].y@.len() == ce@[0].y@.len(),
    ensures
        res.0@ == rlc_output(ce@, ring_seq(rhos@)).0,
        rk_views(res.1@) == rlc_output(ce@, ring_seq(rhos@)).2,
{
    let kappa = ce[0].c.dim();
    let t = ce[0].y.len();
    let ghost cs = Seq::new(ce@.len(), |i: int| ce@[i]@.0);
    let ghost ys = Seq::new(ce@.len(), |i: int| ce@[i]@.2);
    let ghost rv = ring_seq(rhos@);
    let mut c_out = Commitment::zero(kappa);
    let mut y_out: Vec<RingK> = Vec::new();
    let mut j: usize = 0;
    while j < t
        invariant
            j <= t,
            y_out@.len() == j,
            forall|j2: int| 0 <= j2 < j ==> (#[trigger] y_out@[j2])@ == rk_zero(),
        decreases t - j,
    {
        y_out.push(RingK::zero());
        j = j + 1;
    }
    let mut i: usize = 0;
    while i < ce.len()
        invariant
            i <= ce@.len(),
            ce@.len() > 0,
            rhos@.len() == ce@.len(),
            kappa == ce@[0].c@.len(),
            t == ce@[0].y@.len(),
            forall|i2: int|
                0 <= i2 < ce@.len() ==> (#[trigger] ce@[i2]).c@.len() == ce@[0].c@.len() && ce@[i2].y@.len() == ce@[0].y@.len(),
            cs == Seq::new(ce@.len(), |i2: int| ce@[i2]@.0),
            ys == Seq::new(ce@.len(), |i2: int| ce@[i2]@.2),
            rv == ring_seq(rhos@),
            c_out@ == rlc_commit(cs, rv, kappa as nat, i as int),
            c_out@.len() == kappa,
            y_out@.len() == t,
            forall|j2: int| 0 <= j2 < t ==> (#[trigger] y_out@[j2])@ == rlc_claim(ys, rv, j2, i as int),
        decreases ce@.len() - i,
    {
        let inst = &ce[i];
        let rho = &rhos[i];
        c_out = c_out.add(&inst.c.scale_ring(rho));
        let mut j: usize = 0;
        while j < t
            invariant
                j <= t,
                i < ce@.len(),
                t == ce@[0].y@.len(),
                inst.y@.len() == t,
                inst == &ce@[i as int],
                rho == &rhos@[i as int],
                rhos@.len() == ce@.len(),
                ys == Seq::new(ce@.len(), |i2: int| ce@[i2]@.2),
                rv == ring_seq(rhos@),
                y_out@.len() == t,
                forall|j2: int| 0 <= j2 < j ==> (#[trigger] y_out@[j2])@ == rlc_claim(ys, rv, j2, i + 1),
                forall|j2: int| j <= j2 < t ==> (#[trigger] y_out@[j2])@ == rlc_claim(ys, rv, j2, i as int),
            decreases t - j,
        {
            let next = y_out[j].add(&inst.y[j].mul_rf(rho));
            proof {
                assert(ys[i as int][j as int] == inst.y@[j as int]@);
                assert(rv[i as int] == rho@);
            }
            y_out.set(j, next);
            j = j + 1;
        }
        i = i + 1;
    }
    proof {
        assert(rk_views(y_out@) =~= rlc_output(ce@, rv).2);
    }
    (c_out, y_out)
}

/// Π_RLC prover: the combined instance, its witness `sum rho_i z_i`, and the challenges.
pub fn pi_rlc_prove(
    tr: &mut Transcript,
    gp: &GlobalParams,
    ce: &[CeInstance],
    ce_wit: &[CeWitness],
) -> (res: (CeInstance, CeWitness, PiRlcProof))
    requires
        rlc_inputs_ok(*gp, ce@),
        ce_wit@.len() > 0,
        forall|i: int| 0 <= i < ce_wit@.len() ==> (#[trigger] ce_wit@[i]).z_ring@.len() == ce_wit@[0].z_ring@.len(),
    ensures
        ({
            let rhos = rlc_rhos(rlc_bound(old(tr)@, ce@), ce@.len(), 2);
            let n = if ce_wit@.len() < ce@.len() { ce_wit@.len() } else { ce@.len() };
            &&& ring_seq(res.2.rhos@) == rhos
            &&& res.0@ == rlc_output(ce@, rhos)
            &&& ring_seq(res.1.z_ring@) == rlc_witness(
                Seq::new(ce_wit@.len(), |i: int| ring_seq(ce_wit@[i].z_ring@)),
                rhos,
                ce_wit@[0].z_ring@.len(),
                n as int,
            )
            &&& final(tr)@ == after_squeeze(rlc_bound(old(tr)@, ce@))
        }),
{
    let rhos = absorb_and_sample(tr, gp, ce);
    let (c_out, y_out) = combine_public(ce, rhos.as_slice());
    let n_r = ce_wit[0].z_ring.len();
    let n = if ce_wit.len() < rhos.len() {
        ce_wit.len()
    } else {
        rhos.len()
    };
    let ghost zs = Seq::new(ce_wit@.len(), |i: int| ring_seq(ce_wit@[i].z_ring@));
    let ghost rv = ring_seq(rhos@);
    let mut z_out: Vec<RingElem> = Vec::new();
    let mut c: usize = 0;
    while c < n_r
        invariant
            c <= n_r,
            z_out@.len() == c,
            forall|c2: int| 0 <= c2 < c ==> (#[trigger] z_out@[c2])@ == ring_zero(),
        decreases n_r - c,
    {
        z_out.push(RingElem::zero());
        c = c + 1;
    }
    assert(ring_seq(z_out@) =~= rlc_witness(zs, rv, n_r as nat, 0));
    let mut i: usize = 0;
    while i < n
        invariant
            i <= n,
            n <= ce_wit@.len(),
            n <= rhos@.len(),
            n_r == ce_wit@[0].z_ring@.len(),
            forall|i2: int| 0 <= i2 < ce_wit@.len() ==> (#[trigger] ce_wit@[i2]).z_ring@.len() == ce_wit@[0].z_ring@.len(),
            zs == Seq::new(ce_wit@.len(), |i2: int| ring_seq(ce_wit@[i2].z_ring@)),
            rv == ring_seq(rhos@),
            z_out@.len() == n_r,
            ring_seq(z_out@) == rlc_witness(zs, rv, n_r as nat, i as int),
        decreases n - i,
    {
        let w = &ce_wit[i];
        let rho = rhos[i];
        let ghost prev = ring_seq(z_out@);
        let mut col: usize = 0;
        while col < n_r
            invariant
                col <= n_r,
                i < n,
                n <= ce_wit@.len(),
                n <= rhos@.len(),
                w == &ce_wit@[i as int],
                w.z_ring@.len() == n_r,
                rho == rhos@[i as int],
                zs == Seq::new(ce_wit@.len(), |i2: int| ring_seq(ce_wit@[i2].z_ring@)),
                rv == ring_seq(rhos@),
                z_out@.len() == n_r,
                prev == rlc_witness(zs, rv, n_r as nat, i as int),
                forall|c2: int| 0 <= c2 < col ==> (#[trigger] z_out@[c2])@ == rlc_witness(zs, rv, n_r as nat, i + 1)[c2],
                forall|c2: int| col <= c2 < n_r ==> (#[trigger] z_out@[c2])@ == prev[c2],
            decreases n_r - col,
        {
            let next = z_out[col] + w.z_ring[col] * rho;
            z_out.set(col, next);
            col = col + 1;
        }
        assert(ring_seq(z_out@) =~= rlc_witness(zs, rv, n_r as nat, i + 1));
        i = i + 1;
    }
    let inst = CeInstance { c: c_out, r: vstd::slice::slice_to_vec(ce[0].r.as_slice()), y: y_out };
    (inst, CeWitness { z_ring: z_out }, PiRlcProof { rhos })
}

/// Whether two challenge lists are equal, decided on residues.
fn rhos_equal(a: &[RingElem], b: &[RingElem]) -> (r: bool)
    ensures
        r == (ring_seq(a@) == ring_seq(b@)),
{
    if a.len() != b.len() {
        assert(ring_seq(a@).len() != ring_seq(b@).len());
        return false;
    }
    let mut i: usize = 0;
    while i < a.len()
        invariant
            i <= a@.len(),
            a@.len() == b@.len(),
            forall|i2: int| 0 <= i2 < i ==> a@[i2]@ == b@[i2]@,
        decreases a@.len() - i,
    {
        if !a[i].equals(&b[i]) {
            assert(ring_seq(a@)[i as int] != ring_seq(b@)[i as int]);
            return false;
        }
        i = i + 1;
    }
    assert(ring_seq(a@) =~= ring_seq(b@));
    true
}

/// Π_RLC verifier: recomputes the challenges and the combination from the public
/// instances; rejects with `Reduction` when the proof carries other challenges.
pub fn pi_rlc_verify(
    tr: &mut Transcript,
    gp: &GlobalParams,
    ce: &[CeInstance],
    proof: &PiRlcProof,
) -> (res: Result<CeInstance, FoldError>)
    requires
        rlc_inputs_ok(*gp, ce@),
    ensures
        ({
            let rhos = rlc_rhos(rlc_bound(old(tr)@, ce@), ce@.len(), 2);
            &&& res is Ok <==> ring_seq(proof.rhos@) == rhos
            &&& res matches Err(e) ==> e is Reduction
            &&& res matches Ok(out) ==> out@ == rlc_output(ce@, rhos)
            &&& final(tr)@ == after_squeeze(rlc_bound(old(tr)@, ce@))
        }),
{
    let rhos = absorb_and_sample(tr, gp, ce);
    if !rhos_equal(rhos.as_slice(), proof.rhos.as_slice()) {
        return Err(FoldError::Reduction("Π_RLC challenge mismatch".to_owned()));
    }
    let (c_out, y_out) = combine_public(ce, rhos.as_slice());
    Ok(CeInstance { c: c_out, r: vstd::slice::slice_to_vec(ce[0].r.as_slice()), y: y_out })
}

/// The combined witness, one step at a time: the previous sum plus `z rho`.
proof fn lemma_rlc_witness_step(zs: Seq<Seq<Seq<nat>>>, rhos: Seq<Seq<nat>>, n_r: nat, n: int)
    requires
        0 < n <= zs.len(),
        zs[n - 1].len() == n_r,
    ensures
        rlc_witness(zs, rhos, n_r, n) == ring_vec_add(
            rlc_witness(zs, rhos, n_r, n - 1),
            ring_vec_mul(zs[n - 1], rhos[n - 1]),
        ),
{
    assert(rlc_witness(zs, rhos, n_r, n) =~= ring_vec_add(
        rlc_witness(zs, rhos, n_r, n - 1),
        ring_vec_mul(zs[n - 1], rhos[n - 1]),
    ));
}

/// The combined commitment of the first `n` inputs commits to their combined witness.
proof fn lemma_rlc_commit_partial(
    pp: PublicParams,
    cs: Seq<Seq<Seq<nat>>>,
    zs: Seq<Seq<Seq<nat>>>,
    rhos: Seq<Seq<nat>>,
    n: int,
)
    requires
        pp.wf(),
        0 <= n <= zs.len(),
        forall|i: int| 0 <= i < n ==> (#[trigger] zs[i]).len() == pp.n_cols && cs[i] == pp.commit_spec(zs[i]),
        forall|i: int, j: int| 0 <= i < n && 0 <= j < pp.n_cols ==> ring_wf(#[trigger] zs[i][j]),
        forall|i: int| 0 <= i < n ==> ring_wf(#[trigger] rhos[i]),
    ensures
        rlc_commit(cs, rhos, pp.kappa as nat, n) == pp.commit_spec(rlc_witness(zs, rhos, pp.n_cols as nat, n)),
    decreases n,
{
    let w = rlc_witness(zs, rhos, pp.n_cols as nat, n);
    if n == 0 {
        law_commit_homomorphism(pp, w, w, 0);
        assert(ring_scale(ring_zero(), 0) =~= ring_zero());
        assert(ring_vec_scale(w, 0) =~= w);
        assert(commit_scale_fp(pp.commit_spec(w), 0) =~= Seq::new(pp.kappa as nat, |i: int| ring_zero())) by {
            assert forall|i: int| 0 <= i < pp.kappa implies #[trigger] ring_scale(pp.commit_spec(w)[i], 0) == ring_zero() by {
                assert(ring_scale(pp.commit_spec(w)[i], 0) =~= ring_zero());
            }
        }
    } else {
        lemma_rlc_commit_partial(pp, cs, zs, rhos, n - 1);
        let z = zs[n - 1];
        let rho = rhos[n - 1];
        assert(z.len() == pp.n_cols && cs[n - 1] == pp.commit_spec(z));
        lemma_rlc_witness_step(zs, rhos, pp.n_cols as nat, n);
        assert forall|j: int| 0 <= j < z.len() implies ring_wf(#[trigger] z[j]) by {
            assert(ring_wf(zs[n - 1][j]));
        }
        assert(ring_wf(rhos[n - 1]));
        law_commit_ring_homomorphism(pp, z, rho);
        law_commit_homomorphism(pp, rlc_witness(zs, rhos, pp.n_cols as nat, n - 1), ring_vec_mul(z, rho), 0);
    }
}

/// The combined claim `j` of the first `n` inputs is the claim of their combined witness.
proof fn lemma_rlc_claim_partial(
    mat: Seq<Seq<nat>>,
    ys: Seq<Seq<Seq<E2>>>,
    zs: Seq<Seq<Seq<nat>>>,
    rhos: Seq<Seq<nat>>,
    n_r: nat,
    j: int,
    point: Seq<E2>,
    n: int,
)
    requires
        0 <= n <= zs.len(),
        forall|r: int| 0 <= r < mat.len() ==> #[trigger] mat[r].len() >= 54 * n_r,
        forall|r: int, c: int| 0 <= r < mat.len() && 0 <= c < mat[r].len() ==> #[trigger] mat[r][c] < crate::Q,
        forall|i: int| 0 <= i < n ==> (#[trigger] zs[i]).len() == n_r && ys[i][j] == eval_claim(mat, zs[i], point),
        forall|i: int, c: int| 0 <= i < n && 0 <= c < n_r ==> ring_wf(#[trigger] zs[i][c]),
        forall|i: int| 0 <= i < n ==> ring_wf(#[trigger] rhos[i]),
        forall|v: int| 0 <= v < point.len() ==> e2_canon(#[trigger] point[v]),
    ensures
        rlc_claim(ys, rhos, j, n) == eval_claim(mat, rlc_witness(zs, rhos, n_r, n), point),
    decreases n,
{
    let w = rlc_witness(zs, rhos, n_r, n);
    if n == 0 {
        lemma_eval_claim_linear(mat, w, w, 0, point);
        assert(ring_scale(ring_zero(), 0) =~= ring_zero());
        assert(ring_vec_scale(w, 0) =~= w);
        let y = eval_claim(mat, w, point);
        assert forall|l: int| 0 <= l < 54 implies #[trigger] rk_scale_fp(y, 0)[l] == rk_zero()[l] by {
            assert(y[l].0 * 0nat + 7 * (y[l].1 * 0nat) == 0) by (nonlinear_arith);
            assert(y[l].0 * 0nat + y[l].1 * 0nat == 0) by (nonlinear_arith);
        }
        assert(rk_scale_fp(y, 0) =~= rk_zero());
    } else {
        lemma_rlc_claim_partial(mat, ys, zs, rhos, n_r, j, point, n - 1);
        let z = zs[n - 1];
        let rho = rhos[n - 1];
        assert(z.len() == n_r && ys[n - 1][j] == eval_claim(mat, z, point));
        lemma_rlc_witness_step(zs, rhos, n_r, n);
        assert forall|c: int| 0 <= c < z.len() implies ring_wf(#[trigger] z[c]) by {
            assert(ring_wf(zs[n - 1][c]));
        }
        assert(ring_wf(rhos[n - 1]));
        assert forall|r: int| 0 <= r < mat.len() implies #[trigger] mat[r].len() >= 54 * z.len() by {}
        lemma_eval_claim_mul(mat, z, rho, point);
        lemma_eval_claim_linear(mat, rlc_witness(zs, rhos, n_r, n - 1), ring_vec_mul(z, rho), 0, point);
    }
}

/// Completeness of Π_RLC: when every input instance holds for its witness (commitment
/// and every claim, all at one point), the combined instance holds for the combined
/// witness `sum rho_i z_i`, whatever the challenges `rho_i` are.
pub proof fn law_pi_rlc_complete(
    pp: PublicParams,
    s: CcsStructure,
    ce: Seq<CeInstance>,
    zs: Seq<Seq<Seq<nat>>>,
    rhos: Seq<Seq<nat>>,
)
    requires
        pp.wf(),
        s.wf(),
        s.m >= 54 * pp.n_cols,
        ce.len() > 0,
        zs.len() == ce.len(),
        rhos.len() == ce.len(),
        forall|i: int| 0 <= i < ce.len() ==> ring_wf(#[trigger] rhos[i]),
        forall|i: int| 0 <= i < ce.len() ==> (#[trigger] zs[i]).len() == pp.n_cols,
        forall|i: int, j: int| 0 <= i < ce.len() && 0 <= j < pp.n_cols ==> ring_wf(#[trigger] zs[i][j]),
        forall|i: int| 0 <= i < ce.len() ==> (#[trigger] ce[i]).c@ == pp.commit_spec(zs[i]),
        forall|i: int| 0 <= i < ce.len() ==> e2_seq((#[trigger] ce[i]).r@) == e2_seq(ce[0].r@),
        forall|i: int| 0 <= i < ce.len() ==> (#[trigger] ce[i]).y@.len() == s.matrices@.len(),
        forall|i: int, j: int|
            0 <= i < ce.len() && 0 <= j < s.matrices@.len() ==> (#[trigger] ce[i].y@[j])@ == eval_claim(
                s.mat(j),
                zs[i],
                e2_seq(ce[i].r@),
            ),
    ensures
        ({
            let out = rlc_output(ce, rhos);
            let w = rlc_witness(zs, rhos, pp.n_cols as nat, ce.len() as int);
            &&& out.0 == pp.commit_spec(w)
            &&& out.2.len() == s.matrices@.len()
            &&& forall|j: int| 0 <= j < s.matrices@.len() ==> #[trigger] out.2[j] == eval_claim(s.mat(j), w, out.1)
        }),
{
    let n = ce.len() as int;
    let cs = Seq::new(ce.len(), |i: int| ce[i]@.0);
    let ys = Seq::new(ce.len(), |i: int| ce[i]@.2);
    let point = e2_seq(ce[0].r@);
    assert(ce[0].c@ == pp.commit_spec(zs[0]));
    lemma_rlc_commit_partial(pp, cs, zs, rhos, n);
    assert forall|v: int| 0 <= v < point.len() implies e2_canon(#[trigger] point[v]) by {
        lemma_fp_lt_q(ce[0].r@[v].c0);
        lemma_fp_lt_q(ce[0].r@[v].c1);
    }
    assert(ce[0].y@.len() == s.matrices@.len());
    assert forall|j: int| 0 <= j < s.matrices@.len() implies #[trigger] rlc_output(ce, rhos).2[j] == eval_claim(
        s.mat(j),
        rlc_witness(zs, rhos, pp.n_cols as nat, n),
        point,
    ) by {
        let mat = s.mat(j);
        assert forall|r: int| 0 <= r < mat.len() implies #[trigger] mat[r].len() >= 54 * pp.n_cols by {
            assert(s.matrices@[j]@[r]@.len() == s.m);
        }
        assert forall|r: int, c: int| 0 <= r < mat.len() && 0 <= c < mat[r].len() implies #[trigger] mat[r][c]
            < crate::Q by {
            lemma_fp_lt_q(s.matrices@[j]@[r]@[c]);
        }
        assert forall|i: int| 0 <= i < n implies (#[trigger] zs[i]).len() == pp.n_cols && ys[i][j] == eval_claim(
            mat,
            zs[i],
            point,
        ) by {
            assert(e2_seq(ce[i].r@) == e2_seq(ce[0].r@));
            assert((ce[i].y@[j])@ == eval_claim(mat, zs[i], point));
        }
        lemma_rlc_claim_partial(mat, ys, zs, rhos, pp.n_cols as nat, j, point, n);
    }
}

/// The combined witness stays small when the inputs and the challenges are: each
/// product `z_i rho_i` adds at most `108 mz mr` to a coefficient.
pub proof fn lemma_rlc_witness_norm(
    zs: Seq<Seq<Seq<nat>>>,
    rhos: Seq<Seq<nat>>,
    n_r: nat,
    n: int,
    mz: nat,
    mr: nat,
)
    requires
        0 <= n <= zs.len(),
        n <= rhos.len(),
        forall|i: int| 0 <= i < n ==> (#[trigger] zs[i]).len() == n_r,
        forall|i: int, c: int| 0 <= i < n && 0 <= c < n_r ==> ring_wf(#[trigger] zs[i][c]),
        forall|i: int, c: int, l: int|
            0 <= i < n && 0 <= c < n_r && 0 <= l < 54 ==> abs_balanced_of(#[trigger] zs[i][c][l]) <= mz,
        forall|i: int| 0 <= i < n ==> ring_wf(#[trigger] rhos[i]),
        forall|i: int, l: int| 0 <= i < n && 0 <= l < 54 ==> abs_balanced_of(#[trigger] rhos[i][l]) <= mr,
        n * (108 * (mz * mr)) <= crate::Q / 2,
    ensures
        rlc_witness(zs, rhos, n_r, n).len() == n_r,
        forall|c: int| 0 <= c < n_r ==> ring_wf(#[trigger] rlc_witness(zs, rhos, n_r, n)[c]),
        forall|c: int, l: int|
            0 <= c < n_r && 0 <= l < 54 ==> abs_balanced_of(#[trigger] rlc_witness(zs, rhos, n_r, n)[c][l]) <= n * (108
                * (mz * mr)),
    decreases n,
{
    let m = 108 * (mz * mr);
    let w = rlc_witness(zs, rhos, n_r, n);
    if n == 0 {
        assert forall|c: int, l: int| 0 <= c < n_r && 0 <= l < 54 implies abs_balanced_of(#[trigger] w[c][l]) <= n * m by {
            assert(w[c][l] == 0);
            assert(n * m == 0) by (nonlinear_arith)
                requires
                    n == 0,
            ;
        }
    } else {
        assert(0 <= m) by (nonlinear_arith);
        assert((n - 1) * m + m == n * m) by (nonlinear_arith);
        lemma_rlc_witness_norm(zs, rhos, n_r, n - 1, mz, mr);
        let prev = rlc_witness(zs, rhos, n_r, n - 1);
        let rho = rhos[n - 1];
        assert(ring_wf(rho));
        assert forall|c: int| 0 <= c < n_r implies ring_wf(#[trigger] w[c]) && forall|l: int|
            0 <= l < 54 ==> abs_balanced_of(#[trigger] w[c][l]) <= n * m by {
            let z = zs[n - 1][c];
            assert(ring_wf(zs[n - 1][c]));
            assert forall|l: int| 0 <= l < 54 implies abs_balanced_of(#[trigger] z[l]) <= mz by {
                assert(abs_balanced_of(zs[n - 1][c][l]) <= mz);
            }
            assert forall|l: int| 0 <= l < 54 implies abs_balanced_of(#[trigger] rho[l]) <= mr by {
                assert(abs_balanced_of(rhos[n - 1][l]) <= mr);
            }
            crate::norm::lemma_ring_mul_norm(z, rho, mz, mr);
            crate::ring::lemma_ring_ops_wf(prev[c], ring_mul(z, rho), 0);
            assert forall|l: int| 0 <= l < 54 implies abs_balanced_of(#[trigger] w[c][l]) <= n * m by {
                assert(w[c][l] == crate::fp::fadd(prev[c][l], ring_mul(z, rho)[l]));
                assert(abs_balanced_of(prev[c][l]) <= (n - 1) * m);
                crate::norm::lemma_fadd_norm(prev[c][l], ring_mul(z, rho)[l], ((n - 1) * m) as nat, m);
            }
        }
    }
}

} // verus!
