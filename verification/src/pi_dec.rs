//! Π_DEC: the decomposition reduction `CE(B) -> CE(b)^k`.
//!
//! Split the high-norm witness `z` (with `|z| < B = b^k`) into `k` low-norm pieces
//! `z = sum b^(i-1) z_i`, `|z_i| < b`. The verifier checks the two additivity relations
//! `c = sum b^(i-1) c_i` and `y_j = sum b^(i-1) y_{i,j}`.

use vstd::arithmetic::div_mod::lemma_fundamental_div_mod;
use vstd::arithmetic::power::*;
use vstd::prelude::*;

use crate::commit::{commit_add, commit_scale_fp, Commitment};
use crate::decomp::{horner, lemma_split_recompose, split_b, split_digit};
use crate::error::{FoldError, RingError};
use crate::ext2::{e2_canon, e2_seq, E2};
use crate::fp::{abs_balanced_of, fmod, fmul, fp_seq, lemma_fmod_add, lemma_fmod_mul, lemma_fmod_small, lemma_fp_lt_q, Fp};
use crate::Q;
use crate::maps::embed_spec;
use crate::pi_ccs::{absorb_ringk_vec, absorb_rows};
use crate::pp::{law_commit_homomorphism, PublicParams};
use crate::ring::{lemma_ring_wf, ring_add, ring_scale, ring_seq, ring_vec_add, ring_vec_scale, ring_wf, ring_zero, RingElem};
use crate::ring_k::{lemma_rk_wf, rk_add, rk_scale_fp, rk_zero, RingK};
use crate::transcript::{absorb_rings, Transcript, TrView};
use crate::types::{
    compute_evals, embed_witness, eval_claim, flatten_ring, lemma_eval_claim_linear, rk_views, CcsStructure, CeInstance,
    CeWitness, GlobalParams, PiDecProof,
};

verus! {

broadcast use {lemma_fp_lt_q, lemma_ring_wf, lemma_rk_wf};

/// The ASCII bytes of "pidec/c".
pub open spec fn pidec_c_tag() -> Seq<u8> {
    seq![112u8, 105, 100, 101, 99, 47, 99]
}

/// The ASCII bytes of "pidec/y".
pub open spec fn pidec_y_tag() -> Seq<u8> {
    seq![112u8, 105, 100, 101, 99, 47, 121]
}

/// The transcript after absorbing the child commitments, one after the other.
pub open spec fn absorb_commitments(t: TrView, label: Seq<u8>, cs: Seq<Commitment>) -> TrView
    decreases cs.len(),
{
    if cs.len() == 0 {
        t
    } else {
        absorb_rings(absorb_commitments(t, label, cs.drop_last()), label, cs.last()@)
    }
}

/// The transcript after absorbing a Π_DEC proof: commitments, then claims.
pub open spec fn dec_absorbed(t: TrView, proof: PiDecProof) -> TrView {
    absorb_rows(absorb_commitments(t, pidec_c_tag(), proof.child_commitments@), pidec_y_tag(), proof.child_evals@)
}

/// Digit `i` (base `b`) of every coefficient of a ring vector: the `i`-th child witness.
pub open spec fn dec_child(zr: Seq<Seq<nat>>, b: nat, i: nat) -> Seq<Seq<nat>> {
    Seq::new(zr.len(), |col: int| Seq::new(54, |l: int| split_digit(zr[col][l], b, i)))
}

/// Every coefficient of `zr` has balanced magnitude below `bound`.
pub open spec fn dec_norm_ok(zr: Seq<Seq<nat>>, bound: int) -> bool {
    forall|col: int, l: int| 0 <= col < zr.len() && 0 <= l < 54 ==> (abs_balanced_of(#[trigger] zr[col][l]) as int) < bound
}

/// `b^i` in `F`, as the running product `1, b, b^2, ...`.
pub open spec fn dec_weight(b: nat, i: nat) -> nat
    decreases i,
{
    if i == 0 {
        1
    } else {
        fmul(dec_weight(b, (i - 1) as nat), fmod(b as int))
    }
}

/// `sum_{i<n} b^i c_i`, starting from the zero commitment of rank `kappa`.
pub open spec fn dec_commit(cs: Seq<Seq<Seq<nat>>>, b: nat, kappa: nat, n: int) -> Seq<Seq<nat>>
    decreases n,
{
    if n <= 0 {
        Seq::new(kappa, |i: int| ring_zero())
    } else {
        commit_add(dec_commit(cs, b, kappa, n - 1), commit_scale_fp(cs[n - 1], dec_weight(b, (n - 1) as nat)))
    }
}

/// `sum_{i<n} b^i y_{i,j}`.
pub open spec fn dec_claim(ys: Seq<Seq<Seq<E2>>>, b: nat, j: int, n: int) -> Seq<E2>
    decreases n,
{
    if n <= 0 {
        rk_zero()
    } else {
        rk_add(dec_claim(ys, b, j, n - 1), rk_scale_fp(ys[n - 1][j], dec_weight(b, (n - 1) as nat)))
    }
}

/// Absorb the child commitments and claims of a Π_DEC proof.
fn absorb_children(tr: &mut Transcript, proof: &PiDecProof)
    ensures
        final(tr)@ == dec_absorbed(old(tr)@, *proof),
{
    let c_lbl: [u8; 7] = [112u8, 105, 100, 101, 99, 47, 99];
    let y_lbl: [u8; 7] = [112u8, 105, 100, 101, 99, 47, 121];
    assert(c_lbl@ =~= pidec_c_tag());
    assert(y_lbl@ =~= pidec_y_tag());
    let ghost cs = proof.child_commitments@;
    let mut i: usize = 0;
    while i < proof.child_commitments.len()
        invariant
            i <= cs.len(),
            cs == proof.child_commitments@,
            c_lbl@ == pidec_c_tag(),
            tr@ == absorb_commitments(old(tr)@, pidec_c_tag(), cs.take(i as int)),
        decreases cs.len() - i,
    {
        tr.absorb_commitment(c_lbl.as_slice(), &proof.child_commitments[i]);
        proof {
            assert(cs.take(i + 1).drop_last() =~= cs.take(i as int));
        }
        i = i + 1;
    }
    assert(cs.take(cs.len() as int) =~= cs);
    let ghost t1 = tr@;
    let ghost rows = proof.child_evals@;
    let mut i: usize = 0;
    while i < proof.child_evals.len()
        invariant
            i <= rows.len(),
            rows == proof.child_evals@,
            y_lbl@ == pidec_y_tag(),
            tr@ == absorb_rows(t1, pidec_y_tag(), rows.take(i as int)),
        decreases rows.len() - i,
    {
        absorb_ringk_vec(tr, y_lbl.as_slice(), proof.child_evals[i].as_slice());
        proof {
            assert(rows.take(i + 1).drop_last() =~= rows.take(i as int));
        }
        i = i + 1;
    }
    assert(rows.take(rows.len() as int) =~= rows);
}

/// Π_DEC prover.
///
/// Fails with `Reduction` when a coefficient of the witness does not fit in `k` base-`b`
/// digits (`|z| >= B`), or when the commitment key does not have one column per witness
/// element. Otherwise child `i` is digit `i` of every coefficient, committed and
/// evaluated at the parent's point.
pub fn pi_dec_prove(
    tr: &mut Transcript,
    gp: &GlobalParams,
    pp: &PublicParams,
    s: &CcsStructure,
    ce: &CeInstance,
    ce_wit: &CeWitness,
) -> (res: Result<(Vec<CeInstance>, Vec<CeWitness>, PiDecProof), FoldError>)
    requires
        gp.wf(),
        pp.wf(),
        s.wf(),
        s.m == gp.m,
        ce.r@.len() == gp.log_m,
        ce_wit.z_ring@.len() == gp.n_r,
    ensures
        res is Ok <==> dec_norm_ok(ring_seq(ce_wit.z_ring@), gp.cap_b as int) && pp.n_cols == gp.n_r,
        res matches Err(e) ==> e is Reduction,
        res matches Ok((out, wits, proof)) ==> {
            let zr = ring_seq(ce_wit.z_ring@);
            &&& out@.len() == gp.k
            &&& wits@.len() == gp.k
            &&& proof.child_commitments@.len() == gp.k
            &&& proof.child_evals@.len() == gp.k
            &&& forall|i: int|
                0 <= i < gp.k ==> ring_seq((#[trigger] wits@[i]).z_ring@) == dec_child(zr, gp.b as nat, i as nat)
            &&& forall|i: int|
                0 <= i < gp.k ==> (#[trigger] proof.child_commitments@[i])@ == pp.commit_spec(
                    dec_child(zr, gp.b as nat, i as nat),
                )
            &&& forall|i: int| 0 <= i < gp.k ==> (#[trigger] proof.child_evals@[i])@.len() == s.matrices@.len()
            &&& forall|i: int, j: int|
                0 <= i < gp.k && 0 <= j < s.matrices@.len() ==> (#[trigger] proof.child_evals@[i]@[j])@ == eval_claim(
                    s.mat(j),
                    dec_child(zr, gp.b as nat, i as nat),
                    e2_seq(ce.r@),
                )
            &&& forall|i: int|
                0 <= i < gp.k ==> (#[trigger] out@[i])@ == (
                    proof.child_commitments@[i]@,
                    e2_seq(ce.r@),
                    rk_views(proof.child_evals@[i]@),
                )
            &&& final(tr)@ == dec_absorbed(old(tr)@, proof)
        },
{
    let flat = flatten_ring(ce_wit.z_ring.as_slice());
    let ghost zr = ring_seq(ce_wit.z_ring@);
    let ghost fl = fp_seq(flat@);
    proof {
        // The flattened coefficients are exactly the ring coefficients.
        assert forall|c: int| 0 <= c < flat@.len() implies fl[c] == zr[c / 54][c % 54] by {
            lemma_fundamental_div_mod(c, 54);
            assert(flat@[(c / 54) * 54 + c % 54]@ == ce_wit.z_ring@[c / 54]@[c % 54]);
        }
    }
    let parts = match split_b(flat.as_slice(), gp.b, gp.k) {
        Ok(p) => p,
        Err(e) => {
            let (got, bound) = match e {
                RingError::NormBound { got, bound } => (got, bound),
                RingError::Misaligned(_) => (0, 0),
            };
            proof {
                let c = choose|c: int|
                    0 <= c < flat@.len() && (abs_balanced_of(#[trigger] flat@[c]@) as int) >= pow(gp.b as int, gp.k as nat);
                assert(0 <= c < flat@.len() && (abs_balanced_of(flat@[c]@) as int) >= pow(gp.b as int, gp.k as nat));
                lemma_fundamental_div_mod(c, 54);
                let col = c / 54;
                let l = c % 54;
                assert(0 <= l < 54);
                assert(0 <= col < zr.len()) by (nonlinear_arith)
                    requires 0 <= c < zr.len() * 54, col == c / 54;
                assert(fl[c] == zr[col][l]);
                assert((abs_balanced_of(zr[col][l]) as int) >= gp.cap_b);
                assert(!dec_norm_ok(zr, gp.cap_b as int));
            }
            return Err(FoldError::Reduction(crate::error::msg_dec_split(got, bound)));
        },
    };
    proof {
        assert forall|col: int, l: int| 0 <= col < zr.len() && 0 <= l < 54 implies (abs_balanced_of(#[trigger] zr[col][l]) as int) < gp.cap_b by {
            assert(col * 54 + l < flat@.len()) by (nonlinear_arith)
                requires 0 <= col < zr.len(), 0 <= l < 54, flat@.len() == zr.len() * 54;
            assert(flat@[col * 54 + l]@ == ce_wit.z_ring@[col]@[l]);
        }
    }
    let ghost norm_ok = dec_norm_ok(zr, gp.cap_b as int);
    if pp.n_cols != ce_wit.z_ring.len() {
        return Err(FoldError::Reduction(crate::error::msg_dec_commit(ce_wit.z_ring.len(), pp.n_cols)));
    }
    let mut child_wit: Vec<CeWitness> = Vec::new();
    let mut child_commitments: Vec<Commitment> = Vec::new();
    let mut child_evals: Vec<Vec<RingK>> = Vec::new();
    let mut i: usize = 0;
    while i < parts.len()
        invariant
            i <= parts@.len(),
            parts@.len() == gp.k,
            gp.wf(),
            pp.wf(),
            s.wf(),
            s.m == gp.m,
            ce.r@.len() == gp.log_m,
            pp.n_cols == gp.n_r,
            zr == ring_seq(ce_wit.z_ring@),
            zr.len() == gp.n_r,
            flat@.len() == gp.n_r * 54,
            forall|i2: int| 0 <= i2 < gp.k ==> (#[trigger] parts@[i2])@.len() == flat@.len(),
            forall|i2: int, c: int|
                0 <= i2 < gp.k && 0 <= c < flat@.len() ==> (#[trigger] parts@[i2]@[c])@ == split_digit(
                    flat@[c]@,
                    gp.b as nat,
                    i2 as nat,
                ),
            forall|c: int| 0 <= c < flat@.len() ==> #[trigger] fp_seq(flat@)[c] == zr[c / 54][c % 54],
            child_wit@.len() == i,
            child_commitments@.len() == i,
            child_evals@.len() == i,
            forall|i2: int| 0 <= i2 < i ==> ring_seq((#[trigger] child_wit@[i2]).z_ring@) == dec_child(zr, gp.b as nat, i2 as nat),
            forall|i2: int| 0 <= i2 < i ==> (#[trigger] child_commitments@[i2])@ == pp.commit_spec(dec_child(zr, gp.b as nat, i2 as nat)),
            forall|i2: int| 0 <= i2 < i ==> (#[trigger] child_evals@[i2])@.len() == s.matrices@.len(),
            forall|i2: int, j: int|
                0 <= i2 < i && 0 <= j < s.matrices@.len() ==> (#[trigger] child_evals@[i2]@[j])@ == eval_claim(
                    s.mat(j),
                    dec_child(zr, gp.b as nat, i2 as nat),
                    e2_seq(ce.r@),
                ),
        decreases parts@.len() - i,
    {
        let part = &parts[i];
        let zrc = embed_witness(part.as_slice());
        proof {
            let dc = dec_child(zr, gp.b as nat, i as nat);
            assert forall|col: int| 0 <= col < zr.len() implies ring_seq(zrc@)[col] == dc[col] by {
                assert forall|l: int| 0 <= l < 54 implies ring_seq(zrc@)[col][l] == dc[col][l] by {
                    assert(ring_seq(zrc@)[col] == embed_spec(fp_seq(part@))[col]);
                    assert(col * 54 + l < flat@.len()) by (nonlinear_arith)
                        requires 0 <= col < zr.len(), 0 <= l < 54, flat@.len() == zr.len() * 54;
                    assert((col * 54 + l) / 54 == col && (col * 54 + l) % 54 == l) by (nonlinear_arith)
                        requires 0 <= l < 54;
                    assert(fp_seq(flat@)[col * 54 + l] == zr[col][l]);
                }
                assert(ring_seq(zrc@)[col] =~= dc[col]);
            }
            assert(ring_seq(zrc@) =~= dc);
        }
        let c = match pp.commit(zrc.as_slice()) {
            Ok(c) => c,
            Err(_) => {
                proof {
                    assert(false);
                }
                Commitment::zero(0)
            },
        };
        let y = compute_evals(s, zrc.as_slice(), ce.r.as_slice());
        child_commitments.push(c);
        child_evals.push(y);
        child_wit.push(CeWitness { z_ring: zrc });
        i = i + 1;
    }
    let proof = PiDecProof { child_commitments, child_evals };
    absorb_children(tr, &proof);
    let mut out: Vec<CeInstance> = Vec::new();
    let mut i: usize = 0;
    while i < gp.k
        invariant
            i <= gp.k,
            proof.child_commitments@.len() == gp.k,
            proof.child_evals@.len() == gp.k,
            out@.len() == i,
            forall|i2: int|
                0 <= i2 < i ==> (#[trigger] out@[i2])@ == (
                    proof.child_commitments@[i2]@,
                    e2_seq(ce.r@),
                    rk_views(proof.child_evals@[i2]@),
                ),
        decreases gp.k - i,
    {
        out.push(CeInstance {
            c: proof.child_commitments[i].duplicate(),
            r: vstd::slice::slice_to_vec(ce.r.as_slice()),
            y: vstd::slice::slice_to_vec(proof.child_evals[i].as_slice()),
        });
        i = i + 1;
    }
    Ok((out, child_wit, proof))
}

/// A Π_DEC proof has `k` children, each with one claim per parent claim.
pub open spec fn dec_shape_ok(proof: PiDecProof, k: nat, t: nat) -> bool {
    &&& proof.child_commitments@.len() == k
    &&& proof.child_evals@.len() == k
    &&& forall|i: int| 0 <= i < k ==> (#[trigger] proof.child_evals@[i])@.len() == t
}

/// The child commitments of a proof.
pub open spec fn dec_cs(proof: PiDecProof, k: nat) -> Seq<Seq<Seq<nat>>> {
    Seq::new(k, |i: int| proof.child_commitments@[i]@)
}

/// The child claims of a proof.
pub open spec fn dec_ys(proof: PiDecProof, k: nat) -> Seq<Seq<Seq<E2>>> {
    Seq::new(k, |i: int| rk_views(proof.child_evals@[i]@))
}

/// The children recompose the parent's commitment.
pub open spec fn dec_commit_ok(proof: PiDecProof, ce: CeInstance, b: nat, k: nat) -> bool {
    dec_commit(
        dec_cs(proof, k),
        b,
        ce.c@.len(),
        k as int,
    ) == ce.c@
}

/// The children recompose every parent claim.
pub open spec fn dec_claims_ok(proof: PiDecProof, ce: CeInstance, b: nat, k: nat) -> bool {
    forall|j: int|
        0 <= j < ce.y@.len() ==> #[trigger] dec_claim(dec_ys(proof, k), b, j, k as int) == ce.y@[j]@
}

/// Π_DEC verifier: checks `c = sum b^i c_i` and `y_j = sum b^i y_{i,j}`, then returns
/// the children as CE instances at the parent's point.
///
/// A proof without `k` children of `t` claims each is `Malformed`; a failed
/// recomposition is a `Reduction` error.
pub fn pi_dec_verify(
    tr: &mut Transcript,
    gp: &GlobalParams,
    ce: &CeInstance,
    proof: &PiDecProof,
) -> (res: Result<Vec<CeInstance>, FoldError>)
    requires
        gp.wf(),
        forall|i: int|
            0 <= i < proof.child_commitments@.len() ==> (#[trigger] proof.child_commitments@[i])@.len() == ce.c@.len(),
    ensures
        !dec_shape_ok(*proof, gp.k as nat, ce.y@.len()) ==> res matches Err(FoldError::Malformed(_)),
        dec_shape_ok(*proof, gp.k as nat, ce.y@.len()) ==> {
            &&& (res is Ok <==> dec_commit_ok(*proof, *ce, gp.b as nat, gp.k as nat) && dec_claims_ok(
                *proof,
                *ce,
                gp.b as nat,
                gp.k as nat,
            ))
            &&& (res matches Err(e) ==> e is Reduction)
            &&& final(tr)@ == dec_absorbed(old(tr)@, *proof)
        },
        res matches Ok(out) ==> out@.len() == gp.k && forall|i: int|
            0 <= i < gp.k ==> (#[trigger] out@[i])@ == (
                proof.child_commitments@[i]@,
                e2_seq(ce.r@),
                rk_views(proof.child_evals@[i]@),
            ),
{
    let t = ce.y.len();
    if proof.child_commitments.len() != gp.k || proof.child_evals.len() != gp.k {
        return Err(FoldError::Malformed(crate::error::msg_dec_children(gp.k)));
    }
    let mut i: usize = 0;
    while i < proof.child_evals.len()
        invariant
            i <= proof.child_evals@.len(),
            proof.child_evals@.len() == gp.k,
            t == ce.y@.len(),
            forall|i2: int| 0 <= i2 < i ==> (#[trigger] proof.child_evals@[i2])@.len() == t,
        decreases proof.child_evals@.len() - i,
    {
        if proof.child_evals[i].len() != t {
            assert(proof.child_evals@[i as int]@.len() != t);
            assert(t == ce.y@.len());
            assert(!dec_shape_ok(*proof, gp.k as nat, ce.y@.len()));
            return Err(FoldError::Malformed("Π_DEC child eval arity mismatch".to_owned()));
        }
        i = i + 1;
    }
    absorb_children(tr, proof);
    let ghost cs = dec_cs(*proof, gp.k as nat);
    let ghost ys = dec_ys(*proof, gp.k as nat);
    let kappa = ce.c.dim();
    let b_fp = Fp::new(gp.b);
    let mut c_check = Commitment::zero(kappa);
    let mut weight = Fp::one();
    let mut i: usize = 0;
    while i < gp.k
        invariant
            i <= gp.k,
            proof.child_commitments@.len() == gp.k,
            forall|i2: int|
                0 <= i2 < proof.child_commitments@.len() ==> (#[trigger] proof.child_commitments@[i2])@.len() == ce.c@.len(),
            kappa == ce.c@.len(),
            cs == dec_cs(*proof, gp.k as nat),
            b_fp@ == fmod(gp.b as int),
            weight@ == dec_weight(gp.b as nat, i as nat),
            c_check@ == dec_commit(cs, gp.b as nat, kappa as nat, i as int),
            c_check@.len() == kappa,
        decreases gp.k - i,
    {
        c_check = c_check.add(&proof.child_commitments[i].scale_fp(weight));
        weight = weight * b_fp;
        i = i + 1;
    }
    assert(dec_shape_ok(*proof, gp.k as nat, t as nat));
    if !c_check.equals(&ce.c) {
        return Err(FoldError::Reduction("Π_DEC commitment additivity c = Σ bⁱ⁻¹·cᵢ failed".to_owned()));
    }
    let mut j: usize = 0;
    while j < t
        invariant
            j <= t,
            t == ce.y@.len(),
            proof.child_evals@.len() == gp.k,
            forall|i2: int| 0 <= i2 < gp.k ==> (#[trigger] proof.child_evals@[i2])@.len() == t,
            ys == dec_ys(*proof, gp.k as nat),
            b_fp@ == fmod(gp.b as int),
            forall|j2: int| 0 <= j2 < j ==> #[trigger] dec_claim(ys, gp.b as nat, j2, gp.k as int) == ce.y@[j2]@,
            dec_shape_ok(*proof, gp.k as nat, t as nat),
            dec_commit_ok(*proof, *ce, gp.b as nat, gp.k as nat),
            tr@ == dec_absorbed(old(tr)@, *proof),
        decreases t - j,
    {
        let mut y_check = RingK::zero();
        let mut w = Fp::one();
        let mut i: usize = 0;
        while i < gp.k
            invariant
                i <= gp.k,
                j < t,
                proof.child_evals@.len() == gp.k,
                forall|i2: int| 0 <= i2 < gp.k ==> (#[trigger] proof.child_evals@[i2])@.len() == t,
                ys == dec_ys(*proof, gp.k as nat),
                b_fp@ == fmod(gp.b as int),
                w@ == dec_weight(gp.b as nat, i as nat),
                y_check@ == dec_claim(ys, gp.b as nat, j as int, i as int),
            decreases gp.k - i,
        {
            y_check = y_check.add(&proof.child_evals[i][j].scale_fp(w));
            w = w * b_fp;
            i = i + 1;
        }
        if !y_check.equals(&ce.y[j]) {
            assert(!dec_claims_ok(*proof, *ce, gp.b as nat, gp.k as nat));
            return Err(FoldError::Reduction(crate::error::msg_dec_eval(j)));
        }
        j = j + 1;
    }
    let mut out: Vec<CeInstance> = Vec::new();
    let mut i: usize = 0;
    while i < gp.k
        invariant
            i <= gp.k,
            proof.child_commitments@.len() == gp.k,
            proof.child_evals@.len() == gp.k,
            out@.len() == i,
            forall|i2: int|
                0 <= i2 < i ==> (#[trigger] out@[i2])@ == (
                    proof.child_commitments@[i2]@,
                    e2_seq(ce.r@),
                    rk_views(proof.child_evals@[i2]@),
                ),
        decreases gp.k - i,
    {
        out.push(CeInstance {
            c: proof.child_commitments[i].duplicate(),
            r: vstd::slice::slice_to_vec(ce.r.as_slice()),
            y: vstd::slice::slice_to_vec(proof.child_evals[i].as_slice()),
        });
        i = i + 1;
    }
    Ok(out)
}

/// `sum_{i<n} b^i z_i` over the first `n` digit children of `zr`, as a ring vector.
pub open spec fn dec_partial(zr: Seq<Seq<nat>>, b: nat, n: int) -> Seq<Seq<nat>>
    decreases n,
{
    if n <= 0 {
        ring_vec_scale(zr, 0)
    } else {
        ring_vec_add(
            dec_partial(zr, b, n - 1),
            ring_vec_scale(dec_child(zr, b, (n - 1) as nat), dec_weight(b, (n - 1) as nat)),
        )
    }
}

/// `sum_{i<n} b^i d_i` over the first `n` base-`b` digits of `x`, in the integers.
pub open spec fn digit_sum(x: nat, b: nat, n: int) -> int
    decreases n,
{
    if n <= 0 {
        0
    } else {
        digit_sum(x, b, n - 1) + pow(b as int, (n - 1) as nat) * split_digit(x, b, (n - 1) as nat)
    }
}

/// The running weight is `b^i` reduced into the field.
pub proof fn lemma_dec_weight(b: nat, i: nat)
    ensures
        dec_weight(b, i) == fmod(pow(b as int, i)),
        dec_weight(b, i) < Q,
    decreases i,
{
    reveal(pow);
    if i == 0 {
        lemma_fmod_small(1);
    } else {
        lemma_dec_weight(b, (i - 1) as nat);
        lemma_fmod_mul(pow(b as int, (i - 1) as nat), b as int);
        assert(pow(b as int, i) == b * pow(b as int, (i - 1) as nat));
        assert(pow(b as int, (i - 1) as nat) * (b as int) == (b as int) * pow(b as int, (i - 1) as nat)) by (nonlinear_arith);
    }
}

/// The commitment recomposed from the first `n` children is the commitment of their
/// weighted sum.
proof fn lemma_dec_commit_partial(pp: PublicParams, zr: Seq<Seq<nat>>, b: nat, k: nat, n: int)
    requires
        pp.wf(),
        zr.len() == pp.n_cols,
        0 <= n <= k,
    ensures
        dec_commit(Seq::new(k, |i: int| pp.commit_spec(dec_child(zr, b, i as nat))), b, pp.kappa as nat, n)
            == pp.commit_spec(dec_partial(zr, b, n)),
        dec_partial(zr, b, n).len() == zr.len(),
    decreases n,
{
    let cs = Seq::new(k, |i: int| pp.commit_spec(dec_child(zr, b, i as nat)));
    if n == 0 {
        law_commit_homomorphism(pp, zr, zr, 0);
        let c = pp.commit_spec(zr);
        assert forall|i: int| 0 <= i < pp.kappa implies #[trigger] commit_scale_fp(c, 0)[i] == ring_zero() by {
            assert(ring_scale(c[i], 0) =~= ring_zero());
        }
        assert(commit_scale_fp(c, 0) =~= Seq::new(pp.kappa as nat, |i: int| ring_zero()));
    } else {
        lemma_dec_commit_partial(pp, zr, b, k, n - 1);
        lemma_dec_weight(b, (n - 1) as nat);
        let child = dec_child(zr, b, (n - 1) as nat);
        let w = dec_weight(b, (n - 1) as nat);
        law_commit_homomorphism(pp, child, child, w);
        law_commit_homomorphism(pp, dec_partial(zr, b, n - 1), ring_vec_scale(child, w), 0);
        assert(cs[n - 1] == pp.commit_spec(child));
    }
}

/// Digit sums telescope against the Horner form of the same digits.
proof fn lemma_digit_sum_horner(x: nat, b: nat, k: nat, parts: Seq<Seq<nat>>, n: nat)
    requires
        n <= k,
        parts.len() == k,
        forall|i: int| 0 <= i < k ==> #[trigger] parts[i][0] == split_digit(x, b, i as nat),
    ensures
        digit_sum(x, b, n as int) + pow(b as int, n) * horner(parts, b, 0, n as int) == horner(parts, b, 0, 0),
    decreases n,
{
    reveal(pow);
    if n == 0 {
        assert(pow(b as int, 0) == 1);
    } else {
        let m = (n - 1) as nat;
        lemma_digit_sum_horner(x, b, k, parts, m);
        let p = pow(b as int, m);
        let p1 = pow(b as int, n);
        let d = split_digit(x, b, m) as int;
        let h = horner(parts, b, 0, m as int);
        let h1 = horner(parts, b, 0, n as int);
        assert(p1 == b * p);
        assert(h == d + b * h1);
        assert(p * d + p1 * h1 == p * h) by (nonlinear_arith)
            requires
                p1 == b * p,
                h == d + b * h1,
        ;
    }
}

/// Coefficient `(col, l)` of the weighted sum of the first `n` children.
proof fn lemma_dec_partial_coeff(zr: Seq<Seq<nat>>, b: nat, n: int, col: int, l: int)
    requires
        0 <= n,
        0 <= col < zr.len(),
        0 <= l < 54,
    ensures
        dec_partial(zr, b, n).len() == zr.len(),
        dec_partial(zr, b, n)[col][l] == fmod(digit_sum(zr[col][l], b, n)),
    decreases n,
{
    let x = zr[col][l];
    if n == 0 {
        assert(ring_vec_scale(zr, 0)[col][l] == fmul(zr[col][l], 0));
        assert(fmod(0) == 0);
    } else {
        lemma_dec_partial_coeff(zr, b, n - 1, col, l);
        lemma_dec_weight(b, (n - 1) as nat);
        let prev = digit_sum(x, b, n - 1);
        let p = pow(b as int, (n - 1) as nat);
        let d = split_digit(x, b, (n - 1) as nat);
        let w = dec_weight(b, (n - 1) as nat);
        let child = dec_child(zr, b, (n - 1) as nat);
        assert(child[col][l] == d);
        assert(ring_vec_scale(child, w)[col][l] == fmul(d, w));
        assert(dec_partial(zr, b, n)[col] == ring_add(dec_partial(zr, b, n - 1)[col], ring_vec_scale(child, w)[col]));
        lemma_fmod_mul(d as int, p);
        lemma_fmod_add(prev, d * p);
        assert(d * p == p * d) by (nonlinear_arith);
    }
}

/// For a witness whose coefficients fit in `k` base-`b` digits, the weighted sum of all
/// `k` children is the witness itself.
proof fn lemma_dec_partial_full(zr: Seq<Seq<nat>>, b: nat, k: nat)
    requires
        b >= 2,
        forall|col: int| 0 <= col < zr.len() ==> ring_wf(#[trigger] zr[col]),
        dec_norm_ok(zr, pow(b as int, k)),
    ensures
        dec_partial(zr, b, k as int) == zr,
{
    let full = dec_partial(zr, b, k as int);
    lemma_dec_partial_len(zr, b, k as int);
    assert forall|col: int| 0 <= col < zr.len() implies #[trigger] full[col] == zr[col] by {
        assert forall|l: int| 0 <= l < 54 implies #[trigger] full[col][l] == zr[col][l] by {
            let x = zr[col][l];
            let parts = Seq::new(k, |i: int| seq![split_digit(x, b, i as nat)]);
            lemma_dec_partial_coeff(zr, b, k as int, col, l);
            lemma_digit_sum_horner(x, b, k, parts, k);
            assert(horner(parts, b, 0, k as int) == 0);
            assert(abs_balanced_of(zr[col][l]) < pow(b as int, k));
            lemma_split_recompose(x, b, k, parts, 0);
        }
        assert(full[col] =~= zr[col]);
    }
    assert(full =~= zr);
}

/// The weighted sum of children has one ring element per witness entry.
proof fn lemma_dec_partial_len(zr: Seq<Seq<nat>>, b: nat, n: int)
    ensures
        dec_partial(zr, b, n).len() == zr.len(),
        forall|col: int| 0 <= col < zr.len() ==> (#[trigger] dec_partial(zr, b, n)[col]).len() == 54,
    decreases n,
{
    if n > 0 {
        lemma_dec_partial_len(zr, b, n - 1);
    }
}

/// The claim recomposed from the first `n` children is the claim of their weighted sum.
proof fn lemma_dec_claim_partial(
    mat: Seq<Seq<nat>>,
    zr: Seq<Seq<nat>>,
    b: nat,
    k: nat,
    ys: Seq<Seq<Seq<E2>>>,
    j: int,
    point: Seq<E2>,
    n: int,
)
    requires
        0 <= n <= k,
        ys.len() == k,
        forall|i: int| 0 <= i < k ==> (#[trigger] ys[i])[j] == eval_claim(mat, dec_child(zr, b, i as nat), point),
        forall|v: int| 0 <= v < point.len() ==> e2_canon(#[trigger] point[v]),
    ensures
        dec_claim(ys, b, j, n) == eval_claim(mat, dec_partial(zr, b, n), point),
    decreases n,
{
    lemma_dec_partial_len(zr, b, n);
    if n == 0 {
        lemma_eval_claim_linear(mat, zr, zr, 0, point);
        let y = eval_claim(mat, zr, point);
        assert forall|l: int| 0 <= l < 54 implies #[trigger] rk_scale_fp(y, 0)[l] == rk_zero()[l] by {
            assert(y[l].0 * 0nat + 7 * (y[l].1 * 0nat) == 0);
            assert(y[l].0 * 0nat + y[l].1 * 0nat == 0);
        }
        assert(rk_scale_fp(y, 0) =~= rk_zero());
    } else {
        lemma_dec_claim_partial(mat, zr, b, k, ys, j, point, n - 1);
        lemma_dec_partial_len(zr, b, n - 1);
        lemma_dec_weight(b, (n - 1) as nat);
        let child = dec_child(zr, b, (n - 1) as nat);
        let w = dec_weight(b, (n - 1) as nat);
        assert(ys[n - 1][j] == eval_claim(mat, child, point));
        lemma_eval_claim_linear(mat, child, child, w, point);
        lemma_eval_claim_linear(mat, dec_partial(zr, b, n - 1), ring_vec_scale(child, w), 0, point);
    }
}

/// Completeness of Π_DEC on commitments: for a witness whose coefficients fit in `k`
/// base-`b` digits, the commitments of its `k` digit children, weighted by `b^i` and
/// summed, give back the commitment of the witness.
pub proof fn law_dec_commitments_recompose(pp: PublicParams, zr: Seq<Seq<nat>>, b: nat, k: nat)
    requires
        pp.wf(),
        zr.len() == pp.n_cols,
        b >= 2,
        forall|col: int| 0 <= col < zr.len() ==> ring_wf(#[trigger] zr[col]),
        dec_norm_ok(zr, pow(b as int, k)),
    ensures
        dec_commit(Seq::new(k, |i: int| pp.commit_spec(dec_child(zr, b, i as nat))), b, pp.kappa as nat, k as int)
            == pp.commit_spec(zr),
{
    lemma_dec_commit_partial(pp, zr, b, k, k as int);
    lemma_dec_partial_full(zr, b, k);
}

/// Completeness of Π_DEC: for an instance whose commitment and claims are those of a
/// witness within the norm bound `B = b^k`, the proof that the prover builds from that
/// witness (children as `pi_dec_prove` describes them) has the expected shape and passes
/// both recomposition checks of the verifier.
pub proof fn law_pi_dec_complete(
    gp: GlobalParams,
    pp: PublicParams,
    s: CcsStructure,
    ce: CeInstance,
    wit: CeWitness,
    proof: PiDecProof,
)
    requires
        gp.wf(),
        pp.wf(),
        wit.z_ring@.len() == pp.n_cols,
        dec_norm_ok(ring_seq(wit.z_ring@), gp.cap_b as int),
        ce.c@ == pp.commit_spec(ring_seq(wit.z_ring@)),
        ce.y@.len() == s.matrices@.len(),
        forall|j: int|
            0 <= j < s.matrices@.len() ==> (#[trigger] ce.y@[j])@ == eval_claim(
                s.mat(j),
                ring_seq(wit.z_ring@),
                e2_seq(ce.r@),
            ),
        proof.child_commitments@.len() == gp.k,
        proof.child_evals@.len() == gp.k,
        forall|i: int|
            0 <= i < gp.k ==> (#[trigger] proof.child_commitments@[i])@ == pp.commit_spec(
                dec_child(ring_seq(wit.z_ring@), gp.b as nat, i as nat),
            ),
        forall|i: int| 0 <= i < gp.k ==> (#[trigger] proof.child_evals@[i])@.len() == s.matrices@.len(),
        forall|i: int, j: int|
            0 <= i < gp.k && 0 <= j < s.matrices@.len() ==> (#[trigger] proof.child_evals@[i]@[j])@ == eval_claim(
                s.mat(j),
                dec_child(ring_seq(wit.z_ring@), gp.b as nat, i as nat),
                e2_seq(ce.r@),
            ),
    ensures
        dec_shape_ok(proof, gp.k as nat, ce.y@.len()),
        dec_commit_ok(proof, ce, gp.b as nat, gp.k as nat),
        dec_claims_ok(proof, ce, gp.b as nat, gp.k as nat),
{
    let zr = ring_seq(wit.z_ring@);
    let b = gp.b as nat;
    let k = gp.k as nat;
    let point = e2_seq(ce.r@);
    law_dec_commitments_recompose(pp, zr, b, k);
    assert(dec_cs(proof, k) =~= Seq::new(k, |i: int| pp.commit_spec(dec_child(zr, b, i as nat))));
    let ys = dec_ys(proof, k);
    assert forall|j: int| 0 <= j < ce.y@.len() implies #[trigger] dec_claim(ys, b, j, k as int) == ce.y@[j]@ by {
        assert forall|i: int| 0 <= i < k implies (#[trigger] ys[i])[j] == eval_claim(
            s.mat(j),
            dec_child(zr, b, i as nat),
            point,
        ) by {
            assert(proof.child_evals@[i]@[j]@ == eval_claim(s.mat(j), dec_child(zr, b, i as nat), point));
        }
        lemma_dec_claim_partial(s.mat(j), zr, b, k, ys, j, point, k as int);
        lemma_dec_partial_full(zr, b, k);
    }
}

} // verus!
