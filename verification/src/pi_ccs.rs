//! Π_CCS: the strong reduction `CCS^K x CE^k -> CE^(K+k)`.
//!
//! One sum-check over the combined polynomial
//! `Q(X) = eq(X, alpha) (F(X) + gamma^K NC(X)) + gamma^(2K+k) Eval(X)`, where
//!   * `F = sum_{i<K} gamma^i f(~(M_1 z_i), ..., ~(M_t z_i))` checks the fresh instances,
//!   * `NC = sum_{i<K+k} gamma^i prod_{|j|<b} (~z_i - j)` checks every norm bound,
//!   * `Eval = eq(X, r) sum_{i,j,l} gamma^(i + k j + k t l) ~(cf(bar(M_j) z_i)_l)` carries the
//!     earlier claims.
//! The claimed sum is `T = gamma^(2K+k) sum gamma^(i + k j + k t l) cf(y_{i,j})_l`.

use vstd::arithmetic::power2::*;
use vstd::prelude::*;

use crate::error::FoldError;
use crate::ext2::{e2_add, e2_base, e2_mul, e2_one, e2_pow, e2_seq, e2_sub, e2_zero, Ext2, E2};
use crate::fp::{fmod, lemma_fp_lt_q, Fp};
use crate::multilinear::{eq, eq_entry, eq_spec, eq_table, mle_eval_ring, pad, ring_column, base_seq};
use crate::ring::{lemma_ring_wf, ring_seq, RingElem};
use crate::ring_k::{lemma_rk_wf, RingK};
use crate::sc_complete::{hyper_sum, law_sumcheck_complete, low_degree};
use crate::sumcheck::{absorb_exts, sc_claim, sc_round_ok, sc_state, sc_point, sumcheck_prove, sumcheck_verify, tables_view};
use crate::transcript::{
    absorb_rings, absorb_spec, after_ext, after_exts, blake3_hash_spec, challenge_ext_spec,
    structure_digest_input, structure_label, Transcript, TrView,
};
use crate::types::{ce_views, deg_upto, rk_views, CcsInstance, CcsStructure, CcsWitness, CeInstance, CeWitness, GlobalParams, PiCcsProof, SparsePoly};
use crate::Q;

verus! {

broadcast use {lemma_fp_lt_q, lemma_ring_wf, lemma_rk_wf};

/// `prod_{idx < n} (z - (idx - (b - 1)))`: the first `n` factors of the range product.
pub open spec fn range_prod(z: E2, b: int, n: int) -> E2
    decreases n,
{
    if n <= 0 {
        e2_one()
    } else {
        e2_mul(range_prod(z, b, n - 1), e2_sub(z, e2_base(fmod(n - 1 - (b - 1)))))
    }
}

/// `prod_{j = -(b-1)}^{b-1} (z - j)`, which vanishes at every integer of magnitude
/// below `b`.
pub open spec fn range_poly(z: E2, b: int) -> E2 {
    range_prod(z, b, 2 * b - 1)
}

/// Once the factor `z - z` is in, the partial range product stays zero.
proof fn lemma_range_prod_zero(v: int, b: int, n: int)
    requires
        0 <= v + b - 1 < n,
    ensures
        range_prod(e2_base(fmod(v)), b, n) == e2_zero(),
    decreases n,
{
    let zv = e2_base(fmod(v));
    if n - 1 == v + b - 1 {
        assert(n - 1 - (b - 1) == v);
        assert(e2_sub(zv, e2_base(fmod(n - 1 - (b - 1)))) == e2_zero()) by {
            crate::fp::lemma_fmod_small(0);
        }
        let p = range_prod(zv, b, n - 1);
        assert(e2_mul(p, e2_zero()) == e2_zero());
    } else {
        lemma_range_prod_zero(v, b, n - 1);
        let x = e2_sub(zv, e2_base(fmod(n - 1 - (b - 1))));
        assert(e2_mul(e2_zero(), x) == e2_zero());
    }
}

/// The range polynomial vanishes at every integer `v` with `|v| < b`: the norm check
/// of an honest witness coefficient is zero.
pub proof fn law_range_poly_vanishes(v: int, b: int)
    requires
        1 <= b,
        -b < v < b,
    ensures
        range_poly(e2_base(fmod(v)), b) == e2_zero(),
{
    lemma_range_prod_zero(v, b, 2 * b - 1);
}

/// `prod_{j = -(b-1)}^{b-1} (z - j)`.
pub fn range_product(z: Ext2, b: u64) -> (r: Ext2)
    requires
        1 <= b <= 0x3FFF_FFFF_FFFF_FFFF,
    ensures
        r@ == range_poly(z@, b as int),
{
    let bi = b as i64;
    let mut acc = Ext2::one();
    let mut idx: i64 = 0;
    while idx < 2 * bi - 1
        invariant
            1 <= b <= 0x3FFF_FFFF_FFFF_FFFF,
            bi == b,
            0 <= idx <= 2 * bi - 1,
            acc@ == range_prod(z@, b as int, idx as int),
        decreases 2 * bi - 1 - idx,
    {
        let j = idx - (bi - 1);
        acc = acc * (z - Ext2::from_base(Fp::from_i64(j)));
        idx = idx + 1;
    }
    acc
}

/// The powers `gamma^0, ..., gamma^hi`.
pub fn gamma_powers(gamma: Ext2, hi: usize) -> (p: Vec<Ext2>)
    requires
        hi < usize::MAX,
    ensures
        p@.len() == hi + 1,
        forall|i: int| 0 <= i <= hi ==> (#[trigger] p@[i])@ == e2_pow(gamma@, i as nat),
{
    let mut p: Vec<Ext2> = Vec::new();
    p.push(Ext2::one());
    let mut i: usize = 1;
    while i <= hi
        invariant
            1 <= i <= hi + 1,
            hi < usize::MAX,
            p@.len() == i,
            forall|t: int| 0 <= t < i ==> (#[trigger] p@[t])@ == e2_pow(gamma@, t as nat),
        decreases hi + 1 - i,
    {
        let prev = p[i - 1];
        p.push(prev * gamma);
        i = i + 1;
    }
    p
}

/// The highest gamma-power index `Q` uses, for `(K, k, t, d)`.
pub open spec fn max_gamma_spec(cap_k: int, k: int, t: int, d: int) -> int {
    if k > 0 && k * t * d - 1 > 2 * cap_k + k {
        k * t * d - 1
    } else {
        2 * cap_k + k
    }
}

/// The sizes of a Π_CCS run fit the machine: `54 (K + k + 1)(t + 8)` is a `usize`.
pub open spec fn dims_ok(cap_k: int, k: int, t: int) -> bool {
    &&& cap_k >= 0
    &&& k >= 0
    &&& t >= 1
    &&& (cap_k + k + 1) * (t + 8) * 54 <= usize::MAX
}

/// Facts that follow from `dims_ok`.
pub proof fn lemma_dims(cap_k: int, k: int, t: int)
    requires
        dims_ok(cap_k, k, t),
    ensures
        k * t * 54 + cap_k * t + 2 * cap_k + k + 2 <= usize::MAX,
        max_gamma_spec(cap_k, k, t, 54) + 1 <= usize::MAX,
        max_gamma_spec(cap_k, k, t, 54) >= 2 * cap_k + k,
        k > 0 ==> max_gamma_spec(cap_k, k, t, 54) >= k * t * 54 - 1,
        k * t >= 0,
        cap_k * t >= 0,
        k * t * 54 >= 0,
        k > 0 ==> k * t * 54 >= 1,
        8 * 54 * (cap_k + k) <= usize::MAX,
{
    assert((cap_k + k + 1) * (t + 8) * 54 >= k * t * 54 + cap_k * t + 2 * cap_k + k + 2) by (nonlinear_arith)
        requires
            cap_k >= 0,
            k >= 0,
            t >= 1,
    ;
    assert((cap_k + k + 1) * (t + 8) * 54 >= 8 * 54 * (cap_k + k)) by (nonlinear_arith)
        requires
            cap_k >= 0,
            k >= 0,
            t >= 1,
    ;
    assert(k > 0 ==> k * t * 54 >= 1) by (nonlinear_arith)
        requires
            k >= 0,
            t >= 1,
    ;
    assert(k * t >= 0 && cap_k * t >= 0 && k * t * 54 >= 0) by (nonlinear_arith)
        requires
            cap_k >= 0,
            k >= 0,
            t >= 1,
    ;
}

/// Highest gamma-power index used by the combined oracle.
pub fn max_gamma_index(cap_k: usize, k: usize, t: usize, d: usize) -> (r: usize)
    requires
        dims_ok(cap_k as int, k as int, t as int),
        d == 54,
    ensures
        r == max_gamma_spec(cap_k as int, k as int, t as int, d as int),
{
    proof {
        lemma_dims(cap_k as int, k as int, t as int);
    }
    let mut hi = 2 * cap_k + k;
    if k > 0 {
        let v = k * t * d - 1;
        if v > hi {
            hi = v;
        }
    }
    hi
}

/// The per-variable degree of the round polynomials.
pub open spec fn round_degree_spec(cap_k: int, b: int, f_degree: int) -> int {
    if cap_k > 0 && 1 + f_degree > 2 * b {
        1 + f_degree
    } else {
        2 * b
    }
}

/// Per-variable degree of the round polynomials: `NC` contributes `2b`, `eq F` adds
/// `1 + deg f` when there are fresh instances.
pub fn round_degree(cap_k: usize, b: u64, f_degree: usize) -> (r: usize)
    requires
        b <= 0x3FFF_FFFF_FFFF_FFFF,
        2 * b + 1 < usize::MAX,
        f_degree + 2 <= usize::MAX,
    ensures
        r == round_degree_spec(cap_k as int, b as int, f_degree as int),
{
    let mut deg = 2 * b as usize;
    if cap_k > 0 && 1 + f_degree > deg {
        deg = 1 + f_degree;
    }
    deg
}

/// The transcript after absorbing each `R_K` element of `ys` (all 54 coefficients each).
pub open spec fn absorb_ringks(t: TrView, label: Seq<u8>, ys: Seq<Seq<E2>>) -> TrView
    decreases ys.len(),
{
    if ys.len() == 0 {
        t
    } else {
        absorb_exts(absorb_ringks(t, label, ys.drop_last()), label, ys.last())
    }
}

/// Absorb the 54 coefficients of an `R_K` element.
pub fn absorb_ringk(tr: &mut Transcript, label: &[u8], y: &RingK)
    ensures
        final(tr)@ == absorb_exts(old(tr)@, label@, y@),
{
    let cs = y.coeffs();
    let ghost yv = y@;
    let mut l: usize = 0;
    while l < 54
        invariant
            l <= 54,
            cs@.map_values(|e: Ext2| e@) == yv,
            yv.len() == 54,
            tr@ == absorb_exts(old(tr)@, label@, yv.take(l as int)),
        decreases 54 - l,
    {
        tr.absorb_ext(label, cs[l]);
        proof {
            assert(yv.take(l + 1).drop_last() =~= yv.take(l as int));
        }
        l = l + 1;
    }
    assert(yv.take(54) =~= yv);
}

/// Absorb a list of `R_K` elements in order.
pub fn absorb_ringk_vec(tr: &mut Transcript, label: &[u8], ys: &[RingK])
    ensures
        final(tr)@ == absorb_ringks(old(tr)@, label@, rk_views(ys@)),
{
    let ghost yv = rk_views(ys@);
    let mut j: usize = 0;
    while j < ys.len()
        invariant
            j <= ys@.len(),
            yv == rk_views(ys@),
            tr@ == absorb_ringks(old(tr)@, label@, yv.take(j as int)),
        decreases ys@.len() - j,
    {
        absorb_ringk(tr, label, &ys[j]);
        proof {
            assert(yv.take(j + 1).drop_last() =~= yv.take(j as int));
        }
        j = j + 1;
    }
    assert(yv.take(ys@.len() as int) =~= yv);
}

/// The ASCII bytes of "piccs/ccs".
pub open spec fn piccs_ccs_tag() -> Seq<u8> {
    seq![112u8, 105, 99, 99, 115, 47, 99, 99, 115]
}

/// The ASCII bytes of "piccs/ce".
pub open spec fn piccs_ce_tag() -> Seq<u8> {
    seq![112u8, 105, 99, 99, 115, 47, 99, 101]
}

/// The ASCII bytes of "piccs/r".
pub open spec fn piccs_r_tag() -> Seq<u8> {
    seq![112u8, 105, 99, 99, 115, 47, 114]
}

/// The ASCII bytes of "piccs/y".
pub open spec fn piccs_y_tag() -> Seq<u8> {
    seq![112u8, 105, 99, 99, 115, 47, 121]
}

/// The ASCII bytes of "piccs/alpha".
pub open spec fn piccs_alpha_tag() -> Seq<u8> {
    seq![112u8, 105, 99, 99, 115, 47, 97, 108, 112, 104, 97]
}

/// The ASCII bytes of "piccs/gamma".
pub open spec fn piccs_gamma_tag() -> Seq<u8> {
    seq![112u8, 105, 99, 99, 115, 47, 103, 97, 109, 109, 97]
}

/// The ASCII bytes of "piccs/yprime".
pub open spec fn piccs_yprime_tag() -> Seq<u8> {
    seq![112u8, 105, 99, 99, 115, 47, 121, 112, 114, 105, 109, 101]
}

/// The transcript after absorbing the fresh instances' commitments.
pub open spec fn absorb_fresh(t: TrView, fresh: Seq<CcsInstance>) -> TrView
    decreases fresh.len(),
{
    if fresh.len() == 0 {
        t
    } else {
        absorb_rings(absorb_fresh(t, fresh.drop_last()), piccs_ccs_tag(), fresh.last()@)
    }
}

/// The transcript after absorbing the carried instances: commitment, point, claims.
pub open spec fn absorb_carried(t: TrView, carried: Seq<CeInstance>) -> TrView
    decreases carried.len(),
{
    if carried.len() == 0 {
        t
    } else {
        let inst = carried.last()@;
        absorb_ringks(
            absorb_exts(
                absorb_rings(absorb_carried(t, carried.drop_last()), piccs_ce_tag(), inst.0),
                piccs_r_tag(),
                inst.1,
            ),
            piccs_y_tag(),
            inst.2,
        )
    }
}

/// The transcript once the structure and every input instance are absorbed.
pub open spec fn piccs_bound(t: TrView, s: CcsStructure, fresh: Seq<CcsInstance>, carried: Seq<CeInstance>) -> TrView {
    absorb_carried(
        absorb_fresh(absorb_spec(t, structure_label(), blake3_hash_spec(structure_digest_input(s))), fresh),
        carried,
    )
}

/// The point `alpha` drawn after binding the inputs.
pub open spec fn piccs_alpha(t: TrView, n: nat) -> Seq<E2> {
    Seq::new(n, |i: int| challenge_ext_spec(after_exts(t, i as nat), piccs_alpha_tag()))
}

/// The challenge `gamma` drawn after `alpha`.
pub open spec fn piccs_gamma(t: TrView, n: nat) -> E2 {
    challenge_ext_spec(after_exts(t, n), piccs_gamma_tag())
}

/// The transcript after `alpha` and `gamma` are drawn.
pub open spec fn piccs_after_challenges(t: TrView, n: nat) -> TrView {
    after_ext(after_exts(t, n))
}

/// Bind the relation, absorb all input instances, then squeeze `(alpha, gamma)`.
fn absorb_inputs_and_challenges(
    tr: &mut Transcript,
    gp: &GlobalParams,
    s: &CcsStructure,
    fresh: &[CcsInstance],
    carried: &[CeInstance],
) -> (res: (Vec<Ext2>, Ext2))
    ensures
        e2_seq(res.0@) == piccs_alpha(piccs_bound(old(tr)@, *s, fresh@, carried@), gp.log_m as nat),
        res.1@ == piccs_gamma(piccs_bound(old(tr)@, *s, fresh@, carried@), gp.log_m as nat),
        final(tr)@ == piccs_after_challenges(piccs_bound(old(tr)@, *s, fresh@, carried@), gp.log_m as nat),
{
    tr.absorb_structure(s);
    let ghost t1 = tr@;
    let ccs_lbl: [u8; 9] = [112u8, 105, 99, 99, 115, 47, 99, 99, 115];
    let ce_lbl: [u8; 8] = [112u8, 105, 99, 99, 115, 47, 99, 101];
    let r_lbl: [u8; 7] = [112u8, 105, 99, 99, 115, 47, 114];
    let y_lbl: [u8; 7] = [112u8, 105, 99, 99, 115, 47, 121];
    let a_lbl: [u8; 11] = [112u8, 105, 99, 99, 115, 47, 97, 108, 112, 104, 97];
    let g_lbl: [u8; 11] = [112u8, 105, 99, 99, 115, 47, 103, 97, 109, 109, 97];
    assert(ccs_lbl@ =~= piccs_ccs_tag());
    assert(ce_lbl@ =~= piccs_ce_tag());
    assert(r_lbl@ =~= piccs_r_tag());
    assert(y_lbl@ =~= piccs_y_tag());
    assert(a_lbl@ =~= piccs_alpha_tag());
    assert(g_lbl@ =~= piccs_gamma_tag());
    let mut i: usize = 0;
    while i < fresh.len()
        invariant
            i <= fresh@.len(),
            ccs_lbl@ == piccs_ccs_tag(),
            tr@ == absorb_fresh(t1, fresh@.take(i as int)),
        decreases fresh@.len() - i,
    {
        tr.absorb_commitment(ccs_lbl.as_slice(), &fresh[i].c);
        proof {
            assert(fresh@.take(i + 1).drop_last() =~= fresh@.take(i as int));
        }
        i = i + 1;
    }
    assert(fresh@.take(fresh@.len() as int) =~= fresh@);
    let ghost t2 = tr@;
    let mut ci: usize = 0;
    while ci < carried.len()
        invariant
            ci <= carried@.len(),
            ce_lbl@ == piccs_ce_tag(),
            r_lbl@ == piccs_r_tag(),
            y_lbl@ == piccs_y_tag(),
            tr@ == absorb_carried(t2, carried@.take(ci as int)),
        decreases carried@.len() - ci,
    {
        let inst = &carried[ci];
        tr.absorb_commitment(ce_lbl.as_slice(), &inst.c);
        let ghost before = tr@;
        let mut e: usize = 0;
        while e < inst.r.len()
            invariant
                e <= inst.r@.len(),
                r_lbl@ == piccs_r_tag(),
                tr@ == absorb_exts(before, piccs_r_tag(), e2_seq(inst.r@).take(e as int)),
            decreases inst.r@.len() - e,
        {
            tr.absorb_ext(r_lbl.as_slice(), inst.r[e]);
            proof {
                assert(e2_seq(inst.r@).take(e + 1).drop_last() =~= e2_seq(inst.r@).take(e as int));
            }
            e = e + 1;
        }
        assert(e2_seq(inst.r@).take(inst.r@.len() as int) =~= e2_seq(inst.r@));
        absorb_ringk_vec(tr, y_lbl.as_slice(), inst.y.as_slice());
        proof {
            assert(carried@.take(ci + 1).drop_last() =~= carried@.take(ci as int));
        }
        ci = ci + 1;
    }
    assert(carried@.take(carried@.len() as int) =~= carried@);
    let alpha = tr.challenge_ext_vec(a_lbl.as_slice(), gp.log_m);
    let gamma = tr.challenge_ext(g_lbl.as_slice());
    assert(e2_seq(alpha@) =~= piccs_alpha(piccs_bound(old(tr)@, *s, fresh@, carried@), gp.log_m as nat));
    (alpha, gamma)
}

/// `sum_{l<n} gamma^(base + kt l) y[l]`.
pub open spec fn ev_l(y: Seq<E2>, gpow: Seq<E2>, base: int, kt: int, n: int) -> E2
    decreases n,
{
    if n <= 0 {
        e2_zero()
    } else {
        e2_add(ev_l(y, gpow, base, kt, n - 1), e2_mul(gpow[base + kt * (n - 1)], y[n - 1]))
    }
}

/// `sum_{j<n} sum_{l<54} gamma^(ci + k j + k t l) ys[j][l]`.
pub open spec fn ev_j(ys: Seq<Seq<E2>>, gpow: Seq<E2>, ci: int, k: int, t: int, n: int) -> E2
    decreases n,
{
    if n <= 0 {
        e2_zero()
    } else {
        e2_add(ev_j(ys, gpow, ci, k, t, n - 1), ev_l(ys[n - 1], gpow, ci + k * (n - 1), k * t, 54))
    }
}

/// `sum_{ci<n} sum_{j<t} sum_{l<54} gamma^(ci + k j + k t l) yss[ci][j][l]`: the weighted
/// sum of every coefficient of every claim, each with its own gamma power.
pub open spec fn ev_sum(yss: Seq<Seq<Seq<E2>>>, gpow: Seq<E2>, k: int, t: int, n: int) -> E2
    decreases n,
{
    if n <= 0 {
        e2_zero()
    } else {
        e2_add(ev_sum(yss, gpow, k, t, n - 1), ev_j(yss[n - 1], gpow, n - 1, k, t, t))
    }
}

/// The gamma-power index of coefficient `l` of claim `(ci, j)` is below `k t 54`.
pub proof fn lemma_ev_index(ci: int, j: int, l: int, k: int, t: int)
    requires
        0 <= ci < k,
        0 <= j < t,
        0 <= l < 54,
    ensures
        0 <= ci + k * j + k * t * l <= k * t * 54 - 1,
{
    assert(0 <= ci + k * j + k * t * l <= k * t * 54 - 1) by (nonlinear_arith)
        requires
            0 <= ci < k,
            0 <= j < t,
            0 <= l < 54,
    ;
}

/// The claims of a list of `R_K` rows.
pub open spec fn rows_views(rows: Seq<Vec<RingK>>) -> Seq<Seq<Seq<E2>>> {
    rows.map_values(|row: Vec<RingK>| rk_views(row@))
}

/// `sum_{ci, j, l} gamma^(ci + k j + k t l) cf(ys[ci][j])_l` over `k` rows of `t` claims.
pub fn weighted_claims(ys: &[Vec<RingK>], gpow: &[Ext2], k: usize, t: usize) -> (r: Ext2)
    requires
        ys@.len() == k,
        forall|ci: int| 0 <= ci < k ==> (#[trigger] ys@[ci])@.len() == t,
        k > 0 ==> gpow@.len() >= k * t * 54,
        k * t * 54 <= usize::MAX,
    ensures
        r@ == ev_sum(rows_views(ys@), e2_seq(gpow@), k as int, t as int, k as int),
{
    let ghost yss = rows_views(ys@);
    let ghost gv = e2_seq(gpow@);
    let mut acc = Ext2::zero();
    let mut ci: usize = 0;
    while ci < k
        invariant
            ci <= k,
            ys@.len() == k,
            yss == rows_views(ys@),
            gv == e2_seq(gpow@),
            forall|c2: int| 0 <= c2 < k ==> (#[trigger] ys@[c2])@.len() == t,
            k > 0 ==> gpow@.len() >= k * t * 54,
            k * t * 54 <= usize::MAX,
            acc@ == ev_sum(yss, gv, k as int, t as int, ci as int),
        decreases k - ci,
    {
        let row = &ys[ci];
        assert(yss[ci as int] == rk_views(row@));
        let mut acc_j = Ext2::zero();
        let mut j: usize = 0;
        while j < t
            invariant
                ci < k,
                j <= t,
                row@.len() == t,
                row@ == ys@[ci as int]@,
                yss == rows_views(ys@),
                yss.len() == k,
                yss[ci as int] == rk_views(row@),
                gv == e2_seq(gpow@),
                gpow@.len() >= k * t * 54,
                k * t * 54 <= usize::MAX,
                acc_j@ == ev_j(yss[ci as int], gv, ci as int, k as int, t as int, j as int),
            decreases t - j,
        {
            let y = &row[j];
            let mut acc_l = Ext2::zero();
            let mut l: usize = 0;
            while l < 54
                invariant
                    ci < k,
                    j < t,
                    l <= 54,
                    gv == e2_seq(gpow@),
                    gpow@.len() >= k * t * 54,
                    k * t * 54 <= usize::MAX,
                    yss[ci as int][j as int] == y@,
                    acc_l@ == ev_l(y@, gv, ci + k * j, k * t, l as int),
                decreases 54 - l,
            {
                proof {
                    lemma_ev_index(ci as int, j as int, l as int, k as int, t as int);
                }
                let idx = ci + k * j + k * t * l;
                acc_l = acc_l + gpow[idx] * y.coeff(l);
                l = l + 1;
            }
            acc_j = acc_j + acc_l;
            j = j + 1;
        }
        acc = acc + acc_j;
        ci = ci + 1;
    }
    acc
}

/// The verifier's claimed sum: `gamma^(2K+k)` times the weighted carried claims (zero
/// when nothing is carried).
pub open spec fn claimed_sum_spec(carried: Seq<CeInstance>, gpow: Seq<E2>, cap_k: int, t: int) -> E2 {
    let k = carried.len() as int;
    if k == 0 {
        e2_zero()
    } else {
        e2_mul(
            gpow[2 * cap_k + k],
            ev_sum(Seq::new(k as nat, |ci: int| carried[ci]@.2), gpow, k, t, k),
        )
    }
}

/// The verifier's claimed sum `T`.
fn claimed_sum(carried: &[CeInstance], gpow: &[Ext2], cap_k: usize, t: usize) -> (r: Ext2)
    requires
        dims_ok(cap_k as int, carried@.len() as int, t as int),
        forall|ci: int| 0 <= ci < carried@.len() ==> (#[trigger] carried@[ci]).y@.len() == t,
        gpow@.len() == max_gamma_spec(cap_k as int, carried@.len() as int, t as int, 54) + 1,
    ensures
        r@ == claimed_sum_spec(carried@, e2_seq(gpow@), cap_k as int, t as int),
{
    let k = carried.len();
    proof {
        lemma_dims(cap_k as int, k as int, t as int);
    }
    if k == 0 {
        return Ext2::zero();
    }
    let mut ys: Vec<Vec<RingK>> = Vec::new();
    let mut ci: usize = 0;
    while ci < k
        invariant
            ci <= k,
            k == carried@.len(),
            ys@.len() == ci,
            forall|c2: int| 0 <= c2 < ci ==> (#[trigger] ys@[c2])@ == carried@[c2].y@,
        decreases k - ci,
    {
        ys.push(vstd::slice::slice_to_vec(carried[ci].y.as_slice()));
        ci = ci + 1;
    }
    let inner = weighted_claims(ys.as_slice(), gpow, k, t);
    proof {
        assert(rows_views(ys@) =~= Seq::new(k as nat, |c2: int| carried@[c2]@.2));
    }
    gpow[2 * cap_k + k] * inner
}

/// A field column, zero-padded to `cap_m`, as extension values.
pub fn padded_ext(col: &[Fp], cap_m: usize) -> (v: Vec<Ext2>)
    requires
        col.len() <= cap_m,
    ensures
        e2_seq(v@) == pad(base_seq(crate::fp::fp_seq(col@)), cap_m as nat),
        v@.len() == cap_m,
{
    let mut v: Vec<Ext2> = Vec::new();
    let mut i: usize = 0;
    while i < cap_m
        invariant
            i <= cap_m,
            col.len() <= cap_m,
            v@.len() == i,
            forall|t: int|
                0 <= t < i ==> (#[trigger] v@[t])@ == pad(base_seq(crate::fp::fp_seq(col@)), cap_m as nat)[t],
        decreases cap_m - i,
    {
        if i < col.len() {
            v.push(Ext2::from_base(col[i]));
        } else {
            v.push(Ext2::zero());
        }
        i = i + 1;
    }
    assert(e2_seq(v@) =~= pad(base_seq(crate::fp::fp_seq(col@)), cap_m as nat));
    v
}

/// Where the sum-check tables of each kind start.
#[derive(Clone, Copy, Debug)]
pub struct Layout {
    /// The `eq(., r)` table.
    pub eq_r: usize,
    /// First `M_j z_i` table (fresh instances), `t` per instance.
    pub u0: usize,
    /// First `z_i` table (all instances).
    pub z0: usize,
    /// First `cf(bar(M_j) z_i)_l` table (carried instances), `54 t` per instance.
    pub v0: usize,
}

/// The index of table `M_j z_i`.
pub open spec fn u_at(u0: int, t: int, i: int, j: int) -> int {
    u0 + i * t + j
}

/// The index of table `cf(bar(M_j) z_ci)_l`.
pub open spec fn v_at(v0: int, t: int, ci: int, j: int, l: int) -> int {
    v0 + (ci * t + j) * 54 + l
}

/// Lexicographic order of `(a, b)` pairs is the order of `a w + b` when `b < w`.
pub proof fn lemma_lex_lt(a1: int, b1: int, a2: int, b2: int, w: int)
    requires
        0 <= b1 < w,
        0 <= b2,
        a1 < a2 || (a1 == a2 && b1 < b2),
    ensures
        a1 * w + b1 < a2 * w + b2,
{
    if a1 < a2 {
        assert(a1 * w + b1 < a2 * w + b2) by (nonlinear_arith)
            requires
                0 <= b1 < w,
                0 <= b2,
                a1 < a2,
        ;
    }
}

/// The equality table at `point` over `n` variables.
pub open spec fn eq_tab(point: Seq<E2>, n: nat) -> Seq<E2> {
    Seq::new(pow2(n), |idx: int| eq_entry(point, idx as nat, n as int))
}

/// The table of `M_j z` (padded), for field matrix `mat` and witness `z`.
pub open spec fn u_table(mat: Seq<Seq<nat>>, z: Seq<nat>, cap_m: nat) -> Seq<E2> {
    pad(base_seq(crate::types::matvec_spec(mat, z)), cap_m)
}

/// The table of coefficient `l` of `bar(M_j) z` (padded), for a ring witness `zr`.
pub open spec fn v_table(mat: Seq<Seq<nat>>, zr: Seq<Seq<nat>>, l: int, cap_m: nat) -> Seq<E2> {
    pad(ring_column(crate::types::bar_matvec_spec(mat, zr), l), cap_m)
}

/// Build the sum-check tables: `eq(., alpha)`, `eq(., r)` (zero without carried
/// instances), `M_j z_i` for the fresh witnesses, `z_i` for all witnesses, and the
/// coefficient columns of `bar(M_j) z_i` for the carried witnesses.
fn build_tables(
    gp: &GlobalParams,
    s: &CcsStructure,
    alpha: &[Ext2],
    carried_r: Option<&[Ext2]>,
    fresh_z: &[Vec<Fp>],
    all_z: &[Vec<Fp>],
    carried_zr: &[Vec<RingElem>],
) -> (res: (Vec<Vec<Ext2>>, Layout))
    requires
        gp.wf(),
        s.wf(),
        s.m == gp.m,
        alpha.len() == gp.log_m,
        carried_r matches Some(r) ==> r.len() == gp.log_m,
        dims_ok(fresh_z@.len() as int, carried_zr@.len() as int, s.matrices@.len() as int),
        forall|i: int| 0 <= i < fresh_z@.len() ==> (#[trigger] fresh_z@[i])@.len() == gp.m,
        forall|i: int| 0 <= i < all_z@.len() ==> (#[trigger] all_z@[i])@.len() == gp.m,
        forall|i: int| 0 <= i < carried_zr@.len() ==> (#[trigger] carried_zr@[i])@.len() == gp.n_r,
        all_z@.len() == fresh_z@.len() + carried_zr@.len(),
    ensures
        res.1.eq_r == 1,
        res.1.u0 == 2,
        res.1.z0 == 2 + fresh_z@.len() * s.matrices@.len(),
        res.1.v0 == res.1.z0 + fresh_z@.len() + carried_zr@.len(),
        res.0@.len() == res.1.v0 + carried_zr@.len() * s.matrices@.len() * 54,
        forall|ti: int| 0 <= ti < res.0@.len() ==> (#[trigger] res.0@[ti])@.len() == pow2(gp.log_m as nat),
        e2_seq(res.0@[0]@) == eq_tab(e2_seq(alpha@), gp.log_m as nat),
        carried_r matches Some(r) ==> e2_seq(res.0@[1]@) == eq_tab(e2_seq(r@), gp.log_m as nat),
        carried_r is None ==> e2_seq(res.0@[1]@) == Seq::new(pow2(gp.log_m as nat), |x: int| e2_zero()),
        forall|i: int, j: int|
            0 <= i < fresh_z@.len() && 0 <= j < s.matrices@.len() ==> e2_seq(
                (#[trigger] res.0@[u_at(2, s.matrices@.len() as int, i, j)])@,
            ) == u_table(s.mat(j), crate::fp::fp_seq(fresh_z@[i]@), pow2(gp.log_m as nat)),
        forall|i: int|
            0 <= i < all_z@.len() ==> e2_seq((#[trigger] res.0@[res.1.z0 + i])@) == pad(
                base_seq(crate::fp::fp_seq(all_z@[i]@)),
                pow2(gp.log_m as nat),
            ),
        forall|ci: int, j: int, l: int|
            0 <= ci < carried_zr@.len() && 0 <= j < s.matrices@.len() && 0 <= l < 54 ==> e2_seq(
                (#[trigger] res.0@[v_at(res.1.v0 as int, s.matrices@.len() as int, ci, j, l)])@,
            ) == v_table(s.mat(j), ring_seq(carried_zr@[ci]@), l, pow2(gp.log_m as nat)),
{
    let cap_m = gp.cap_m();
    let t = s.t();
    let cap_k = fresh_z.len();
    let k = carried_zr.len();
    let ghost tt = t as int;
    proof {
        lemma_dims(cap_k as int, k as int, t as int);
    }
    let mut tables: Vec<Vec<Ext2>> = Vec::new();
    let eqa = eq_table(alpha);
    assert(e2_seq(eqa@) =~= eq_tab(e2_seq(alpha@), gp.log_m as nat));
    tables.push(eqa);
    match carried_r {
        Some(r) => {
            tables.push(eq_table(r));
            assert(e2_seq(tables@[1]@) =~= eq_tab(e2_seq(r@), gp.log_m as nat));
        },
        None => {
            let mut zeros: Vec<Ext2> = Vec::new();
            let mut x: usize = 0;
            while x < cap_m
                invariant
                    x <= cap_m,
                    zeros@.len() == x,
                    forall|y: int| 0 <= y < x ==> (#[trigger] zeros@[y])@ == e2_zero(),
                decreases cap_m - x,
            {
                zeros.push(Ext2::zero());
                x = x + 1;
            }
            tables.push(zeros);
            assert(e2_seq(tables@[1]@) =~= Seq::new(cap_m as nat, |x: int| e2_zero()));
        },
    }
    let ghost t01 = tables@.subrange(0, 2);
    assert(t01[0] == eqa);
    // M_j z_i for the fresh witnesses.
    let mut i: usize = 0;
    while i < cap_k
        invariant
            gp.wf(),
            s.wf(),
            s.m == gp.m,
            t == s.matrices@.len(),
            tt == t,
            cap_m == pow2(gp.log_m as nat),
            cap_m >= gp.m,
            cap_k == fresh_z@.len(),
            dims_ok(cap_k as int, k as int, t as int),
            k * t * 54 + cap_k * t + 2 * cap_k + k + 2 <= usize::MAX,
            forall|i2: int| 0 <= i2 < fresh_z@.len() ==> (#[trigger] fresh_z@[i2])@.len() == gp.m,
            i <= cap_k,
            tables@.len() == u_at(2, tt, i as int, 0),
            tables@.subrange(0, 2) == t01,
            forall|ti: int| 0 <= ti < tables@.len() ==> (#[trigger] tables@[ti])@.len() == cap_m,
            forall|i2: int, j2: int|
                0 <= i2 < i && 0 <= j2 < tt ==> e2_seq((#[trigger] tables@[u_at(2, tt, i2, j2)])@)
                    == u_table(s.mat(j2), crate::fp::fp_seq(fresh_z@[i2]@), cap_m as nat),
        decreases cap_k - i,
    {
        let mut j: usize = 0;
        while j < t
            invariant
                gp.wf(),
                s.wf(),
                s.m == gp.m,
                t == s.matrices@.len(),
                tt == t,
                cap_m == pow2(gp.log_m as nat),
                cap_m >= gp.m,
                cap_k == fresh_z@.len(),
                forall|i2: int| 0 <= i2 < fresh_z@.len() ==> (#[trigger] fresh_z@[i2])@.len() == gp.m,
                i < cap_k,
                j <= t,
                tables@.len() == u_at(2, tt, i as int, j as int),
                tables@.subrange(0, 2) == t01,
                forall|ti: int| 0 <= ti < tables@.len() ==> (#[trigger] tables@[ti])@.len() == cap_m,
                forall|i2: int, j2: int|
                    (0 <= i2 < i && 0 <= j2 < tt) || (i2 == i && 0 <= j2 < j) ==> e2_seq(
                        (#[trigger] tables@[u_at(2, tt, i2, j2)])@,
                    ) == u_table(s.mat(j2), crate::fp::fp_seq(fresh_z@[i2]@), cap_m as nat),
            decreases t - j,
        {
            let mat = &s.matrices[j];
            let col = crate::types::field_matvec(mat, &fresh_z[i]);
            proof {
                assert(crate::fp::fp_seq(col@) =~= crate::types::matvec_spec(s.mat(j as int), crate::fp::fp_seq(fresh_z@[i as int]@)));
            }
            let tab = padded_ext(&col, cap_m);
            let ghost before = tables@;
            tables.push(tab);
            proof {
                assert forall|i2: int, j2: int|
                    (0 <= i2 < i && 0 <= j2 < tt) || (i2 == i && 0 <= j2 < j + 1) implies e2_seq(
                        (#[trigger] tables@[u_at(2, tt, i2, j2)])@,
                    ) == u_table(s.mat(j2), crate::fp::fp_seq(fresh_z@[i2]@), cap_m as nat) by {
                    if !(i2 == i && j2 == j) {
                        lemma_lex_lt(i2, j2, i as int, j as int, tt);
                        assert(tables@[u_at(2, tt, i2, j2)] == before[u_at(2, tt, i2, j2)]);
                    }
                }
                assert(tables@.subrange(0, 2) =~= before.subrange(0, 2));
            }
            j = j + 1;
        }
        proof {
            assert(u_at(2, tt, i as int, tt) == u_at(2, tt, i + 1, 0)) by (nonlinear_arith);
        }
        i = i + 1;
    }
    let ghost t_u = tables@;
    let z0 = tables.len();
    assert(z0 == 2 + cap_k * t) by (nonlinear_arith)
        requires z0 == u_at(2, tt, cap_k as int, 0), tt == t;
    // z_i for every witness.
    let mut i: usize = 0;
    while i < all_z.len()
        invariant
            gp.wf(),
            cap_m == pow2(gp.log_m as nat),
            cap_m >= gp.m,
            forall|i2: int| 0 <= i2 < all_z@.len() ==> (#[trigger] all_z@[i2])@.len() == gp.m,
            i <= all_z@.len(),
            tables@.len() == z0 + i,
            z0 == t_u.len(),
            tables@.subrange(0, z0 as int) == t_u,
            forall|ti: int| 0 <= ti < tables@.len() ==> (#[trigger] tables@[ti])@.len() == cap_m,
            forall|i2: int|
                0 <= i2 < i ==> e2_seq((#[trigger] tables@[z0 + i2])@) == pad(
                    base_seq(crate::fp::fp_seq(all_z@[i2]@)),
                    cap_m as nat,
                ),
        decreases all_z@.len() - i,
    {
        let tab = padded_ext(&all_z[i], cap_m);
        let ghost before = tables@;
        tables.push(tab);
        proof {
            assert(tables@.subrange(0, z0 as int) =~= before.subrange(0, z0 as int));
        }
        i = i + 1;
    }
    let ghost t_z = tables@;
    let v0 = tables.len();
    // cf(bar(M_j) z_ci)_l for the carried witnesses.
    let mut ci: usize = 0;
    while ci < k
        invariant
            gp.wf(),
            s.wf(),
            s.m == gp.m,
            t == s.matrices@.len(),
            tt == t,
            cap_m == pow2(gp.log_m as nat),
            cap_m >= gp.m,
            k == carried_zr@.len(),
            forall|i2: int| 0 <= i2 < carried_zr@.len() ==> (#[trigger] carried_zr@[i2])@.len() == gp.n_r,
            k * t * 54 + cap_k * t + 2 * cap_k + k + 2 <= usize::MAX,
            v0 + k * t * 54 <= usize::MAX,
            ci <= k,
            v0 == t_z.len(),
            tables@.len() == v_at(v0 as int, tt, ci as int, 0, 0),
            tables@.subrange(0, v0 as int) == t_z,
            forall|ti: int| 0 <= ti < tables@.len() ==> (#[trigger] tables@[ti])@.len() == cap_m,
            forall|c2: int, j2: int, l2: int|
                0 <= c2 < ci && 0 <= j2 < tt && 0 <= l2 < 54 ==> e2_seq(
                    (#[trigger] tables@[v_at(v0 as int, tt, c2, j2, l2)])@,
                ) == v_table(s.mat(j2), ring_seq(carried_zr@[c2]@), l2, cap_m as nat),
        decreases k - ci,
    {
        let zr = &carried_zr[ci];
        let mut j: usize = 0;
        while j < t
            invariant
                gp.wf(),
                s.wf(),
                s.m == gp.m,
                t == s.matrices@.len(),
                tt == t,
                cap_m == pow2(gp.log_m as nat),
                cap_m >= gp.m,
                k == carried_zr@.len(),
                zr@ == carried_zr@[ci as int]@,
                zr@.len() == gp.n_r,
                ci < k,
                j <= t,
                v0 == t_z.len(),
                tables@.len() == v_at(v0 as int, tt, ci as int, j as int, 0),
                tables@.subrange(0, v0 as int) == t_z,
                forall|ti: int| 0 <= ti < tables@.len() ==> (#[trigger] tables@[ti])@.len() == cap_m,
                forall|c2: int, j2: int, l2: int|
                    ((0 <= c2 < ci && 0 <= j2 < tt) || (c2 == ci && 0 <= j2 < j)) && 0 <= l2 < 54 ==> e2_seq(
                        (#[trigger] tables@[v_at(v0 as int, tt, c2, j2, l2)])@,
                    ) == v_table(s.mat(j2), ring_seq(carried_zr@[c2]@), l2, cap_m as nat),
            decreases t - j,
        {
            let mat = &s.matrices[j];
            let ring_vec = crate::types::bar_ring_matvec(mat, zr);
            let ghost rv = ring_seq(ring_vec@);
            assert(rv == crate::types::bar_matvec_spec(s.mat(j as int), ring_seq(zr@)));
            let mut l: usize = 0;
            while l < 54
                invariant
                    gp.wf(),
                    s.wf(),
                    t == s.matrices@.len(),
                    tt == t,
                    cap_m == pow2(gp.log_m as nat),
                    cap_m >= gp.m,
                    ring_vec@.len() == gp.m,
                    rv == ring_seq(ring_vec@),
                    rv == crate::types::bar_matvec_spec(s.mat(j as int), ring_seq(carried_zr@[ci as int]@)),
                    ci < k,
                    j < t,
                    l <= 54,
                    v0 == t_z.len(),
                    tables@.len() == v_at(v0 as int, tt, ci as int, j as int, l as int),
                    tables@.subrange(0, v0 as int) == t_z,
                    forall|ti: int| 0 <= ti < tables@.len() ==> (#[trigger] tables@[ti])@.len() == cap_m,
                    forall|c2: int, j2: int, l2: int|
                        (((0 <= c2 < ci && 0 <= j2 < tt) || (c2 == ci && 0 <= j2 < j)) && 0 <= l2 < 54) || (
                        c2 == ci && j2 == j && 0 <= l2 < l) ==> e2_seq(
                            (#[trigger] tables@[v_at(v0 as int, tt, c2, j2, l2)])@,
                        ) == v_table(s.mat(j2), ring_seq(carried_zr@[c2]@), l2, cap_m as nat),
                decreases 54 - l,
            {
                let mut col: Vec<Fp> = Vec::new();
                let mut row: usize = 0;
                while row < ring_vec.len()
                    invariant
                        row <= ring_vec@.len(),
                        l < 54,
                        col@.len() == row,
                        forall|x: int| 0 <= x < row ==> (#[trigger] col@[x])@ == ring_vec@[x]@[l as int],
                    decreases ring_vec@.len() - row,
                {
                    col.push(ring_vec[row].coeff(l));
                    row = row + 1;
                }
                let tab = padded_ext(&col, cap_m);
                proof {
                    assert(base_seq(crate::fp::fp_seq(col@)) =~= ring_column(rv, l as int));
                }
                let ghost before = tables@;
                tables.push(tab);
                proof {
                    assert forall|c2: int, j2: int, l2: int|
                        (((0 <= c2 < ci && 0 <= j2 < tt) || (c2 == ci && 0 <= j2 < j)) && 0 <= l2 < 54) || (
                        c2 == ci && j2 == j && 0 <= l2 < l + 1) implies e2_seq(
                            (#[trigger] tables@[v_at(v0 as int, tt, c2, j2, l2)])@,
                        ) == v_table(s.mat(j2), ring_seq(carried_zr@[c2]@), l2, cap_m as nat) by {
                        if !(c2 == ci && j2 == j && l2 == l) {
                            if c2 == ci && j2 == j {
                            } else {
                                lemma_lex_lt(c2, j2, ci as int, j as int, tt);
                                lemma_lex_lt(c2 * tt + j2, l2, ci * tt + j, l as int, 54);
                            }
                            assert(tables@[v_at(v0 as int, tt, c2, j2, l2)] == before[v_at(v0 as int, tt, c2, j2, l2)]);
                        }
                    }
                    assert(tables@.subrange(0, v0 as int) =~= before.subrange(0, v0 as int));
                }
                l = l + 1;
            }
            proof {
                assert(v_at(v0 as int, tt, ci as int, j as int, 54) == v_at(v0 as int, tt, ci as int, j + 1, 0)) by (nonlinear_arith);
            }
            j = j + 1;
        }
        proof {
            assert(v_at(v0 as int, tt, ci as int, tt, 0) == v_at(v0 as int, tt, ci + 1, 0, 0)) by (nonlinear_arith);
        }
        ci = ci + 1;
    }
    proof {
        assert(v_at(v0 as int, tt, k as int, 0, 0) == v0 + k * t * 54) by (nonlinear_arith)
            requires tt == t;
        assert forall|i2: int, j2: int|
            0 <= i2 < cap_k && 0 <= j2 < tt implies e2_seq((#[trigger] tables@[u_at(2, tt, i2, j2)])@) == u_table(
                s.mat(j2),
                crate::fp::fp_seq(fresh_z@[i2]@),
                cap_m as nat,
            ) by {
            lemma_lex_lt(i2, j2, cap_k as int, 0, tt);
            assert(tables@[u_at(2, tt, i2, j2)] == t_z[u_at(2, tt, i2, j2)]);
            assert(t_z[u_at(2, tt, i2, j2)] == t_u[u_at(2, tt, i2, j2)]);
        }
        assert forall|i2: int| 0 <= i2 < cap_k + k implies e2_seq((#[trigger] tables@[z0 + i2])@) == pad(
            base_seq(crate::fp::fp_seq(all_z@[i2]@)),
            cap_m as nat,
        ) by {
            assert(tables@[z0 + i2] == t_z[z0 + i2]);
        }
        assert(tables@[0] == t_z.subrange(0, z0 as int)[0]);
        assert(tables@[1] == t_z.subrange(0, z0 as int)[1]);
        assert(t_u[0] == t_u.subrange(0, 2)[0]);
        assert(t_u[1] == t_u.subrange(0, 2)[1]);
    }
    (tables, Layout { eq_r: 1, u0: 2, z0, v0 })
}

/// `sum_{i<n} gamma^i f(vals[u(i, 0) .. u(i, t)])`: the fresh-instance constraint term.
pub open spec fn f_part(vals: Seq<E2>, gpow: Seq<E2>, f: &SparsePoly, u0: int, t: int, n: int) -> E2
    decreases n,
{
    if n <= 0 {
        e2_zero()
    } else {
        e2_add(
            f_part(vals, gpow, f, u0, t, n - 1),
            e2_mul(gpow[n - 1], f.eval_spec(vals.subrange(u_at(u0, t, n - 1, 0), u_at(u0, t, n - 1, t)))),
        )
    }
}

/// `sum_{i<n} gamma^i range_poly(zs[i])`: the norm term.
pub open spec fn nc_part(zs: Seq<E2>, gpow: Seq<E2>, b: int, n: int) -> E2
    decreases n,
{
    if n <= 0 {
        e2_zero()
    } else {
        e2_add(nc_part(zs, gpow, b, n - 1), e2_mul(gpow[n - 1], range_poly(zs[n - 1], b)))
    }
}

/// The carried-coefficient values, by `(ci, j, l)`.
pub open spec fn vals_blocks(vals: Seq<E2>, v0: int, t: int, k: int) -> Seq<Seq<Seq<E2>>> {
    Seq::new(
        k as nat,
        |ci: int| Seq::new(t as nat, |j: int| Seq::new(54, |l: int| vals[v_at(v0, t, ci, j, l)])),
    )
}

/// The combined summand `Q` at one point, from one value per table.
pub open spec fn combine_spec(
    vals: Seq<E2>,
    lay: Layout,
    f: &SparsePoly,
    gpow: Seq<E2>,
    cap_k: int,
    k: int,
    t: int,
    b: int,
) -> E2 {
    let f_val = f_part(vals, gpow, f, lay.u0 as int, t, cap_k);
    let nc = nc_part(vals.subrange(lay.z0 as int, lay.z0 + cap_k + k), gpow, b, cap_k + k);
    let ev = ev_sum(vals_blocks(vals, lay.v0 as int, t, k), gpow, k, t, k);
    e2_add(
        e2_mul(vals[0], e2_add(f_val, e2_mul(gpow[cap_k], nc))),
        e2_mul(e2_mul(gpow[2 * cap_k + k], vals[lay.eq_r as int]), ev),
    )
}

/// The layout of the tables for `K` fresh and `k` carried instances of `t` matrices.
pub open spec fn layout_ok(lay: Layout, cap_k: int, k: int, t: int) -> bool {
    &&& lay.eq_r == 1
    &&& lay.u0 == 2
    &&& lay.z0 == 2 + cap_k * t
    &&& lay.v0 == lay.z0 + cap_k + k
}

/// The combined summand `Q` evaluated from one value per table.
fn combine(
    vals: &[Ext2],
    lay: &Layout,
    f: &SparsePoly,
    gpow: &[Ext2],
    cap_k: usize,
    k: usize,
    t: usize,
    b: u64,
) -> (r: Ext2)
    requires
        dims_ok(cap_k as int, k as int, t as int),
        layout_ok(*lay, cap_k as int, k as int, t as int),
        vals@.len() == lay.v0 + k * t * 54,
        f.wf(),
        f.t == t,
        gpow@.len() == max_gamma_spec(cap_k as int, k as int, t as int, 54) + 1,
        1 <= b <= 0x3FFF_FFFF_FFFF_FFFF,
    ensures
        r@ == combine_spec(e2_seq(vals@), *lay, f, e2_seq(gpow@), cap_k as int, k as int, t as int, b as int),
{
    let ghost vv = e2_seq(vals@);
    let ghost gv = e2_seq(gpow@);
    proof {
        lemma_dims(cap_k as int, k as int, t as int);
    }
    let eq_a = vals[0];
    let eq_r = vals[lay.eq_r];
    let mut f_val = Ext2::zero();
    let mut i: usize = 0;
    while i < cap_k
        invariant
            i <= cap_k,
            dims_ok(cap_k as int, k as int, t as int),
            layout_ok(*lay, cap_k as int, k as int, t as int),
            vals@.len() == lay.v0 + k * t * 54,
            vv == e2_seq(vals@),
            gv == e2_seq(gpow@),
            f.wf(),
            f.t == t,
            gpow@.len() == max_gamma_spec(cap_k as int, k as int, t as int, 54) + 1,
            max_gamma_spec(cap_k as int, k as int, t as int, 54) >= 2 * cap_k + k,
            f_val@ == f_part(vv, gv, f, 2, t as int, i as int),
        decreases cap_k - i,
    {
        let mut args: Vec<Ext2> = Vec::new();
        let mut j: usize = 0;
        while j < t
            invariant
                i < cap_k,
                j <= t,
                dims_ok(cap_k as int, k as int, t as int),
                layout_ok(*lay, cap_k as int, k as int, t as int),
                vals@.len() == lay.v0 + k * t * 54,
                vv == e2_seq(vals@),
                args@.len() == j,
                forall|j2: int| 0 <= j2 < j ==> (#[trigger] args@[j2])@ == vv[u_at(2, t as int, i as int, j2)],
            decreases t - j,
        {
            proof {
                lemma_lex_lt(i as int, j as int, cap_k as int, 0, t as int);
            }
            args.push(vals[2 + i * t + j]);
            j = j + 1;
        }
        let fi = f.eval_ext(args.as_slice());
        proof {
            lemma_lex_lt(i as int, 0, cap_k as int, 0, t as int);
            assert(u_at(2, t as int, i as int, t as int) <= u_at(2, t as int, cap_k as int, 0)) by (nonlinear_arith)
                requires i < cap_k;
            assert(e2_seq(args@) =~= vv.subrange(u_at(2, t as int, i as int, 0), u_at(2, t as int, i as int, t as int)));
        }
        f_val = f_val + gpow[i] * fi;
        i = i + 1;
    }
    let mut nc = Ext2::zero();
    let mut i: usize = 0;
    let ghost zs = vv.subrange(lay.z0 as int, lay.z0 + cap_k + k);
    while i < cap_k + k
        invariant
            i <= cap_k + k,
            dims_ok(cap_k as int, k as int, t as int),
            layout_ok(*lay, cap_k as int, k as int, t as int),
            vals@.len() == lay.v0 + k * t * 54,
            vv == e2_seq(vals@),
            gv == e2_seq(gpow@),
            zs == vv.subrange(lay.z0 as int, lay.z0 + cap_k + k),
            gpow@.len() == max_gamma_spec(cap_k as int, k as int, t as int, 54) + 1,
            max_gamma_spec(cap_k as int, k as int, t as int, 54) >= 2 * cap_k + k,
            1 <= b <= 0x3FFF_FFFF_FFFF_FFFF,
            nc@ == nc_part(zs, gv, b as int, i as int),
        decreases cap_k + k - i,
    {
        nc = nc + gpow[i] * range_product(vals[lay.z0 + i], b);
        i = i + 1;
    }
    let mut ev = Ext2::zero();
    let ghost yss = vals_blocks(vv, lay.v0 as int, t as int, k as int);
    let mut ci: usize = 0;
    while ci < k
        invariant
            ci <= k,
            dims_ok(cap_k as int, k as int, t as int),
            layout_ok(*lay, cap_k as int, k as int, t as int),
            vals@.len() == lay.v0 + k * t * 54,
            vv == e2_seq(vals@),
            gv == e2_seq(gpow@),
            yss == vals_blocks(vv, lay.v0 as int, t as int, k as int),
            gpow@.len() == max_gamma_spec(cap_k as int, k as int, t as int, 54) + 1,
            k > 0 ==> max_gamma_spec(cap_k as int, k as int, t as int, 54) >= k * t * 54 - 1,
            k * t * 54 + cap_k * t + 2 * cap_k + k + 2 <= usize::MAX,
            ev@ == ev_sum(yss, gv, k as int, t as int, ci as int),
        decreases k - ci,
    {
        let mut acc_j = Ext2::zero();
        let mut j: usize = 0;
        while j < t
            invariant
                ci < k,
                j <= t,
                dims_ok(cap_k as int, k as int, t as int),
                layout_ok(*lay, cap_k as int, k as int, t as int),
                vals@.len() == lay.v0 + k * t * 54,
                vv == e2_seq(vals@),
                gv == e2_seq(gpow@),
                yss == vals_blocks(vv, lay.v0 as int, t as int, k as int),
                gpow@.len() == max_gamma_spec(cap_k as int, k as int, t as int, 54) + 1,
                max_gamma_spec(cap_k as int, k as int, t as int, 54) >= k * t * 54 - 1,
                k * t * 54 + cap_k * t + 2 * cap_k + k + 2 <= usize::MAX,
                acc_j@ == ev_j(yss[ci as int], gv, ci as int, k as int, t as int, j as int),
            decreases t - j,
        {
            let mut acc_l = Ext2::zero();
            let mut l: usize = 0;
            while l < 54
                invariant
                    ci < k,
                    j < t,
                    l <= 54,
                    dims_ok(cap_k as int, k as int, t as int),
                    layout_ok(*lay, cap_k as int, k as int, t as int),
                    vals@.len() == lay.v0 + k * t * 54,
                    vv == e2_seq(vals@),
                    gv == e2_seq(gpow@),
                    yss == vals_blocks(vv, lay.v0 as int, t as int, k as int),
                    gpow@.len() == max_gamma_spec(cap_k as int, k as int, t as int, 54) + 1,
                    max_gamma_spec(cap_k as int, k as int, t as int, 54) >= k * t * 54 - 1,
                    k * t * 54 + cap_k * t + 2 * cap_k + k + 2 <= usize::MAX,
                    acc_l@ == ev_l(yss[ci as int][j as int], gv, ci + k * j, k * t, l as int),
                decreases 54 - l,
            {
                proof {
                    lemma_ev_index(ci as int, j as int, l as int, k as int, t as int);
                    lemma_lex_lt(ci as int, j as int, k as int, 0, t as int);
                    lemma_lex_lt(ci * t + j, l as int, k * t, 0, 54);
                    assert(k * t * 54 == (k * t) * 54);
                }
                let idx = ci + k * j + k * t * l;
                let vi = lay.v0 + (ci * t + j) * 54 + l;
                acc_l = acc_l + gpow[idx] * vals[vi];
                l = l + 1;
            }
            acc_j = acc_j + acc_l;
            j = j + 1;
        }
        ev = ev + acc_j;
        ci = ci + 1;
    }
    eq_a * (f_val + gpow[cap_k] * nc) + gpow[2 * cap_k + k] * eq_r * ev
}

/// The `R_K` element views of each row, in order.
pub open spec fn absorb_rows(t: TrView, label: Seq<u8>, rows: Seq<Vec<RingK>>) -> TrView
    decreases rows.len(),
{
    if rows.len() == 0 {
        t
    } else {
        absorb_ringks(absorb_rows(t, label, rows.drop_last()), label, rk_views(rows.last()@))
    }
}

/// The output instances: instance `i` keeps its commitment (fresh first, then carried),
/// moves to the point `r`, and claims `evals[i]`.
pub open spec fn outputs_ok(
    out: Seq<CeInstance>,
    fresh: Seq<CcsInstance>,
    carried: Seq<CeInstance>,
    r: Seq<E2>,
    evals: Seq<Vec<RingK>>,
) -> bool {
    &&& out.len() == fresh.len() + carried.len()
    &&& forall|i: int|
        0 <= i < out.len() ==> (#[trigger] out[i])@ == (
            if i < fresh.len() {
                fresh[i]@
            } else {
                carried[i - fresh.len()]@.0
            },
            r,
            rk_views(evals[i]@),
        )
}

/// Assemble the output CE instances at point `r'` with the claimed evaluations.
fn output_instances(
    fresh: &[CcsInstance],
    carried: &[CeInstance],
    r_prime: &[Ext2],
    evals: &[Vec<RingK>],
) -> (out: Vec<CeInstance>)
    requires
        evals@.len() == fresh@.len() + carried@.len(),
        fresh@.len() + carried@.len() <= usize::MAX,
    ensures
        outputs_ok(out@, fresh@, carried@, e2_seq(r_prime@), evals@),
{
    let cap_k = fresh.len();
    let n = fresh.len() + carried.len();
    let mut out: Vec<CeInstance> = Vec::new();
    let mut i: usize = 0;
    while i < n
        invariant
            i <= n,
            cap_k == fresh@.len(),
            n == fresh@.len() + carried@.len(),
            evals@.len() == n,
            out@.len() == i,
            forall|i2: int|
                0 <= i2 < i ==> (#[trigger] out@[i2])@ == (
                    if i2 < fresh@.len() {
                        fresh@[i2]@
                    } else {
                        carried@[i2 - fresh@.len()]@.0
                    },
                    e2_seq(r_prime@),
                    rk_views(evals@[i2]@),
                ),
        decreases n - i,
    {
        let c = if i < cap_k {
            fresh[i].c.duplicate()
        } else {
            carried[i - cap_k].c.duplicate()
        };
        let inst = CeInstance {
            c,
            r: vstd::slice::slice_to_vec(r_prime),
            y: vstd::slice::slice_to_vec(evals[i].as_slice()),
        };
        out.push(inst);
        i = i + 1;
    }
    out
}

/// The ring witness of instance `i` of a Π_CCS run: the embedding of a fresh field
/// witness, or a carried ring witness.
pub open spec fn witness_ring(fresh_wit: Seq<CcsWitness>, carried_wit: Seq<CeWitness>, i: int) -> Seq<Seq<nat>> {
    if i < fresh_wit.len() {
        crate::maps::embed_spec(crate::fp::fp_seq(fresh_wit[i].z@))
    } else {
        ring_seq(carried_wit[i - fresh_wit.len()].z_ring@)
    }
}

/// The field coefficients of a vector of ring elements, `54` per element.
pub open spec fn flat_spec(zr: Seq<Seq<nat>>) -> Seq<nat> {
    Seq::new(zr.len() * 54, |c: int| zr[c / 54][c % 54])
}

/// The field witness of instance `i` of a Π_CCS run: a fresh witness, or a carried ring
/// witness flattened.
pub open spec fn witness_field(fresh_wit: Seq<CcsWitness>, carried_wit: Seq<CeWitness>, i: int) -> Seq<nat> {
    if i < fresh_wit.len() {
        crate::fp::fp_seq(fresh_wit[i].z@)
    } else {
        flat_spec(ring_seq(carried_wit[i - fresh_wit.len()].z_ring@))
    }
}

/// The table layout for `K` fresh and `k` carried instances of `t` matrices.
pub open spec fn piccs_layout(cap_k: int, k: int, t: int) -> Layout {
    Layout { eq_r: 1, u0: 2, z0: (2 + cap_k * t) as usize, v0: (2 + cap_k * t + cap_k + k) as usize }
}

/// The sum-check tables of a Π_CCS run: `eq(alpha, .)`; `eq(r, .)` for the carried
/// point (zero without carried instances); `M_j z_i` for the fresh instances; every
/// instance's field witness; and the coefficient tables `cf(bar(M_j) z_ci)_l` of the
/// carried instances, each padded to `2^log_m` entries.
pub open spec fn piccs_tables_ok(
    tabs: Seq<Seq<E2>>,
    gp: GlobalParams,
    s: CcsStructure,
    alpha: Seq<E2>,
    carried: Seq<CeInstance>,
    fresh_wit: Seq<CcsWitness>,
    carried_wit: Seq<CeWitness>,
) -> bool {
    let cap_k = fresh_wit.len() as int;
    let k = carried_wit.len() as int;
    let t = s.matrices@.len() as int;
    let mm = pow2(gp.log_m as nat);
    let lay = piccs_layout(cap_k, k, t);
    &&& tabs.len() == lay.v0 + k * t * 54
    &&& forall|ti: int| 0 <= ti < tabs.len() ==> (#[trigger] tabs[ti]).len() == mm
    &&& tabs[0] == eq_tab(alpha, gp.log_m as nat)
    &&& tabs[1] == if k > 0 {
        eq_tab(carried[0]@.1, gp.log_m as nat)
    } else {
        Seq::new(mm, |x: int| e2_zero())
    }
    &&& forall|i: int, j: int|
        0 <= i < cap_k && 0 <= j < t ==> tabs[u_at(2, t, i, j)] == #[trigger] u_table(
            s.mat(j),
            crate::fp::fp_seq(fresh_wit[i].z@),
            mm,
        )
    &&& forall|i: int|
        0 <= i < cap_k + k ==> #[trigger] tabs[lay.z0 + i] == pad(base_seq(witness_field(fresh_wit, carried_wit, i)), mm)
    &&& forall|ci: int, j: int, l: int|
        0 <= ci < k && 0 <= j < t && 0 <= l < 54 ==> #[trigger] tabs[v_at(lay.v0 as int, t, ci, j, l)] == v_table(
            s.mat(j),
            ring_seq(carried_wit[ci].z_ring@),
            l,
            mm,
        )
}

/// The summand of a Π_CCS run, as a function of one value per table.
pub open spec fn piccs_summand(
    t0: TrView,
    gp: GlobalParams,
    s: CcsStructure,
    fresh: Seq<CcsInstance>,
    carried: Seq<CeInstance>,
) -> spec_fn(Seq<E2>) -> E2 {
    |v: Seq<E2>|
        combine_spec(
            v,
            piccs_layout(fresh.len() as int, carried.len() as int, s.matrices@.len() as int),
            &s.f,
            piccs_gpow_of(t0, gp, s, fresh, carried),
            fresh.len() as int,
            carried.len() as int,
            s.matrices@.len() as int,
            gp.b as int,
        )
}

/// Every sum-check round of the proof passes against the true sum of the summand over
/// the tables, and the reduced claim is the summand at the tables' multilinear
/// extensions at the sum-check point.
pub open spec fn piccs_sc_complete(
    tabs: Seq<Seq<E2>>,
    t0: TrView,
    gp: GlobalParams,
    s: CcsStructure,
    fresh: Seq<CcsInstance>,
    carried: Seq<CeInstance>,
    proof: PiCcsProof,
) -> bool {
    let f = piccs_summand(t0, gp, s, fresh, carried);
    let d = piccs_degree(gp, s, fresh.len() as int) as nat;
    let sum = hyper_sum(f, tabs, pow2(gp.log_m as nat));
    let t2 = piccs_t2(t0, gp, s, fresh, carried);
    &&& forall|i: int| 0 <= i < gp.log_m ==> #[trigger] sc_round_ok(t2, proof.sumcheck@, sum, d, i)
    &&& sc_claim(t2, proof.sumcheck@, sum, gp.log_m as int) == f(
        Seq::new(tabs.len(), |ti: int| crate::multilinear::mle(tabs[ti], piccs_rprime(t0, gp, s, fresh, carried, proof))),
    )
}

/// The number of tables of a Π_CCS run.
pub open spec fn piccs_ntabs(cap_k: int, k: int, t: int) -> nat {
    (piccs_layout(cap_k, k, t).v0 + k * t * 54) as nat
}

/// The summand of a Π_CCS run has degree at most the round degree along every line
/// through canonical points.
pub open spec fn piccs_low_degree(
    t0: TrView,
    gp: GlobalParams,
    s: CcsStructure,
    fresh: Seq<CcsInstance>,
    carried: Seq<CeInstance>,
) -> bool {
    low_degree(
        piccs_summand(t0, gp, s, fresh, carried),
        piccs_ntabs(fresh.len() as int, carried.len() as int, s.matrices@.len() as int),
        piccs_degree(gp, s, fresh.len() as int) as nat,
    )
}

/// What the prover's Π_CCS proof from these witnesses satisfies: the sum-check has
/// `log_m` rounds, the claimed evaluations are the witnesses' evaluation claims at the
/// sum-check point, and the rounds were computed over the run's tables.
pub open spec fn piccs_proved(
    t0: TrView,
    gp: GlobalParams,
    s: CcsStructure,
    fresh: Seq<CcsInstance>,
    carried: Seq<CeInstance>,
    fresh_wit: Seq<CcsWitness>,
    carried_wit: Seq<CeWitness>,
    proof: PiCcsProof,
) -> bool {
    let n = fresh.len() + carried.len();
    let rp = piccs_rprime(t0, gp, s, fresh, carried, proof);
    &&& proof.sumcheck@.len() == gp.log_m
    &&& piccs_shape_ok(proof.evals@, n, s.matrices@.len())
    &&& forall|i: int, j: int|
        0 <= i < n && 0 <= j < s.matrices@.len() ==> (#[trigger] proof.evals@[i]@[j])@
            == crate::types::eval_claim(s.mat(j), witness_ring(fresh_wit, carried_wit, i), rp)
    &&& exists|tabs: Seq<Seq<E2>>|
        #[trigger] piccs_tables_ok(
            tabs,
            gp,
            s,
            piccs_alpha(piccs_bound(t0, s, fresh, carried), gp.log_m as nat),
            carried,
            fresh_wit,
            carried_wit,
        ) && (forall|ti: int| 0 <= ti < tabs.len() ==> crate::sc_complete::seq_canon(#[trigger] tabs[ti]))
            && piccs_sc_complete(tabs, t0, gp, s, fresh, carried, proof)
}

/// The inputs of a Π_CCS run are consistent with the parameters.
pub open spec fn piccs_inputs_ok(
    gp: GlobalParams,
    s: CcsStructure,
    fresh: Seq<CcsInstance>,
    carried: Seq<CeInstance>,
) -> bool {
    &&& gp.wf()
    &&& s.wf()
    &&& s.m == gp.m
    &&& s.f.degree_bounded((Q - 3) as nat)
    &&& s.f.degree_bounded((usize::MAX - 2) as nat)
    &&& dims_ok(fresh.len() as int, carried.len() as int, s.matrices@.len() as int)
    &&& forall|i: int|
        0 <= i < carried.len() ==> (#[trigger] carried[i]).r@.len() == gp.log_m && carried[i].y@.len()
            == s.matrices@.len()
}

/// The powers of gamma a Π_CCS run uses.
pub open spec fn piccs_gpow(gamma: E2, cap_k: int, k: int, t: int) -> Seq<E2> {
    Seq::new((max_gamma_spec(cap_k, k, t, 54) + 1) as nat, |i: int| e2_pow(gamma, i as nat))
}

/// The round degree of a Π_CCS run.
pub open spec fn piccs_degree(gp: GlobalParams, s: CcsStructure, cap_k: int) -> int {
    round_degree_spec(cap_k, gp.b as int, deg_upto(s.f.terms@, s.f.terms@.len() as int) as int)
}

/// The transcript when the sum-check starts.
#[verifier::opaque]
pub open spec fn piccs_t2(t0: TrView, gp: GlobalParams, s: CcsStructure, fresh: Seq<CcsInstance>, carried: Seq<CeInstance>) -> TrView {
    piccs_after_challenges(piccs_bound(t0, s, fresh, carried), gp.log_m as nat)
}

/// The gamma powers a run derives from the transcript.
#[verifier::opaque]
pub open spec fn piccs_gpow_of(t0: TrView, gp: GlobalParams, s: CcsStructure, fresh: Seq<CcsInstance>, carried: Seq<CeInstance>) -> Seq<E2> {
    piccs_gpow(
        piccs_gamma(piccs_bound(t0, s, fresh, carried), gp.log_m as nat),
        fresh.len() as int,
        carried.len() as int,
        s.matrices@.len() as int,
    )
}

/// The sum the verifier expects.
#[verifier::opaque]
pub open spec fn piccs_claimed(t0: TrView, gp: GlobalParams, s: CcsStructure, fresh: Seq<CcsInstance>, carried: Seq<CeInstance>) -> E2 {
    claimed_sum_spec(carried, piccs_gpow_of(t0, gp, s, fresh, carried), fresh.len() as int, s.matrices@.len() as int)
}

/// Every sum-check round of the proof passes.
#[verifier::opaque]
pub open spec fn piccs_sc_ok(
    t0: TrView,
    gp: GlobalParams,
    s: CcsStructure,
    fresh: Seq<CcsInstance>,
    carried: Seq<CeInstance>,
    proof: PiCcsProof,
) -> bool {
    &&& proof.sumcheck@.len() == gp.log_m
    &&& forall|i: int|
        0 <= i < gp.log_m ==> #[trigger] crate::sumcheck::sc_round_ok(
            piccs_t2(t0, gp, s, fresh, carried),
            proof.sumcheck@,
            piccs_claimed(t0, gp, s, fresh, carried),
            piccs_degree(gp, s, fresh.len() as int) as nat,
            i,
        )
}

/// The claimed evaluations have one row of `t` per instance.
pub open spec fn piccs_shape_ok(evals: Seq<Vec<RingK>>, n: nat, t: nat) -> bool {
    &&& evals.len() == n
    &&& forall|i: int| 0 <= i < n ==> (#[trigger] evals[i])@.len() == t
}

/// `sum_{i<n} gamma^i f(ct(ev[i][0]), ..., ct(ev[i][t-1]))`.
pub open spec fn fv_part(ev: Seq<Seq<Seq<E2>>>, gpow: Seq<E2>, f: SparsePoly, t: int, n: int) -> E2
    decreases n,
{
    if n <= 0 {
        e2_zero()
    } else {
        e2_add(
            fv_part(ev, gpow, f, t, n - 1),
            e2_mul(gpow[n - 1], f.eval_spec(Seq::new(t as nat, |j: int| ev[n - 1][j][0]))),
        )
    }
}

/// `sum_{i<n} gamma^i range_poly(ct(ev[i][0]))`.
pub open spec fn nv_part(ev: Seq<Seq<Seq<E2>>>, gpow: Seq<E2>, b: int, n: int) -> E2
    decreases n,
{
    if n <= 0 {
        e2_zero()
    } else {
        e2_add(nv_part(ev, gpow, b, n - 1), e2_mul(gpow[n - 1], range_poly(ev[n - 1][0][0], b)))
    }
}

/// `Q(r')` rebuilt from the claimed evaluations.
pub open spec fn q_from_evals(
    ev: Seq<Seq<Seq<E2>>>,
    alpha: Seq<E2>,
    gpow: Seq<E2>,
    rp: Seq<E2>,
    r0: Seq<E2>,
    f: SparsePoly,
    cap_k: int,
    k: int,
    t: int,
    b: int,
) -> E2 {
    let f_val = fv_part(ev, gpow, f, t, cap_k);
    let n_val = nv_part(ev, gpow, b, cap_k + k);
    let e_val = if k > 0 {
        e2_mul(eq_spec(rp, r0, rp.len() as int), ev_sum(ev.subrange(cap_k, cap_k + k), gpow, k, t, k))
    } else {
        e2_zero()
    };
    e2_add(
        e2_mul(eq_spec(rp, alpha, rp.len() as int), e2_add(f_val, e2_mul(gpow[cap_k], n_val))),
        e2_mul(gpow[2 * cap_k + k], e_val),
    )
}

/// The sum-check point of a run.
#[verifier::opaque]
pub open spec fn piccs_rprime(t0: TrView, gp: GlobalParams, s: CcsStructure, fresh: Seq<CcsInstance>, carried: Seq<CeInstance>, proof: PiCcsProof) -> Seq<E2> {
    sc_point(piccs_t2(t0, gp, s, fresh, carried), proof.sumcheck@)
}

/// `Q(r')` as the verifier rebuilds it.
#[verifier::opaque]
pub open spec fn piccs_q(t0: TrView, gp: GlobalParams, s: CcsStructure, fresh: Seq<CcsInstance>, carried: Seq<CeInstance>, proof: PiCcsProof) -> E2 {
    q_from_evals(
        rows_views(proof.evals@),
        piccs_alpha(piccs_bound(t0, s, fresh, carried), gp.log_m as nat),
        piccs_gpow_of(t0, gp, s, fresh, carried),
        piccs_rprime(t0, gp, s, fresh, carried, proof),
        if carried.len() > 0 { carried[0]@.1 } else { Seq::empty() },
        s.f,
        fresh.len() as int,
        carried.len() as int,
        s.matrices@.len() as int,
        gp.b as int,
    )
}

/// The reduced claim the sum-check ends with.
#[verifier::opaque]
pub open spec fn piccs_final_claim(t0: TrView, gp: GlobalParams, s: CcsStructure, fresh: Seq<CcsInstance>, carried: Seq<CeInstance>, proof: PiCcsProof) -> E2 {
    crate::sumcheck::sc_claim(
        piccs_t2(t0, gp, s, fresh, carried),
        proof.sumcheck@,
        piccs_claimed(t0, gp, s, fresh, carried),
        gp.log_m as int,
    )
}

/// The field and ring witnesses of a Π_CCS run: the fresh field witnesses, every
/// instance's field witness (carried ones flattened), every instance's ring witness
/// (fresh ones embedded), and the carried ring witnesses.
fn prepare_witnesses(
    gp: &GlobalParams,
    fresh_wit: &[CcsWitness],
    carried_wit: &[CeWitness],
) -> (res: (Vec<Vec<Fp>>, Vec<Vec<Fp>>, Vec<Vec<RingElem>>, Vec<Vec<RingElem>>))
    requires
        gp.wf(),
        fresh_wit@.len() + carried_wit@.len() <= usize::MAX,
        forall|i: int| 0 <= i < fresh_wit@.len() ==> (#[trigger] fresh_wit@[i]).z@.len() == gp.m,
        forall|i: int| 0 <= i < carried_wit@.len() ==> (#[trigger] carried_wit@[i]).z_ring@.len() == gp.n_r,
    ensures
        ({
            let (fresh_z, all_z, all_zr, carried_zr) = res;
            let cap_k = fresh_wit@.len();
            let k = carried_wit@.len();
            &&& fresh_z@.len() == cap_k
            &&& all_z@.len() == cap_k + k
            &&& all_zr@.len() == cap_k + k
            &&& carried_zr@.len() == k
            &&& forall|i: int| 0 <= i < cap_k ==> (#[trigger] fresh_z@[i])@ == fresh_wit@[i].z@
            &&& forall|i: int| 0 <= i < cap_k + k ==> (#[trigger] all_z@[i])@.len() == gp.m
            &&& forall|i: int| 0 <= i < cap_k + k ==> (#[trigger] all_zr@[i])@.len() == gp.n_r
            &&& forall|i: int| 0 <= i < k ==> (#[trigger] carried_zr@[i])@ == carried_wit@[i].z_ring@
            &&& forall|i: int|
                0 <= i < cap_k + k ==> ring_seq((#[trigger] all_zr@[i])@) == witness_ring(fresh_wit@, carried_wit@, i)
            &&& forall|i: int|
                0 <= i < cap_k + k ==> crate::fp::fp_seq((#[trigger] all_z@[i])@) == witness_field(fresh_wit@, carried_wit@, i)
        }),
{
    let cap_k = fresh_wit.len();
    let k = carried_wit.len();
    // Ring witnesses and field witnesses (length m) for all K + k instances.
    let mut fresh_z: Vec<Vec<Fp>> = Vec::new();
    let mut all_z: Vec<Vec<Fp>> = Vec::new();
    let mut all_zr: Vec<Vec<RingElem>> = Vec::new();
    let mut carried_zr: Vec<Vec<RingElem>> = Vec::new();
    let mut i: usize = 0;
    while i < cap_k
        invariant
            i <= cap_k,
            cap_k == fresh_wit@.len(),
            gp.wf(),
            forall|i2: int| 0 <= i2 < fresh_wit@.len() ==> (#[trigger] fresh_wit@[i2]).z@.len() == gp.m,
            fresh_z@.len() == i,
            all_z@.len() == i,
            all_zr@.len() == i,
            forall|i2: int| 0 <= i2 < i ==> (#[trigger] fresh_z@[i2])@ == fresh_wit@[i2].z@,
            forall|i2: int| 0 <= i2 < i ==> (#[trigger] all_z@[i2])@ == fresh_wit@[i2].z@,
            forall|i2: int| 0 <= i2 < i ==> (#[trigger] all_zr@[i2])@.len() == gp.n_r,
            forall|i2: int| 0 <= i2 < i ==> (#[trigger] all_z@[i2])@.len() == gp.m,
            forall|i2: int| 0 <= i2 < i ==> ring_seq((#[trigger] all_zr@[i2])@) == witness_ring(fresh_wit@, carried_wit@, i2),
            forall|i2: int| 0 <= i2 < i ==> crate::fp::fp_seq((#[trigger] all_z@[i2])@) == witness_field(fresh_wit@, carried_wit@, i2),
        decreases cap_k - i,
    {
        let z = &fresh_wit[i].z;
        fresh_z.push(vstd::slice::slice_to_vec(z.as_slice()));
        all_z.push(vstd::slice::slice_to_vec(z.as_slice()));
        let zr = crate::types::embed_witness(z.as_slice());
        all_zr.push(zr);
        i = i + 1;
    }
    let mut ci: usize = 0;
    while ci < k
        invariant
            ci <= k,
            k == carried_wit@.len(),
            cap_k == fresh_wit@.len(),
            gp.wf(),
            forall|i2: int| 0 <= i2 < carried_wit@.len() ==> (#[trigger] carried_wit@[i2]).z_ring@.len() == gp.n_r,
            all_z@.len() == cap_k + ci,
            all_zr@.len() == cap_k + ci,
            carried_zr@.len() == ci,
            forall|i2: int| 0 <= i2 < cap_k ==> (#[trigger] all_z@[i2])@ == fresh_wit@[i2].z@,
            forall|i2: int| 0 <= i2 < cap_k + ci ==> (#[trigger] all_z@[i2])@.len() == gp.m,
            forall|i2: int| 0 <= i2 < cap_k + ci ==> (#[trigger] all_zr@[i2])@.len() == gp.n_r,
            forall|i2: int| 0 <= i2 < ci ==> (#[trigger] carried_zr@[i2])@ == carried_wit@[i2].z_ring@,
            forall|i2: int| 0 <= i2 < cap_k + ci ==> ring_seq((#[trigger] all_zr@[i2])@) == witness_ring(fresh_wit@, carried_wit@, i2),
            forall|i2: int| 0 <= i2 < cap_k + ci ==> crate::fp::fp_seq((#[trigger] all_z@[i2])@) == witness_field(fresh_wit@, carried_wit@, i2),
        decreases k - ci,
    {
        let zr = &carried_wit[ci].z_ring;
        carried_zr.push(vstd::slice::slice_to_vec(zr.as_slice()));
        all_zr.push(vstd::slice::slice_to_vec(zr.as_slice()));
        let flat = crate::types::flatten_ring(zr.as_slice());
        proof {
            let zs = ring_seq(zr@);
            assert forall|c: int| 0 <= c < flat@.len() implies #[trigger] crate::fp::fp_seq(flat@)[c] == flat_spec(zs)[c] by {
                vstd::arithmetic::div_mod::lemma_fundamental_div_mod(c, 54);
                assert(0 <= c % 54 < 54);
                assert(0 <= c / 54 < zr@.len()) by (nonlinear_arith)
                    requires 0 <= c < zr@.len() * 54, c == 54 * (c / 54) + c % 54, 0 <= c % 54 < 54;
                assert(flat@[(c / 54) * 54 + c % 54]@ == zr@[c / 54]@[c % 54]);
                assert((c / 54) * 54 + c % 54 == c);
            }
            assert(crate::fp::fp_seq(flat@) =~= flat_spec(zs));
        }
        all_z.push(flat);
        ci = ci + 1;
    }
    (fresh_z, all_z, all_zr, carried_zr)
}

/// The claimed evaluations `y'_{i,j} = ~(bar(M_j) z_i)(r')` of every instance.
fn claimed_evals(gp: &GlobalParams, s: &CcsStructure, all_zr: &[Vec<RingElem>], r_prime: &[Ext2]) -> (evals: Vec<Vec<RingK>>)
    requires
        gp.wf(),
        s.wf(),
        s.m == gp.m,
        r_prime@.len() == gp.log_m,
        forall|i2: int| 0 <= i2 < all_zr@.len() ==> (#[trigger] all_zr@[i2])@.len() == gp.n_r,
    ensures
        evals@.len() == all_zr@.len(),
        forall|i2: int| 0 <= i2 < all_zr@.len() ==> (#[trigger] evals@[i2])@.len() == s.matrices@.len(),
        forall|i2: int, j: int|
            0 <= i2 < all_zr@.len() && 0 <= j < s.matrices@.len() ==> (#[trigger] evals@[i2]@[j])@
                == crate::types::eval_claim(s.mat(j), ring_seq(all_zr@[i2]@), e2_seq(r_prime@)),
{
    let mut evals: Vec<Vec<RingK>> = Vec::new();
    let mut i: usize = 0;
    while i < all_zr.len()
        invariant
            i <= all_zr@.len(),
            gp.wf(),
            s.wf(),
            s.m == gp.m,
            r_prime@.len() == gp.log_m,
            forall|i2: int| 0 <= i2 < all_zr@.len() ==> (#[trigger] all_zr@[i2])@.len() == gp.n_r,
            evals@.len() == i,
            forall|i2: int| 0 <= i2 < i ==> (#[trigger] evals@[i2])@.len() == s.matrices@.len(),
            forall|i2: int, j: int|
                0 <= i2 < i && 0 <= j < s.matrices@.len() ==> (#[trigger] evals@[i2]@[j])@
                    == crate::types::eval_claim(s.mat(j), ring_seq(all_zr@[i2]@), e2_seq(r_prime@)),
        decreases all_zr@.len() - i,
    {
        let row = crate::types::compute_evals(s, all_zr[i].as_slice(), r_prime);
        evals.push(row);
        i = i + 1;
    }
    evals
}

/// Absorb every claimed evaluation, row by row, under "piccs/yprime".
fn absorb_eval_rows(tr: &mut Transcript, evals: &[Vec<RingK>])
    ensures
        final(tr)@ == absorb_rows(old(tr)@, piccs_yprime_tag(), evals@),
{
    let yp_lbl: [u8; 12] = [112u8, 105, 99, 99, 115, 47, 121, 112, 114, 105, 109, 101];
    assert(yp_lbl@ =~= piccs_yprime_tag());
    let mut i: usize = 0;
    while i < evals.len()
        invariant
            i <= evals@.len(),
            yp_lbl@ == piccs_yprime_tag(),
            tr@ == absorb_rows(old(tr)@, piccs_yprime_tag(), evals@.take(i as int)),
        decreases evals@.len() - i,
    {
        absorb_ringk_vec(tr, yp_lbl.as_slice(), evals[i].as_slice());
        proof {
            assert(evals@.take(i + 1).drop_last() =~= evals@.take(i as int));
        }
        i = i + 1;
    }
    assert(evals@.take(evals@.len() as int) =~= evals@);
}

/// One CE witness per ring witness.
fn ring_witnesses(all_zr: &[Vec<RingElem>]) -> (out: Vec<CeWitness>)
    ensures
        out@.len() == all_zr@.len(),
        forall|i2: int| 0 <= i2 < all_zr@.len() ==> (#[trigger] out@[i2]).z_ring@ == all_zr@[i2]@,
{
    let mut out_wit: Vec<CeWitness> = Vec::new();
    let mut i: usize = 0;
    while i < all_zr.len()
        invariant
            i <= all_zr@.len(),
            out_wit@.len() == i,
            forall|i2: int| 0 <= i2 < i ==> (#[trigger] out_wit@[i2]).z_ring@ == all_zr@[i2]@,
        decreases all_zr@.len() - i,
    {
        out_wit.push(CeWitness { z_ring: vstd::slice::slice_to_vec(all_zr[i].as_slice()) });
        i = i + 1;
    }
    out_wit
}

/// The tables `build_tables` returns for a run are the tables `piccs_tables_ok` describes,
/// with canonical entries.
proof fn lemma_tables_described(
    tables: Seq<Vec<Ext2>>,
    lay: Layout,
    gp: GlobalParams,
    s: CcsStructure,
    alpha: Seq<E2>,
    carried: Seq<CeInstance>,
    fresh_wit: Seq<CcsWitness>,
    carried_wit: Seq<CeWitness>,
    fresh_z: Seq<Vec<Fp>>,
    all_z: Seq<Vec<Fp>>,
    carried_zr: Seq<Vec<RingElem>>,
)
    requires
        fresh_z.len() == fresh_wit.len(),
        carried_zr.len() == carried_wit.len(),
        all_z.len() == fresh_wit.len() + carried_wit.len(),
        forall|i: int| 0 <= i < fresh_wit.len() ==> (#[trigger] fresh_z[i])@ == fresh_wit[i].z@,
        forall|i: int| 0 <= i < carried_wit.len() ==> (#[trigger] carried_zr[i])@ == carried_wit[i].z_ring@,
        forall|i: int|
            0 <= i < all_z.len() ==> crate::fp::fp_seq((#[trigger] all_z[i])@) == witness_field(fresh_wit, carried_wit, i),
        carried_wit.len() > 0 ==> carried.len() > 0,
        lay.eq_r == 1,
        lay.u0 == 2,
        lay.z0 == 2 + fresh_z.len() * s.matrices@.len(),
        lay.v0 == lay.z0 + fresh_z.len() + carried_zr.len(),
        tables.len() == lay.v0 + carried_zr.len() * s.matrices@.len() * 54,
        forall|ti: int| 0 <= ti < tables.len() ==> (#[trigger] tables[ti])@.len() == pow2(gp.log_m as nat),
        e2_seq(tables[0]@) == eq_tab(alpha, gp.log_m as nat),
        carried_zr.len() > 0 ==> e2_seq(tables[1]@) == eq_tab(carried[0]@.1, gp.log_m as nat),
        carried_zr.len() == 0 ==> e2_seq(tables[1]@) == Seq::new(pow2(gp.log_m as nat), |x: int| e2_zero()),
        forall|i: int, j: int|
            0 <= i < fresh_z.len() && 0 <= j < s.matrices@.len() ==> e2_seq(
                (#[trigger] tables[u_at(2, s.matrices@.len() as int, i, j)])@,
            ) == u_table(s.mat(j), crate::fp::fp_seq(fresh_z[i]@), pow2(gp.log_m as nat)),
        forall|i: int|
            0 <= i < all_z.len() ==> e2_seq((#[trigger] tables[lay.z0 + i])@) == pad(
                base_seq(crate::fp::fp_seq(all_z[i]@)),
                pow2(gp.log_m as nat),
            ),
        forall|ci: int, j: int, l: int|
            0 <= ci < carried_zr.len() && 0 <= j < s.matrices@.len() && 0 <= l < 54 ==> e2_seq(
                (#[trigger] tables[v_at(lay.v0 as int, s.matrices@.len() as int, ci, j, l)])@,
            ) == v_table(s.mat(j), ring_seq(carried_zr[ci]@), l, pow2(gp.log_m as nat)),
    ensures
        piccs_tables_ok(tables_view(tables), gp, s, alpha, carried, fresh_wit, carried_wit),
        forall|ti: int| 0 <= ti < tables.len() ==> crate::sc_complete::seq_canon(#[trigger] tables_view(tables)[ti]),
{
    let tv = tables_view(tables);
    let t = s.matrices@.len() as int;
    let mm = pow2(gp.log_m as nat);
    assert forall|ti: int| 0 <= ti < tables.len() implies #[trigger] tv[ti] == e2_seq(tables[ti]@) by {}
    assert forall|ti: int| 0 <= ti < tables.len() implies crate::sc_complete::seq_canon(#[trigger] tv[ti]) by {
        assert forall|x: int| 0 <= x < tv[ti].len() implies crate::ext2::e2_canon(#[trigger] tv[ti][x]) by {
            assert(tv[ti][x] == tables[ti]@[x]@);
        }
    }
    assert forall|i: int, j: int| 0 <= i < fresh_wit.len() && 0 <= j < t implies tv[u_at(2, t, i, j)] == #[trigger] u_table(
        s.mat(j),
        crate::fp::fp_seq(fresh_wit[i].z@),
        mm,
    ) by {
        assert(e2_seq(tables[u_at(2, t, i, j)]@) == u_table(s.mat(j), crate::fp::fp_seq(fresh_z[i]@), mm));
        assert(0 <= u_at(2, t, i, j) < tables.len()) by (nonlinear_arith)
            requires
                0 <= i < fresh_wit.len(),
                0 <= j < t,
                tables.len() == 2 + fresh_wit.len() * t + fresh_wit.len() + carried_wit.len() + carried_wit.len() * t * 54,
                u_at(2, t, i, j) == 2 + i * t + j;
    }
    assert forall|i: int| 0 <= i < fresh_wit.len() + carried_wit.len() implies #[trigger] tv[lay.z0 + i] == pad(
        base_seq(witness_field(fresh_wit, carried_wit, i)),
        mm,
    ) by {
        assert(e2_seq(tables[lay.z0 + i]@) == pad(base_seq(crate::fp::fp_seq(all_z[i]@)), mm));
    }
    assert forall|ci: int, j: int, l: int|
        0 <= ci < carried_wit.len() && 0 <= j < t && 0 <= l < 54 implies #[trigger] tv[v_at(lay.v0 as int, t, ci, j, l)]
        == v_table(s.mat(j), ring_seq(carried_wit[ci].z_ring@), l, mm) by {
        assert(e2_seq(tables[v_at(lay.v0 as int, t, ci, j, l)]@) == v_table(s.mat(j), ring_seq(carried_zr[ci]@), l, mm));
        assert(0 <= v_at(lay.v0 as int, t, ci, j, l) < tables.len()) by (nonlinear_arith)
            requires
                0 <= ci < carried_wit.len(),
                0 <= j < t,
                0 <= l < 54,
                lay.v0 >= 0,
                tables.len() == lay.v0 + carried_wit.len() * t * 54,
                v_at(lay.v0 as int, t, ci, j, l) == lay.v0 + (ci * t + j) * 54 + l;
    }
}

/// Π_CCS prover. Returns the `K + k` output CE instances, their witnesses, and the proof,
/// which the verifier accepts when the witnesses are honest (see `piccs_honest`).
#[verifier::rlimit(40)]
#[verifier::spinoff_prover]
pub fn pi_ccs_prove(
    tr: &mut Transcript,
    gp: &GlobalParams,
    s: &CcsStructure,
    fresh: &[CcsInstance],
    fresh_wit: &[CcsWitness],
    carried: &[CeInstance],
    carried_wit: &[CeWitness],
) -> (res: (Vec<CeInstance>, Vec<CeWitness>, PiCcsProof))
    requires
        piccs_inputs_ok(*gp, *s, fresh@, carried@),
        fresh_wit@.len() == fresh@.len(),
        carried_wit@.len() == carried@.len(),
        forall|i: int| 0 <= i < fresh_wit@.len() ==> (#[trigger] fresh_wit@[i]).z@.len() == gp.m,
        forall|i: int| 0 <= i < carried_wit@.len() ==> (#[trigger] carried_wit@[i]).z_ring@.len() == gp.n_r,
    ensures
        ({
            let (out, out_wit, proof) = res;
            let n = fresh@.len() + carried@.len();
            let rp = piccs_rprime(old(tr)@, *gp, *s, fresh@, carried@, proof);
            &&& proof.sumcheck@.len() == gp.log_m
            &&& forall|i: int|
                0 <= i < gp.log_m ==> (#[trigger] proof.sumcheck@[i]).len() == piccs_degree(
                    *gp,
                    *s,
                    fresh@.len() as int,
                ) + 1
            &&& piccs_shape_ok(proof.evals@, n, s.matrices@.len())
            &&& forall|i: int, j: int|
                0 <= i < n && 0 <= j < s.matrices@.len() ==> (#[trigger] proof.evals@[i]@[j])@
                    == crate::types::eval_claim(s.mat(j), witness_ring(fresh_wit@, carried_wit@, i), rp)
            &&& outputs_ok(out@, fresh@, carried@, rp, proof.evals@)
            &&& out_wit@.len() == n
            &&& forall|i: int|
                0 <= i < n ==> ring_seq((#[trigger] out_wit@[i]).z_ring@) == witness_ring(
                    fresh_wit@,
                    carried_wit@,
                    i,
                )
            &&& final(tr)@ == absorb_rows(
                sc_state(piccs_t2(old(tr)@, *gp, *s, fresh@, carried@), proof.sumcheck@),
                piccs_yprime_tag(),
                proof.evals@,
            )
            &&& piccs_proved(old(tr)@, *gp, *s, fresh@, carried@, fresh_wit@, carried_wit@, proof)
            &&& crate::ccs_complete::piccs_honest(*gp, *s, carried@, fresh_wit@, carried_wit@) ==> {
                &&& piccs_sc_ok(old(tr)@, *gp, *s, fresh@, carried@, proof)
                &&& piccs_q(old(tr)@, *gp, *s, fresh@, carried@, proof) == piccs_final_claim(
                    old(tr)@,
                    *gp,
                    *s,
                    fresh@,
                    carried@,
                    proof,
                )
            }
        }),
{
    let cap_k = fresh.len();
    let k = carried.len();
    let t = s.t();
    let d: usize = 54;
    proof {
        lemma_dims(cap_k as int, k as int, t as int);
    }
    let (alpha, gamma) = absorb_inputs_and_challenges(tr, gp, s, fresh, carried);
    let ghost t2 = tr@;
    assert(e2_seq(alpha@).len() == alpha@.len());
    let gpow = gamma_powers(gamma, max_gamma_index(cap_k, k, t, d));
    let fdeg = s.f.degree();
    let degree = round_degree(cap_k, gp.b, fdeg);
    let (fresh_z, all_z, all_zr, carried_zr) = prepare_witnesses(gp, fresh_wit, carried_wit);
    let (tables, lay) = if k > 0 {
        build_tables(gp, s, alpha.as_slice(), Some(carried[0].r.as_slice()), fresh_z.as_slice(), all_z.as_slice(), carried_zr.as_slice())
    } else {
        build_tables(gp, s, alpha.as_slice(), None, fresh_z.as_slice(), all_z.as_slice(), carried_zr.as_slice())
    };
    let n_tables = tables.len();
    let ghost tabs0 = tables_view(tables@);
    let ghost alpha_v = piccs_alpha(piccs_bound(old(tr)@, *s, fresh@, carried@), gp.log_m as nat);
    proof {
        lemma_tables_described(
            tables@,
            lay,
            *gp,
            *s,
            e2_seq(alpha@),
            carried@,
            fresh_wit@,
            carried_wit@,
            fresh_z@,
            all_z@,
            carried_zr@,
        );
    }
    let b = gp.b;
    let lay_ref = &lay;
    let gp_ref = gpow.as_slice();
    let f_ref = &s.f;
    let comb = |vals: &[Ext2]| -> (o: Ext2)
        requires
            vals@.len() == n_tables,
            n_tables == lay_ref.v0 + k * t * 54,
            dims_ok(cap_k as int, k as int, t as int),
            layout_ok(*lay_ref, cap_k as int, k as int, t as int),
            f_ref.wf(),
            f_ref.t == t,
            gp_ref@.len() == max_gamma_spec(cap_k as int, k as int, t as int, 54) + 1,
            1 <= b <= 0x3FFF_FFFF_FFFF_FFFF,
        ensures
            o@ == combine_spec(e2_seq(vals@), *lay_ref, f_ref, e2_seq(gp_ref@), cap_k as int, k as int, t as int, b as int),
        { combine(vals, lay_ref, f_ref, gp_ref, cap_k, k, t, b) };
    proof {
        lemma2_to64();
    }
    let (sc_proof, r_prime) = sumcheck_prove(tables, comb, degree, gp.log_m, tr);
    proof {
        crate::sumcheck::lemma_sc_prefix(t2, sc_proof@, 0);
        assert(e2_seq(r_prime@).len() == r_prime@.len());
        let f = piccs_summand(old(tr)@, *gp, *s, fresh@, carried@);
        reveal(piccs_gpow_of);
        assert(e2_seq(gpow@) =~= piccs_gpow_of(old(tr)@, *gp, *s, fresh@, carried@));
        assert(lay == piccs_layout(cap_k as int, k as int, t as int));
        assert forall|v: &[Ext2], o: Ext2|
            v@.len() == tabs0.len() && #[trigger] call_ensures(comb, (v,), o) implies o@ == f(e2_seq(v@)) by {
        }
        reveal(piccs_t2);
        reveal(piccs_rprime);
        crate::ccs_degree::law_pi_ccs_summand_degree(old(tr)@, *gp, *s, fresh@, carried@);
        assert(low_degree(f, tabs0.len(), degree as nat));
        law_sumcheck_complete(comb, f, degree as nat, gp.log_m as nat, tabs0, t2, sc_proof@, e2_seq(r_prime@));
    }
    let evals = claimed_evals(gp, s, all_zr.as_slice(), r_prime.as_slice());
    absorb_eval_rows(tr, evals.as_slice());
    let out_inst = output_instances(fresh, carried, r_prime.as_slice(), evals.as_slice());
    let out_wit = ring_witnesses(all_zr.as_slice());
    let proof = PiCcsProof { sumcheck: sc_proof, evals };
    proof {
        reveal(piccs_rprime);
        reveal(piccs_t2);
        assert(piccs_tables_ok(tabs0, *gp, *s, alpha_v, carried@, fresh_wit@, carried_wit@));
        assert(piccs_sc_complete(tabs0, old(tr)@, *gp, *s, fresh@, carried@, proof));
        assert(forall|ti: int| 0 <= ti < tabs0.len() ==> crate::sc_complete::seq_canon(#[trigger] tabs0[ti]));
        assert(piccs_proved(old(tr)@, *gp, *s, fresh@, carried@, fresh_wit@, carried_wit@, proof));
        if crate::ccs_complete::piccs_honest(*gp, *s, carried@, fresh_wit@, carried_wit@) {
            crate::ccs_complete::law_pi_ccs_complete(old(tr)@, *gp, *s, fresh@, carried@, fresh_wit@, carried_wit@, proof);
        }
    }
    (out_inst, out_wit, proof)
}

/// Whether the claimed evaluations have `n` rows of `t` each.
fn eval_shape_ok(evals: &[Vec<RingK>], n: usize, t: usize) -> (ok: bool)
    ensures
        ok == piccs_shape_ok(evals@, n as nat, t as nat),
{
    if evals.len() != n {
        return false;
    }
    let mut i: usize = 0;
    while i < evals.len()
        invariant
            i <= evals@.len(),
            evals@.len() == n,
            forall|i2: int| 0 <= i2 < i ==> (#[trigger] evals@[i2])@.len() == t,
        decreases evals@.len() - i,
    {
        if evals[i].len() != t {
            return false;
        }
        i = i + 1;
    }
    true
}

/// `Q(r')` rebuilt from well-shaped claimed evaluations.
fn reconstruct_q(
    gp: &GlobalParams,
    s: &CcsStructure,
    evals: &[Vec<RingK>],
    alpha: &[Ext2],
    gpow: &[Ext2],
    r_prime: &[Ext2],
    r0: &[Ext2],
    cap_k: usize,
    k: usize,
) -> (q: Ext2)
    requires
        gp.wf(),
        s.wf(),
        dims_ok(cap_k as int, k as int, s.matrices@.len() as int),
        piccs_shape_ok(evals@, (cap_k + k) as nat, s.matrices@.len()),
        alpha@.len() == r_prime@.len(),
        k > 0 ==> r0@.len() == r_prime@.len(),
        gpow@.len() == max_gamma_spec(cap_k as int, k as int, s.matrices@.len() as int, 54) + 1,
    ensures
        q@ == q_from_evals(
            rows_views(evals@),
            e2_seq(alpha@),
            e2_seq(gpow@),
            e2_seq(r_prime@),
            e2_seq(r0@),
            s.f,
            cap_k as int,
            k as int,
            s.matrices@.len() as int,
            gp.b as int,
        ),
{
    let t = s.t();
    proof {
        lemma_dims(cap_k as int, k as int, t as int);
    }
    let ghost ev = rows_views(evals@);
    let ghost gv = e2_seq(gpow@);
    let mut f_val = Ext2::zero();
    let mut i: usize = 0;
    while i < cap_k
        invariant
            i <= cap_k,
            cap_k + k == evals@.len(),
            s.wf(),
            t == s.matrices@.len(),
            s.f.t == t,
            ev == rows_views(evals@),
            gv == e2_seq(gpow@),
            gpow@.len() == max_gamma_spec(cap_k as int, k as int, t as int, 54) + 1,
            max_gamma_spec(cap_k as int, k as int, t as int, 54) >= 2 * cap_k + k,
            forall|i2: int| 0 <= i2 < evals@.len() ==> (#[trigger] evals@[i2])@.len() == t,
            f_val@ == fv_part(ev, gv, s.f, t as int, i as int),
        decreases cap_k - i,
    {
        let row = &evals[i];
        let mut args: Vec<Ext2> = Vec::new();
        let mut j: usize = 0;
        while j < t
            invariant
                j <= t,
                row@.len() == t,
                args@.len() == j,
                forall|j2: int| 0 <= j2 < j ==> (#[trigger] args@[j2])@ == row@[j2]@[0],
            decreases t - j,
        {
            args.push(row[j].ct());
            j = j + 1;
        }
        let fi = s.f.eval_ext(args.as_slice());
        proof {
            assert(e2_seq(args@) =~= Seq::new(t as nat, |j2: int| ev[i as int][j2][0]));
        }
        f_val = f_val + gpow[i] * fi;
        i = i + 1;
    }
    let mut n_val = Ext2::zero();
    let mut i: usize = 0;
    while i < cap_k + k
        invariant
            i <= cap_k + k,
            cap_k + k == evals@.len(),
            cap_k + k < usize::MAX,
            t >= 1,
            gp.wf(),
            ev == rows_views(evals@),
            gv == e2_seq(gpow@),
            gpow@.len() == max_gamma_spec(cap_k as int, k as int, t as int, 54) + 1,
            max_gamma_spec(cap_k as int, k as int, t as int, 54) >= 2 * cap_k + k,
            forall|i2: int| 0 <= i2 < evals@.len() ==> (#[trigger] evals@[i2])@.len() == t,
            n_val@ == nv_part(ev, gv, gp.b as int, i as int),
        decreases cap_k + k - i,
    {
        let c0 = evals[i][0].ct();
        n_val = n_val + gpow[i] * range_product(c0, gp.b);
        i = i + 1;
    }
    let mut e_val = Ext2::zero();
    if k > 0 {
        let tail = vstd::slice::slice_subrange(evals, cap_k, cap_k + k);
        let inner = weighted_claims(tail, gpow, k, t);
        proof {
            assert(rows_views(tail@) =~= ev.subrange(cap_k as int, cap_k + k));
        }
        e_val = eq(r_prime, r0) * inner;
    }
    eq(r_prime, alpha) * (f_val + gpow[cap_k] * n_val) + gpow[2 * cap_k + k] * e_val
}

/// The first half of Π_CCS verification: bind the inputs, draw the challenges, and
/// run the sum-check verifier against the claimed sum.
#[verifier::rlimit(60)]
#[verifier::spinoff_prover]
fn piccs_run_sumcheck(
    tr: &mut Transcript,
    gp: &GlobalParams,
    s: &CcsStructure,
    fresh: &[CcsInstance],
    carried: &[CeInstance],
    proof: &PiCcsProof,
) -> (res: Result<(Vec<Ext2>, Ext2, Vec<Ext2>, Ext2, Vec<Ext2>, Ext2), FoldError>)
    requires
        piccs_inputs_ok(*gp, *s, fresh@, carried@),
    ensures
        res is Ok <==> piccs_sc_ok(old(tr)@, *gp, *s, fresh@, carried@, *proof),
        res matches Err(e) ==> (e is Malformed || e is SumCheck),
        res matches Ok((alpha, gamma, gpow, t_claimed, r_prime, claim)) ==> {
            &&& e2_seq(alpha@) == piccs_alpha(piccs_bound(old(tr)@, *s, fresh@, carried@), gp.log_m as nat)
            &&& alpha@.len() == gp.log_m
            &&& gamma@ == piccs_gamma(piccs_bound(old(tr)@, *s, fresh@, carried@), gp.log_m as nat)
            &&& e2_seq(gpow@) == piccs_gpow_of(old(tr)@, *gp, *s, fresh@, carried@)
            &&& gpow@.len() == max_gamma_spec(fresh@.len() as int, carried@.len() as int, s.matrices@.len() as int, 54) + 1
            &&& t_claimed@ == piccs_claimed(old(tr)@, *gp, *s, fresh@, carried@)
            &&& e2_seq(r_prime@) == piccs_rprime(old(tr)@, *gp, *s, fresh@, carried@, *proof)
            &&& r_prime@.len() == gp.log_m
            &&& claim@ == piccs_final_claim(old(tr)@, *gp, *s, fresh@, carried@, *proof)
            &&& final(tr)@ == sc_state(piccs_t2(old(tr)@, *gp, *s, fresh@, carried@), proof.sumcheck@)
        },
{
    let cap_k = fresh.len();
    let k = carried.len();
    let t = s.t();
    let d: usize = 54;
    proof {
        lemma_dims(cap_k as int, k as int, t as int);
    }
    let ghost t0 = tr@;
    let (alpha, gamma) = absorb_inputs_and_challenges(tr, gp, s, fresh, carried);
    let ghost t2 = tr@;
    assert(t2 == piccs_t2(t0, *gp, *s, fresh@, carried@)) by {
        reveal(piccs_t2);
    }
    assert(e2_seq(alpha@).len() == alpha@.len());
    let gpow = gamma_powers(gamma, max_gamma_index(cap_k, k, t, d));
    assert(e2_seq(gpow@) == piccs_gpow_of(t0, *gp, *s, fresh@, carried@)) by {
        reveal(piccs_gpow_of);
        assert(e2_seq(gpow@) =~= piccs_gpow_of(t0, *gp, *s, fresh@, carried@));
    }
    let fdeg = s.f.degree();
    let degree = round_degree(cap_k, gp.b, fdeg);
    let t_claimed = claimed_sum(carried, gpow.as_slice(), cap_k, t);
    assert(t_claimed@ == piccs_claimed(t0, *gp, *s, fresh@, carried@)) by {
        reveal(piccs_claimed);
    }
    let (r_prime, claim) = match sumcheck_verify(&proof.sumcheck, t_claimed, degree, gp.log_m, tr) {
        Ok(v) => v,
        Err(e) => {
            assert(degree == piccs_degree(*gp, *s, cap_k as int));
            assert(!piccs_sc_ok(t0, *gp, *s, fresh@, carried@, *proof)) by {
                reveal(piccs_sc_ok);
                assert(piccs_t2(t0, *gp, *s, fresh@, carried@) == t2);
                assert(piccs_claimed(t0, *gp, *s, fresh@, carried@) == t_claimed@);
                assert(piccs_degree(*gp, *s, fresh@.len() as int) as nat == degree as nat);
                if proof.sumcheck@.len() == gp.log_m {
                    assert(!(forall|i: int|
                        0 <= i < gp.log_m ==> #[trigger] crate::sumcheck::sc_round_ok(
                            t2,
                            proof.sumcheck@,
                            t_claimed@,
                            degree as nat,
                            i,
                        )));
                }
            }
            return Err(e);
        },
    };
    assert(piccs_sc_ok(t0, *gp, *s, fresh@, carried@, *proof)) by {
        reveal(piccs_sc_ok);
    }
    assert(e2_seq(r_prime@) == piccs_rprime(t0, *gp, *s, fresh@, carried@, *proof)) by {
        reveal(piccs_rprime);
    }
    assert(claim@ == piccs_final_claim(t0, *gp, *s, fresh@, carried@, *proof)) by {
        reveal(piccs_final_claim);
    }
    proof {
        crate::sumcheck::lemma_sc_prefix(t2, proof.sumcheck@, 0);
        assert(e2_seq(r_prime@).len() == r_prime@.len());
    }
    assert(tr@ == sc_state(piccs_t2(t0, *gp, *s, fresh@, carried@), proof.sumcheck@));
    Ok((alpha, gamma, gpow, t_claimed, r_prime, claim))
}

/// What the verifier derived while checking a Π_CCS proof: the claimed sum `T`, the
/// challenges `alpha` and `gamma`, and the sum-check point `r'`.
#[derive(Clone, Debug)]
pub struct PiCcsTrace {
    /// The claimed sum `T`.
    pub claimed_sum: Ext2,
    /// The point `alpha`.
    pub alpha: Vec<Ext2>,
    /// The batching challenge `gamma`.
    pub gamma: Ext2,
    /// The sum-check point `r'`.
    pub r_prime: Vec<Ext2>,
}

/// Π_CCS verifier, also returning the values it derived.
///
/// Accepts exactly when every sum-check round passes, the claimed evaluations have one
/// row of `t` per instance, and `Q(r')` rebuilt from them equals the reduced claim.
/// Sum-check failures are reported as the sum-check reports them; a badly shaped
/// evaluation matrix as `Malformed`; a final mismatch as `Reduction`.
#[verifier::rlimit(100)]
#[verifier::spinoff_prover]
pub fn pi_ccs_verify_traced(
    tr: &mut Transcript,
    gp: &GlobalParams,
    s: &CcsStructure,
    fresh: &[CcsInstance],
    carried: &[CeInstance],
    proof: &PiCcsProof,
) -> (res: Result<(Vec<CeInstance>, PiCcsTrace), FoldError>)
    requires
        piccs_inputs_ok(*gp, *s, fresh@, carried@),
    ensures
        res is Ok <==> piccs_sc_ok(old(tr)@, *gp, *s, fresh@, carried@, *proof) && piccs_shape_ok(
            proof.evals@,
            fresh@.len() + carried@.len(),
            s.matrices@.len(),
        ) && piccs_q(old(tr)@, *gp, *s, fresh@, carried@, *proof) == piccs_final_claim(
            old(tr)@,
            *gp,
            *s,
            fresh@,
            carried@,
            *proof,
        ),
        !piccs_sc_ok(old(tr)@, *gp, *s, fresh@, carried@, *proof) ==> (res matches Err(e) && (
        e is Malformed || e is SumCheck)),
        piccs_sc_ok(old(tr)@, *gp, *s, fresh@, carried@, *proof) && !piccs_shape_ok(
            proof.evals@,
            fresh@.len() + carried@.len(),
            s.matrices@.len(),
        ) ==> res matches Err(FoldError::Malformed(_)),
        piccs_sc_ok(old(tr)@, *gp, *s, fresh@, carried@, *proof) && piccs_shape_ok(
            proof.evals@,
            fresh@.len() + carried@.len(),
            s.matrices@.len(),
        ) && piccs_q(old(tr)@, *gp, *s, fresh@, carried@, *proof) != piccs_final_claim(
            old(tr)@,
            *gp,
            *s,
            fresh@,
            carried@,
            *proof,
        ) ==> res matches Err(FoldError::Reduction(_)),
        res matches Ok((out, trace)) ==> {
            &&& outputs_ok(
                out@,
                fresh@,
                carried@,
                piccs_rprime(old(tr)@, *gp, *s, fresh@, carried@, *proof),
                proof.evals@,
            )
            &&& trace.claimed_sum@ == piccs_claimed(old(tr)@, *gp, *s, fresh@, carried@)
            &&& e2_seq(trace.alpha@) == piccs_alpha(piccs_bound(old(tr)@, *s, fresh@, carried@), gp.log_m as nat)
            &&& trace.gamma@ == piccs_gamma(piccs_bound(old(tr)@, *s, fresh@, carried@), gp.log_m as nat)
            &&& e2_seq(trace.r_prime@) == piccs_rprime(old(tr)@, *gp, *s, fresh@, carried@, *proof)
            &&& final(tr)@ == absorb_rows(
                sc_state(piccs_t2(old(tr)@, *gp, *s, fresh@, carried@), proof.sumcheck@),
                piccs_yprime_tag(),
                proof.evals@,
            )
        },
{
    let cap_k = fresh.len();
    let k = carried.len();
    let t = s.t();
    let ghost t0 = tr@;
    proof {
        lemma_dims(cap_k as int, k as int, t as int);
    }
    let (alpha, gamma, gpow, t_claimed, r_prime, claim) = match piccs_run_sumcheck(tr, gp, s, fresh, carried, proof) {
        Ok(v) => v,
        Err(e) => {
            return Err(e);
        },
    };
    // Shape check on the claimed evaluations.
    if !eval_shape_ok(proof.evals.as_slice(), cap_k + k, t) {
        return Err(FoldError::Malformed("Π_CCS eval matrix has wrong shape".to_owned()));
    }
    absorb_eval_rows(tr, proof.evals.as_slice());
    let r0: &[Ext2] = if k > 0 {
        carried[0].r.as_slice()
    } else {
        &[]
    };
    let q_rp = reconstruct_q(gp, s, proof.evals.as_slice(), alpha.as_slice(), gpow.as_slice(), r_prime.as_slice(), r0, cap_k, k);
    assert(q_rp@ == piccs_q(t0, *gp, *s, fresh@, carried@, *proof)) by {
        reveal(piccs_q);
        if k > 0 {
            assert(e2_seq(r0@) == carried@[0]@.1);
        } else {
            assert(e2_seq(r0@) =~= Seq::<E2>::empty());
        }
    }
    if !q_rp.equals(claim) {
        return Err(FoldError::Reduction("Π_CCS final Q(r') check failed".to_owned()));
    }
    let out = output_instances(fresh, carried, r_prime.as_slice(), proof.evals.as_slice());
    let trace = PiCcsTrace { claimed_sum: t_claimed, alpha, gamma, r_prime };
    Ok((out, trace))
}

/// Π_CCS verifier: returns the `K + k` output CE instances (see
/// [`pi_ccs_verify_traced`] for when it accepts).
pub fn pi_ccs_verify(
    tr: &mut Transcript,
    gp: &GlobalParams,
    s: &CcsStructure,
    fresh: &[CcsInstance],
    carried: &[CeInstance],
    proof: &PiCcsProof,
) -> (res: Result<Vec<CeInstance>, FoldError>)
    requires
        piccs_inputs_ok(*gp, *s, fresh@, carried@),
    ensures
        res is Ok <==> piccs_sc_ok(old(tr)@, *gp, *s, fresh@, carried@, *proof) && piccs_shape_ok(
            proof.evals@,
            fresh@.len() + carried@.len(),
            s.matrices@.len(),
        ) && piccs_q(old(tr)@, *gp, *s, fresh@, carried@, *proof) == piccs_final_claim(
            old(tr)@,
            *gp,
            *s,
            fresh@,
            carried@,
            *proof,
        ),
        !piccs_sc_ok(old(tr)@, *gp, *s, fresh@, carried@, *proof) ==> (res matches Err(e) && (
        e is Malformed || e is SumCheck)),
        piccs_sc_ok(old(tr)@, *gp, *s, fresh@, carried@, *proof) && !piccs_shape_ok(
            proof.evals@,
            fresh@.len() + carried@.len(),
            s.matrices@.len(),
        ) ==> res matches Err(FoldError::Malformed(_)),
        piccs_sc_ok(old(tr)@, *gp, *s, fresh@, carried@, *proof) && piccs_shape_ok(
            proof.evals@,
            fresh@.len() + carried@.len(),
            s.matrices@.len(),
        ) && piccs_q(old(tr)@, *gp, *s, fresh@, carried@, *proof) != piccs_final_claim(
            old(tr)@,
            *gp,
            *s,
            fresh@,
            carried@,
            *proof,
        ) ==> res matches Err(FoldError::Reduction(_)),
        res matches Ok(out) ==> {
            &&& outputs_ok(
                out@,
                fresh@,
                carried@,
                piccs_rprime(old(tr)@, *gp, *s, fresh@, carried@, *proof),
                proof.evals@,
            )
            &&& final(tr)@ == absorb_rows(
                sc_state(piccs_t2(old(tr)@, *gp, *s, fresh@, carried@), proof.sumcheck@),
                piccs_yprime_tag(),
                proof.evals@,
            )
        },
{
    match pi_ccs_verify_traced(tr, gp, s, fresh, carried, proof) {
        Ok((out, _trace)) => Ok(out),
        Err(e) => Err(e),
    }
}

/// Absorbing the carried instances reads them only through their views.
proof fn lemma_absorb_carried_views(t: TrView, c1: Seq<CeInstance>, c2: Seq<CeInstance>)
    requires
        ce_views(c1) == ce_views(c2),
    ensures
        absorb_carried(t, c1) == absorb_carried(t, c2),
    decreases c1.len(),
{
    assert(c1.len() == ce_views(c1).len() && c2.len() == ce_views(c2).len());
    if c1.len() > 0 {
        assert(ce_views(c1.drop_last()) =~= ce_views(c1).drop_last());
        assert(ce_views(c2.drop_last()) =~= ce_views(c2).drop_last());
        lemma_absorb_carried_views(t, c1.drop_last(), c2.drop_last());
        assert(c1.last()@ == ce_views(c1)[c1.len() - 1]);
        assert(c2.last()@ == ce_views(c2)[c2.len() - 1]);
    }
}

/// Instances with equal views agree on every coordinate's view and length.
proof fn lemma_views_pointwise(c1: Seq<CeInstance>, c2: Seq<CeInstance>)
    requires
        ce_views(c1) == ce_views(c2),
    ensures
        c1.len() == c2.len(),
        forall|i: int| 0 <= i < c1.len() ==> #[trigger] c1[i]@ == c2[i]@,
        forall|i: int| 0 <= i < c1.len() ==> (#[trigger] c1[i]).r@.len() == c2[i].r@.len() && c1[i].y@.len() == c2[i].y@.len(),
{
    assert(c1.len() == ce_views(c1).len() && c2.len() == ce_views(c2).len());
    assert forall|i: int| 0 <= i < c1.len() implies #[trigger] c1[i]@ == c2[i]@ by {
        assert(ce_views(c1)[i] == ce_views(c2)[i]);
    }
    assert forall|i: int| 0 <= i < c1.len() implies (#[trigger] c1[i]).r@.len() == c2[i].r@.len() && c1[i].y@.len()
        == c2[i].y@.len() by {
        assert(c1[i]@ == c2[i]@);
        assert(e2_seq(c1[i].r@).len() == c1[i].r@.len() && e2_seq(c2[i].r@).len() == c2[i].r@.len());
        assert(rk_views(c1[i].y@).len() == c1[i].y@.len() && rk_views(c2[i].y@).len() == c2[i].y@.len());
    }
}

/// The Π_CCS input conditions read the carried instances only through their views.
proof fn lemma_piccs_inputs_views(gp: GlobalParams, s: CcsStructure, fresh: Seq<CcsInstance>, c1: Seq<CeInstance>, c2: Seq<CeInstance>)
    requires
        ce_views(c1) == ce_views(c2),
    ensures
        piccs_inputs_ok(gp, s, fresh, c1) == piccs_inputs_ok(gp, s, fresh, c2),
{
    lemma_views_pointwise(c1, c2);
    if piccs_inputs_ok(gp, s, fresh, c1) {
        assert forall|i: int| 0 <= i < c2.len() implies (#[trigger] c2[i]).r@.len() == gp.log_m && c2[i].y@.len()
            == s.matrices@.len() by {
            assert(c1[i].r@.len() == c2[i].r@.len());
        }
    }
    if piccs_inputs_ok(gp, s, fresh, c2) {
        assert forall|i: int| 0 <= i < c1.len() implies (#[trigger] c1[i]).r@.len() == gp.log_m && c1[i].y@.len()
            == s.matrices@.len() by {
            assert(c1[i].r@.len() == c2[i].r@.len());
        }
    }
}

/// The Π_CCS verifier reads the carried instances only through their views.
pub proof fn lemma_piccs_views(
    t0: TrView,
    gp: GlobalParams,
    s: CcsStructure,
    fresh: Seq<CcsInstance>,
    c1: Seq<CeInstance>,
    c2: Seq<CeInstance>,
    proof: PiCcsProof,
)
    requires
        ce_views(c1) == ce_views(c2),
    ensures
        c1.len() == c2.len(),
        piccs_inputs_ok(gp, s, fresh, c1) == piccs_inputs_ok(gp, s, fresh, c2),
        piccs_t2(t0, gp, s, fresh, c1) == piccs_t2(t0, gp, s, fresh, c2),
        piccs_sc_ok(t0, gp, s, fresh, c1, proof) == piccs_sc_ok(t0, gp, s, fresh, c2, proof),
        piccs_rprime(t0, gp, s, fresh, c1, proof) == piccs_rprime(t0, gp, s, fresh, c2, proof),
        piccs_q(t0, gp, s, fresh, c1, proof) == piccs_q(t0, gp, s, fresh, c2, proof),
        piccs_final_claim(t0, gp, s, fresh, c1, proof) == piccs_final_claim(t0, gp, s, fresh, c2, proof),
{
    lemma_views_pointwise(c1, c2);
    lemma_piccs_inputs_views(gp, s, fresh, c1, c2);
    lemma_absorb_carried_views(
        absorb_fresh(absorb_spec(t0, structure_label(), blake3_hash_spec(structure_digest_input(s))), fresh),
        c1,
        c2,
    );
    let k = c1.len();
    assert(piccs_bound(t0, s, fresh, c1) == piccs_bound(t0, s, fresh, c2));
    assert(piccs_t2(t0, gp, s, fresh, c1) == piccs_t2(t0, gp, s, fresh, c2)) by {
        reveal(piccs_t2);
    }
    assert(piccs_gpow_of(t0, gp, s, fresh, c1) == piccs_gpow_of(t0, gp, s, fresh, c2)) by {
        reveal(piccs_gpow_of);
    }
    assert(piccs_claimed(t0, gp, s, fresh, c1) == piccs_claimed(t0, gp, s, fresh, c2)) by {
        reveal(piccs_claimed);
        assert(Seq::new(k as nat, |ci: int| c1[ci]@.2) =~= Seq::new(k as nat, |ci: int| c2[ci]@.2));
    }
    assert(piccs_sc_ok(t0, gp, s, fresh, c1, proof) == piccs_sc_ok(t0, gp, s, fresh, c2, proof)) by {
        reveal(piccs_sc_ok);
    }
    assert(piccs_rprime(t0, gp, s, fresh, c1, proof) == piccs_rprime(t0, gp, s, fresh, c2, proof)) by {
        reveal(piccs_rprime);
    }
    assert(piccs_q(t0, gp, s, fresh, c1, proof) == piccs_q(t0, gp, s, fresh, c2, proof)) by {
        reveal(piccs_q);
        if k > 0 {
            assert(c1[0]@ == c2[0]@);
        }
    }
    assert(piccs_final_claim(t0, gp, s, fresh, c1, proof) == piccs_final_claim(t0, gp, s, fresh, c2, proof)) by {
        reveal(piccs_final_claim);
    }
}

} // verus!
