//! The Π_CCS summand restricted to a line is a polynomial of degree at most the round
//! degree, so the sum-check rounds of an honest prover interpolate it exactly.

use vstd::prelude::*;

use crate::ext2::{e2_add, e2_canon, e2_mul, e2_one, e2_sub, e2_zero, law_e2_field_axioms, E2};
use crate::pi_ccs::{
    combine_spec, dims_ok, ev_j, ev_l, ev_sum, f_part, layout_ok, max_gamma_spec, nc_part, round_degree_spec, u_at, v_at,
    vals_blocks, Layout,
};
use crate::types::{deg_upto, CcsInstance, CcsStructure, CeInstance, GlobalParams};
use crate::pi_ccs::{
    piccs_bound, piccs_degree, piccs_gamma, piccs_gpow_of, piccs_inputs_ok, piccs_layout, piccs_low_degree, piccs_ntabs,
    piccs_summand,
};
use crate::sc_complete::line_samples;
use crate::sumcheck::interpolate;
use crate::transcript::TrView;
use crate::ext2::e2_base;
use crate::fp::fmod;
use crate::poly::{
    lemma_ops_canon, lemma_pe_poly, lemma_peval_canon, lemma_peval_lin, lemma_peval_padd, lemma_peval_pscale,
    lemma_rp_poly, lemma_sub_facts, lemma_zero_facts, lin_ok, lin_vals, padd, pe_poly, peval, pmul_lin, pscale, rp_poly,
};
use crate::sc_complete::{line, seq_canon};
use crate::types::SparsePoly;

verus! {

/// The line through `a` and `b`, one linear polynomial per coordinate.
pub open spec fn line_polys(a: Seq<E2>, b: Seq<E2>) -> Seq<Seq<E2>> {
    Seq::new(a.len(), |k: int| seq![a[k], e2_sub(b[k], a[k])])
}

/// `a (1 - t) + b t = a + t (b - a)`.
pub proof fn lemma_line_algebra(a: E2, b: E2, t: E2)
    requires
        e2_canon(a),
        e2_canon(b),
        e2_canon(t),
    ensures
        e2_add(e2_mul(a, e2_sub(e2_one(), t)), e2_mul(b, t)) == e2_add(a, e2_mul(t, e2_sub(b, a))),
{
    let na = crate::ext2::e2_neg(a);
    let nt = crate::ext2::e2_neg(t);
    lemma_sub_facts(e2_one(), t);
    lemma_sub_facts(b, a);
    lemma_ops_canon(a, t);
    lemma_ops_canon(t, a);
    lemma_ops_canon(b, t);
    lemma_ops_canon(t, na);
    lemma_ops_canon(a, nt);
    // a (1 + (-t)) = a + a (-t)
    law_e2_field_axioms(a, e2_one(), nt);
    // t (b + (-a)) = t b + t (-a)
    law_e2_field_axioms(t, b, na);
    law_e2_field_axioms(b, t, t);
    // a (-t) = -(a t) = (-a) t = t (-a)
    crate::poly::lemma_neg_mul(t, a);
    crate::poly::lemma_neg_mul(a, t);
    law_e2_field_axioms(a, t, t);
    law_e2_field_axioms(na, t, t);
    lemma_sub_facts(e2_zero(), e2_mul(t, a));
    // a (-t) = (-t) a: -(t a) = -(a t)
    law_e2_field_axioms(a, nt, nt);
    crate::poly::lemma_neg_mul(t, a);
    // (a + a(-t)) + b t = a + (t b + t(-a)) with a(-t) = t(-a)
    let x = e2_mul(t, na);
    let y = e2_mul(t, b);
    lemma_ops_canon(x, y);
    law_e2_field_axioms(a, x, y);
    law_e2_field_axioms(x, y, y);
    law_e2_field_axioms(y, x, x);
}

/// The line polynomials are linear and take the line's values.
pub proof fn lemma_line_polys(a: Seq<E2>, b: Seq<E2>, t: E2)
    requires
        a.len() == b.len(),
        seq_canon(a),
        seq_canon(b),
        e2_canon(t),
    ensures
        lin_ok(line_polys(a, b)),
        lin_vals(line_polys(a, b), t) == line(a, b, t),
{
    let ls = line_polys(a, b);
    assert forall|k: int| 0 <= k < ls.len() implies (#[trigger] ls[k]).len() == 2 && seq_canon(ls[k]) by {
        lemma_ops_canon(b[k], a[k]);
    }
    assert forall|k: int| 0 <= k < ls.len() implies #[trigger] lin_vals(ls, t)[k] == line(a, b, t)[k] by {
        lemma_ops_canon(b[k], a[k]);
        lemma_peval_lin(ls[k], t);
        lemma_line_algebra(a[k], b[k], t);
    }
    assert(lin_vals(ls, t) =~= line(a, b, t));
}

/// The values of a run of linear polynomials are the run of their values.
pub proof fn lemma_lin_vals_subrange(ls: Seq<Seq<E2>>, lo: int, hi: int, t: E2)
    requires
        0 <= lo <= hi <= ls.len(),
    ensures
        lin_vals(ls, t).subrange(lo, hi) == lin_vals(ls.subrange(lo, hi), t),
{
    assert(lin_vals(ls, t).subrange(lo, hi) =~= lin_vals(ls.subrange(lo, hi), t));
}

/// The polynomial of the constraint part over the first `n` fresh instances.
pub open spec fn fpart_poly(ls: Seq<Seq<E2>>, gpow: Seq<E2>, f: SparsePoly, u0: int, t: int, n: int) -> Seq<E2>
    decreases n,
{
    if n <= 0 {
        Seq::empty()
    } else {
        padd(
            fpart_poly(ls, gpow, f, u0, t, n - 1),
            pscale(pe_poly(f.terms@, ls.subrange(u_at(u0, t, n - 1, 0), u_at(u0, t, n - 1, t)), f.terms@.len() as int), gpow[n - 1]),
        )
    }
}

/// The constraint part along the line, with at most `1 + deg f` coefficients.
pub proof fn lemma_fpart_poly(ls: Seq<Seq<E2>>, gpow: Seq<E2>, f: SparsePoly, u0: int, t: int, n: int, tt: E2)
    requires
        lin_ok(ls),
        seq_canon(gpow),
        n <= gpow.len(),
        f.wf(),
        f.t == t,
        0 <= u0,
        t >= 0,
        0 <= n,
        u_at(u0, t, n, 0) <= ls.len(),
        e2_canon(tt),
    ensures
        peval(fpart_poly(ls, gpow, f, u0, t, n), tt) == f_part(lin_vals(ls, tt), gpow, &f, u0, t, n),
        fpart_poly(ls, gpow, f, u0, t, n).len() <= 1 + crate::types::deg_upto(f.terms@, f.terms@.len() as int),
        seq_canon(fpart_poly(ls, gpow, f, u0, t, n)),
    decreases n,
{
    if n > 0 {
        assert(u_at(u0, t, n - 1, 0) <= u_at(u0, t, n - 1, t) <= u_at(u0, t, n, 0)) by (nonlinear_arith)
            requires
                t >= 0,
                n >= 1,
        ;
        lemma_fpart_poly(ls, gpow, f, u0, t, n - 1, tt);
        let lo = u_at(u0, t, n - 1, 0);
        let hi = u_at(u0, t, n - 1, t);
        let sub = ls.subrange(lo, hi);
        assert(lin_ok(sub));
        lemma_pe_poly(f.terms@, sub, f.terms@.len() as int, tt);
        lemma_lin_vals_subrange(ls, lo, hi, tt);
        let pe = pe_poly(f.terms@, sub, f.terms@.len() as int);
        lemma_peval_pscale(pe, gpow[n - 1], tt);
        lemma_peval_padd(fpart_poly(ls, gpow, f, u0, t, n - 1), pscale(pe, gpow[n - 1]), tt);
    }
}

/// The polynomial of the norm part over the first `n` instances.
pub open spec fn nc_poly(zls: Seq<Seq<E2>>, gpow: Seq<E2>, b: int, n: int) -> Seq<E2>
    decreases n,
{
    if n <= 0 {
        Seq::empty()
    } else {
        padd(nc_poly(zls, gpow, b, n - 1), pscale(rp_poly(zls[n - 1], b, 2 * b - 1), gpow[n - 1]))
    }
}

/// The norm part along the line, with at most `2b` coefficients.
pub proof fn lemma_nc_poly(zls: Seq<Seq<E2>>, gpow: Seq<E2>, b: int, n: int, tt: E2)
    requires
        lin_ok(zls),
        seq_canon(gpow),
        0 <= n <= zls.len(),
        n <= gpow.len(),
        b >= 1,
        e2_canon(tt),
    ensures
        peval(nc_poly(zls, gpow, b, n), tt) == nc_part(lin_vals(zls, tt), gpow, b, n),
        nc_poly(zls, gpow, b, n).len() <= 2 * b,
        seq_canon(nc_poly(zls, gpow, b, n)),
    decreases n,
{
    if n > 0 {
        lemma_nc_poly(zls, gpow, b, n - 1, tt);
        let rp = rp_poly(zls[n - 1], b, 2 * b - 1);
        lemma_rp_poly(zls[n - 1], b, 2 * b - 1, tt);
        lemma_peval_pscale(rp, gpow[n - 1], tt);
        lemma_peval_padd(nc_poly(zls, gpow, b, n - 1), pscale(rp, gpow[n - 1]), tt);
        assert(lin_vals(zls, tt)[n - 1] == peval(zls[n - 1], tt));
    }
}

/// The polynomial of `sum_{i<n} gamma^(base + kt i) y_i` for linear `y_i`.
pub open spec fn evl_poly(yl: Seq<Seq<E2>>, gpow: Seq<E2>, base: int, kt: int, n: int) -> Seq<E2>
    decreases n,
{
    if n <= 0 {
        Seq::empty()
    } else {
        padd(evl_poly(yl, gpow, base, kt, n - 1), pscale(yl[n - 1], gpow[base + kt * (n - 1)]))
    }
}

/// The weighted sum of one claim's coefficients along the line, with at most two
/// coefficients.
pub proof fn lemma_evl_poly(yl: Seq<Seq<E2>>, gpow: Seq<E2>, base: int, kt: int, n: int, tt: E2)
    requires
        lin_ok(yl),
        seq_canon(gpow),
        0 <= n <= yl.len(),
        0 <= base,
        0 <= kt,
        n > 0 ==> base + kt * (n - 1) < gpow.len(),
        e2_canon(tt),
    ensures
        peval(evl_poly(yl, gpow, base, kt, n), tt) == ev_l(lin_vals(yl, tt), gpow, base, kt, n),
        evl_poly(yl, gpow, base, kt, n).len() <= 2,
        seq_canon(evl_poly(yl, gpow, base, kt, n)),
    decreases n,
{
    if n > 0 {
        assert(n - 1 > 0 ==> base + kt * (n - 2) <= base + kt * (n - 1)) by (nonlinear_arith)
            requires
                kt >= 0,
        ;
        assert(0 <= base + kt * (n - 1)) by (nonlinear_arith)
            requires
                kt >= 0,
                base >= 0,
                n >= 1,
        ;
        lemma_evl_poly(yl, gpow, base, kt, n - 1, tt);
        let g = gpow[base + kt * (n - 1)];
        lemma_peval_pscale(yl[n - 1], g, tt);
        lemma_peval_padd(evl_poly(yl, gpow, base, kt, n - 1), pscale(yl[n - 1], g), tt);
        assert(lin_vals(yl, tt)[n - 1] == peval(yl[n - 1], tt));
    }
}

/// The values of rows of linear polynomials.
pub open spec fn rows_vals(yls: Seq<Seq<Seq<E2>>>, tt: E2) -> Seq<Seq<E2>> {
    Seq::new(yls.len(), |j: int| lin_vals(yls[j], tt))
}

/// The polynomial of the weighted sum of the first `n` claims of instance `ci`.
pub open spec fn evj_poly(yls: Seq<Seq<Seq<E2>>>, gpow: Seq<E2>, ci: int, k: int, t: int, n: int) -> Seq<E2>
    decreases n,
{
    if n <= 0 {
        Seq::empty()
    } else {
        padd(evj_poly(yls, gpow, ci, k, t, n - 1), evl_poly(yls[n - 1], gpow, ci + k * (n - 1), k * t, 54))
    }
}

/// The weighted sum of one instance's claims along the line.
pub proof fn lemma_evj_poly(yls: Seq<Seq<Seq<E2>>>, gpow: Seq<E2>, ci: int, k: int, t: int, n: int, tt: E2)
    requires
        forall|j: int| 0 <= j < yls.len() ==> lin_ok(#[trigger] yls[j]) && yls[j].len() == 54,
        seq_canon(gpow),
        0 <= ci < k,
        0 <= n <= t,
        n <= yls.len(),
        k * t * 54 <= gpow.len(),
        e2_canon(tt),
    ensures
        peval(evj_poly(yls, gpow, ci, k, t, n), tt) == ev_j(rows_vals(yls, tt), gpow, ci, k, t, n),
        evj_poly(yls, gpow, ci, k, t, n).len() <= 2,
        seq_canon(evj_poly(yls, gpow, ci, k, t, n)),
    decreases n,
{
    if n > 0 {
        lemma_evj_poly(yls, gpow, ci, k, t, n - 1, tt);
        crate::pi_ccs::lemma_ev_index(ci, n - 1, 53, k, t);
        assert(0 <= k * (n - 1) && 0 <= k * t) by (nonlinear_arith)
            requires
                k >= 0,
                t >= 0,
                n >= 1,
        ;
        assert(k * t * 53 == (k * t) * (54 - 1)) by (nonlinear_arith);
        lemma_evl_poly(yls[n - 1], gpow, ci + k * (n - 1), k * t, 54, tt);
        lemma_peval_padd(evj_poly(yls, gpow, ci, k, t, n - 1), evl_poly(yls[n - 1], gpow, ci + k * (n - 1), k * t, 54), tt);
        assert(rows_vals(yls, tt)[n - 1] == lin_vals(yls[n - 1], tt));
    }
}

/// The carried-coefficient polynomials, by `(ci, j, l)`.
pub open spec fn lin_blocks(ls: Seq<Seq<E2>>, v0: int, t: int, k: int) -> Seq<Seq<Seq<Seq<E2>>>> {
    Seq::new(
        k as nat,
        |ci: int| Seq::new(t as nat, |j: int| Seq::new(54, |l: int| ls[v_at(v0, t, ci, j, l)])),
    )
}

/// The polynomial of the weighted sum of the claims of the first `n` instances.
pub open spec fn evsum_poly(bl: Seq<Seq<Seq<Seq<E2>>>>, gpow: Seq<E2>, k: int, t: int, n: int) -> Seq<E2>
    decreases n,
{
    if n <= 0 {
        Seq::empty()
    } else {
        padd(evsum_poly(bl, gpow, k, t, n - 1), evj_poly(bl[n - 1], gpow, n - 1, k, t, t))
    }
}

/// The carried part along the line, with at most two coefficients.
pub proof fn lemma_evsum_poly(ls: Seq<Seq<E2>>, gpow: Seq<E2>, v0: int, k: int, t: int, n: int, tt: E2)
    requires
        lin_ok(ls),
        seq_canon(gpow),
        0 <= v0,
        t >= 0,
        0 <= n <= k,
        v0 + k * t * 54 <= ls.len(),
        k * t * 54 <= gpow.len(),
        e2_canon(tt),
    ensures
        peval(evsum_poly(lin_blocks(ls, v0, t, k), gpow, k, t, n), tt) == ev_sum(
            vals_blocks(lin_vals(ls, tt), v0, t, k),
            gpow,
            k,
            t,
            n,
        ),
        evsum_poly(lin_blocks(ls, v0, t, k), gpow, k, t, n).len() <= 2,
        seq_canon(evsum_poly(lin_blocks(ls, v0, t, k), gpow, k, t, n)),
    decreases n,
{
    let bl = lin_blocks(ls, v0, t, k);
    if n > 0 {
        lemma_evsum_poly(ls, gpow, v0, k, t, n - 1, tt);
        let ci = n - 1;
        assert forall|j: int| 0 <= j < bl[ci].len() implies lin_ok(#[trigger] bl[ci][j]) && bl[ci][j].len() == 54 by {
            assert forall|l: int| 0 <= l < 54 implies (#[trigger] bl[ci][j][l]).len() == 2 && seq_canon(bl[ci][j][l]) by {
                assert(0 <= v_at(v0, t, ci, j, l) < ls.len()) by (nonlinear_arith)
                    requires
                        0 <= ci < k,
                        0 <= j < t,
                        0 <= l < 54,
                        v0 >= 0,
                        v0 + k * t * 54 <= ls.len(),
                        v_at(v0, t, ci, j, l) == v0 + (ci * t + j) * 54 + l,
                ;
            }
        }
        lemma_evj_poly(bl[ci], gpow, ci, k, t, t, tt);
        lemma_peval_padd(evsum_poly(bl, gpow, k, t, n - 1), evj_poly(bl[ci], gpow, ci, k, t, t), tt);
        let vb = vals_blocks(lin_vals(ls, tt), v0, t, k);
        assert(vb[ci] =~= rows_vals(bl[ci], tt)) by {
            assert forall|j: int| 0 <= j < t implies #[trigger] vb[ci][j] == rows_vals(bl[ci], tt)[j] by {
                assert forall|l: int| 0 <= l < 54 implies #[trigger] vb[ci][j][l] == rows_vals(bl[ci], tt)[j][l] by {
                    assert(0 <= v_at(v0, t, ci, j, l) < ls.len()) by (nonlinear_arith)
                        requires
                            0 <= ci < k,
                            0 <= j < t,
                            0 <= l < 54,
                            v0 >= 0,
                            v0 + k * t * 54 <= ls.len(),
                            v_at(v0, t, ci, j, l) == v0 + (ci * t + j) * 54 + l,
                    ;
                }
                assert(vb[ci][j] =~= rows_vals(bl[ci], tt)[j]);
            }
        }
    }
}

/// The summand along the line through the linear polynomials `ls`, as a polynomial.
pub open spec fn comb_poly(
    ls: Seq<Seq<E2>>,
    lay: Layout,
    f: SparsePoly,
    gpow: Seq<E2>,
    cap_k: int,
    k: int,
    t: int,
    b: int,
) -> Seq<E2> {
    let inner = padd(
        fpart_poly(ls, gpow, f, lay.u0 as int, t, cap_k),
        pscale(nc_poly(ls.subrange(lay.z0 as int, lay.z0 + cap_k + k), gpow, b, cap_k + k), gpow[cap_k]),
    );
    let ev = evsum_poly(lin_blocks(ls, lay.v0 as int, t, k), gpow, k, t, k);
    padd(
        pmul_lin(inner, ls[0][0], ls[0][1]),
        pscale(pmul_lin(ev, ls[lay.eq_r as int][0], ls[lay.eq_r as int][1]), gpow[2 * cap_k + k]),
    )
}

/// The summand along a line is the value of `comb_poly`, which has at most one more
/// coefficient than the round degree.
#[verifier::rlimit(40)]
pub proof fn lemma_comb_poly(
    ls: Seq<Seq<E2>>,
    lay: Layout,
    f: SparsePoly,
    gpow: Seq<E2>,
    cap_k: int,
    k: int,
    t: int,
    b: int,
    tt: E2,
)
    requires
        lin_ok(ls),
        layout_ok(lay, cap_k, k, t),
        dims_ok(cap_k, k, t),
        ls.len() == lay.v0 + k * t * 54,
        seq_canon(gpow),
        gpow.len() == max_gamma_spec(cap_k, k, t, 54) + 1,
        f.wf(),
        f.t == t,
        b >= 1,
        e2_canon(tt),
    ensures
        peval(comb_poly(ls, lay, f, gpow, cap_k, k, t, b), tt) == combine_spec(
            lin_vals(ls, tt),
            lay,
            &f,
            gpow,
            cap_k,
            k,
            t,
            b,
        ),
        comb_poly(ls, lay, f, gpow, cap_k, k, t, b).len() <= 1 + round_degree_spec(
            cap_k,
            b,
            deg_upto(f.terms@, f.terms@.len() as int) as int,
        ),
        seq_canon(comb_poly(ls, lay, f, gpow, cap_k, k, t, b)),
{
    crate::pi_ccs::lemma_dims(cap_k, k, t);
    let vals = lin_vals(ls, tt);
    let deg = deg_upto(f.terms@, f.terms@.len() as int);
    assert(u_at(lay.u0 as int, t, cap_k, 0) == lay.z0);
    lemma_fpart_poly(ls, gpow, f, lay.u0 as int, t, cap_k, tt);
    let fp = fpart_poly(ls, gpow, f, lay.u0 as int, t, cap_k);
    let zls = ls.subrange(lay.z0 as int, lay.z0 + cap_k + k);
    assert(lin_ok(zls));
    lemma_nc_poly(zls, gpow, b, cap_k + k, tt);
    lemma_lin_vals_subrange(ls, lay.z0 as int, lay.z0 + cap_k + k, tt);
    let nc = nc_poly(zls, gpow, b, cap_k + k);
    let gk = gpow[cap_k];
    lemma_peval_pscale(nc, gk, tt);
    lemma_peval_padd(fp, pscale(nc, gk), tt);
    let inner = padd(fp, pscale(nc, gk));
    assert(seq_canon(inner));
    if k > 0 {
        lemma_evsum_poly(ls, gpow, lay.v0 as int, k, t, k, tt);
    } else {
        assert(evsum_poly(lin_blocks(ls, lay.v0 as int, t, k), gpow, k, t, k) =~= Seq::<E2>::empty());
        lemma_zero_facts(tt);
    }
    let ev = evsum_poly(lin_blocks(ls, lay.v0 as int, t, k), gpow, k, t, k);
    assert(seq_canon(ev));
    assert(ev.len() <= 2);
    let l0 = ls[0];
    let l1 = ls[lay.eq_r as int];
    lemma_peval_lin(l0, tt);
    lemma_peval_lin(l1, tt);
    crate::poly::lemma_peval_pmul_lin(inner, l0[0], l0[1], tt);
    crate::poly::lemma_peval_pmul_lin(ev, l1[0], l1[1], tt);
    let g2 = gpow[2 * cap_k + k];
    let evm = crate::poly::pmul_lin(ev, l1[0], l1[1]);
    lemma_peval_pscale(evm, g2, tt);
    lemma_peval_padd(crate::poly::pmul_lin(inner, l0[0], l0[1]), pscale(evm, g2), tt);
    let iv = peval(inner, tt);
    let ev_v = peval(ev, tt);
    let v0 = vals[0];
    let v1 = vals[1];
    lemma_peval_canon(inner, tt);
    lemma_peval_canon(ev, tt);
    assert(v0 == peval(l0, tt));
    assert(v1 == peval(l1, tt));
    lemma_peval_canon(l0, tt);
    lemma_peval_canon(l1, tt);
    law_e2_field_axioms(iv, v0, v0);
    law_e2_field_axioms(ev_v, v1, v1);
    law_e2_field_axioms(g2, v1, ev_v);
    // lengths
    assert(fp.len() <= 1 + deg);
    assert(cap_k == 0 ==> fp.len() == 0);
    assert(nc.len() <= 2 * b);
}

/// The largest degree among the terms is below any bound on every term.
pub proof fn lemma_deg_upto_bound(f: SparsePoly, bound: nat, n: int)
    requires
        f.degree_bounded(bound),
        n <= f.terms@.len(),
    ensures
        deg_upto(f.terms@, n) <= bound,
    decreases n,
{
    if n > 0 {
        lemma_deg_upto_bound(f, bound, n - 1);
        assert(crate::types::exp_sum(f.terms@[n - 1].1@, f.terms@[n - 1].1@.len() as int) <= bound);
    }
}

/// The summand of every Π_CCS run has degree at most the round degree along every line
/// through canonical points.
#[verifier::rlimit(40)]
pub proof fn law_pi_ccs_summand_degree(
    t0: TrView,
    gp: GlobalParams,
    s: CcsStructure,
    fresh: Seq<CcsInstance>,
    carried: Seq<CeInstance>,
)
    requires
        piccs_inputs_ok(gp, s, fresh, carried),
    ensures
        piccs_low_degree(t0, gp, s, fresh, carried),
{
    let cap_k = fresh.len() as int;
    let k = carried.len() as int;
    let t = s.matrices@.len() as int;
    let n = piccs_ntabs(cap_k, k, t);
    let d = piccs_degree(gp, s, cap_k) as nat;
    let lay = piccs_layout(cap_k, k, t);
    let f = piccs_summand(t0, gp, s, fresh, carried);
    let gpow = piccs_gpow_of(t0, gp, s, fresh, carried);
    reveal(piccs_gpow_of);
    let gamma = piccs_gamma(piccs_bound(t0, s, fresh, carried), gp.log_m as nat);
    assert forall|i: int| 0 <= i < gpow.len() implies e2_canon(#[trigger] gpow[i]) by {
        crate::ext2::lemma_e2_pow_canon(gamma, i as nat);
    }
    crate::pi_ccs::lemma_dims(cap_k, k, t);
    lemma_deg_upto_bound(s.f, (crate::Q - 3) as nat, s.f.terms@.len() as int);
    assert(d + 1 < crate::Q);
    assert(layout_ok(lay, cap_k, k, t));
    assert forall|v: Seq<E2>| e2_canon(#[trigger] f(v)) by {
        lemma_ops_canon(e2_zero(), e2_zero());
    }
    assert forall|a: Seq<E2>, b: Seq<E2>, tt: E2|
        a.len() == n && b.len() == n && seq_canon(a) && seq_canon(b) && e2_canon(tt) implies #[trigger] f(line(a, b, tt))
        == interpolate(line_samples(f, a, b, d), tt) by {
        let ls = line_polys(a, b);
        lemma_line_polys(a, b, tt);
        let p = comb_poly(ls, lay, s.f, gpow, cap_k, k, t, gp.b as int);
        lemma_comb_poly(ls, lay, s.f, gpow, cap_k, k, t, gp.b as int, tt);
        let smp = Seq::new(d + 1, |c: int| peval(p, e2_base(fmod(c))));
        assert forall|c: int| 0 <= c < d + 1 implies #[trigger] line_samples(f, a, b, d)[c] == smp[c] by {
            let x = e2_base(fmod(c));
            lemma_line_polys(a, b, x);
            lemma_comb_poly(ls, lay, s.f, gpow, cap_k, k, t, gp.b as int, x);
        }
        assert(line_samples(f, a, b, d) =~= smp);
        crate::poly::law_interpolation_exact(p, d, tt);
    }
}

} // verus!
