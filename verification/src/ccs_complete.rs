//! Completeness of Π_CCS: for witnesses that satisfy the structure, have small
//! coefficients and match the carried claims, the sum the prover's tables add up to is
//! the verifier's claimed sum, and the prover's reduced claim is the verifier's `Q(r')`.

use vstd::arithmetic::div_mod::*;
use vstd::arithmetic::power2::*;
use vstd::prelude::*;

use crate::bar::bar_spec;
use crate::ext2::{e2_add, e2_base, e2_canon, e2_mul, e2_seq, e2_zero, law_e2_field_axioms, Ext2, E2};
use crate::fp::{abs_balanced_of, balanced_of, dot, fmod, fp_seq, lemma_fmod_small, lemma_fp_lt_q};
use crate::maps::{block, embed_spec};
use crate::multilinear::{base_seq, mle, pad, ring_column};
use crate::ring::{ring_dot, ring_seq, ring_wf};
use crate::pi_ccs::{
    combine_spec, eq_tab, f_part, flat_spec, fv_part, nc_part, nv_part, piccs_layout, piccs_tables_ok, q_from_evals,
    u_at, u_table, v_at, v_table, vals_blocks, witness_field, witness_ring,
};
use crate::sc_complete::{column, hyper_sum, law_eq_table_mle, lemma_mle_eq_tab, lemma_mle_zero, lemma_point_canon, seq_canon};
use crate::sumcheck::e2_sum;
use crate::pi_ccs::{ev_j, ev_l, ev_sum};
use crate::pi_ccs::{
    piccs_alpha, piccs_bound, piccs_claimed, piccs_degree, piccs_final_claim, piccs_gamma, piccs_gpow_of, piccs_inputs_ok,
    piccs_ntabs, piccs_proved, piccs_q, piccs_rprime, piccs_sc_complete, piccs_sc_ok, piccs_shape_ok, piccs_summand,
    piccs_t2, rows_views,
};
use crate::ext2::lemma_e2_pow_canon;
use crate::transcript::TrView;
use crate::types::{rk_views, CcsInstance, PiCcsProof};
use crate::types::{
    bar_matvec_spec, bar_row_spec, eval_claim, matvec_spec, CcsStructure, CcsWitness, CeInstance, CeWitness,
    GlobalParams, SparsePoly,
};
use crate::Q;

verus! {

broadcast use {lemma_fp_lt_q, lemma_fmod_small};

/// Row `row` of `(M_1 z, ..., M_t z)`, embedded into `K`.
pub open spec fn ccs_row(s: CcsStructure, z: Seq<nat>, row: int) -> Seq<E2> {
    Seq::new(s.matrices@.len() as nat, |j: int| e2_base(matvec_spec(s.mat(j), z)[row]))
}

/// The witness `z` satisfies the structure: every row of `f(M_1 z, ..., M_t z)` is zero.
pub open spec fn ccs_holds(s: CcsStructure, z: Seq<nat>) -> bool {
    forall|row: int| 0 <= row < s.m ==> s.f.eval_spec(#[trigger] ccs_row(s, z, row)) == e2_zero()
}

/// The constant terms of the claim rows of `bar(M)` applied to the embedding of `w` are
/// the entries of `M w`.
pub proof fn lemma_ct_rows(mat: Seq<Seq<nat>>, w: Seq<nat>, n: int)
    requires
        0 <= n,
        w.len() == 54 * n,
        forall|i: int| 0 <= i < w.len() ==> #[trigger] w[i] < Q,
        forall|r: int| 0 <= r < mat.len() ==> (#[trigger] mat[r]).len() == 54 * n,
        forall|r: int, c: int| 0 <= r < mat.len() && 0 <= c < 54 * n ==> #[trigger] mat[r][c] < Q,
    ensures
        ring_column(bar_matvec_spec(mat, embed_spec(w)), 0) == base_seq(matvec_spec(mat, w)),
{
    assert((54 * n) / 54 == n) by (nonlinear_arith)
        requires
            0 <= n,
    ;
    let ez = embed_spec(w);
    assert forall|r: int| 0 <= r < mat.len() implies #[trigger] ring_column(bar_matvec_spec(mat, ez), 0)[r]
        == base_seq(matvec_spec(mat, w))[r] by {
        let row = mat[r];
        assert forall|i: int| 0 <= i < row.len() implies #[trigger] row[i] < Q by {
            assert(mat[r][i] < Q);
        }
        crate::maps::law_bar_matrix_vector(row, w, n);
        assert(bar_row_spec(row) =~= Seq::new(n as nat, |i: int| bar_spec(block(row, i))));
        assert(ez =~= Seq::new(n as nat, |i: int| block(w, i)));
    }
    assert(ring_column(bar_matvec_spec(mat, ez), 0) =~= base_seq(matvec_spec(mat, w)));
}

/// `I w = w`.
pub proof fn lemma_identity_matvec(mat: Seq<Seq<nat>>, w: Seq<nat>)
    requires
        crate::types::is_identity(mat, w.len() as int),
        mat.len() == w.len(),
        forall|r: int| 0 <= r < mat.len() ==> (#[trigger] mat[r]).len() == w.len(),
        forall|i: int| 0 <= i < w.len() ==> #[trigger] w[i] < Q,
    ensures
        matvec_spec(mat, w) == w,
{
    assert forall|r: int| 0 <= r < w.len() implies #[trigger] matvec_spec(mat, w)[r] == w[r] by {
        lemma_dot_unit(mat[r], w, r, w.len() as int);
    }
    assert(matvec_spec(mat, w) =~= w);
}

/// The dot product with the unit row `e_r`.
proof fn lemma_dot_unit(row: Seq<nat>, w: Seq<nat>, r: int, n: int)
    requires
        0 <= r < w.len(),
        0 <= n <= w.len(),
        row.len() == w.len(),
        forall|c: int| 0 <= c < w.len() ==> #[trigger] row[c] == (if c == r { 1nat } else { 0nat }),
    ensures
        dot(row, w, n) == if r < n { w[r] as int } else { 0 },
    decreases n,
{
    if n > 0 {
        lemma_dot_unit(row, w, r, n - 1);
        if n - 1 == r {
            assert(row[n - 1] * w[n - 1] == w[r]);
        } else {
            assert(row[n - 1] == 0);
            assert(row[n - 1] * w[n - 1] == 0);
        }
    }
}

/// Flattening a ring vector and embedding it back gives the vector.
pub proof fn lemma_embed_flat(zr: Seq<Seq<nat>>)
    requires
        forall|i: int| 0 <= i < zr.len() ==> (#[trigger] zr[i]).len() == 54,
    ensures
        embed_spec(crate::pi_ccs::flat_spec(zr)) == zr,
        crate::pi_ccs::flat_spec(zr).len() == 54 * zr.len(),
{
    let fl = crate::pi_ccs::flat_spec(zr);
    assert((zr.len() * 54) / 54 == zr.len()) by (nonlinear_arith);
    assert forall|i: int| 0 <= i < zr.len() implies #[trigger] embed_spec(fl)[i] == zr[i] by {
        assert forall|l: int| 0 <= l < 54 implies #[trigger] block(fl, i)[l] == zr[i][l] by {
            let c = i * 54 + l;
            assert(0 <= c < zr.len() * 54) by (nonlinear_arith)
                requires
                    0 <= i < zr.len(),
                    0 <= l < 54,
                    c == i * 54 + l,
            ;
            lemma_fundamental_div_mod_converse(c, 54, i, l);
        }
        assert(block(fl, i) =~= zr[i]);
    }
    assert(embed_spec(fl) =~= zr);
}

/// The entries of the matrices of a well-formed structure are residues.
proof fn lemma_mat_entries(s: CcsStructure, j: int)
    requires
        s.wf(),
        0 <= j < s.matrices@.len(),
    ensures
        s.mat(j).len() == s.m,
        forall|r: int| 0 <= r < s.m ==> (#[trigger] s.mat(j)[r]).len() == s.m,
        forall|r: int, c: int| 0 <= r < s.m && 0 <= c < s.m ==> #[trigger] s.mat(j)[r][c] < Q,
{
    assert forall|r: int, c: int| 0 <= r < s.m && 0 <= c < s.m implies #[trigger] s.mat(j)[r][c] < Q by {
        assert(s.mat(j)[r] == fp_seq(s.matrices@[j]@[r]@));
        assert(s.mat(j)[r][c] == s.matrices@[j]@[r]@[c]@);
    }
    assert forall|r: int| 0 <= r < s.m implies (#[trigger] s.mat(j)[r]).len() == s.m by {
        assert(s.mat(j)[r] == fp_seq(s.matrices@[j]@[r]@));
    }
}

/// The ring witness of every instance is the embedding of its field witness.
proof fn lemma_witness_embed(gp: GlobalParams, fresh_wit: Seq<CcsWitness>, carried_wit: Seq<CeWitness>, i: int)
    requires
        gp.wf(),
        0 <= i < fresh_wit.len() + carried_wit.len(),
        forall|a: int| 0 <= a < fresh_wit.len() ==> (#[trigger] fresh_wit[a]).z@.len() == gp.m,
        forall|a: int| 0 <= a < carried_wit.len() ==> (#[trigger] carried_wit[a]).z_ring@.len() == gp.n_r,
    ensures
        witness_ring(fresh_wit, carried_wit, i) == embed_spec(witness_field(fresh_wit, carried_wit, i)),
        witness_field(fresh_wit, carried_wit, i).len() == 54 * gp.n_r,
        forall|c: int| 0 <= c < 54 * gp.n_r ==> #[trigger] witness_field(fresh_wit, carried_wit, i)[c] < Q,
{
    if i >= fresh_wit.len() {
        let zr = ring_seq(carried_wit[i - fresh_wit.len()].z_ring@);
        assert forall|a: int| 0 <= a < zr.len() implies (#[trigger] zr[a]).len() == 54 by {
            crate::ring::lemma_ring_wf(carried_wit[i - fresh_wit.len()].z_ring@[a]);
        }
        lemma_embed_flat(zr);
        assert forall|c: int| 0 <= c < 54 * gp.n_r implies #[trigger] witness_field(fresh_wit, carried_wit, i)[c] < Q by {
            let a = c / 54;
            let l = c % 54;
            lemma_fundamental_div_mod(c, 54);
            assert(0 <= a < zr.len()) by (nonlinear_arith)
                requires
                    0 <= c < 54 * gp.n_r,
                    a == c / 54,
                    zr.len() == gp.n_r,
            ;
            crate::ring::lemma_ring_wf(carried_wit[i - fresh_wit.len()].z_ring@[a]);
            assert(0 <= l < 54);
        }
    }
}

/// Termwise equal arguments give equal `F` parts.
proof fn lemma_f_part_eq(vals: Seq<E2>, ev: Seq<Seq<Seq<E2>>>, gpow: Seq<E2>, f: SparsePoly, t: int, n: int)
    requires
        forall|i: int|
            0 <= i < n ==> vals.subrange(u_at(2, t, i, 0), u_at(2, t, i, t)) == Seq::new(
                t as nat,
                |j: int| (#[trigger] ev[i])[j][0],
            ),
    ensures
        f_part(vals, gpow, &f, 2, t, n) == fv_part(ev, gpow, f, t, n),
    decreases n,
{
    if n > 0 {
        lemma_f_part_eq(vals, ev, gpow, f, t, n - 1);
        assert(vals.subrange(u_at(2, t, n - 1, 0), u_at(2, t, n - 1, t)) == Seq::new(
            t as nat,
            |j: int| ev[n - 1][j][0],
        ));
    }
}

/// Termwise equal values give equal norm parts.
proof fn lemma_nc_part_eq(zs: Seq<E2>, ev: Seq<Seq<Seq<E2>>>, gpow: Seq<E2>, b: int, n: int)
    requires
        forall|i: int| 0 <= i < n ==> zs[i] == (#[trigger] ev[i])[0][0],
    ensures
        nc_part(zs, gpow, b, n) == nv_part(ev, gpow, b, n),
    decreases n,
{
    if n > 0 {
        lemma_nc_part_eq(zs, ev, gpow, b, n - 1);
        assert(zs[n - 1] == ev[n - 1][0][0]);
    }
}

/// The claims of a Π_CCS run at `r'`: one row of `t` per instance.
pub open spec fn claims_at(
    ev: Seq<Seq<Seq<E2>>>,
    s: CcsStructure,
    fresh_wit: Seq<CcsWitness>,
    carried_wit: Seq<CeWitness>,
    rp: Seq<E2>,
) -> bool {
    &&& ev.len() == fresh_wit.len() + carried_wit.len()
    &&& forall|i: int| 0 <= i < ev.len() ==> (#[trigger] ev[i]).len() == s.matrices@.len()
    &&& forall|i: int, j: int|
        0 <= i < ev.len() && 0 <= j < s.matrices@.len() ==> #[trigger] ev[i][j] == eval_claim(
            s.mat(j),
            witness_ring(fresh_wit, carried_wit, i),
            rp,
        )
}

/// The summand at the multilinear extensions of the tables at `r'` is the `Q(r')` the
/// verifier rebuilds from the honest claims at `r'`.
#[verifier::spinoff_prover]
#[verifier::rlimit(50)]
pub proof fn lemma_q_identity(
    tabs: Seq<Seq<E2>>,
    gp: GlobalParams,
    s: CcsStructure,
    alpha: Seq<E2>,
    carried: Seq<CeInstance>,
    fresh_wit: Seq<CcsWitness>,
    carried_wit: Seq<CeWitness>,
    ev: Seq<Seq<Seq<E2>>>,
    rp: Seq<E2>,
    gpow: Seq<E2>,
)
    requires
        gp.wf(),
        s.wf(),
        s.m == gp.m,
        piccs_tables_ok(tabs, gp, s, alpha, carried, fresh_wit, carried_wit),
        carried.len() == carried_wit.len(),
        forall|a: int| 0 <= a < fresh_wit.len() ==> (#[trigger] fresh_wit[a]).z@.len() == gp.m,
        forall|a: int| 0 <= a < carried_wit.len() ==> (#[trigger] carried_wit[a]).z_ring@.len() == gp.n_r,
        alpha.len() == gp.log_m,
        seq_canon(alpha),
        rp.len() == gp.log_m,
        seq_canon(rp),
        carried.len() > 0 ==> carried[0]@.1.len() == gp.log_m && seq_canon(carried[0]@.1),
        claims_at(ev, s, fresh_wit, carried_wit, rp),
        crate::pi_ccs::dims_ok(fresh_wit.len() as int, carried_wit.len() as int, s.matrices@.len() as int),
    ensures
        combine_spec(
            Seq::new(tabs.len(), |ti: int| mle(tabs[ti], rp)),
            piccs_layout(fresh_wit.len() as int, carried_wit.len() as int, s.matrices@.len() as int),
            &s.f,
            gpow,
            fresh_wit.len() as int,
            carried_wit.len() as int,
            s.matrices@.len() as int,
            gp.b as int,
        ) == q_from_evals(
            ev,
            alpha,
            gpow,
            rp,
            if carried.len() > 0 { carried[0]@.1 } else { Seq::empty() },
            s.f,
            fresh_wit.len() as int,
            carried_wit.len() as int,
            s.matrices@.len() as int,
            gp.b as int,
        ),
{
    let cap_k = fresh_wit.len() as int;
    let k = carried_wit.len() as int;
    let t = s.matrices@.len() as int;
    let mm = pow2(gp.log_m as nat);
    let lay = piccs_layout(cap_k, k, t);
    let vals = Seq::new(tabs.len(), |ti: int| mle(tabs[ti], rp));
    assert(gp.m == 54 * gp.n_r);
    assert(2 + cap_k * t + cap_k + k <= usize::MAX) by (nonlinear_arith)
        requires
            (cap_k + k + 1) * (t + 8) * 54 <= usize::MAX,
            cap_k >= 0,
            k >= 0,
            t >= 0,
    ;
    assert(lay.z0 == 2 + cap_k * t);
    assert(lay.v0 == 2 + cap_k * t + cap_k + k);
    assert(tabs.len() == 2 + cap_k * t + cap_k + k + k * t * 54);
    // eq tables
    lemma_mle_eq_tab(alpha, rp);
    assert(vals[0] == crate::multilinear::eq_spec(rp, alpha, rp.len() as int));
    if k > 0 {
        lemma_mle_eq_tab(carried[0]@.1, rp);
        assert(vals[1] == crate::multilinear::eq_spec(rp, carried[0]@.1, rp.len() as int));
    } else {
        lemma_mle_zero(tabs[1], rp);
        assert(vals[1] == e2_zero());
    }
    // the F part
    assert forall|i: int| 0 <= i < cap_k implies vals.subrange(u_at(2, t, i, 0), u_at(2, t, i, t)) == Seq::new(
        t as nat,
        |j: int| (#[trigger] ev[i])[j][0],
    ) by {
        let z = fp_seq(fresh_wit[i].z@);
        assert(0 <= u_at(2, t, i, 0) <= u_at(2, t, i, t) <= 2 + cap_k * t) by (nonlinear_arith)
            requires
                0 <= i < cap_k,
                t >= 1,
                u_at(2, t, i, 0) == 2 + i * t + 0,
                u_at(2, t, i, t) == 2 + i * t + t,
        ;
        assert forall|j: int| 0 <= j < t implies #[trigger] vals.subrange(u_at(2, t, i, 0), u_at(2, t, i, t))[j]
            == ev[i][j][0] by {
            assert(0 <= u_at(2, t, i, j) < tabs.len()) by (nonlinear_arith)
                requires
                    0 <= i < cap_k,
                    0 <= j < t,
                    tabs.len() == 2 + cap_k * t + cap_k + k + k * t * 54,
                    u_at(2, t, i, j) == 2 + i * t + j,
                    k >= 0,
            ;
            assert(u_at(2, t, i, 0) + j == u_at(2, t, i, j));
            lemma_mat_entries(s, j);
            lemma_ct_rows(s.mat(j), z, gp.n_r as int);
            assert(witness_ring(fresh_wit, carried_wit, i) == embed_spec(z));
            assert(tabs[u_at(2, t, i, j)] == u_table(s.mat(j), z, mm));
            assert(ev[i][j] == eval_claim(s.mat(j), embed_spec(z), rp));
            assert(ev[i][j][0] == mle(pad(ring_column(bar_matvec_spec(s.mat(j), embed_spec(z)), 0), mm), rp));
            assert(vals[u_at(2, t, i, j)] == mle(u_table(s.mat(j), z, mm), rp));
        }
        assert(u_at(2, t, i, t) - u_at(2, t, i, 0) == t);
        assert(vals.subrange(u_at(2, t, i, 0), u_at(2, t, i, t)) =~= Seq::new(t as nat, |j: int| ev[i][j][0]));
    }
    lemma_f_part_eq(vals, ev, gpow, s.f, t, cap_k);
    // the norm part
    let zs = vals.subrange(lay.z0 as int, lay.z0 + cap_k + k);
    assert forall|i: int| 0 <= i < cap_k + k implies zs[i] == (#[trigger] ev[i])[0][0] by {
        let w = witness_field(fresh_wit, carried_wit, i);
        lemma_witness_embed(gp, fresh_wit, carried_wit, i);
        lemma_mat_entries(s, 0);
        lemma_ct_rows(s.mat(0), w, gp.n_r as int);
        lemma_identity_matvec(s.mat(0), w);
        assert(tabs[lay.z0 + i] == pad(base_seq(w), mm));
    }
    lemma_nc_part_eq(zs, ev, gpow, gp.b as int, cap_k + k);
    // the carried part
    let blocks = vals_blocks(vals, lay.v0 as int, t, k);
    let evc = ev.subrange(cap_k, cap_k + k);
    assert forall|ci: int| 0 <= ci < k implies #[trigger] blocks[ci] == evc[ci] by {
        assert forall|j: int| 0 <= j < t implies #[trigger] blocks[ci][j] == evc[ci][j] by {
            assert forall|l: int| 0 <= l < 54 implies #[trigger] blocks[ci][j][l] == evc[ci][j][l] by {
                assert(0 <= v_at(lay.v0 as int, t, ci, j, l) < tabs.len()) by (nonlinear_arith)
                    requires
                        0 <= ci < k,
                        0 <= j < t,
                        0 <= l < 54,
                        lay.v0 >= 0,
                        tabs.len() == lay.v0 + k * t * 54,
                        v_at(lay.v0 as int, t, ci, j, l) == lay.v0 + (ci * t + j) * 54 + l,
                ;
                assert(tabs[v_at(lay.v0 as int, t, ci, j, l)] == v_table(
                    s.mat(j),
                    ring_seq(carried_wit[ci].z_ring@),
                    l,
                    mm,
                ));
                assert(witness_ring(fresh_wit, carried_wit, cap_k + ci) == ring_seq(carried_wit[ci].z_ring@));
                assert(evc[ci] == ev[cap_k + ci]);
            }
            assert(blocks[ci][j] =~= evc[ci][j]);
        }
        assert(blocks[ci] =~= evc[ci]);
    }
    assert(blocks =~= evc);
    lemma_q_assemble(
        vals,
        lay,
        s.f,
        gpow,
        cap_k,
        k,
        t,
        gp.b as int,
        alpha,
        rp,
        if carried.len() > 0 { carried[0]@.1 } else { Seq::empty() },
        ev,
    );
}

/// `Q` from the table values equals `Q` from the claims once its parts agree.
proof fn lemma_q_assemble(
    vals: Seq<E2>,
    lay: crate::pi_ccs::Layout,
    f: SparsePoly,
    gpow: Seq<E2>,
    cap_k: int,
    k: int,
    t: int,
    b: int,
    alpha: Seq<E2>,
    rp: Seq<E2>,
    r0: Seq<E2>,
    ev: Seq<Seq<Seq<E2>>>,
)
    requires
        lay.u0 == 2,
        lay.eq_r == 1,
        vals[0] == crate::multilinear::eq_spec(rp, alpha, rp.len() as int),
        k > 0 ==> vals[1] == crate::multilinear::eq_spec(rp, r0, rp.len() as int),
        k == 0 ==> vals[1] == e2_zero(),
        f_part(vals, gpow, &f, 2, t, cap_k) == fv_part(ev, gpow, f, t, cap_k),
        nc_part(vals.subrange(lay.z0 as int, lay.z0 + cap_k + k), gpow, b, cap_k + k) == nv_part(ev, gpow, b, cap_k + k),
        vals_blocks(vals, lay.v0 as int, t, k) == ev.subrange(cap_k, cap_k + k),
    ensures
        combine_spec(vals, lay, &f, gpow, cap_k, k, t, b) == q_from_evals(ev, alpha, gpow, rp, r0, f, cap_k, k, t, b),
{
    let g = gpow[2 * cap_k + k];
    let evs = crate::pi_ccs::ev_sum(vals_blocks(vals, lay.v0 as int, t, k), gpow, k, t, k);
    if k == 0 {
        assert(e2_mul(g, e2_zero()) == e2_zero()) by {
            assert(g.0 * 0 + 7 * (g.1 * 0) == 0) by (nonlinear_arith);
            assert(g.0 * 0 + g.1 * 0 == 0) by (nonlinear_arith);
        }
        assert(e2_mul(e2_zero(), evs) == e2_zero()) by {
            assert(0 * evs.0 + 7 * (0 * evs.1) == 0) by (nonlinear_arith);
            assert(0 * evs.1 + 0 * evs.0 == 0) by (nonlinear_arith);
        }
    } else {
        crate::ext2::lemma_e2_mul_assoc(g, vals[1], evs);
    }
}

/// The sum of `g(0), ..., g(n - 1)`.
pub open spec fn fsum(g: spec_fn(int) -> E2, n: nat) -> E2 {
    e2_sum(Seq::new(n, g))
}

proof fn lemma_fsum_step(g: spec_fn(int) -> E2, n: nat)
    requires
        n > 0,
    ensures
        fsum(g, n) == e2_add(fsum(g, (n - 1) as nat), g(n - 1)),
{
    assert(Seq::new(n, g).drop_last() =~= Seq::new((n - 1) as nat, g));
}

/// Sums of canonical terms are additive.
proof fn lemma_fsum_add(g1: spec_fn(int) -> E2, g2: spec_fn(int) -> E2, n: nat)
    requires
        forall|x: int| 0 <= x < n ==> e2_canon(#[trigger] g1(x)) && e2_canon(g2(x)),
    ensures
        fsum(|x: int| e2_add(g1(x), g2(x)), n) == e2_add(fsum(g1, n), fsum(g2, n)),
    decreases n,
{
    let g = |x: int| e2_add(g1(x), g2(x));
    if n == 0 {
        law_e2_field_axioms(e2_zero(), e2_zero(), e2_zero());
    } else {
        lemma_fsum_add(g1, g2, (n - 1) as nat);
        lemma_fsum_step(g, n);
        lemma_fsum_step(g1, n);
        lemma_fsum_step(g2, n);
        let a = fsum(g1, (n - 1) as nat);
        let b = fsum(g2, (n - 1) as nat);
        assert(e2_canon(g1(n - 1)) && e2_canon(g2(n - 1)));
        law_e2_field_axioms(a, b, e2_add(g1(n - 1), g2(n - 1)));
        law_e2_field_axioms(b, g1(n - 1), g2(n - 1));
        law_e2_field_axioms(g1(n - 1), b, g2(n - 1));
        law_e2_field_axioms(a, g1(n - 1), e2_add(b, g2(n - 1)));
    }
}

/// Sums of canonical terms scale.
proof fn lemma_fsum_scale(g: spec_fn(int) -> E2, c: E2, n: nat)
    requires
        e2_canon(c),
        forall|x: int| 0 <= x < n ==> e2_canon(#[trigger] g(x)),
    ensures
        fsum(|x: int| e2_mul(c, g(x)), n) == e2_mul(c, fsum(g, n)),
    decreases n,
{
    let h = |x: int| e2_mul(c, g(x));
    if n == 0 {
        assert(e2_mul(c, e2_zero()) == e2_zero()) by {
            assert(c.0 * 0 + 7 * (c.1 * 0) == 0) by (nonlinear_arith);
            assert(c.0 * 0 + c.1 * 0 == 0) by (nonlinear_arith);
        }
    } else {
        lemma_fsum_scale(g, c, (n - 1) as nat);
        lemma_fsum_step(h, n);
        lemma_fsum_step(g, n);
        crate::ext2::lemma_e2_mul_distrib(c, fsum(g, (n - 1) as nat), g(n - 1));
    }
}

/// Sums agree when their terms do.
proof fn lemma_fsum_ext(g1: spec_fn(int) -> E2, g2: spec_fn(int) -> E2, n: nat)
    requires
        forall|x: int| 0 <= x < n ==> #[trigger] g1(x) == g2(x),
    ensures
        fsum(g1, n) == fsum(g2, n),
{
    assert(Seq::new(n, g1) =~= Seq::new(n, g2));
}

/// `e (a + c y) = e a + c (e y)` in `K`.
proof fn lemma_lin_step(e: E2, a: E2, c: E2, y: E2)
    requires
        e2_canon(e),
        e2_canon(a),
        e2_canon(c),
        e2_canon(y),
    ensures
        e2_mul(e, e2_add(a, e2_mul(c, y))) == e2_add(e2_mul(e, a), e2_mul(c, e2_mul(e, y))),
{
    crate::ext2::lemma_e2_mul_distrib(e, a, e2_mul(c, y));
    crate::ext2::lemma_e2_mul_assoc(e, c, y);
    crate::ext2::lemma_e2_mul_comm(e, c);
    crate::ext2::lemma_e2_mul_assoc(c, e, y);
}

/// `sum_x e(x) yy(x)[l]`.
pub open spec fn wsum(e: spec_fn(int) -> E2, yy: spec_fn(int) -> Seq<E2>, l: int, m: nat) -> E2 {
    fsum(|x: int| e2_mul(e(x), yy(x)[l]), m)
}

/// `sum_x e(x) ev_l(yy(x))`.
pub open spec fn wsum_ev_l(
    e: spec_fn(int) -> E2,
    yy: spec_fn(int) -> Seq<E2>,
    gpow: Seq<E2>,
    base: int,
    kt: int,
    n: int,
    m: nat,
) -> E2 {
    fsum(|x: int| e2_mul(e(x), ev_l(yy(x), gpow, base, kt, n)), m)
}

/// Summing the weighted claim sum over points: `sum_x e(x) ev_l(Y(x))` is `ev_l` of the
/// weighted sums of the entries.
#[verifier::spinoff_prover]
proof fn lemma_ev_l_sum(
    e: spec_fn(int) -> E2,
    yy: spec_fn(int) -> Seq<E2>,
    gpow: Seq<E2>,
    base: int,
    kt: int,
    n: int,
    m: nat,
)
    requires
        0 <= n <= 54,
        forall|i: int| 0 <= i < gpow.len() ==> e2_canon(#[trigger] gpow[i]),
        0 <= base,
        0 <= kt,
        n == 0 || base + kt * (n - 1) < gpow.len(),
        forall|x: int| 0 <= x < m ==> e2_canon(#[trigger] e(x)),
        forall|x: int, l: int| 0 <= x < m && 0 <= l < 54 ==> e2_canon(#[trigger] yy(x)[l]),
    ensures
        wsum_ev_l(e, yy, gpow, base, kt, n, m) == ev_l(
            Seq::new(54, |l: int| wsum(e, yy, l, m)),
            gpow,
            base,
            kt,
            n,
        ),
    decreases n,
{
    let ys = Seq::new(54, |l: int| wsum(e, yy, l, m));
    let lhs = |x: int| e2_mul(e(x), ev_l(yy(x), gpow, base, kt, n));
    if n == 0 {
        assert forall|x: int| 0 <= x < m implies #[trigger] lhs(x) == e2_zero() by {
            lemma_mul_zero(e(x));
        }
        lemma_fsum_ext(lhs, |x: int| e2_zero(), m);
        lemma_fsum_zero(m);
    } else {
        assert(n - 1 == 0 || base + kt * (n - 2) < gpow.len()) by (nonlinear_arith)
            requires
                base + kt * (n - 1) < gpow.len(),
                kt >= 0,
                n >= 1,
        ;
        lemma_ev_l_sum(e, yy, gpow, base, kt, n - 1, m);
        let c = gpow[base + kt * (n - 1)];
        assert(e2_canon(c));
        let a = |x: int| e2_mul(e(x), ev_l(yy(x), gpow, base, kt, n - 1));
        let b = |x: int| e2_mul(e(x), yy(x)[n - 1]);
        let cb = |x: int| e2_mul(c, b(x));
        assert forall|x: int| 0 <= x < m implies #[trigger] lhs(x) == e2_add(a(x), cb(x)) by {
            lemma_ev_l_unfold(e(x), yy(x), gpow, base, kt, n);
        }
        lemma_fsum_ext(lhs, |x: int| e2_add(a(x), cb(x)), m);
        lemma_fsum_add(a, cb, m);
        lemma_fsum_scale(b, c, m);
        assert(fsum(a, m) == wsum_ev_l(e, yy, gpow, base, kt, n - 1, m));
        assert(ys[n - 1] == fsum(b, m));
    }
}

/// `x 0 = 0` in `K`.
proof fn lemma_mul_zero(x: E2)
    ensures
        e2_mul(x, e2_zero()) == e2_zero(),
        e2_mul(e2_zero(), x) == e2_zero(),
{
    assert(x.0 * 0 + 7 * (x.1 * 0) == 0) by (nonlinear_arith);
    assert(x.0 * 0 + x.1 * 0 == 0) by (nonlinear_arith);
    assert(0 * x.0 + 7 * (0 * x.1) == 0) by (nonlinear_arith);
    assert(0 * x.1 + 0 * x.0 == 0) by (nonlinear_arith);
}

/// One step of a weighted claim sum, multiplied by a weight.
proof fn lemma_ev_l_unfold(ex: E2, y: Seq<E2>, gpow: Seq<E2>, base: int, kt: int, n: int)
    requires
        n >= 1,
        e2_canon(ex),
        e2_canon(y[n - 1]),
        e2_canon(gpow[base + kt * (n - 1)]),
    ensures
        e2_mul(ex, ev_l(y, gpow, base, kt, n)) == e2_add(
            e2_mul(ex, ev_l(y, gpow, base, kt, n - 1)),
            e2_mul(gpow[base + kt * (n - 1)], e2_mul(ex, y[n - 1])),
        ),
{
    lemma_lin_step(ex, ev_l(y, gpow, base, kt, n - 1), gpow[base + kt * (n - 1)], y[n - 1]);
}

/// The sum of zeros is zero.
proof fn lemma_fsum_zero(m: nat)
    ensures
        fsum(|x: int| e2_zero(), m) == e2_zero(),
    decreases m,
{
    if m > 0 {
        lemma_fsum_zero((m - 1) as nat);
        lemma_fsum_step(|x: int| e2_zero(), m);
    }
}

/// The points' rows `j`.
pub open spec fn col_j(yy2: spec_fn(int) -> Seq<Seq<E2>>, j: int) -> spec_fn(int) -> Seq<E2> {
    |x: int| yy2(x)[j]
}

/// The points' blocks `ci`.
pub open spec fn col_ci(yy3: spec_fn(int) -> Seq<Seq<Seq<E2>>>, ci: int) -> spec_fn(int) -> Seq<Seq<E2>> {
    |x: int| yy3(x)[ci]
}

/// The weighted sums of row `j`, entry by entry.
pub open spec fn wsum_row(e: spec_fn(int) -> E2, yy2: spec_fn(int) -> Seq<Seq<E2>>, j: int, m: nat) -> Seq<E2> {
    Seq::new(54, |l: int| wsum(e, col_j(yy2, j), l, m))
}

/// The weighted sums of block `ci`, row by row.
pub open spec fn wsum_block(
    e: spec_fn(int) -> E2,
    yy3: spec_fn(int) -> Seq<Seq<Seq<E2>>>,
    ci: int,
    t: int,
    m: nat,
) -> Seq<Seq<E2>> {
    Seq::new(t as nat, |j: int| wsum_row(e, col_ci(yy3, ci), j, m))
}

/// `sum_x e(x) ev_j(yy2(x))`.
pub open spec fn wsum_ev_j(
    e: spec_fn(int) -> E2,
    yy2: spec_fn(int) -> Seq<Seq<E2>>,
    gpow: Seq<E2>,
    ci: int,
    k: int,
    t: int,
    n: int,
    m: nat,
) -> E2 {
    fsum(|x: int| e2_mul(e(x), ev_j(yy2(x), gpow, ci, k, t, n)), m)
}

/// `sum_x e(x) ev_sum(yy3(x))`.
pub open spec fn wsum_ev_sum(
    e: spec_fn(int) -> E2,
    yy3: spec_fn(int) -> Seq<Seq<Seq<E2>>>,
    gpow: Seq<E2>,
    k: int,
    t: int,
    n: int,
    m: nat,
) -> E2 {
    fsum(|x: int| e2_mul(e(x), ev_sum(yy3(x), gpow, k, t, n)), m)
}

/// `e (a + b) = e a + e b`, for the canonical terms of a weighted sum.
proof fn lemma_split_sum_terms(
    lhs: spec_fn(int) -> E2,
    a: spec_fn(int) -> E2,
    b: spec_fn(int) -> E2,
    m: nat,
)
    requires
        forall|x: int| 0 <= x < m ==> #[trigger] lhs(x) == e2_add(a(x), b(x)),
        forall|x: int| 0 <= x < m ==> e2_canon(#[trigger] a(x)) && e2_canon(b(x)),
    ensures
        fsum(lhs, m) == e2_add(fsum(a, m), fsum(b, m)),
{
    lemma_fsum_ext(lhs, |x: int| e2_add(a(x), b(x)), m);
    lemma_fsum_add(a, b, m);
}

/// Summing `ev_j` over points with weights.
#[verifier::spinoff_prover]
proof fn lemma_ev_j_sum(
    e: spec_fn(int) -> E2,
    yy2: spec_fn(int) -> Seq<Seq<E2>>,
    gpow: Seq<E2>,
    ci: int,
    k: int,
    t: int,
    n: int,
    m: nat,
)
    requires
        0 <= n <= t,
        0 <= ci,
        0 <= k,
        forall|i: int| 0 <= i < gpow.len() ==> e2_canon(#[trigger] gpow[i]),
        n == 0 || ci + k * (n - 1) + k * t * 53 < gpow.len(),
        forall|x: int| 0 <= x < m ==> e2_canon(#[trigger] e(x)),
        forall|x: int, j: int, l: int|
            0 <= x < m && 0 <= j < t && 0 <= l < 54 ==> e2_canon(#[trigger] yy2(x)[j][l]),
    ensures
        wsum_ev_j(e, yy2, gpow, ci, k, t, n, m) == ev_j(
            Seq::new(t as nat, |j: int| wsum_row(e, yy2, j, m)),
            gpow,
            ci,
            k,
            t,
            n,
        ),
    decreases n,
{
    let lhs = |x: int| e2_mul(e(x), ev_j(yy2(x), gpow, ci, k, t, n));
    if n == 0 {
        assert forall|x: int| 0 <= x < m implies #[trigger] lhs(x) == e2_zero() by {
            lemma_mul_zero(e(x));
        }
        lemma_fsum_ext(lhs, |x: int| e2_zero(), m);
        lemma_fsum_zero(m);
    } else {
        assert(n - 1 == 0 || ci + k * (n - 2) + k * t * 53 < gpow.len()) by (nonlinear_arith)
            requires
                ci + k * (n - 1) + k * t * 53 < gpow.len(),
                k >= 0,
                n >= 1,
        ;
        lemma_ev_j_sum(e, yy2, gpow, ci, k, t, n - 1, m);
        let base = ci + k * (n - 1);
        let kt = k * t;
        let yy = col_j(yy2, n - 1);
        assert(0 <= kt) by (nonlinear_arith)
            requires
                k >= 0,
                t >= 0,
                kt == k * t,
        ;
        assert(base + kt * 53 < gpow.len());
        assert forall|x: int, l: int| 0 <= x < m && 0 <= l < 54 implies e2_canon(#[trigger] yy(x)[l]) by {
            assert(yy(x)[l] == yy2(x)[n - 1][l]);
        }
        lemma_ev_l_sum(e, yy, gpow, base, kt, 54, m);
        let a = |x: int| e2_mul(e(x), ev_j(yy2(x), gpow, ci, k, t, n - 1));
        let b = |x: int| e2_mul(e(x), ev_l(yy(x), gpow, base, kt, 54));
        assert forall|x: int| 0 <= x < m implies #[trigger] lhs(x) == e2_add(a(x), b(x)) by {
            assert(yy(x) == yy2(x)[n - 1]);
            crate::ext2::lemma_e2_mul_distrib(e(x), ev_j(yy2(x), gpow, ci, k, t, n - 1), ev_l(yy(x), gpow, base, kt, 54));
        }
        lemma_split_sum_terms(lhs, a, b, m);
        assert(fsum(a, m) == wsum_ev_j(e, yy2, gpow, ci, k, t, n - 1, m));
        assert(fsum(b, m) == wsum_ev_l(e, yy, gpow, base, kt, 54, m));
        let tgt = Seq::new(t as nat, |j: int| wsum_row(e, yy2, j, m));
        assert(tgt[n - 1] =~= Seq::new(54, |l: int| wsum(e, yy, l, m)));
    }
}

/// Summing `ev_sum` over points with weights.
#[verifier::spinoff_prover]
proof fn lemma_ev_sum_sum(
    e: spec_fn(int) -> E2,
    yy3: spec_fn(int) -> Seq<Seq<Seq<E2>>>,
    gpow: Seq<E2>,
    k: int,
    t: int,
    n: int,
    m: nat,
)
    requires
        0 <= n <= k,
        1 <= t,
        forall|i: int| 0 <= i < gpow.len() ==> e2_canon(#[trigger] gpow[i]),
        n == 0 || k * t * 54 <= gpow.len(),
        forall|x: int| 0 <= x < m ==> e2_canon(#[trigger] e(x)),
        forall|x: int, ci: int, j: int, l: int|
            0 <= x < m && 0 <= ci < k && 0 <= j < t && 0 <= l < 54 ==> e2_canon(#[trigger] yy3(x)[ci][j][l]),
    ensures
        wsum_ev_sum(e, yy3, gpow, k, t, n, m) == ev_sum(
            Seq::new(k as nat, |ci: int| wsum_block(e, yy3, ci, t, m)),
            gpow,
            k,
            t,
            n,
        ),
    decreases n,
{
    let lhs = |x: int| e2_mul(e(x), ev_sum(yy3(x), gpow, k, t, n));
    if n == 0 {
        assert forall|x: int| 0 <= x < m implies #[trigger] lhs(x) == e2_zero() by {
            lemma_mul_zero(e(x));
        }
        lemma_fsum_ext(lhs, |x: int| e2_zero(), m);
        lemma_fsum_zero(m);
    } else {
        lemma_ev_sum_sum(e, yy3, gpow, k, t, n - 1, m);
        let ci = n - 1;
        let yy2 = col_ci(yy3, ci);
        assert(ci + k * (t - 1) + k * t * 53 < gpow.len()) by (nonlinear_arith)
            requires
                0 <= ci < k,
                t >= 1,
                k * t * 54 <= gpow.len(),
        ;
        assert forall|x: int, j: int, l: int| 0 <= x < m && 0 <= j < t && 0 <= l < 54 implies e2_canon(
            #[trigger] yy2(x)[j][l],
        ) by {
            assert(yy2(x)[j][l] == yy3(x)[ci][j][l]);
        }
        lemma_ev_j_sum(e, yy2, gpow, ci, k, t, t, m);
        let a = |x: int| e2_mul(e(x), ev_sum(yy3(x), gpow, k, t, n - 1));
        let b = |x: int| e2_mul(e(x), ev_j(yy2(x), gpow, ci, k, t, t));
        assert forall|x: int| 0 <= x < m implies #[trigger] lhs(x) == e2_add(a(x), b(x)) by {
            assert(yy2(x) == yy3(x)[ci]);
            crate::ext2::lemma_e2_mul_distrib(e(x), ev_sum(yy3(x), gpow, k, t, n - 1), ev_j(yy2(x), gpow, ci, k, t, t));
        }
        lemma_split_sum_terms(lhs, a, b, m);
        assert(fsum(a, m) == wsum_ev_sum(e, yy3, gpow, k, t, n - 1, m));
        assert(fsum(b, m) == wsum_ev_j(e, yy2, gpow, ci, k, t, t, m));
        let tgt = Seq::new(k as nat, |c: int| wsum_block(e, yy3, c, t, m));
        assert(tgt[ci] =~= Seq::new(t as nat, |j: int| wsum_row(e, yy2, j, m)));
    }
}

/// The honest inputs of a Π_CCS run: every fresh witness satisfies the structure, whose
/// polynomial vanishes at zero; every coefficient of every witness has balanced
/// magnitude below `b`; and the claims of every carried instance are the evaluation
/// claims of its witness at the first carried point.
pub open spec fn piccs_honest(
    gp: GlobalParams,
    s: CcsStructure,
    carried: Seq<CeInstance>,
    fresh_wit: Seq<CcsWitness>,
    carried_wit: Seq<CeWitness>,
) -> bool {
    &&& forall|i: int| 0 <= i < fresh_wit.len() ==> ccs_holds(s, fp_seq((#[trigger] fresh_wit[i]).z@))
    &&& s.f.eval_spec(Seq::new(s.matrices@.len() as nat, |j: int| e2_zero())) == e2_zero()
    &&& forall|i: int, c: int|
        0 <= i < fresh_wit.len() + carried_wit.len() && 0 <= c < gp.m ==> abs_balanced_of(
            #[trigger] witness_field(fresh_wit, carried_wit, i)[c],
        ) < gp.b
    &&& forall|ci: int|
        0 <= ci < carried.len() ==> (#[trigger] carried[ci])@.2.len() == s.matrices@.len()
    &&& forall|ci: int, j: int|
        0 <= ci < carried.len() && 0 <= j < s.matrices@.len() ==> #[trigger] carried[ci]@.2[j] == eval_claim(
            s.mat(j),
            ring_seq(carried_wit[ci].z_ring@),
            carried[0]@.1,
        )
}

/// An `F` part whose every constraint value is zero is zero.
proof fn lemma_f_part_zero(vals: Seq<E2>, gpow: Seq<E2>, f: SparsePoly, t: int, n: int)
    requires
        forall|i: int|
            0 <= i < n ==> f.eval_spec(#[trigger] vals.subrange(u_at(2, t, i, 0), u_at(2, t, i, t))) == e2_zero(),
    ensures
        f_part(vals, gpow, &f, 2, t, n) == e2_zero(),
    decreases n,
{
    if n > 0 {
        lemma_f_part_zero(vals, gpow, f, t, n - 1);
        lemma_mul_zero(gpow[n - 1]);
        assert(f.eval_spec(vals.subrange(u_at(2, t, n - 1, 0), u_at(2, t, n - 1, t))) == e2_zero());
    }
}

/// A norm part whose every range product is zero is zero.
proof fn lemma_nc_part_zero(zs: Seq<E2>, gpow: Seq<E2>, b: int, n: int)
    requires
        forall|i: int| 0 <= i < n ==> crate::pi_ccs::range_poly(#[trigger] zs[i], b) == e2_zero(),
    ensures
        nc_part(zs, gpow, b, n) == e2_zero(),
    decreases n,
{
    if n > 0 {
        lemma_nc_part_zero(zs, gpow, b, n - 1);
        lemma_mul_zero(gpow[n - 1]);
        assert(crate::pi_ccs::range_poly(zs[n - 1], b) == e2_zero());
    }
}

/// At one point of the hypercube, honest tables make the `F` and norm parts vanish: the
/// summand is the carried part alone.
#[verifier::spinoff_prover]
#[verifier::rlimit(40)]
proof fn lemma_column_summand(
    tabs: Seq<Seq<E2>>,
    gp: GlobalParams,
    s: CcsStructure,
    alpha: Seq<E2>,
    carried: Seq<CeInstance>,
    fresh_wit: Seq<CcsWitness>,
    carried_wit: Seq<CeWitness>,
    gpow: Seq<E2>,
    x: int,
)
    requires
        gp.wf(),
        s.wf(),
        s.m == gp.m,
        piccs_tables_ok(tabs, gp, s, alpha, carried, fresh_wit, carried_wit),
        crate::pi_ccs::dims_ok(fresh_wit.len() as int, carried_wit.len() as int, s.matrices@.len() as int),
        carried.len() == carried_wit.len(),
        forall|a: int| 0 <= a < fresh_wit.len() ==> (#[trigger] fresh_wit[a]).z@.len() == gp.m,
        forall|a: int| 0 <= a < carried_wit.len() ==> (#[trigger] carried_wit[a]).z_ring@.len() == gp.n_r,
        piccs_honest(gp, s, carried, fresh_wit, carried_wit),
        0 <= x < pow2(gp.log_m as nat),
    ensures
        ({
            let cap_k = fresh_wit.len() as int;
            let k = carried_wit.len() as int;
            let t = s.matrices@.len() as int;
            let lay = piccs_layout(cap_k, k, t);
            let col = column(tabs, x);
            combine_spec(col, lay, &s.f, gpow, cap_k, k, t, gp.b as int) == e2_mul(
                e2_mul(gpow[2 * cap_k + k], col[1]),
                ev_sum(vals_blocks(col, lay.v0 as int, t, k), gpow, k, t, k),
            )
        }),
{
    let cap_k = fresh_wit.len() as int;
    let k = carried_wit.len() as int;
    let t = s.matrices@.len() as int;
    let mm = pow2(gp.log_m as nat);
    let lay = piccs_layout(cap_k, k, t);
    let col = column(tabs, x);
    assert(gp.m == 54 * gp.n_r);
    assert(2 + cap_k * t + cap_k + k <= usize::MAX) by (nonlinear_arith)
        requires
            (cap_k + k + 1) * (t + 8) * 54 <= usize::MAX,
            cap_k >= 0,
            k >= 0,
            t >= 0,
    ;
    assert(lay.z0 == 2 + cap_k * t);
    assert(lay.v0 == 2 + cap_k * t + cap_k + k);
    assert(tabs.len() == 2 + cap_k * t + cap_k + k + k * t * 54);
    // F vanishes
    assert forall|i: int| 0 <= i < cap_k implies s.f.eval_spec(
        #[trigger] col.subrange(u_at(2, t, i, 0), u_at(2, t, i, t)),
    ) == e2_zero() by {
        let z = fp_seq(fresh_wit[i].z@);
        assert(0 <= u_at(2, t, i, 0) <= u_at(2, t, i, t) <= 2 + cap_k * t) by (nonlinear_arith)
            requires
                0 <= i < cap_k,
                t >= 1,
                u_at(2, t, i, 0) == 2 + i * t + 0,
                u_at(2, t, i, t) == 2 + i * t + t,
        ;
        let sub = col.subrange(u_at(2, t, i, 0), u_at(2, t, i, t));
        if x < gp.m {
            assert forall|j: int| 0 <= j < t implies #[trigger] sub[j] == ccs_row(s, z, x)[j] by {
                assert(u_at(2, t, i, 0) + j == u_at(2, t, i, j));
                lemma_mat_entries(s, j);
                assert(tabs[u_at(2, t, i, j)] == u_table(s.mat(j), z, mm));
            }
            assert(sub =~= ccs_row(s, z, x));
            assert(ccs_holds(s, z));
        } else {
            assert forall|j: int| 0 <= j < t implies #[trigger] sub[j] == e2_zero() by {
                assert(u_at(2, t, i, 0) + j == u_at(2, t, i, j));
                lemma_mat_entries(s, j);
                assert(tabs[u_at(2, t, i, j)] == u_table(s.mat(j), z, mm));
            }
            assert(sub =~= Seq::new(t as nat, |j: int| e2_zero()));
        }
    }
    lemma_f_part_zero(col, gpow, s.f, t, cap_k);
    // the norm part vanishes
    let zs = col.subrange(lay.z0 as int, lay.z0 + cap_k + k);
    assert forall|i: int| 0 <= i < cap_k + k implies crate::pi_ccs::range_poly(#[trigger] zs[i], gp.b as int)
        == e2_zero() by {
        let w = witness_field(fresh_wit, carried_wit, i);
        lemma_witness_embed(gp, fresh_wit, carried_wit, i);
        assert(tabs[lay.z0 + i] == pad(base_seq(w), mm));
        if x < gp.m {
            let v = balanced_of(w[x]);
            crate::norm::lemma_balanced_fmod(w[x]);
            assert(abs_balanced_of(w[x]) < gp.b);
            crate::pi_ccs::law_range_poly_vanishes(v, gp.b as int);
        } else {
            crate::pi_ccs::law_range_poly_vanishes(0, gp.b as int);
        }
    }
    lemma_nc_part_zero(zs, gpow, gp.b as int, cap_k + k);
    // what is left
    let g = gpow[cap_k];
    lemma_mul_zero(g);
    law_e2_field_axioms(e2_zero(), e2_zero(), e2_zero());
    lemma_mul_zero(col[0]);
    let rest = e2_mul(
        e2_mul(gpow[2 * cap_k + k], col[1]),
        ev_sum(vals_blocks(col, lay.v0 as int, t, k), gpow, k, t, k),
    );
    law_e2_field_axioms(rest, e2_zero(), e2_zero());
}

/// Completeness of Π_CCS: when every fresh witness satisfies the structure (whose
/// polynomial vanishes at zero), every witness coefficient has magnitude below `b`, and
/// the carried claims are the evaluation claims of their witnesses at one shared point,
/// the proof the prover makes passes every check of the verifier: each sum-check round
/// holds against the claimed sum, the claimed evaluations are well shaped, and `Q(r')`
/// rebuilt from them is the reduced claim.
#[verifier::spinoff_prover]
#[verifier::rlimit(60)]
pub proof fn law_pi_ccs_complete(
    t0: TrView,
    gp: GlobalParams,
    s: CcsStructure,
    fresh: Seq<CcsInstance>,
    carried: Seq<CeInstance>,
    fresh_wit: Seq<CcsWitness>,
    carried_wit: Seq<CeWitness>,
    proof: PiCcsProof,
)
    requires
        piccs_inputs_ok(gp, s, fresh, carried),
        fresh_wit.len() == fresh.len(),
        carried_wit.len() == carried.len(),
        forall|a: int| 0 <= a < fresh_wit.len() ==> (#[trigger] fresh_wit[a]).z@.len() == gp.m,
        forall|a: int| 0 <= a < carried_wit.len() ==> (#[trigger] carried_wit[a]).z_ring@.len() == gp.n_r,
        piccs_honest(gp, s, carried, fresh_wit, carried_wit),
        piccs_proved(t0, gp, s, fresh, carried, fresh_wit, carried_wit, proof),
    ensures
        piccs_sc_ok(t0, gp, s, fresh, carried, proof),
        piccs_shape_ok(proof.evals@, fresh.len() + carried.len(), s.matrices@.len()),
        piccs_q(t0, gp, s, fresh, carried, proof) == piccs_final_claim(t0, gp, s, fresh, carried, proof),
{
    let cap_k = fresh.len() as int;
    let k = carried.len() as int;
    let t = s.matrices@.len() as int;
    let alpha = piccs_alpha(piccs_bound(t0, s, fresh, carried), gp.log_m as nat);
    let tabs = choose|tabs: Seq<Seq<E2>>|
        #[trigger] piccs_tables_ok(tabs, gp, s, alpha, carried, fresh_wit, carried_wit) && (forall|ti: int|
            0 <= ti < tabs.len() ==> seq_canon(#[trigger] tabs[ti])) && piccs_sc_complete(
            tabs,
            t0,
            gp,
            s,
            fresh,
            carried,
            proof,
        );
    let gpow = piccs_gpow_of(t0, gp, s, fresh, carried);
    reveal(piccs_gpow_of);
    let gamma = piccs_gamma(piccs_bound(t0, s, fresh, carried), gp.log_m as nat);
    assert forall|i: int| 0 <= i < gpow.len() implies e2_canon(#[trigger] gpow[i]) by {
        lemma_e2_pow_canon(gamma, i as nat);
    }
    assert(carried.len() > 0 ==> carried[0]@.1.len() == gp.log_m && seq_canon(carried[0]@.1)) by {
        if carried.len() > 0 {
            assert forall|c: int| 0 <= c < carried[0]@.1.len() implies e2_canon(#[trigger] carried[0]@.1[c]) by {
                assert(carried[0]@.1[c] == carried[0].r@[c]@);
            }
        }
    }
    lemma_true_sum(tabs, gp, s, alpha, carried, fresh_wit, carried_wit, gpow);
    let f = piccs_summand(t0, gp, s, fresh, carried);
    assert(f =~= summand_with(s, gpow, cap_k, k, gp.b as int));
    let sum = hyper_sum(f, tabs, pow2(gp.log_m as nat));
    reveal(piccs_claimed);
    assert(sum == piccs_claimed(t0, gp, s, fresh, carried));
    reveal(piccs_sc_ok);
    reveal(piccs_final_claim);
    let rp = piccs_rprime(t0, gp, s, fresh, carried, proof);
    reveal(piccs_rprime);
    lemma_point_canon(piccs_t2(t0, gp, s, fresh, carried), proof.sumcheck@);
    let ev = rows_views(proof.evals@);
    assert(claims_at(ev, s, fresh_wit, carried_wit, rp)) by {
        assert forall|i: int, j: int| 0 <= i < ev.len() && 0 <= j < s.matrices@.len() implies #[trigger] ev[i][j]
            == eval_claim(s.mat(j), witness_ring(fresh_wit, carried_wit, i), rp) by {
            assert(ev[i] == rk_views(proof.evals@[i]@));
            assert(ev[i][j] == proof.evals@[i]@[j]@);
        }
    }
    lemma_q_identity(tabs, gp, s, alpha, carried, fresh_wit, carried_wit, ev, rp, gpow);
    reveal(piccs_q);
}

/// The honest inputs of a Π_CCS run, from their parts: fresh witnesses that satisfy the
/// structure and have coordinates below `b`, carried witnesses with coefficients below
/// `b`, and carried claims that are their witnesses' evaluation claims at one shared
/// point.
pub proof fn lemma_honest_parts(
    gp: GlobalParams,
    s: CcsStructure,
    carried: Seq<CeInstance>,
    fresh_wit: Seq<CcsWitness>,
    carried_wit: Seq<CeWitness>,
)
    requires
        gp.wf(),
        carried.len() == carried_wit.len(),
        s.f.eval_spec(Seq::new(s.matrices@.len() as nat, |j: int| e2_zero())) == e2_zero(),
        forall|i: int| 0 <= i < fresh_wit.len() ==> ccs_holds(s, fp_seq((#[trigger] fresh_wit[i]).z@)),
        forall|i: int| 0 <= i < fresh_wit.len() ==> (#[trigger] fresh_wit[i]).z@.len() == gp.m,
        forall|i: int, c: int|
            0 <= i < fresh_wit.len() && 0 <= c < gp.m ==> abs_balanced_of(#[trigger] fresh_wit[i].z@[c]@) < gp.b,
        forall|i: int| 0 <= i < carried_wit.len() ==> (#[trigger] carried_wit[i]).z_ring@.len() == gp.n_r,
        forall|i: int, c: int, l: int|
            0 <= i < carried_wit.len() && 0 <= c < gp.n_r && 0 <= l < 54 ==> abs_balanced_of(
                #[trigger] ring_seq(carried_wit[i].z_ring@)[c][l],
            ) < gp.b,
        forall|ci: int| 0 <= ci < carried.len() ==> (#[trigger] carried[ci]).y@.len() == s.matrices@.len(),
        forall|ci: int| 0 <= ci < carried.len() ==> e2_seq((#[trigger] carried[ci]).r@) == e2_seq(carried[0].r@),
        forall|ci: int, j: int|
            0 <= ci < carried.len() && 0 <= j < s.matrices@.len() ==> (#[trigger] carried[ci].y@[j])@ == eval_claim(
                s.mat(j),
                ring_seq(carried_wit[ci].z_ring@),
                e2_seq(carried[ci].r@),
            ),
    ensures
        piccs_honest(gp, s, carried, fresh_wit, carried_wit),
{
    assert forall|i: int, c: int|
        0 <= i < fresh_wit.len() + carried_wit.len() && 0 <= c < gp.m implies abs_balanced_of(
        #[trigger] witness_field(fresh_wit, carried_wit, i)[c],
    ) < gp.b by {
        if i < fresh_wit.len() {
            assert(fp_seq(fresh_wit[i].z@)[c] == fresh_wit[i].z@[c]@);
        } else {
            let zr = ring_seq(carried_wit[i - fresh_wit.len()].z_ring@);
            assert(zr.len() == gp.n_r);
            assert(0 <= c / 54 < gp.n_r && 0 <= c % 54 < 54) by (nonlinear_arith)
                requires
                    0 <= c < gp.m,
                    gp.m == 54 * gp.n_r,
            ;
            assert(flat_spec(zr)[c] == zr[c / 54][c % 54]);
        }
    }
    assert forall|ci: int| 0 <= ci < carried.len() implies (#[trigger] carried[ci])@.2.len() == s.matrices@.len() by {
        assert(carried[ci]@.2 == rk_views(carried[ci].y@));
    }
    assert forall|ci: int, j: int| 0 <= ci < carried.len() && 0 <= j < s.matrices@.len() implies #[trigger] carried[ci]@.2[j]
        == eval_claim(s.mat(j), ring_seq(carried_wit[ci].z_ring@), carried[0]@.1) by {
        assert(carried[ci]@.2[j] == carried[ci].y@[j]@);
        assert(e2_seq(carried[ci].r@) == e2_seq(carried[0].r@));
    }
}

/// The summand of a Π_CCS run for given gamma powers.
pub open spec fn summand_with(s: CcsStructure, gpow: Seq<E2>, cap_k: int, k: int, b: int) -> spec_fn(Seq<E2>) -> E2 {
    |v: Seq<E2>| combine_spec(v, piccs_layout(cap_k, k, s.matrices@.len() as int), &s.f, gpow, cap_k, k, s.matrices@.len() as int, b)
}

/// For honest inputs, the summand adds up over the hypercube to the verifier's claimed
/// sum: the constraint and norm parts vanish at every point, and the carried part sums
/// to the carried claims.
#[verifier::spinoff_prover]
#[verifier::rlimit(40)]
pub proof fn lemma_true_sum(
    tabs: Seq<Seq<E2>>,
    gp: GlobalParams,
    s: CcsStructure,
    alpha: Seq<E2>,
    carried: Seq<CeInstance>,
    fresh_wit: Seq<CcsWitness>,
    carried_wit: Seq<CeWitness>,
    gpow: Seq<E2>,
)
    requires
        gp.wf(),
        s.wf(),
        s.m == gp.m,
        piccs_tables_ok(tabs, gp, s, alpha, carried, fresh_wit, carried_wit),
        forall|ti: int| 0 <= ti < tabs.len() ==> seq_canon(#[trigger] tabs[ti]),
        crate::pi_ccs::dims_ok(fresh_wit.len() as int, carried_wit.len() as int, s.matrices@.len() as int),
        carried.len() == carried_wit.len(),
        forall|a: int| 0 <= a < fresh_wit.len() ==> (#[trigger] fresh_wit[a]).z@.len() == gp.m,
        forall|a: int| 0 <= a < carried_wit.len() ==> (#[trigger] carried_wit[a]).z_ring@.len() == gp.n_r,
        carried.len() > 0 ==> carried[0]@.1.len() == gp.log_m && seq_canon(carried[0]@.1),
        piccs_honest(gp, s, carried, fresh_wit, carried_wit),
        forall|i: int| 0 <= i < gpow.len() ==> e2_canon(#[trigger] gpow[i]),
        gpow.len() == crate::pi_ccs::max_gamma_spec(
            fresh_wit.len() as int,
            carried_wit.len() as int,
            s.matrices@.len() as int,
            54,
        ) + 1,
    ensures
        hyper_sum(
            summand_with(s, gpow, fresh_wit.len() as int, carried_wit.len() as int, gp.b as int),
            tabs,
            pow2(gp.log_m as nat),
        ) == crate::pi_ccs::claimed_sum_spec(carried, gpow, fresh_wit.len() as int, s.matrices@.len() as int),
{
    let cap_k = fresh_wit.len() as int;
    let k = carried_wit.len() as int;
    let t = s.matrices@.len() as int;
    let mm = pow2(gp.log_m as nat);
    let lay = piccs_layout(cap_k, k, t);
    let f = summand_with(s, gpow, cap_k, k, gp.b as int);
    let g = gpow[2 * cap_k + k];
    let terms = |x: int| f(column(tabs, x));
    let e = |x: int| tabs[1][x];
    let yy3 = |x: int| vals_blocks(column(tabs, x), lay.v0 as int, t, k);
    let carr = |x: int| e2_mul(e2_mul(g, e(x)), ev_sum(yy3(x), gpow, k, t, k));
    assert(2 + cap_k * t + cap_k + k <= usize::MAX) by (nonlinear_arith)
        requires
            (cap_k + k + 1) * (t + 8) * 54 <= usize::MAX,
            cap_k >= 0,
            k >= 0,
            t >= 0,
    ;
    assert(lay.v0 == 2 + cap_k * t + cap_k + k);
    assert(tabs.len() == 2 + cap_k * t + cap_k + k + k * t * 54);
    assert forall|x: int| 0 <= x < mm implies #[trigger] terms(x) == carr(x) by {
        lemma_column_summand(tabs, gp, s, alpha, carried, fresh_wit, carried_wit, gpow, x);
        assert(column(tabs, x)[1] == tabs[1][x]);
    }
    lemma_fsum_ext(terms, carr, mm);
    assert(hyper_sum(f, tabs, mm) == fsum(terms, mm));
    assert(e2_canon(g));
    if k == 0 {
        assert forall|x: int| 0 <= x < mm implies #[trigger] carr(x) == e2_zero() by {
            assert(tabs[1] == Seq::new(mm, |y: int| e2_zero()));
            lemma_mul_zero(g);
            lemma_mul_zero(ev_sum(yy3(x), gpow, k, t, k));
        }
        lemma_fsum_ext(carr, |x: int| e2_zero(), mm);
        lemma_fsum_zero(mm);
    } else {
        let r0 = carried[0]@.1;
        assert(gpow.len() >= k * t * 54) by (nonlinear_arith)
            requires
                gpow.len() == (if k > 0 && k * t * 54 - 1 > 2 * cap_k + k { k * t * 54 - 1 } else { 2 * cap_k + k }) + 1,
                k > 0,
        ;
        // e(x) = eq(r0, x)
        assert forall|x: int| 0 <= x < mm implies #[trigger] e(x) == crate::multilinear::eq_entry(
            r0,
            x as nat,
            gp.log_m as int,
        ) by {
            assert(tabs[1] == crate::pi_ccs::eq_tab(r0, gp.log_m as nat));
        }
        assert forall|x: int| 0 <= x < mm implies e2_canon(#[trigger] e(x)) by {
            assert(tabs[1].len() == mm);
            assert(seq_canon(tabs[1]));
        }
        // carr(x) = g (e(x) ev_sum)
        let ew = |x: int| e2_mul(e(x), ev_sum(yy3(x), gpow, k, t, k));
        assert forall|x: int| 0 <= x < mm implies #[trigger] carr(x) == e2_mul(g, ew(x)) by {
            crate::ext2::lemma_e2_mul_assoc(g, e(x), ev_sum(yy3(x), gpow, k, t, k));
        }
        lemma_fsum_ext(carr, |x: int| e2_mul(g, ew(x)), mm);
        lemma_fsum_scale(ew, g, mm);
        // sum_x e(x) ev_sum(blocks(x)) = ev_sum of the weighted block sums
        assert forall|x: int, ci: int, j: int, l: int|
            0 <= x < mm && 0 <= ci < k && 0 <= j < t && 0 <= l < 54 implies e2_canon(#[trigger] yy3(x)[ci][j][l]) by {
            assert(0 <= v_at(lay.v0 as int, t, ci, j, l) < tabs.len()) by (nonlinear_arith)
                requires
                    0 <= ci < k,
                    0 <= j < t,
                    0 <= l < 54,
                    lay.v0 >= 0,
                    tabs.len() == lay.v0 + k * t * 54,
                    v_at(lay.v0 as int, t, ci, j, l) == lay.v0 + (ci * t + j) * 54 + l,
            ;
            assert(yy3(x)[ci][j][l] == tabs[v_at(lay.v0 as int, t, ci, j, l)][x]);
            assert(seq_canon(tabs[v_at(lay.v0 as int, t, ci, j, l)]));
        }
        lemma_ev_sum_sum(e, yy3, gpow, k, t, k, mm);
        assert(fsum(ew, mm) == wsum_ev_sum(e, yy3, gpow, k, t, k, mm));
        // the weighted block sums are the carried claims
        let tgt = Seq::new(k as nat, |ci: int| wsum_block(e, yy3, ci, t, mm));
        let ys = Seq::new(k as nat, |ci: int| carried[ci]@.2);
        assert forall|ci: int| 0 <= ci < k implies #[trigger] tgt[ci] == ys[ci] by {
            assert forall|j: int| 0 <= j < t implies #[trigger] tgt[ci][j] == ys[ci][j] by {
                assert forall|l: int| 0 <= l < 54 implies #[trigger] tgt[ci][j][l] == ys[ci][j][l] by {
                    let vi = v_at(lay.v0 as int, t, ci, j, l);
                    assert(0 <= vi < tabs.len()) by (nonlinear_arith)
                        requires
                            0 <= ci < k,
                            0 <= j < t,
                            0 <= l < 54,
                            lay.v0 >= 0,
                            tabs.len() == lay.v0 + k * t * 54,
                            vi == lay.v0 + (ci * t + j) * 54 + l,
                    ;
                    let vt = tabs[vi];
                    let zr = ring_seq(carried_wit[ci].z_ring@);
                    assert(vt == v_table(s.mat(j), zr, l, mm));
                    let w1 = |x: int| e2_mul(e(x), col_j(col_ci(yy3, ci), j)(x)[l]);
                    let w2 = |x: int| e2_mul(crate::multilinear::eq_entry(r0, x as nat, r0.len() as int), vt[x]);
                    assert forall|x: int| 0 <= x < mm implies #[trigger] w1(x) == w2(x) by {
                        assert(col_j(col_ci(yy3, ci), j)(x)[l] == vt[x]);
                    }
                    lemma_fsum_ext(w1, w2, mm);
                    assert(tgt[ci][j][l] == fsum(w1, mm));
                    assert(vt.len() == mm);
                    assert(seq_canon(vt));
                    law_eq_table_mle(vt, r0);
                    assert(Seq::new(vt.len(), |x: int| e2_mul(crate::multilinear::eq_entry(r0, x as nat, r0.len() as int), vt[x]))
                        =~= Seq::new(mm, w2));
                    assert(carried[ci]@.2[j] == eval_claim(s.mat(j), zr, r0));
                }
                assert(tgt[ci][j] =~= ys[ci][j]);
            }
            assert(tgt[ci] =~= ys[ci]);
        }
        assert(tgt =~= ys);
    }
}

} // verus!
