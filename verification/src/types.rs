//! Relation types for the folding scheme.
//!
//! Conventions: the first matrix of a CCS structure is the identity, so the row
//! count `m` equals the witness length `n_f = 54 n_R`; a field witness `z` corresponds
//! to the ring witness `embed(z)` of `n_R` elements; rows are zero-padded to a power of
//! two for the sum-check; there is no public input in the fold relations.

use vstd::arithmetic::power::*;
use vstd::arithmetic::power2::*;
use vstd::prelude::*;

use crate::bar::bar_spec;
use crate::commit::Commitment;
use crate::ext2::{e2_add, e2_base, e2_canon, e2_mul, e2_pow, e2_seq, e2_zero, Ext2, E2};
use crate::fp::{dot, fmod, fmul, fneg, fp_seq, lemma_fmod_add, lemma_fmod_small, lemma_fp_lt_q, Fp};
use crate::maps::{bar_matrix_row, block, embed_spec, embed_vector, mbar_row_dot_z};
use crate::multilinear::{
    lemma_mle_canon, lemma_mle_linear, log2_pow2, mle, mle_eval_ring, next_pow2, pad, ring_column, table_add, table_canon, table_scale,
};
use crate::params::{guard_lhs, params_valid, Params};
use crate::pp::PublicParams;
use crate::ring::{
    law_ring_mul_distrib, law_ring_mul_scale, lemma_monomial_sum, lemma_ring_dot_add, lemma_ring_dot_mul,
    lemma_ring_dot_scale, lemma_ring_mul_monomial_pow, lemma_ring_mul_x_pow_wf, lemma_ring_mul_zero, lemma_ring_ops_wf,
    lemma_ring_wf, monomial_sum, ring_add, ring_dot, ring_monomial, ring_mul_x, ring_mul_x_pow, ring_scale, ring_seq,
    ring_vec_add, ring_vec_mul, ring_vec_scale, ring_wf, ring_zero, RingElem, D,
};
use crate::ring_k::{comp0, comp1, lemma_rk_wf, rk_add, rk_mul_rf, rk_scale_fp, rk_wf, RingK};
use crate::sumcheck::SumCheckProof;

verus! {

broadcast use {lemma_fp_lt_q, lemma_ring_wf, lemma_rk_wf, lemma_fmod_small};

/// Rows of field elements, viewed as rows of residues.
pub open spec fn mat_seq(m: Seq<Vec<Fp>>) -> Seq<Seq<nat>> {
    m.map_values(|row: Vec<Fp>| fp_seq(row@))
}

/// The bar-lift of one matrix row: the bar transform of each block of 54 entries.
pub open spec fn bar_row_spec(row: Seq<nat>) -> Seq<Seq<nat>> {
    Seq::new(row.len() / 54, |i: int| bar_spec(block(row, i)))
}

/// The bar-lifted ring matrix-vector product `bar(M) z`.
pub open spec fn bar_matvec_spec(mat: Seq<Seq<nat>>, z: Seq<Seq<nat>>) -> Seq<Seq<nat>> {
    Seq::new(mat.len(), |i: int| ring_dot(bar_row_spec(mat[i]), z, z.len() as int))
}

/// The coefficient-wise multilinear extension of a ring vector at `point`.
pub open spec fn ring_mle(v: Seq<Seq<nat>>, point: Seq<E2>) -> Seq<E2> {
    Seq::new(
        D as nat,
        |l: int| mle(pad(ring_column(v, l), pow2(point.len() as nat)), point),
    )
}

/// The evaluation claim `y = ~(bar(M) z)(r)`.
pub open spec fn eval_claim(mat: Seq<Seq<nat>>, z: Seq<Seq<nat>>, point: Seq<E2>) -> Seq<E2> {
    ring_mle(bar_matvec_spec(mat, z), point)
}

/// The views of a sequence of CE instances: commitment, point, claims.
pub open spec fn ce_views(ce: Seq<CeInstance>) -> Seq<(Seq<Seq<nat>>, Seq<E2>, Seq<Seq<E2>>)> {
    ce.map_values(|c: CeInstance| c@)
}

/// The coefficient-wise multilinear extension is linear in the ring vector.
pub proof fn lemma_ring_mle_linear(v1: Seq<Seq<nat>>, v2: Seq<Seq<nat>>, s: nat, point: Seq<E2>)
    requires
        v1.len() == v2.len(),
        forall|i: int| 0 <= i < v1.len() ==> ring_wf(#[trigger] v1[i]) && ring_wf(v2[i]),
        s < crate::Q,
        forall|v: int| 0 <= v < point.len() ==> e2_canon(#[trigger] point[v]),
    ensures
        ring_mle(ring_vec_add(v1, v2), point) == rk_add(ring_mle(v1, point), ring_mle(v2, point)),
        ring_mle(ring_vec_scale(v1, s), point) == rk_scale_fp(ring_mle(v1, point), s),
{
    let n = pow2(point.len() as nat);
    assert forall|l: int| 0 <= l < D implies #[trigger] ring_mle(ring_vec_add(v1, v2), point)[l] == rk_add(
        ring_mle(v1, point),
        ring_mle(v2, point),
    )[l] && ring_mle(ring_vec_scale(v1, s), point)[l] == rk_scale_fp(ring_mle(v1, point), s)[l] by {
        let c1 = pad(ring_column(v1, l), n);
        let c2 = pad(ring_column(v2, l), n);
        assert forall|i: int| 0 <= i < n implies #[trigger] pad(ring_column(ring_vec_add(v1, v2), l), n)[i] == table_add(
            c1,
            c2,
        )[i] by {
            if i < v1.len() {
                assert(v1[i][l] < crate::Q && v2[i][l] < crate::Q);
            }
        }
        assert forall|i: int| 0 <= i < n implies #[trigger] pad(ring_column(ring_vec_scale(v1, s), l), n)[i]
            == table_scale(c1, e2_base(s))[i] by {
            if i < v1.len() {
                let x = v1[i][l];
                assert(ring_vec_scale(v1, s)[i][l] == fmul(x, s));
                assert(c1[i] == e2_base(x));
                assert(x * s + 7 * (0nat * 0nat) == x * s);
                assert(x * 0nat + 0nat * s == 0);
            } else {
                assert(0nat * s + 7 * (0nat * 0nat) == 0);
                assert(0nat * 0nat + 0nat * s == 0);
            }
        }
        assert(pad(ring_column(ring_vec_add(v1, v2), l), n) =~= table_add(c1, c2));
        assert(pad(ring_column(ring_vec_scale(v1, s), l), n) =~= table_scale(c1, e2_base(s)));
        assert(table_canon(c1)) by {
            assert forall|i: int| 0 <= i < c1.len() implies e2_canon(#[trigger] c1[i]) by {
                if i < v1.len() {
                    assert(v1[i][l] < crate::Q);
                }
            }
        }
        assert(table_canon(c2)) by {
            assert forall|i: int| 0 <= i < c2.len() implies e2_canon(#[trigger] c2[i]) by {
                if i < v2.len() {
                    assert(ring_wf(v1[i]));
                    assert(v2[i][l] < crate::Q);
                }
            }
        }
        lemma_mle_linear(c1, c2, e2_base(s), point);
    }
    assert forall|l: int| 0 <= l < D implies #[trigger] ring_mle(ring_vec_scale(v1, s), point)[l] == rk_scale_fp(
        ring_mle(v1, point),
        s,
    )[l] by {
        assert(ring_mle(ring_vec_add(v1, v2), point)[l] == rk_add(ring_mle(v1, point), ring_mle(v2, point))[l]);
    }
    assert(ring_mle(ring_vec_add(v1, v2), point) =~= rk_add(ring_mle(v1, point), ring_mle(v2, point)));
    assert(ring_mle(ring_vec_scale(v1, s), point) =~= rk_scale_fp(ring_mle(v1, point), s));
}

/// The evaluation claim is linear in the witness: claims of a sum add up, and a field
/// multiple of the witness scales the claim.
pub proof fn lemma_eval_claim_linear(mat: Seq<Seq<nat>>, z1: Seq<Seq<nat>>, z2: Seq<Seq<nat>>, s: nat, point: Seq<E2>)
    requires
        z1.len() == z2.len(),
        s < crate::Q,
        forall|v: int| 0 <= v < point.len() ==> e2_canon(#[trigger] point[v]),
    ensures
        eval_claim(mat, ring_vec_add(z1, z2), point) == rk_add(eval_claim(mat, z1, point), eval_claim(mat, z2, point)),
        eval_claim(mat, ring_vec_scale(z1, s), point) == rk_scale_fp(eval_claim(mat, z1, point), s),
{
    let n = z1.len() as int;
    let v1 = bar_matvec_spec(mat, z1);
    let v2 = bar_matvec_spec(mat, z2);
    assert forall|i: int| 0 <= i < mat.len() implies #[trigger] bar_matvec_spec(mat, ring_vec_add(z1, z2))[i]
        == ring_vec_add(v1, v2)[i] && ring_wf(v1[i]) && ring_wf(v2[i]) by {
        lemma_ring_dot_add(bar_row_spec(mat[i]), z1, z2, n);
        lemma_ring_dot_scale(bar_row_spec(mat[i]), z2, s, n);
    }
    assert forall|i: int| 0 <= i < mat.len() implies #[trigger] bar_matvec_spec(mat, ring_vec_scale(z1, s))[i]
        == ring_vec_scale(v1, s)[i] by {
        lemma_ring_dot_scale(bar_row_spec(mat[i]), z1, s, n);
    }
    assert(bar_matvec_spec(mat, ring_vec_add(z1, z2)) =~= ring_vec_add(v1, v2));
    assert(bar_matvec_spec(mat, ring_vec_scale(z1, s)) =~= ring_vec_scale(v1, s));
    lemma_ring_mle_linear(v1, v2, s, point);
}

/// An element of `R_K` from its two component sequences.
pub open spec fn rk_of(c0: Seq<nat>, c1: Seq<nat>) -> Seq<E2> {
    Seq::new(D as nat, |i: int| (c0[i], c1[i]))
}

/// `-1` in `K`.
pub open spec fn e2_minus_one() -> E2 {
    e2_base((crate::Q - 1) as nat)
}

/// A base-field residue times `-1` is its negation.
proof fn lemma_base_times_minus_one(x: nat)
    requires
        x < crate::Q,
    ensures
        e2_mul(e2_base(x), e2_minus_one()) == e2_base(fneg(x)),
{
    let q = crate::Q as int;
    assert(x * (q - 1) + 7 * (0nat * 0nat) == -x + q * x) by (nonlinear_arith);
    assert(x * 0nat + 0nat * ((q - 1) as nat) == 0) by (nonlinear_arith);
    crate::fp::lemma_fmod_multiple(-x, x as int);
}

/// Multiplying by `-1` in `K` negates both components.
proof fn lemma_times_minus_one(y: E2)
    ensures
        e2_mul(y, e2_minus_one()) == (fneg(y.0), fneg(y.1)),
{
    let q = crate::Q as int;
    assert(y.0 * (q - 1) + 7 * (y.1 * 0nat) == -y.0 + q * y.0) by (nonlinear_arith);
    assert(y.0 * 0nat + y.1 * (q - 1) == -y.1 + q * y.1) by (nonlinear_arith);
    crate::fp::lemma_fmod_multiple(-y.0, y.0 as int);
    crate::fp::lemma_fmod_multiple(-y.1, y.1 as int);
}

/// The table of coefficient `l` of a ring vector, padded to the cube at `point`.
pub open spec fn ring_table(v: Seq<Seq<nat>>, l: int, point: Seq<E2>) -> Seq<E2> {
    pad(ring_column(v, l), pow2(point.len() as nat))
}

/// The padded coefficient tables of well-formed ring vectors are canonical.
proof fn lemma_ring_table_canon(v: Seq<Seq<nat>>, l: int, point: Seq<E2>)
    requires
        forall|j: int| 0 <= j < v.len() ==> ring_wf(#[trigger] v[j]),
        0 <= l < D,
    ensures
        table_canon(ring_table(v, l, point)),
        ring_table(v, l, point).len() == pow2(point.len() as nat),
{
    let t = ring_table(v, l, point);
    assert forall|i: int| 0 <= i < t.len() implies e2_canon(#[trigger] t[i]) by {
        if i < v.len() {
            assert(ring_wf(v[i]));
        }
    }
}

/// The multilinear extension of a ring vector multiplied by `X` is the extension
/// multiplied by `X`, component by component.
proof fn lemma_ring_mle_mul_x(w: Seq<Seq<nat>>, point: Seq<E2>)
    requires
        forall|j: int| 0 <= j < w.len() ==> ring_wf(#[trigger] w[j]),
        forall|v: int| 0 <= v < point.len() ==> e2_canon(#[trigger] point[v]),
    ensures
        ring_mle(Seq::new(w.len(), |j: int| ring_mul_x(w[j])), point) == rk_of(
            ring_mul_x(comp0(ring_mle(w, point))),
            ring_mul_x(comp1(ring_mle(w, point))),
        ),
{
    let xw = Seq::new(w.len(), |j: int| ring_mul_x(w[j]));
    let y = ring_mle(w, point);
    let n = pow2(point.len() as nat);
    let m1 = e2_minus_one();
    let t53 = ring_table(w, 53, point);
    let t26 = ring_table(w, 26, point);
    lemma_ring_table_canon(w, 53, point);
    lemma_ring_table_canon(w, 26, point);
    let s53 = table_scale(t53, m1);
    assert forall|i: int| 0 <= i < n implies #[trigger] ring_table(xw, 0, point)[i] == s53[i] by {
        if i < w.len() {
            assert(ring_wf(w[i]));
            lemma_base_times_minus_one(w[i][53]);
        } else {
            lemma_times_minus_one(e2_zero());
        }
    }
    assert(ring_table(xw, 0, point) =~= s53);
    assert forall|i: int| 0 <= i < n implies #[trigger] ring_table(xw, 27, point)[i] == table_add(t26, s53)[i] by {
        if i < w.len() {
            assert(ring_wf(w[i]));
            lemma_base_times_minus_one(w[i][53]);
            crate::fp::lemma_fmod_add(w[i][26] as int, -w[i][53]);
        } else {
            lemma_times_minus_one(e2_zero());
        }
    }
    assert(ring_table(xw, 27, point) =~= table_add(t26, s53));
    assert(table_canon(s53)) by {
        assert forall|i: int| 0 <= i < s53.len() implies e2_canon(#[trigger] s53[i]) by {}
    }
    lemma_mle_linear(t53, t53, m1, point);
    lemma_mle_linear(t26, s53, m1, point);
    let r = rk_of(ring_mul_x(comp0(y)), ring_mul_x(comp1(y)));
    assert forall|l: int| 0 <= l < D implies #[trigger] ring_mle(xw, point)[l] == r[l] by {
        if l == 0 {
            lemma_times_minus_one(y[53]);
        } else if l == 27 {
            lemma_times_minus_one(y[53]);
            crate::fp::lemma_fmod_add(y[26].0 as int, -y[53].0);
            crate::fp::lemma_fmod_add(y[26].1 as int, -y[53].1);
        } else {
            assert(ring_table(xw, l, point) =~= ring_table(w, l - 1, point));
        }
    }
    assert(ring_mle(xw, point) =~= r);
}

/// Every entry of a ring vector multiplied by `X^m`.
pub open spec fn ring_vec_mul_x_pow(v: Seq<Seq<nat>>, m: nat) -> Seq<Seq<nat>> {
    Seq::new(v.len(), |j: int| ring_mul_x_pow(v[j], m))
}

/// The multilinear extension of a well-formed ring vector has canonical coefficients.
proof fn lemma_ring_mle_canon(v: Seq<Seq<nat>>, point: Seq<E2>)
    requires
        forall|j: int| 0 <= j < v.len() ==> ring_wf(#[trigger] v[j]),
    ensures
        ring_mle(v, point).len() == D,
        forall|l: int| 0 <= l < D ==> e2_canon(#[trigger] ring_mle(v, point)[l]),
        ring_wf(comp0(ring_mle(v, point))),
        ring_wf(comp1(ring_mle(v, point))),
{
    assert forall|l: int| 0 <= l < D implies e2_canon(#[trigger] ring_mle(v, point)[l]) by {
        lemma_ring_table_canon(v, l, point);
        lemma_mle_canon(ring_table(v, l, point), point);
    }
}

/// Multiplying by `X^m` commutes with the multilinear extension.
proof fn lemma_ring_mle_mul_x_pow(v: Seq<Seq<nat>>, m: nat, point: Seq<E2>)
    requires
        forall|j: int| 0 <= j < v.len() ==> ring_wf(#[trigger] v[j]),
        forall|i: int| 0 <= i < point.len() ==> e2_canon(#[trigger] point[i]),
    ensures
        ring_mle(ring_vec_mul_x_pow(v, m), point) == rk_of(
            ring_mul_x_pow(comp0(ring_mle(v, point)), m),
            ring_mul_x_pow(comp1(ring_mle(v, point)), m),
        ),
    decreases m,
{
    let y = ring_mle(v, point);
    lemma_ring_mle_canon(v, point);
    if m == 0 {
        assert(ring_vec_mul_x_pow(v, 0) =~= v);
        assert(rk_of(comp0(y), comp1(y)) =~= y);
    } else {
        lemma_ring_mle_mul_x_pow(v, (m - 1) as nat, point);
        let w = ring_vec_mul_x_pow(v, (m - 1) as nat);
        assert forall|j: int| 0 <= j < w.len() implies ring_wf(#[trigger] w[j]) by {
            lemma_ring_mul_x_pow_wf(v[j], (m - 1) as nat);
        }
        lemma_ring_mle_mul_x(w, point);
        assert(Seq::new(w.len(), |j: int| ring_mul_x(w[j])) =~= ring_vec_mul_x_pow(v, m));
        lemma_ring_mul_x_pow_wf(comp0(y), (m - 1) as nat);
        lemma_ring_mul_x_pow_wf(comp1(y), (m - 1) as nat);
        let yw = ring_mle(w, point);
        assert(comp0(yw) =~= ring_mul_x_pow(comp0(y), (m - 1) as nat));
        assert(comp1(yw) =~= ring_mul_x_pow(comp1(y), (m - 1) as nat));
    }
}

/// Multiplying by an element of `R_F` scaled to the sum of its first `n` monomials
/// commutes with the multilinear extension.
proof fn lemma_ring_mle_mul_prefix(v: Seq<Seq<nat>>, rho: Seq<nat>, point: Seq<E2>, n: int)
    requires
        forall|j: int| 0 <= j < v.len() ==> ring_wf(#[trigger] v[j]),
        ring_wf(rho),
        forall|i: int| 0 <= i < point.len() ==> e2_canon(#[trigger] point[i]),
        0 <= n <= D,
    ensures
        ring_mle(ring_vec_mul(v, monomial_sum(rho, n)), point) == rk_mul_rf(ring_mle(v, point), monomial_sum(rho, n)),
    decreases n,
{
    let y = ring_mle(v, point);
    lemma_ring_mle_canon(v, point);
    if n == 0 {
        assert forall|j: int| 0 <= j < v.len() implies #[trigger] ring_vec_mul(v, ring_zero())[j] == ring_vec_scale(
            v,
            0,
        )[j] by {
            lemma_ring_mul_zero(v[j]);
            assert(ring_scale(v[j], 0) =~= ring_zero());
        }
        assert(ring_vec_mul(v, ring_zero()) =~= ring_vec_scale(v, 0));
        lemma_ring_mle_linear(v, v, 0, point);
        lemma_ring_mul_zero(comp0(y));
        lemma_ring_mul_zero(comp1(y));
        assert forall|l: int| 0 <= l < D implies #[trigger] rk_scale_fp(y, 0)[l] == rk_mul_rf(y, ring_zero())[l] by {
            assert(y[l].0 * 0nat + 7 * (y[l].1 * 0nat) == 0) by (nonlinear_arith);
            assert(y[l].0 * 0nat + y[l].1 * 0nat == 0) by (nonlinear_arith);
        }
        assert(rk_scale_fp(y, 0) =~= rk_mul_rf(y, ring_zero()));
    } else {
        lemma_ring_mle_mul_prefix(v, rho, point, n - 1);
        let s = monomial_sum(rho, n - 1);
        let c = rho[n - 1];
        let x = ring_monomial(1, n - 1);
        let mono = ring_monomial(c, n - 1);
        assert(ring_scale(x, c) =~= mono);
        lemma_monomial_sum(rho, n - 1);
        assert(ring_wf(s));
        let vs = ring_vec_mul(v, s);
        let vx = ring_vec_mul(v, x);
        let vm = ring_vec_mul(v, mono);
        assert forall|j: int| #![trigger v[j]] 0 <= j < v.len() implies ring_vec_mul(v, ring_add(s, mono))[j] == ring_vec_add(
            vs,
            vm,
        )[j] && vm[j] == ring_vec_scale(vx, c)[j] && vx[j] == ring_vec_mul_x_pow(v, (n - 1) as nat)[j] && ring_wf(vs[j])
            && ring_wf(vx[j]) && ring_wf(vm[j]) by {
            law_ring_mul_distrib(v[j], s, mono);
            law_ring_mul_scale(v[j], x, c);
            lemma_ring_mul_monomial_pow(v[j], (n - 1) as nat);
            lemma_ring_ops_wf(v[j], s, 0);
            lemma_ring_ops_wf(v[j], x, 0);
            lemma_ring_ops_wf(v[j], mono, 0);
        }
        assert(ring_vec_mul(v, ring_add(s, mono)) =~= ring_vec_add(vs, vm));
        assert(vm =~= ring_vec_scale(vx, c));
        assert(vx =~= ring_vec_mul_x_pow(v, (n - 1) as nat));
        lemma_ring_mle_linear(vs, vm, 0, point);
        lemma_ring_mle_linear(vx, vx, c, point);
        lemma_ring_mle_mul_x_pow(v, (n - 1) as nat, point);
        law_ring_mul_distrib(comp0(y), s, mono);
        law_ring_mul_distrib(comp1(y), s, mono);
        law_ring_mul_scale(comp0(y), x, c);
        law_ring_mul_scale(comp1(y), x, c);
        lemma_ring_mul_monomial_pow(comp0(y), (n - 1) as nat);
        lemma_ring_mul_monomial_pow(comp1(y), (n - 1) as nat);
        let yx = rk_mul_rf(y, x);
        assert forall|l: int| 0 <= l < D implies #[trigger] rk_mul_rf(y, ring_add(s, mono))[l] == rk_add(
            rk_mul_rf(y, s),
            rk_scale_fp(yx, c),
        )[l] by {
            assert(yx[l].0 * c + 7 * (yx[l].1 * 0nat) == yx[l].0 * c) by (nonlinear_arith);
            assert(yx[l].0 * 0nat + yx[l].1 * c == yx[l].1 * c) by (nonlinear_arith);
        }
        assert(rk_mul_rf(y, ring_add(s, mono)) =~= rk_add(rk_mul_rf(y, s), rk_scale_fp(yx, c)));
        assert(yx =~= rk_of(
            ring_mul_x_pow(comp0(y), (n - 1) as nat),
            ring_mul_x_pow(comp1(y), (n - 1) as nat),
        ));
    }
}

/// The coefficient-wise multilinear extension is `R_F`-linear: multiplying every
/// entry by `rho` multiplies the extension by `rho`.
pub proof fn lemma_ring_mle_mul(v: Seq<Seq<nat>>, rho: Seq<nat>, point: Seq<E2>)
    requires
        forall|j: int| 0 <= j < v.len() ==> ring_wf(#[trigger] v[j]),
        ring_wf(rho),
        forall|i: int| 0 <= i < point.len() ==> e2_canon(#[trigger] point[i]),
    ensures
        ring_mle(ring_vec_mul(v, rho), point) == rk_mul_rf(ring_mle(v, point), rho),
{
    lemma_ring_mle_mul_prefix(v, rho, point, D as int);
    lemma_monomial_sum(rho, D as int);
    assert(monomial_sum(rho, D as int) =~= rho);
}

/// The first `n` entries of the bar lift of a row of residues are well-formed ring
/// elements.
proof fn lemma_bar_row_wf(row: Seq<nat>, n: int)
    requires
        0 <= n,
        row.len() >= 54 * n,
        forall|c: int| 0 <= c < row.len() ==> #[trigger] row[c] < crate::Q,
    ensures
        bar_row_spec(row).len() >= n,
        forall|j: int| 0 <= j < n ==> ring_wf(#[trigger] bar_row_spec(row)[j]),
{
    assert(row.len() / 54 >= n) by (nonlinear_arith)
        requires
            row.len() >= 54 * n,
            n >= 0,
    ;
    assert forall|j: int| 0 <= j < n implies ring_wf(#[trigger] bar_row_spec(row)[j]) by {
        assert(j * 54 + 54 <= row.len()) by (nonlinear_arith)
            requires
                row.len() >= 54 * n,
                0 <= j < n,
        ;
        assert(block(row, j)[0] == row[j * 54]);
    }
}

/// The evaluation claim is `R_F`-linear in the witness: multiplying every witness entry
/// by `rho` multiplies the claim by `rho`.
pub proof fn lemma_eval_claim_mul(mat: Seq<Seq<nat>>, z: Seq<Seq<nat>>, rho: Seq<nat>, point: Seq<E2>)
    requires
        forall|r: int| 0 <= r < mat.len() ==> #[trigger] mat[r].len() >= 54 * z.len(),
        forall|r: int, c: int| 0 <= r < mat.len() && 0 <= c < mat[r].len() ==> #[trigger] mat[r][c] < crate::Q,
        forall|j: int| 0 <= j < z.len() ==> ring_wf(#[trigger] z[j]),
        ring_wf(rho),
        forall|i: int| 0 <= i < point.len() ==> e2_canon(#[trigger] point[i]),
    ensures
        eval_claim(mat, ring_vec_mul(z, rho), point) == rk_mul_rf(eval_claim(mat, z, point), rho),
{
    let n = z.len() as int;
    let v = bar_matvec_spec(mat, z);
    assert forall|i: int| 0 <= i < mat.len() implies #[trigger] bar_matvec_spec(mat, ring_vec_mul(z, rho))[i]
        == ring_vec_mul(v, rho)[i] && ring_wf(v[i]) by {
        assert(mat[i].len() >= 54 * n);
        assert forall|c: int| 0 <= c < mat[i].len() implies #[trigger] mat[i][c] < crate::Q by {}
        lemma_bar_row_wf(mat[i], n);
        lemma_ring_dot_mul(bar_row_spec(mat[i]), z, rho, n);
        lemma_ring_dot_add(bar_row_spec(mat[i]), z, z, n);
    }
    assert(bar_matvec_spec(mat, ring_vec_mul(z, rho)) =~= ring_vec_mul(v, rho));
    lemma_ring_mle_mul(v, rho, point);
}

/// The residues of `coeff * prod_{v < n} args[v]^exps[v]`.
pub open spec fn term_eval(coeff: nat, args: Seq<E2>, exps: Seq<u32>, n: int) -> E2
    decreases n,
{
    if n <= 0 {
        e2_base(coeff)
    } else {
        e2_mul(term_eval(coeff, args, exps, n - 1), e2_pow(args[n - 1], exps[n - 1] as nat))
    }
}

/// The sum of the first `n` terms of a polynomial at `args`.
pub open spec fn poly_eval(terms: Seq<(Fp, Vec<u32>)>, args: Seq<E2>, n: int) -> E2
    decreases n,
{
    if n <= 0 {
        e2_zero()
    } else {
        e2_add(
            poly_eval(terms, args, n - 1),
            term_eval(terms[n - 1].0@, args, terms[n - 1].1@, terms[n - 1].1@.len() as int),
        )
    }
}

/// The total degree of one monomial.
pub open spec fn exp_sum(e: Seq<u32>, n: int) -> nat
    decreases n,
{
    if n <= 0 {
        0
    } else {
        exp_sum(e, n - 1) + e[n - 1] as nat
    }
}

/// The largest total degree among the first `n` terms (0 if there are none).
pub open spec fn deg_upto(terms: Seq<(Fp, Vec<u32>)>, n: int) -> nat
    decreases n,
{
    if n <= 0 {
        0
    } else {
        let d = exp_sum(terms[n - 1].1@, terms[n - 1].1@.len() as int);
        let prev = deg_upto(terms, n - 1);
        if d > prev {
            d
        } else {
            prev
        }
    }
}

/// A CCS constraint polynomial in `t` variables, as a sum of monomials.
#[derive(Clone, Debug, PartialEq, Eq)]
pub struct SparsePoly {
    /// Number of variables `t`.
    pub t: usize,
    /// Terms `(coefficient, exponent vector of length t)`.
    pub terms: Vec<(Fp, Vec<u32>)>,
}

impl SparsePoly {
    /// Every exponent vector has length `t`.
    pub open spec fn wf(&self) -> bool {
        forall|i: int| 0 <= i < self.terms@.len() ==> (#[trigger] self.terms@[i]).1@.len() == self.t
    }

    /// Every term has total degree at most `bound`.
    pub open spec fn degree_bounded(&self, bound: nat) -> bool {
        forall|i: int|
            0 <= i < self.terms@.len() ==> exp_sum(
                (#[trigger] self.terms@[i]).1@,
                self.terms@[i].1@.len() as int,
            ) <= bound
    }

    /// The value of the polynomial at `args`.
    pub open spec fn eval_spec(&self, args: Seq<E2>) -> E2 {
        poly_eval(self.terms@, args, self.terms@.len() as int)
    }

    /// The zero polynomial in `t` variables.
    pub fn zero(t: usize) -> (r: SparsePoly)
        ensures
            r.t == t,
            r.terms@.len() == 0,
            r.wf(),
    {
        SparsePoly { t, terms: Vec::new() }
    }

    /// Construct from terms whose exponent vectors all have length `t`.
    pub fn new(t: usize, terms: Vec<(Fp, Vec<u32>)>) -> (r: SparsePoly)
        requires
            forall|i: int| 0 <= i < terms@.len() ==> (#[trigger] terms@[i]).1@.len() == t,
        ensures
            r.t == t,
            r.terms == terms,
            r.wf(),
    {
        SparsePoly { t, terms }
    }

    /// Total degree: the largest exponent sum of a term (0 for the zero polynomial).
    pub fn degree(&self) -> (r: usize)
        requires
            forall|i: int|
                0 <= i < self.terms@.len() ==> exp_sum(
                    (#[trigger] self.terms@[i]).1@,
                    self.terms@[i].1@.len() as int,
                ) <= usize::MAX,
        ensures
            forall|i: int|
                0 <= i < self.terms@.len() ==> exp_sum(
                    (#[trigger] self.terms@[i]).1@,
                    self.terms@[i].1@.len() as int,
                ) <= r,
            r == deg_upto(self.terms@, self.terms@.len() as int),
            self.terms@.len() == 0 ==> r == 0,
            self.terms@.len() > 0 ==> exists|i: int|
                0 <= i < self.terms@.len() && exp_sum(
                    (#[trigger] self.terms@[i]).1@,
                    self.terms@[i].1@.len() as int,
                ) == r,
    {
        let mut best: usize = 0;
        let mut i: usize = 0;
        while i < self.terms.len()
            invariant
                i <= self.terms@.len(),
                forall|j: int|
                    0 <= j < self.terms@.len() ==> exp_sum(
                        (#[trigger] self.terms@[j]).1@,
                        self.terms@[j].1@.len() as int,
                    ) <= usize::MAX,
                forall|j: int|
                    0 <= j < i ==> exp_sum(
                        (#[trigger] self.terms@[j]).1@,
                        self.terms@[j].1@.len() as int,
                    ) <= best,
                best == deg_upto(self.terms@, i as int),
                i == 0 ==> best == 0,
                i > 0 ==> exists|j: int|
                    0 <= j < i && exp_sum(
                        (#[trigger] self.terms@[j]).1@,
                        self.terms@[j].1@.len() as int,
                    ) == best,
            decreases self.terms@.len() - i,
        {
            let exps = &self.terms[i].1;
            let mut s: usize = 0;
            let mut v: usize = 0;
            while v < exps.len()
                invariant
                    v <= exps@.len(),
                    exps == &self.terms@[i as int].1,
                    exp_sum(exps@, exps@.len() as int) <= usize::MAX,
                    s == exp_sum(exps@, v as int),
                decreases exps@.len() - v,
            {
                proof {
                    lemma_exp_sum_mono(exps@, v as int + 1, exps@.len() as int);
                }
                s = s + exps[v] as usize;
                v = v + 1;
            }
            if i == 0 || s > best {
                best = s;
            }
            i = i + 1;
        }
        best
    }

    /// Evaluate at extension-field arguments.
    pub fn eval_ext(&self, args: &[Ext2]) -> (r: Ext2)
        requires
            self.wf(),
            args.len() == self.t,
        ensures
            r@ == self.eval_spec(e2_seq(args@)),
    {
        let mut acc = Ext2::zero();
        let mut i: usize = 0;
        while i < self.terms.len()
            invariant
                i <= self.terms@.len(),
                self.wf(),
                args.len() == self.t,
                acc@ == poly_eval(self.terms@, e2_seq(args@), i as int),
            decreases self.terms@.len() - i,
        {
            let coeff = self.terms[i].0;
            let exps = &self.terms[i].1;
            let mut term = Ext2::from_base(coeff);
            let mut v: usize = 0;
            while v < exps.len()
                invariant
                    v <= exps@.len(),
                    exps@.len() == self.t,
                    args.len() == self.t,
                    term@ == term_eval(coeff@, e2_seq(args@), exps@, v as int),
                decreases exps@.len() - v,
            {
                term = term * args[v].pow(exps[v] as u64);
                v = v + 1;
            }
            acc = acc + term;
            i = i + 1;
        }
        acc
    }
}

/// Exponent sums only grow with more coordinates.
proof fn lemma_exp_sum_mono(e: Seq<u32>, a: int, b: int)
    requires
        0 <= a <= b,
    ensures
        exp_sum(e, a) <= exp_sum(e, b),
    decreases b - a,
{
    if a < b {
        lemma_exp_sum_mono(e, a, b - 1);
    }
}

/// The identity matrix of size `m`, as residues.
pub open spec fn is_identity(mat: Seq<Seq<nat>>, m: int) -> bool {
    forall|i: int, j: int|
        0 <= i < m && 0 <= j < m ==> #[trigger] mat[i][j] == (if i == j { 1nat } else { 0nat })
}

/// A CCS structure `({M_j}, f)` with `M_1 = I_m`.
#[derive(Clone, Debug)]
pub struct CcsStructure {
    /// The `t` matrices, each dense `m x m`; `matrices[0] = I_m`.
    pub matrices: Vec<Vec<Vec<Fp>>>,
    /// The constraint polynomial.
    pub f: SparsePoly,
    /// Number of rows / constraints (`= n_f`).
    pub m: usize,
}

impl CcsStructure {
    /// Matrix `j` as rows of residues.
    pub open spec fn mat(&self, j: int) -> Seq<Seq<nat>> {
        mat_seq(self.matrices@[j]@)
    }

    /// The structure is well formed: square `m x m` matrices, the first one the
    /// identity, and a polynomial in `t` variables.
    pub open spec fn wf(&self) -> bool {
        &&& self.matrices@.len() >= 1
        &&& self.f.t == self.matrices@.len()
        &&& self.f.wf()
        &&& forall|j: int|
            0 <= j < self.matrices@.len() ==> (#[trigger] self.matrices@[j])@.len() == self.m
        &&& forall|j: int, r: int|
            0 <= j < self.matrices@.len() && 0 <= r < self.m ==> (
            #[trigger] self.matrices@[j]@[r])@.len() == self.m
        &&& is_identity(self.mat(0), self.m as int)
    }

    /// Number of matrices `t`.
    pub fn t(&self) -> (r: usize)
        ensures
            r == self.matrices@.len(),
    {
        self.matrices.len()
    }

    /// Build from square matrices whose first is the identity and a matching `f`.
    pub fn new(matrices: Vec<Vec<Vec<Fp>>>, f: SparsePoly) -> (r: CcsStructure)
        requires
            matrices@.len() >= 1,
            f.t == matrices@.len(),
            f.wf(),
            forall|j: int| 0 <= j < matrices@.len() ==> (#[trigger] matrices@[j])@.len() == matrices@[0]@.len(),
            forall|j: int, r: int|
                0 <= j < matrices@.len() && 0 <= r < matrices@[0]@.len() ==> (
                #[trigger] matrices@[j]@[r])@.len() == matrices@[0]@.len(),
            is_identity(mat_seq(matrices@[0]@), matrices@[0]@.len() as int),
        ensures
            r.matrices == matrices,
            r.f == f,
            r.m == matrices@[0]@.len(),
            r.wf(),
    {
        let m = matrices[0].len();
        CcsStructure { matrices, f, m }
    }

    /// The identity-only structure (`t = 1`, `f = 0`), satisfied by every witness.
    pub fn identity(m: usize) -> (r: CcsStructure)
        ensures
            r.wf(),
            r.m == m,
            r.matrices@.len() == 1,
            r.f.terms@.len() == 0,
    {
        let id = identity_matrix(m);
        let mut mats: Vec<Vec<Vec<Fp>>> = Vec::new();
        mats.push(id);
        CcsStructure::new(mats, SparsePoly::zero(1))
    }
}

/// The `m x m` identity matrix.
pub fn identity_matrix(m: usize) -> (r: Vec<Vec<Fp>>)
    ensures
        r@.len() == m,
        forall|i: int| 0 <= i < m ==> (#[trigger] r@[i])@.len() == m,
        is_identity(mat_seq(r@), m as int),
{
    let mut rows: Vec<Vec<Fp>> = Vec::new();
    let mut i: usize = 0;
    while i < m
        invariant
            i <= m,
            rows@.len() == i,
            forall|t: int| 0 <= t < i ==> (#[trigger] rows@[t])@.len() == m,
            forall|t: int, j: int|
                0 <= t < i && 0 <= j < m ==> (#[trigger] rows@[t]@[j])@ == (if t == j {
                    1nat
                } else {
                    0nat
                }),
        decreases m - i,
    {
        let mut row: Vec<Fp> = Vec::new();
        let mut j: usize = 0;
        while j < m
            invariant
                j <= m,
                i < m,
                row@.len() == j,
                forall|c: int| 0 <= c < j ==> (#[trigger] row@[c])@ == (if i == c { 1nat } else { 0nat }),
            decreases m - j,
        {
            if i == j {
                row.push(Fp::one());
            } else {
                row.push(Fp::zero());
            }
            j = j + 1;
        }
        rows.push(row);
        i = i + 1;
    }
    rows
}

/// Global reduction parameters.
#[derive(Clone, Debug)]
pub struct GlobalParams {
    /// Ring degree `d = 54`.
    pub d: usize,
    /// Ring-vector length `n_R`.
    pub n_r: usize,
    /// Witness field length `n_f = d n_R = m`.
    pub n_f: usize,
    /// Row count `m`.
    pub m: usize,
    /// Padded hypercube dimension (`2^log_m >= m`).
    pub log_m: usize,
    /// Decomposition base `b`.
    pub b: u64,
    /// Decomposition depth / running-instance count `k` (`B = b^k`).
    pub k: usize,
    /// High norm bound `B = b^k`.
    pub cap_b: u64,
    /// Bound on strong-sampling-set coefficients.
    pub chal_bound: i64,
}

impl GlobalParams {
    /// The parameters are consistent: `n_f = 54 n_R = m`, a padded cube of `2^log_m >= m`
    /// points that fits in memory indices, `B = b^k` with `b >= 2`, and challenge bound 2.
    pub open spec fn wf(&self) -> bool {
        &&& self.d == 54
        &&& self.n_f == 54 * self.n_r
        &&& self.m == self.n_f
        &&& self.log_m < 64
        &&& pow2(self.log_m as nat) <= usize::MAX
        &&& pow2(self.log_m as nat) >= self.m
        &&& self.b >= 2
        &&& self.b <= 0x3FFF_FFFF_FFFF_FFFF
        &&& 2 * self.b + 1 < usize::MAX
        &&& self.k >= 1
        &&& pow(self.b as int, self.k as nat) == self.cap_b
        &&& self.chal_bound == 2
    }

    /// The padded hypercube size `2^log_m`.
    pub fn cap_m(&self) -> (r: usize)
        requires
            self.log_m < 64,
            pow2(self.log_m as nat) <= usize::MAX,
        ensures
            r == pow2(self.log_m as nat),
    {
        let mut p: usize = 1;
        let mut t: usize = 0;
        proof {
            lemma2_to64();
        }
        while t < self.log_m
            invariant
                t <= self.log_m,
                self.log_m < 64,
                pow2(self.log_m as nat) <= usize::MAX,
                p == pow2(t as nat),
            decreases self.log_m - t,
        {
            proof {
                lemma_pow2_unfold((t + 1) as nat);
                if t + 1 < self.log_m {
                    lemma_pow2_strictly_increases((t + 1) as nat, self.log_m as nat);
                }
            }
            p = p * 2;
            t = t + 1;
        }
        p
    }

    /// The cryptographic parameter set backing these global parameters.
    pub fn params(&self) -> (r: Params)
        ensures
            r == Params::goldilocks_spec(),
    {
        Params::goldilocks_b2()
    }

    /// Goldilocks parameters for a ring-vector length `n_R`.
    pub fn goldilocks(n_r: usize) -> (r: GlobalParams)
        requires
            54 * n_r <= usize::MAX / 2 + 1,
        ensures
            r.wf(),
            r.n_r == n_r,
            r.k == 14,
            r.b == 2,
            r.cap_b == 16384,
            pow2(r.log_m as nat) == 1 || pow2(r.log_m as nat) / 2 < r.m,
    {
        let p = Params::goldilocks_b2();
        proof {
            lemma2_to64();
            lemma_pow2(14);
            assert(pow(2, 14) == 16384);
            assert((p.max_fresh + p.k) * p.t_exp * (p.b - 1) == 16200) by (nonlinear_arith)
                requires
                    p.max_fresh == 61,
                    p.k == 14,
                    p.t_exp == 216,
                    p.b == 2,
            ;
            assert(guard_lhs(p) == 16200);
            assert(params_valid(p));
        }
        let v = p.validate();
        assert(v is Ok);
        let n_f = p.d * n_r;
        let cap_m = next_pow2(n_f);
        let log_m = log2_pow2(cap_m);
        proof {
            lemma2_to64_rest();
            if log_m >= 64 {
                lemma_pow2_strictly_increases(64, log_m as nat);
            }
        }
        GlobalParams {
            d: p.d,
            n_r,
            n_f,
            m: n_f,
            log_m,
            b: p.b,
            k: p.k,
            cap_b: p.big_b,
            chal_bound: p.challenge_coeff_bound(),
        }
    }
}

/// The views of a sequence of `R_K` elements.
pub open spec fn rk_views(ys: Seq<RingK>) -> Seq<Seq<E2>> {
    ys.map_values(|y: RingK| y@)
}

/// Norm-bounded CCS instance (public part).
#[derive(Clone, Debug, PartialEq, Eq)]
pub struct CcsInstance {
    /// Commitment `c = L(z)`.
    pub c: Commitment,
}

impl View for CcsInstance {
    type V = Seq<Seq<nat>>;

    open spec fn view(&self) -> Seq<Seq<nat>> {
        self.c@
    }
}

/// CCS witness: the field vector `z` of length `n_f`.
#[derive(Clone, Debug)]
pub struct CcsWitness {
    /// Field witness `z`.
    pub z: Vec<Fp>,
}

/// Norm-bounded CCS evaluation instance.
#[derive(Clone, Debug, PartialEq, Eq)]
pub struct CeInstance {
    /// Commitment `c = L(z)`.
    pub c: Commitment,
    /// Evaluation point `r` in `K^log_m`.
    pub r: Vec<Ext2>,
    /// Evaluation claims `y_j = ~(bar(M_j) z)(r)`, one per matrix.
    pub y: Vec<RingK>,
}

impl View for CeInstance {
    type V = (Seq<Seq<nat>>, Seq<E2>, Seq<Seq<E2>>);

    open spec fn view(&self) -> (Seq<Seq<nat>>, Seq<E2>, Seq<Seq<E2>>) {
        (self.c@, e2_seq(self.r@), rk_views(self.y@))
    }
}

impl CeInstance {
    /// Equality, decided on the residues of every component.
    pub fn equals(&self, other: &CeInstance) -> (b: bool)
        ensures
            b == (self@ == other@),
    {
        if !self.c.equals(&other.c) {
            return false;
        }
        if self.r.len() != other.r.len() {
            assert(e2_seq(self.r@).len() != e2_seq(other.r@).len());
            return false;
        }
        let mut i: usize = 0;
        while i < self.r.len()
            invariant
                i <= self.r@.len(),
                self.r@.len() == other.r@.len(),
                forall|i2: int| 0 <= i2 < i ==> self.r@[i2]@ == other.r@[i2]@,
            decreases self.r@.len() - i,
        {
            if !self.r[i].equals(other.r[i]) {
                assert(e2_seq(self.r@)[i as int] != e2_seq(other.r@)[i as int]);
                return false;
            }
            i = i + 1;
        }
        assert(e2_seq(self.r@) =~= e2_seq(other.r@));
        if self.y.len() != other.y.len() {
            assert(rk_views(self.y@).len() != rk_views(other.y@).len());
            return false;
        }
        let mut j: usize = 0;
        while j < self.y.len()
            invariant
                j <= self.y@.len(),
                self.y@.len() == other.y@.len(),
                forall|j2: int| 0 <= j2 < j ==> self.y@[j2]@ == other.y@[j2]@,
            decreases self.y@.len() - j,
        {
            if !self.y[j].equals(&other.y[j]) {
                assert(rk_views(self.y@)[j as int] != rk_views(other.y@)[j as int]);
                return false;
            }
            j = j + 1;
        }
        assert(rk_views(self.y@) =~= rk_views(other.y@));
        true
    }

    /// A copy of this instance.
    pub fn duplicate(&self) -> (r: CeInstance)
        ensures
            r@ == self@,
            r.r@ == self.r@,
            r.y@ == self.y@,
    {
        CeInstance {
            c: self.c.duplicate(),
            r: vstd::slice::slice_to_vec(self.r.as_slice()),
            y: vstd::slice::slice_to_vec(self.y.as_slice()),
        }
    }
}

/// CE witness: the ring vector `z` of length `n_R`.
#[derive(Clone, Debug)]
pub struct CeWitness {
    /// Ring witness.
    pub z_ring: Vec<RingElem>,
}

/// Π_CCS proof: the sum-check transcript plus the claimed evaluations `y'_{i,j}`.
#[derive(Clone, Debug)]
pub struct PiCcsProof {
    /// Sum-check proof.
    pub sumcheck: SumCheckProof,
    /// `evals[i][j] = y'_{i,j}`.
    pub evals: Vec<Vec<RingK>>,
}

/// Π_RLC proof: the strong-sampling-set challenges `rho_i`.
#[derive(Clone, Debug)]
pub struct PiRlcProof {
    /// One challenge per input instance.
    pub rhos: Vec<RingElem>,
}

/// Π_DEC proof: child commitments and their evaluation claims.
#[derive(Clone, Debug)]
pub struct PiDecProof {
    /// `k` child commitments.
    pub child_commitments: Vec<Commitment>,
    /// `child_evals[i][j] = y_{i,j}`.
    pub child_evals: Vec<Vec<RingK>>,
}

/// A full fold proof: `Π_DEC ∘ Π_RLC ∘ Π_CCS`.
#[derive(Clone, Debug)]
pub struct FoldProof {
    /// Π_CCS sub-proof.
    pub ccs: PiCcsProof,
    /// Π_RLC sub-proof.
    pub rlc: PiRlcProof,
    /// Π_DEC sub-proof.
    pub dec: PiDecProof,
}

/// The embedding `embed(z)` of a field witness whose length is a multiple of 54.
pub fn embed_witness(z: &[Fp]) -> (r: Vec<RingElem>)
    requires
        z.len() % 54 == 0,
    ensures
        ring_seq(r@) == embed_spec(fp_seq(z@)),
        r@.len() == z.len() / 54,
{
    match embed_vector(z) {
        Ok(v) => {
            assert(ring_seq(v@).len() == v@.len());
            v
        },
        Err(_) => {
            proof {
                assert(false);
            }
            Vec::new()
        },
    }
}

/// The coefficient vector of a ring witness: the concatenation of its elements'
/// coefficients.
pub fn flatten_ring(z_ring: &[RingElem]) -> (r: Vec<Fp>)
    requires
        z_ring.len() * 54 <= usize::MAX,
    ensures
        r@.len() == z_ring.len() * 54,
        forall|i: int, l: int|
            0 <= i < z_ring.len() && 0 <= l < 54 ==> (#[trigger] r@[i * 54 + l])@ == z_ring@[i]@[l],
{
    let mut out: Vec<Fp> = Vec::new();
    let mut i: usize = 0;
    while i < z_ring.len()
        invariant
            i <= z_ring.len(),
            z_ring.len() * 54 <= usize::MAX,
            out@.len() == i * 54,
            forall|i2: int, l: int|
                0 <= i2 < i && 0 <= l < 54 ==> (#[trigger] out@[i2 * 54 + l])@ == z_ring@[i2]@[l],
        decreases z_ring.len() - i,
    {
        let e = &z_ring[i];
        let mut l: usize = 0;
        while l < D
            invariant
                l <= D,
                i < z_ring.len(),
                z_ring.len() * 54 <= usize::MAX,
                out@.len() == i * 54 + l,
                e == &z_ring@[i as int],
                forall|i2: int, l2: int|
                    0 <= i2 < i && 0 <= l2 < 54 ==> (#[trigger] out@[i2 * 54 + l2])@ == z_ring@[i2]@[l2],
                forall|l2: int| 0 <= l2 < l ==> (#[trigger] out@[i * 54 + l2])@ == z_ring@[i as int]@[l2],
            decreases D - l,
        {
            out.push(e.coeff(l));
            l = l + 1;
        }
        i = i + 1;
    }
    out
}

/// `M z` over residues, each row dotted with `z` over the shorter of the two lengths.
pub open spec fn matvec_spec(mat: Seq<Seq<nat>>, z: Seq<nat>) -> Seq<nat> {
    Seq::new(
        mat.len(),
        |i: int| fmod(dot(mat[i], z, if mat[i].len() < z.len() { mat[i].len() as int } else { z.len() as int })),
    )
}

/// The field matrix-vector product `M z` (each row dotted with `z` over the shorter length).
pub fn field_matvec(mat: &[Vec<Fp>], z: &[Fp]) -> (r: Vec<Fp>)
    ensures
        r@.len() == mat.len(),
        forall|i: int|
            0 <= i < mat.len() ==> (#[trigger] r@[i])@ == fmod(
                dot(
                    fp_seq(mat@[i]@),
                    fp_seq(z@),
                    if mat@[i]@.len() < z.len() { mat@[i]@.len() as int } else { z.len() as int },
                ),
            ),
{
    let mut out: Vec<Fp> = Vec::new();
    let mut i: usize = 0;
    while i < mat.len()
        invariant
            i <= mat.len(),
            out@.len() == i,
            forall|t: int|
                0 <= t < i ==> (#[trigger] out@[t])@ == fmod(
                    dot(
                        fp_seq(mat@[t]@),
                        fp_seq(z@),
                        if mat@[t]@.len() < z.len() { mat@[t]@.len() as int } else { z.len() as int },
                    ),
                ),
        decreases mat.len() - i,
    {
        let row = &mat[i];
        let n = if row.len() < z.len() {
            row.len()
        } else {
            z.len()
        };
        let ghost rv = fp_seq(row@);
        let ghost zv = fp_seq(z@);
        let mut acc = Fp::zero();
        let mut j: usize = 0;
        while j < n
            invariant
                j <= n,
                n <= row@.len(),
                n <= z.len(),
                rv == fp_seq(row@),
                zv == fp_seq(z@),
                acc@ == fmod(dot(rv, zv, j as int)),
            decreases n - j,
        {
            let t = row[j] * z[j];
            proof {
                lemma_fmod_add(dot(rv, zv, j as int), (rv[j as int] * zv[j as int]) as int);
            }
            acc = acc + t;
            j = j + 1;
        }
        out.push(acc);
        i = i + 1;
    }
    out
}

/// The bar-lifted ring matrix-vector product `bar(M) z`.
///
/// Each row (of length `54 n_R`) is bar-lifted to `n_R` ring elements, then dotted
/// with the ring witness.
pub fn bar_ring_matvec(mat: &[Vec<Fp>], z_ring: &[RingElem]) -> (r: Vec<RingElem>)
    requires
        forall|i: int| 0 <= i < mat.len() ==> (#[trigger] mat@[i])@.len() == 54 * z_ring.len(),
    ensures
        ring_seq(r@) == bar_matvec_spec(mat_seq(mat@), ring_seq(z_ring@)),
{
    let mut out: Vec<RingElem> = Vec::new();
    let mut i: usize = 0;
    while i < mat.len()
        invariant
            i <= mat.len(),
            forall|t: int| 0 <= t < mat.len() ==> (#[trigger] mat@[t])@.len() == 54 * z_ring.len(),
            out@.len() == i,
            forall|t: int|
                0 <= t < i ==> (#[trigger] out@[t])@ == ring_dot(
                    bar_row_spec(fp_seq(mat@[t]@)),
                    ring_seq(z_ring@),
                    z_ring.len() as int,
                ),
        decreases mat.len() - i,
    {
        let bar_row = match bar_matrix_row(&mat[i]) {
            Ok(v) => v,
            Err(_) => {
                proof {
                    assert(false);
                }
                Vec::new()
            },
        };
        proof {
            assert(ring_seq(bar_row@) =~= bar_row_spec(fp_seq(mat@[i as int]@)));
        }
        out.push(mbar_row_dot_z(&bar_row, z_ring));
        i = i + 1;
    }
    assert(ring_seq(out@) =~= bar_matvec_spec(mat_seq(mat@), ring_seq(z_ring@)));
    out
}

/// The evaluation claims `y_j = ~(bar(M_j) z)(r)` for all matrices.
pub fn compute_evals(s: &CcsStructure, z_ring: &[RingElem], r: &[Ext2]) -> (y: Vec<RingK>)
    requires
        s.wf(),
        s.m == 54 * z_ring.len(),
        r.len() < 64,
        pow2(r.len() as nat) <= usize::MAX,
    ensures
        y@.len() == s.matrices@.len(),
        forall|j: int|
            0 <= j < y@.len() ==> (#[trigger] y@[j])@ == eval_claim(
                s.mat(j),
                ring_seq(z_ring@),
                e2_seq(r@),
            ),
{
    let mut out: Vec<RingK> = Vec::new();
    let mut j: usize = 0;
    while j < s.matrices.len()
        invariant
            j <= s.matrices@.len(),
            s.wf(),
            s.m == 54 * z_ring.len(),
            r.len() < 64,
            pow2(r.len() as nat) <= usize::MAX,
            out@.len() == j,
            forall|t: int|
                0 <= t < j ==> (#[trigger] out@[t])@ == eval_claim(
                    s.mat(t),
                    ring_seq(z_ring@),
                    e2_seq(r@),
                ),
        decreases s.matrices@.len() - j,
    {
        let mat = &s.matrices[j];
        assert(mat_seq(mat@) == s.mat(j as int));
        let mv = bar_ring_matvec(mat, z_ring);
        let y = mle_eval_ring(&mv, r);
        proof {
            assert(rk_wf(y@));
            let ec = eval_claim(s.mat(j as int), ring_seq(z_ring@), e2_seq(r@));
            assert(ec.len() == 54);
            assert forall|l: int| 0 <= l < 54 implies y@[l] == ec[l] by {}
            assert(y@ =~= ec);
        }
        out.push(y);
        j = j + 1;
    }
    out
}

/// Commit to a field witness via its embedding: `L(z) = Commit(embed(z))`.
pub fn commit_witness(pp: &PublicParams, z: &[Fp]) -> (c: Commitment)
    requires
        pp.wf(),
        z.len() == 54 * pp.n_cols,
    ensures
        c@ == pp.commit_spec(embed_spec(fp_seq(z@))),
{
    let zr = embed_witness(z);
    match pp.commit(&zr) {
        Ok(c) => c,
        Err(_) => {
            proof {
                assert(false);
            }
            Commitment(Vec::new())
        },
    }
}

} // verus!
