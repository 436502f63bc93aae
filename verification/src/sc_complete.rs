//! Completeness of the sum-check prover.
//!
//! When `combine` computes a function `f` that has degree at most `degree` along every
//! line, each round polynomial the prover sends passes the verifier's round check
//! against the true sum of `f` over the hypercube, and the verifier's final claim is
//! `f` at the tables folded at the challenge point.

use vstd::arithmetic::power2::*;
use vstd::prelude::*;

use crate::ext2::{e2_add, e2_base, e2_canon, e2_mul, e2_one, e2_scale, e2_seq, e2_sub, e2_zero, law_e2_field_axioms, Ext2, E2};
use crate::fp::{fmod, fpow, law_fp_field_axioms, lemma_fmod_small, lemma_fp_lt_q};
use crate::multilinear::{bit, eq_entry, eq_factor, eq_spec, fold1, lemma_mle_linear, mle, table_scale};
use crate::sumcheck::{
    combine_gives, e2_sum, fold_all, interpolate, lag_num, lagrange_spec, lemma_sc_prefix, point_vals,
    round_value_ok, round_values_ok, sc_claim, sc_point, sc_round_ok, tables_at,
};
use crate::transcript::TrView;
use crate::Q;

verus! {

broadcast use {lemma_fp_lt_q, lemma_fmod_small};

/// Every entry is a canonical element of `K`.
pub open spec fn seq_canon(s: Seq<E2>) -> bool {
    forall|k: int| 0 <= k < s.len() ==> e2_canon(#[trigger] s[k])
}

/// One value per table at hypercube index `x`.
pub open spec fn column(tabs: Seq<Seq<E2>>, x: int) -> Seq<E2> {
    Seq::new(tabs.len(), |ti: int| tabs[ti][x])
}

/// The point `a (1 - t) + b t` of the line through `a` and `b`.
pub open spec fn line(a: Seq<E2>, b: Seq<E2>, t: E2) -> Seq<E2> {
    Seq::new(a.len(), |k: int| e2_add(e2_mul(a[k], e2_sub(e2_one(), t)), e2_mul(b[k], t)))
}

/// The values of `f` on the line through `a` and `b` at `t = 0, 1, ..., d`.
pub open spec fn line_samples(f: spec_fn(Seq<E2>) -> E2, a: Seq<E2>, b: Seq<E2>, d: nat) -> Seq<E2> {
    Seq::new(d + 1, |c: int| f(line(a, b, e2_base(fmod(c)))))
}

/// `f` takes canonical values, and on every line through two canonical `n`-tuples it
/// agrees with the interpolation of its values at `0, 1, ..., d`: it has degree at most
/// `d` along lines.
pub open spec fn low_degree(f: spec_fn(Seq<E2>) -> E2, n: nat, d: nat) -> bool {
    &&& forall|v: Seq<E2>| e2_canon(#[trigger] f(v))
    &&& forall|a: Seq<E2>, b: Seq<E2>, t: E2|
        a.len() == n && b.len() == n && seq_canon(a) && seq_canon(b) && e2_canon(t) ==> #[trigger] f(
            line(a, b, t),
        ) == interpolate(line_samples(f, a, b, d), t)
}

/// Every value `combine` returns on `n` arguments is `f` of their residues.
pub open spec fn computes<F: Fn(&[Ext2]) -> Ext2>(combine: F, f: spec_fn(Seq<E2>) -> E2, n: nat) -> bool {
    forall|v: &[Ext2], o: Ext2| v@.len() == n && #[trigger] call_ensures(combine, (v,), o) ==> o@ == f(e2_seq(v@))
}

/// The sum of `f` over the first `m` hypercube points of the tables.
pub open spec fn hyper_sum(f: spec_fn(Seq<E2>) -> E2, tabs: Seq<Seq<E2>>, m: nat) -> E2 {
    e2_sum(Seq::new(m, |x: int| f(column(tabs, x))))
}

/// Entry-wise sum of two sequences.
pub open spec fn pw_add(a: Seq<E2>, b: Seq<E2>) -> Seq<E2> {
    Seq::new(a.len(), |i: int| e2_add(a[i], b[i]))
}

/// Entry `c` is the sum of entry `c` of the first `n` rows.
pub open spec fn col_sums(m: Seq<Seq<E2>>, len: nat, n: nat) -> Seq<E2> {
    Seq::new(len, |c: int| e2_sum(Seq::new(n, |x: int| m[x][c])))
}

proof fn lemma_sum_canon(s: Seq<E2>)
    ensures
        e2_canon(e2_sum(s)),
{
}

/// Summing a concatenation adds the two sums.
proof fn lemma_sum_concat(a: Seq<E2>, b: Seq<E2>)
    requires
        seq_canon(b),
    ensures
        e2_sum(a + b) == e2_add(e2_sum(a), e2_sum(b)),
    decreases b.len(),
{
    lemma_sum_canon(a);
    if b.len() == 0 {
        assert(a + b =~= a);
        law_e2_field_axioms(e2_sum(a), e2_zero(), e2_zero());
    } else {
        let b2 = b.drop_last();
        assert((a + b).drop_last() =~= a + b2);
        lemma_sum_concat(a, b2);
        lemma_sum_canon(b2);
        law_e2_field_axioms(e2_sum(a), e2_sum(b2), b.last());
    }
}

/// Interpolation is additive in the values.
#[verifier::spinoff_prover]
#[verifier::rlimit(50)]
proof fn lemma_lagrange_add(a: Seq<E2>, b: Seq<E2>, r: E2, n: int)
    requires
        a.len() == b.len(),
        0 <= n <= a.len(),
        seq_canon(a),
        seq_canon(b),
    ensures
        lagrange_spec(pw_add(a, b), r, n) == e2_add(lagrange_spec(a, r, n), lagrange_spec(b, r, n)),
    decreases n,
{
    if n <= 0 {
        law_e2_field_axioms(e2_zero(), e2_zero(), e2_zero());
    } else {
        lemma_lagrange_add(a, b, r, n - 1);
        let len = a.len() as int;
        let k = n - 1;
        let nm = lag_num(r, k, len);
        let w = fpow(crate::sumcheck::lag_den(k, len), (Q - 2) as nat);
        lemma_lag_num_canon(r, k, len);
        assert(pw_add(a, b)[k] == e2_add(a[k], b[k]));
        lemma_term_add(a[k], b[k], nm, w);
        lemma_add_swap(
            lagrange_spec(a, r, n - 1),
            lagrange_spec(b, r, n - 1),
            e2_scale(e2_mul(a[k], nm), w),
            e2_scale(e2_mul(b[k], nm), w),
        );
    }
}

/// The numerators of the interpolation weights are canonical.
proof fn lemma_lag_num_canon(r: E2, i: int, j: int)
    ensures
        e2_canon(lag_num(r, i, j)),
    decreases j,
{
    if j > 0 {
        lemma_lag_num_canon(r, i, j - 1);
    }
}

/// One interpolation term is additive in the value.
proof fn lemma_term_add(ak: E2, bk: E2, nm: E2, w: nat)
    requires
        e2_canon(ak),
        e2_canon(bk),
        e2_canon(nm),
        w < Q,
    ensures
        e2_scale(e2_mul(e2_add(ak, bk), nm), w) == e2_add(e2_scale(e2_mul(ak, nm), w), e2_scale(e2_mul(bk, nm), w)),
{
    let x = e2_mul(ak, nm);
    let y = e2_mul(bk, nm);
    law_e2_field_axioms(nm, ak, bk);
    law_e2_field_axioms(ak, nm, nm);
    law_e2_field_axioms(bk, nm, nm);
    law_e2_field_axioms(e2_add(ak, bk), nm, nm);
    assert(e2_mul(e2_add(ak, bk), nm) == e2_add(x, y));
    law_fp_field_axioms(w, x.0, y.0);
    law_fp_field_axioms(w, x.1, y.1);
    law_fp_field_axioms(x.0, w, w);
    law_fp_field_axioms(y.0, w, w);
    law_fp_field_axioms(x.1, w, w);
    law_fp_field_axioms(y.1, w, w);
    law_fp_field_axioms(e2_add(x, y).0, w, w);
    law_fp_field_axioms(e2_add(x, y).1, w, w);
}

/// `(a + b) + (c + d) = (a + c) + (b + d)` in `K`.
proof fn lemma_add_swap(a: E2, b: E2, c: E2, d: E2)
    requires
        e2_canon(a),
        e2_canon(b),
        e2_canon(c),
        e2_canon(d),
    ensures
        e2_add(e2_add(a, b), e2_add(c, d)) == e2_add(e2_add(a, c), e2_add(b, d)),
{
    law_e2_field_axioms(a, b, e2_add(c, d));
    law_e2_field_axioms(b, c, d);
    law_e2_field_axioms(c, b, d);
    law_e2_field_axioms(a, c, e2_add(b, d));
}

/// Interpolating all-zero values gives zero.
proof fn lemma_lagrange_zero(a: Seq<E2>, r: E2, n: int)
    requires
        forall|k: int| 0 <= k < a.len() ==> #[trigger] a[k] == e2_zero(),
        0 <= n <= a.len(),
    ensures
        lagrange_spec(a, r, n) == e2_zero(),
    decreases n,
{
    if n > 0 {
        lemma_lagrange_zero(a, r, n - 1);
        let nm = lag_num(r, n - 1, a.len() as int);
        let w = fpow(crate::sumcheck::lag_den(n - 1, a.len() as int), (Q - 2) as nat);
        assert(a[n - 1] == e2_zero());
        assert(e2_mul(e2_zero(), nm) == e2_zero());
        assert(e2_scale(e2_zero(), w) == e2_zero());
    }
}

/// Interpolating column sums sums the row interpolations.
proof fn lemma_interp_col_sums(m: Seq<Seq<E2>>, len: nat, n: nat, r: E2)
    requires
        n <= m.len(),
        forall|x: int| 0 <= x < m.len() ==> (#[trigger] m[x]).len() == len && seq_canon(m[x]),
    ensures
        interpolate(col_sums(m, len, n), r) == e2_sum(Seq::new(n, |x: int| interpolate(m[x], r))),
    decreases n,
{
    let cs = col_sums(m, len, n);
    if n == 0 {
        assert forall|c: int| 0 <= c < cs.len() implies #[trigger] cs[c] == e2_zero() by {
            assert(Seq::new(0, |x: int| m[x][c]) =~= Seq::<E2>::empty());
        }
        lemma_lagrange_zero(cs, r, len as int);
    } else {
        let prev = col_sums(m, len, (n - 1) as nat);
        let row = m[n - 1];
        assert forall|c: int| 0 <= c < cs.len() implies #[trigger] cs[c] == pw_add(prev, row)[c] by {
            assert(Seq::new(n, |x: int| m[x][c]).drop_last() =~= Seq::new((n - 1) as nat, |x: int| m[x][c]));
        }
        assert(cs =~= pw_add(prev, row));
        lemma_interp_col_sums(m, len, (n - 1) as nat, r);
        assert forall|c: int| 0 <= c < prev.len() implies e2_canon(#[trigger] prev[c]) by {
            lemma_sum_canon(Seq::new((n - 1) as nat, |x: int| m[x][c]));
        }
        lemma_lagrange_add(prev, row, r, len as int);
        let s = Seq::new(n, |x: int| interpolate(m[x], r));
        assert(s.drop_last() =~= Seq::new((n - 1) as nat, |x: int| interpolate(m[x], r)));
    }
}

/// The challenges of a transcript are canonical.
pub proof fn lemma_point_canon(t: TrView, rounds: Seq<Seq<E2>>)
    ensures
        seq_canon(sc_point(t, rounds)),
        sc_point(t, rounds).len() == rounds.len(),
    decreases rounds.len(),
{
    if rounds.len() > 0 {
        lemma_point_canon(t, rounds.drop_last());
    }
}

/// The folded tables keep their count, halve their length, and stay canonical.
proof fn lemma_tables_shape(tabs: Seq<Seq<E2>>, point: Seq<E2>, ell: nat, i: nat)
    requires
        i <= ell,
        forall|ti: int| 0 <= ti < tabs.len() ==> (#[trigger] tabs[ti]).len() == pow2(ell) && seq_canon(tabs[ti]),
    ensures
        tables_at(tabs, point, i).len() == tabs.len(),
        forall|ti: int|
            0 <= ti < tabs.len() ==> (#[trigger] tables_at(tabs, point, i)[ti]).len() == pow2((ell - i) as nat)
                && seq_canon(tables_at(tabs, point, i)[ti]),
    decreases i,
{
    if i > 0 {
        lemma_tables_shape(tabs, point, ell, (i - 1) as nat);
        lemma_pow2_unfold((ell - i + 1) as nat);
        let prev = tables_at(tabs, point, (i - 1) as nat);
        assert forall|ti: int| 0 <= ti < tabs.len() implies (#[trigger] tables_at(tabs, point, i)[ti]).len() == pow2(
            (ell - i) as nat,
        ) && seq_canon(tables_at(tabs, point, i)[ti]) by {
            assert(tables_at(tabs, point, i)[ti] == fold1(prev[ti], point[i - 1]));
        }
    }
}

/// A round value is the sum of `f` over the line points with the variable set to `c`.
proof fn lemma_round_value<F: Fn(&[Ext2]) -> Ext2>(
    combine: F,
    f: spec_fn(Seq<E2>) -> E2,
    tabs: Seq<Seq<E2>>,
    half: nat,
    c: int,
    v: E2,
)
    requires
        computes(combine, f, tabs.len()),
        round_value_ok(combine, tabs, half, c, v),
    ensures
        v == e2_sum(Seq::new(half, |x: int| f(point_vals(tabs, x, c)))),
{
    let outs = choose|outs: Seq<E2>|
        #![trigger e2_sum(outs)]
        outs.len() == half && (forall|x: int|
            0 <= x < half ==> combine_gives(combine, point_vals(tabs, x, c), #[trigger] outs[x]))
            && v == e2_sum(outs);
    assert forall|x: int| 0 <= x < half implies outs[x] == f(point_vals(tabs, x, c)) by {
        let pv = point_vals(tabs, x, c);
        assert(combine_gives(combine, pv, outs[x]));
        let (vv, oo) = choose|vv: &[Ext2], oo: Ext2|
            #[trigger] call_ensures(combine, (vv,), oo) && e2_seq(vv@) == pv && oo@ == outs[x];
        assert(e2_seq(vv@).len() == vv@.len());
    }
    assert(outs =~= Seq::new(half, |x: int| f(point_vals(tabs, x, c))));
}

/// On tables of length `2 h`, the point values at `c` lie on the line between the two
/// halves' columns.
proof fn lemma_point_vals_line(tabs: Seq<Seq<E2>>, h: nat, x: int, c: int)
    requires
        forall|ti: int| 0 <= ti < tabs.len() ==> (#[trigger] tabs[ti]).len() == 2 * h,
    ensures
        point_vals(tabs, x, c) == line(column(tabs, x), column(tabs, h + x), e2_base(fmod(c))),
{
    assert(point_vals(tabs, x, c) =~= line(column(tabs, x), column(tabs, h + x), e2_base(fmod(c))));
}

/// Folding the tables at `p` puts column `x` on the line between the halves' columns.
proof fn lemma_fold_column(tabs: Seq<Seq<E2>>, h: nat, x: int, p: E2)
    requires
        forall|ti: int| 0 <= ti < tabs.len() ==> (#[trigger] tabs[ti]).len() == 2 * h,
        0 <= x < h,
    ensures
        column(fold_all(tabs, p), x) == line(column(tabs, x), column(tabs, h + x), p),
{
    assert(column(fold_all(tabs, p), x) =~= line(column(tabs, x), column(tabs, h + x), p));
}

/// At `c = 0` and `c = 1` the line points are the columns of the two halves.
proof fn lemma_line_ends(a: Seq<E2>, b: Seq<E2>)
    requires
        a.len() == b.len(),
        seq_canon(a),
        seq_canon(b),
    ensures
        line(a, b, e2_base(fmod(0))) == a,
        line(a, b, e2_base(fmod(1))) == b,
{
    assert forall|k: int| 0 <= k < a.len() implies #[trigger] line(a, b, e2_base(fmod(0)))[k] == a[k] by {
        law_e2_field_axioms(a[k], e2_zero(), e2_zero());
        law_e2_field_axioms(b[k], e2_zero(), e2_zero());
    }
    assert forall|k: int| 0 <= k < a.len() implies #[trigger] line(a, b, e2_base(fmod(1)))[k] == b[k] by {
        law_e2_field_axioms(b[k], e2_zero(), e2_zero());
        law_e2_field_axioms(a[k], e2_zero(), e2_zero());
        law_e2_field_axioms(e2_zero(), b[k], e2_zero());
    }
    assert(line(a, b, e2_base(fmod(0))) =~= a);
    assert(line(a, b, e2_base(fmod(1))) =~= b);
}

/// One round: the two halves of the round polynomial's first entries add up to the sum
/// at this round, and the sum at the next round is the round polynomial at the challenge.
proof fn lemma_round_step<F: Fn(&[Ext2]) -> Ext2>(
    combine: F,
    f: spec_fn(Seq<E2>) -> E2,
    d: nat,
    tabs: Seq<Seq<E2>>,
    h: nat,
    g: Seq<E2>,
    p: E2,
)
    requires
        computes(combine, f, tabs.len()),
        low_degree(f, tabs.len(), d),
        d >= 1,
        g.len() == d + 1,
        e2_canon(p),
        forall|ti: int| 0 <= ti < tabs.len() ==> (#[trigger] tabs[ti]).len() == 2 * h && seq_canon(tabs[ti]),
        round_values_ok(combine, tabs, h, g),
    ensures
        e2_add(g[0], g[1]) == hyper_sum(f, tabs, 2 * h),
        hyper_sum(f, fold_all(tabs, p), h) == interpolate(g, p),
{
    let n = tabs.len();
    let ms = Seq::new(h, |x: int| line_samples(f, column(tabs, x), column(tabs, h + x), d));
    assert forall|x: int| 0 <= x < h implies seq_canon(#[trigger] column(tabs, x)) && seq_canon(column(tabs, h + x)) by {
        assert forall|ti: int| 0 <= ti < n implies e2_canon(#[trigger] column(tabs, x)[ti]) && e2_canon(
            column(tabs, h + x)[ti],
        ) by {
            assert(tabs[ti].len() == 2 * h);
        }
    }
    // every round value is a column sum of the line samples
    assert forall|c: int| 0 <= c <= d implies #[trigger] g[c] == col_sums(ms, d + 1, h)[c] by {
        assert(round_value_ok(combine, tabs, h, c, g[c]));
        lemma_round_value(combine, f, tabs, h, c, g[c]);
        assert forall|x: int| 0 <= x < h implies f(point_vals(tabs, x, c)) == #[trigger] ms[x][c] by {
            lemma_point_vals_line(tabs, h, x, c);
        }
        assert(Seq::new(h, |x: int| f(point_vals(tabs, x, c))) =~= Seq::new(h, |x: int| ms[x][c]));
    }
    assert(g =~= col_sums(ms, d + 1, h));
    // the first two entries
    let lo = Seq::new(h, |x: int| f(column(tabs, x)));
    let hi = Seq::new(h, |x: int| f(column(tabs, h + x)));
    assert forall|x: int| 0 <= x < h implies #[trigger] ms[x][0] == lo[x] by {
        lemma_line_ends(column(tabs, x), column(tabs, h + x));
    }
    assert forall|x: int| 0 <= x < h implies #[trigger] ms[x][1] == hi[x] by {
        lemma_line_ends(column(tabs, x), column(tabs, h + x));
    }
    assert(Seq::new(h, |x: int| ms[x][0]) =~= lo);
    assert(Seq::new(h, |x: int| ms[x][1]) =~= hi);
    assert(Seq::new(2 * h, |x: int| f(column(tabs, x))) =~= lo + hi);
    lemma_sum_concat(lo, hi);
    // the next sum
    assert forall|x: int| 0 <= x < ms.len() implies (#[trigger] ms[x]).len() == d + 1 && seq_canon(ms[x]) by {
    }
    lemma_interp_col_sums(ms, d + 1, h, p);
    assert forall|x: int| 0 <= x < h implies f(column(fold_all(tabs, p), x)) == #[trigger] interpolate(ms[x], p) by {
        lemma_fold_column(tabs, h, x, p);
        assert(f(line(column(tabs, x), column(tabs, h + x), p)) == interpolate(
            line_samples(f, column(tabs, x), column(tabs, h + x), d),
            p,
        ));
    }
    assert(Seq::new(h, |x: int| f(column(fold_all(tabs, p), x))) =~= Seq::new(h, |x: int| interpolate(ms[x], p)));
}

/// Completeness of the sum-check: when `combine` computes a function `f` of degree at
/// most `degree` along lines, every round of a proof that `sumcheck_prove` returns
/// passes the verifier's round check against the true sum of `f` over the hypercube,
/// and the verifier's final claim is `f` at the multilinear extensions of the tables at
/// the challenge point.
pub proof fn law_sumcheck_complete<F: Fn(&[Ext2]) -> Ext2>(
    combine: F,
    f: spec_fn(Seq<E2>) -> E2,
    degree: nat,
    ell: nat,
    tabs: Seq<Seq<E2>>,
    t0: TrView,
    rounds: Seq<Seq<E2>>,
    point: Seq<E2>,
)
    requires
        computes(combine, f, tabs.len()),
        low_degree(f, tabs.len(), degree),
        degree >= 1,
        forall|ti: int| 0 <= ti < tabs.len() ==> (#[trigger] tabs[ti]).len() == pow2(ell) && seq_canon(tabs[ti]),
        rounds.len() == ell,
        forall|i: int| 0 <= i < ell ==> (#[trigger] rounds[i]).len() == degree + 1,
        point == sc_point(t0, rounds),
        forall|i: int|
            0 <= i < ell ==> round_values_ok(
                combine,
                tables_at(tabs, point, i as nat),
                pow2((ell - i - 1) as nat),
                #[trigger] rounds[i],
            ),
    ensures
        forall|i: int| 0 <= i < ell ==> #[trigger] sc_round_ok(t0, rounds, hyper_sum(f, tabs, pow2(ell)), degree, i),
        sc_claim(t0, rounds, hyper_sum(f, tabs, pow2(ell)), ell as int) == f(
            Seq::new(tabs.len(), |ti: int| mle(tabs[ti], point)),
        ),
{
    let s0 = hyper_sum(f, tabs, pow2(ell));
    lemma_point_canon(t0, rounds);
    assert forall|i: int| 0 <= i <= ell implies #[trigger] sc_claim(t0, rounds, s0, i) == hyper_sum(
        f,
        tables_at(tabs, point, i as nat),
        pow2((ell - i) as nat),
    ) && (i < ell ==> sc_round_ok(t0, rounds, s0, degree, i)) by {
        lemma_claims(combine, f, degree, ell, tabs, t0, rounds, point, i as nat);
    }
    assert(sc_claim(t0, rounds, s0, ell as int) == hyper_sum(f, tables_at(tabs, point, ell), 1)) by {
        lemma2_to64();
    }
    let tl = tables_at(tabs, point, ell);
    reveal_with_fuel(e2_sum, 2);
    assert(Seq::new(1, |x: int| f(column(tl, x))).drop_last() =~= Seq::<E2>::empty());
    law_e2_field_axioms(f(column(tl, 0)), e2_zero(), e2_zero());
    law_e2_field_axioms(e2_zero(), f(column(tl, 0)), e2_zero());
    lemma_tables_shape(tabs, point, ell, ell);
    assert forall|ti: int| 0 <= ti < tabs.len() implies #[trigger] column(tl, 0)[ti] == mle(tabs[ti], point) by {
        lemma_mle_tables_at(tabs, point, ell, ti);
        assert(point.skip(ell as int) =~= Seq::<E2>::empty());
    }
    assert(column(tl, 0) =~= Seq::new(tabs.len(), |ti: int| mle(tabs[ti], point)));
}

/// Folding the first `i` variables at the point's first `i` entries keeps the
/// multilinear extension at the point.
proof fn lemma_mle_tables_at(tabs: Seq<Seq<E2>>, point: Seq<E2>, i: nat, ti: int)
    requires
        i <= point.len(),
        0 <= ti < tabs.len(),
    ensures
        tables_at(tabs, point, i).len() == tabs.len(),
        mle(tables_at(tabs, point, i)[ti], point.skip(i as int)) == mle(tabs[ti], point),
    decreases i,
{
    if i == 0 {
        assert(point.skip(0) =~= point);
    } else {
        lemma_mle_tables_at(tabs, point, (i - 1) as nat, ti);
        let prev = tables_at(tabs, point, (i - 1) as nat);
        assert(tables_at(tabs, point, i)[ti] == fold1(prev[ti], point[i - 1]));
        let rest = point.skip(i - 1);
        assert(rest[0] == point[i - 1]);
        assert(rest.drop_first() =~= point.skip(i as int));
    }
}

/// The running claims are the true sums at each round, and each round passes.
proof fn lemma_claims<F: Fn(&[Ext2]) -> Ext2>(
    combine: F,
    f: spec_fn(Seq<E2>) -> E2,
    degree: nat,
    ell: nat,
    tabs: Seq<Seq<E2>>,
    t0: TrView,
    rounds: Seq<Seq<E2>>,
    point: Seq<E2>,
    i: nat,
)
    requires
        computes(combine, f, tabs.len()),
        low_degree(f, tabs.len(), degree),
        degree >= 1,
        forall|ti: int| 0 <= ti < tabs.len() ==> (#[trigger] tabs[ti]).len() == pow2(ell) && seq_canon(tabs[ti]),
        rounds.len() == ell,
        forall|j: int| 0 <= j < ell ==> (#[trigger] rounds[j]).len() == degree + 1,
        point == sc_point(t0, rounds),
        seq_canon(point),
        point.len() == ell,
        forall|j: int|
            0 <= j < ell ==> round_values_ok(
                combine,
                tables_at(tabs, point, j as nat),
                pow2((ell - j - 1) as nat),
                #[trigger] rounds[j],
            ),
        i <= ell,
    ensures
        sc_claim(t0, rounds, hyper_sum(f, tabs, pow2(ell)), i as int) == hyper_sum(
            f,
            tables_at(tabs, point, i),
            pow2((ell - i) as nat),
        ),
        i < ell ==> sc_round_ok(t0, rounds, hyper_sum(f, tabs, pow2(ell)), degree, i as int),
{
    let s0 = hyper_sum(f, tabs, pow2(ell));
    if i > 0 {
        let j = (i - 1) as nat;
        let tj = tables_at(tabs, point, j);
        lemma_tables_shape(tabs, point, ell, j);
        lemma_pow2_unfold((ell - j) as nat);
        assert(round_values_ok(combine, tj, pow2((ell - j - 1) as nat), rounds[j as int]));
        lemma_round_step(combine, f, degree, tj, pow2((ell - i) as nat), rounds[j as int], point[j as int]);
        lemma_sc_prefix(t0, rounds, i as int);
        assert(sc_point(t0, rounds.take(i as int))[j as int] == point[j as int]);
    }
    if i < ell {
        let ti = tables_at(tabs, point, i);
        lemma_tables_shape(tabs, point, ell, i);
        lemma_pow2_unfold((ell - i) as nat);
        assert(round_values_ok(combine, ti, pow2((ell - i - 1) as nat), rounds[i as int]));
        lemma_round_step(combine, f, degree, ti, pow2((ell - i - 1) as nat), rounds[i as int], point[i as int]);
    }
}

/// The bits of `c 2^m + y` (with `c` a bit and `y < 2^m`): bit `m` is `c`, the lower
/// bits are those of `y`.
proof fn lemma_bits_split(c: nat, y: nat, m: nat, j: nat)
    requires
        c <= 1,
        y < pow2(m),
    ensures
        j < m ==> bit(c * pow2(m) + y, j) == bit(y, j),
        j == m ==> (bit(c * pow2(m) + y, j) <==> c == 1),
{
    let x = c * pow2(m) + y;
    if j < m {
        let pj = pow2(j);
        let pr = pow2((m - j) as nat);
        lemma_pow2_adds(j, (m - j) as nat);
        assert(pow2(m) == pj * pr);
        lemma_pow2_unfold((m - j) as nat);
        let half = pow2((m - j - 1) as nat);
        assert(pr == 2 * half);
        vstd::arithmetic::div_mod::lemma_fundamental_div_mod(y as int, pj as int);
        let qy = y as int / pj as int;
        let ry = y as int % pj as int;
        assert(x == (qy + c * pr) * pj + ry) by (nonlinear_arith)
            requires
                x == c * pow2(m) + y,
                pow2(m) == pj * pr,
                y == pj * qy + ry,
        ;
        vstd::arithmetic::div_mod::lemma_fundamental_div_mod_converse(x as int, pj as int, qy + c * pr, ry);
        assert(c * pr == 2 * (c * half)) by (nonlinear_arith)
            requires
                pr == 2 * half,
        ;
        vstd::arithmetic::div_mod::lemma_mod_multiples_vanish((c * half) as int, qy, 2);
    } else if j == m {
        vstd::arithmetic::div_mod::lemma_fundamental_div_mod_converse(x as int, pow2(m) as int, c as int, y as int);
    }
}

/// Entry `c 2^(L-1) + y` of the equality table at `point` (length `L`) is the entry `y`
/// of the table at the remaining coordinates, times the factor of the leading one.
proof fn lemma_eq_entry_split(point: Seq<E2>, c: nat, y: nat, n: int)
    requires
        point.len() >= 1,
        seq_canon(point),
        c <= 1,
        y < pow2((point.len() - 1) as nat),
        1 <= n <= point.len(),
    ensures
        eq_entry(point, c * pow2((point.len() - 1) as nat) + y, n) == e2_mul(
            eq_entry(point.drop_first(), y, n - 1),
            if c == 1 { point[0] } else { e2_sub(e2_one(), point[0]) },
        ),
    decreases n,
{
    let m = (point.len() - 1) as nat;
    let x = c * pow2(m) + y;
    let f0 = if c == 1 { point[0] } else { e2_sub(e2_one(), point[0]) };
    let rest = point.drop_first();
    if n == 1 {
        lemma_bits_split(c, y, m, m);
        assert(eq_entry(rest, y, 0) == e2_one());
        assert(eq_entry(point, x, 0) == e2_one());
        assert(eq_entry(point, x, 1) == e2_mul(e2_one(), f0));
    } else {
        lemma_eq_entry_split(point, c, y, n - 1);
        let j = (point.len() - n) as nat;
        lemma_bits_split(c, y, m, j);
        assert(rest[n - 2] == point[n - 1]);
        assert((rest.len() - (n - 1)) as nat == j);
        let ff = if bit(x, j) { point[n - 1] } else { e2_sub(e2_one(), point[n - 1]) };
        let ep = eq_entry(rest, y, n - 2);
        assert(eq_entry(point, x, n) == e2_mul(eq_entry(point, x, n - 1), ff));
        assert(eq_entry(rest, y, n - 1) == e2_mul(ep, ff));
        lemma_eq_entry_canon(rest, y, n - 2);
        assert(e2_canon(point[n - 1]));
        assert(e2_canon(point[0]));
        lemma_mul_swap3(ep, f0, ff);
    }
}

/// Entries of an equality table are canonical.
proof fn lemma_eq_entry_canon(point: Seq<E2>, idx: nat, n: int)
    ensures
        e2_canon(eq_entry(point, idx, n)),
{
}

/// `(e f) g = (e g) f` in `K`.
proof fn lemma_mul_swap3(e: E2, f: E2, g: E2)
    requires
        e2_canon(e),
        e2_canon(f),
        e2_canon(g),
    ensures
        e2_mul(e2_mul(e, f), g) == e2_mul(e2_mul(e, g), f),
{
    law_e2_field_axioms(e, f, g);
    law_e2_field_axioms(f, g, e);
    law_e2_field_axioms(e, g, f);
}

/// Summing two sequences term by term adds their sums.
proof fn lemma_sum_add(a: Seq<E2>, b: Seq<E2>, n: nat)
    requires
        a.len() == n,
        b.len() == n,
        seq_canon(a),
        seq_canon(b),
    ensures
        e2_sum(pw_add(a, b)) == e2_add(e2_sum(a), e2_sum(b)),
    decreases n,
{
    if n == 0 {
        assert(pw_add(a, b) =~= Seq::<E2>::empty());
        law_e2_field_axioms(e2_zero(), e2_zero(), e2_zero());
    } else {
        let a2 = a.drop_last();
        let b2 = b.drop_last();
        assert(pw_add(a, b).drop_last() =~= pw_add(a2, b2));
        lemma_sum_add(a2, b2, (n - 1) as nat);
        lemma_sum_canon(a2);
        lemma_sum_canon(b2);
        lemma_add_swap(e2_sum(a2), e2_sum(b2), a.last(), b.last());
    }
}

/// The equality table sums a table into its multilinear extension:
/// `sum_x eq(point, x) t[x] = mle(t, point)` over the `2^L` points of the hypercube.
pub proof fn law_eq_table_mle(t: Seq<E2>, point: Seq<E2>)
    requires
        t.len() == pow2(point.len()),
        seq_canon(t),
        seq_canon(point),
    ensures
        e2_sum(Seq::new(t.len(), |x: int| e2_mul(eq_entry(point, x as nat, point.len() as int), t[x]))) == mle(
            t,
            point,
        ),
    decreases point.len(),
{
    let l = point.len();
    let terms = Seq::new(t.len(), |x: int| e2_mul(eq_entry(point, x as nat, l as int), t[x]));
    if l == 0 {
        lemma2_to64();
        reveal_with_fuel(e2_sum, 2);
        assert(terms.drop_last() =~= Seq::<E2>::empty());
        law_e2_field_axioms(t[0], e2_one(), e2_zero());
        law_e2_field_axioms(e2_zero(), t[0], e2_zero());
    } else {
        let m = (l - 1) as nat;
        let h = pow2(m);
        lemma_pow2_unfold(l as nat);
        let p0 = point[0];
        let u = e2_sub(e2_one(), p0);
        let rest = point.drop_first();
        let ft = fold1(t, p0);
        assert(ft.len() == h);
        assert(seq_canon(ft));
        assert(seq_canon(rest));
        law_eq_table_mle(ft, rest);
        let lo = Seq::new(h, |y: int| e2_mul(eq_entry(point, y as nat, l as int), t[y]));
        let hi = Seq::new(h, |y: int| e2_mul(eq_entry(point, (h + y) as nat, l as int), t[h + y]));
        assert(terms =~= lo + hi);
        assert forall|k: int| 0 <= k < h implies e2_canon(#[trigger] hi[k]) by {}
        lemma_sum_concat(lo, hi);
        let ifold = Seq::new(h, |y: int| e2_mul(eq_entry(rest, y as nat, m as int), ft[y]));
        assert forall|y: int| 0 <= y < h implies #[trigger] ifold[y] == pw_add(lo, hi)[y] by {
            lemma_eq_entry_split(point, 0, y as nat, l as int);
            lemma_eq_entry_split(point, 1, y as nat, l as int);
            assert(0 * h + y == y);
            assert(1 * h + y == h + y);
            let e = eq_entry(rest, y as nat, m as int);
            let a = t[y];
            let b = t[h + y];
            assert(e2_canon(e)) by {
                if m > 0 {
                }
            }
            assert(e2_canon(a) && e2_canon(b) && e2_canon(p0));
            // e (a u + b p0) = (e u) a + (e p0) b
            law_e2_field_axioms(e, e2_mul(a, u), e2_mul(b, p0));
            law_e2_field_axioms(e, a, u);
            law_e2_field_axioms(e, u, a);
            law_e2_field_axioms(e, b, p0);
            law_e2_field_axioms(e, p0, b);
            law_e2_field_axioms(a, u, e);
            law_e2_field_axioms(b, p0, e);
            law_e2_field_axioms(e2_mul(e, u), a, e);
            law_e2_field_axioms(e2_mul(e, p0), b, e);
        }
        assert(ifold =~= pw_add(lo, hi));
        lemma_sum_add(lo, hi, h);
        assert(point.drop_first() == rest);
    }
}

/// `eq(a, b)` factors as the factor of the first coordinates times `eq` of the rest.
#[verifier::spinoff_prover]
pub proof fn lemma_eq_spec_peel(a: Seq<E2>, b: Seq<E2>, n: int)
    requires
        1 <= n,
        n <= a.len(),
        n <= b.len(),
        seq_canon(a),
        seq_canon(b),
    ensures
        eq_spec(a, b, n) == e2_mul(eq_factor(a[0], b[0]), eq_spec(a.drop_first(), b.drop_first(), n - 1)),
    decreases n,
{
    let f0 = eq_factor(a[0], b[0]);
    if n == 1 {
        assert(eq_spec(a, b, 1) == e2_mul(e2_one(), f0));
        assert(eq_spec(a.drop_first(), b.drop_first(), 0) == e2_one());
        crate::ext2::lemma_e2_mul_comm(e2_one(), f0);
    } else {
        lemma_eq_spec_peel(a, b, n - 1);
        let e = eq_spec(a.drop_first(), b.drop_first(), n - 2);
        assert(a.drop_first()[n - 2] == a[n - 1]);
        assert(b.drop_first()[n - 2] == b[n - 1]);
        let f = eq_factor(a[n - 1], b[n - 1]);
        assert(eq_spec(a, b, n) == e2_mul(eq_spec(a, b, n - 1), f));
        assert(eq_spec(a.drop_first(), b.drop_first(), n - 1) == e2_mul(e, f));
        crate::ext2::lemma_e2_mul_assoc(f0, e, f);
    }
}

/// `e (1 - a)(1 - p) + e a p = e eq(p, a)` in `K`.
proof fn lemma_eq_fold_entry(e: E2, a0: E2, p0: E2)
    requires
        e2_canon(e),
        e2_canon(a0),
        e2_canon(p0),
    ensures
        e2_add(
            e2_mul(e2_mul(e, e2_sub(e2_one(), a0)), e2_sub(e2_one(), p0)),
            e2_mul(e2_mul(e, a0), p0),
        ) == e2_mul(e, eq_factor(p0, a0)),
{
    let ua = e2_sub(e2_one(), a0);
    let up = e2_sub(e2_one(), p0);
    crate::ext2::lemma_e2_mul_assoc(e, ua, up);
    crate::ext2::lemma_e2_mul_assoc(e, a0, p0);
    crate::ext2::lemma_e2_mul_comm(ua, up);
    crate::ext2::lemma_e2_mul_comm(a0, p0);
    crate::ext2::lemma_e2_mul_distrib(e, e2_mul(up, ua), e2_mul(p0, a0));
    law_e2_field_axioms(e2_mul(e, e2_mul(up, ua)), e2_mul(e, e2_mul(p0, a0)), e2_zero());
    law_e2_field_axioms(e2_mul(up, ua), e2_mul(p0, a0), e2_zero());
}

/// The multilinear extension of the equality table at `alpha`, evaluated at `r`, is
/// `eq(r, alpha)`.
#[verifier::spinoff_prover]
pub proof fn lemma_mle_eq_tab(alpha: Seq<E2>, r: Seq<E2>)
    requires
        alpha.len() == r.len(),
        seq_canon(alpha),
        seq_canon(r),
    ensures
        mle(crate::pi_ccs::eq_tab(alpha, alpha.len() as nat), r) == eq_spec(r, alpha, r.len() as int),
    decreases r.len(),
{
    let n = alpha.len();
    let t = crate::pi_ccs::eq_tab(alpha, n as nat);
    if n == 0 {
        lemma2_to64();
        assert(t[0] == e2_one());
    } else {
        let m = (n - 1) as nat;
        let h = pow2(m);
        lemma_pow2_unfold(n as nat);
        let p0 = r[0];
        let a0 = alpha[0];
        let ad = alpha.drop_first();
        let rd = r.drop_first();
        let fac = eq_factor(p0, a0);
        let td = crate::pi_ccs::eq_tab(ad, m);
        assert(e2_canon(p0) && e2_canon(a0));
        assert forall|y: int| 0 <= y < h implies #[trigger] fold1(t, p0)[y] == table_scale(td, fac)[y] by {
            lemma_eq_entry_split(alpha, 0, y as nat, n as int);
            lemma_eq_entry_split(alpha, 1, y as nat, n as int);
            assert(0 * h + y == y);
            assert(1 * h + y == h + y);
            let e = eq_entry(ad, y as nat, m as int);
            lemma_eq_entry_canon(ad, y as nat, m as int);
            lemma_eq_fold_entry(e, a0, p0);
            assert(td[y] == e);
        }
        assert(fold1(t, p0) =~= table_scale(td, fac));
        assert(seq_canon(ad) && seq_canon(rd));
        assert forall|i: int| 0 <= i < td.len() implies e2_canon(#[trigger] td[i]) by {
            lemma_eq_entry_canon(ad, i as nat, m as int);
        }
        assert forall|v: int| 0 <= v < rd.len() implies e2_canon(#[trigger] rd[v]) by {
            assert(rd[v] == r[v + 1]);
        }
        lemma_mle_linear(td, td, fac, rd);
        lemma_mle_eq_tab(ad, rd);
        lemma_eq_spec_peel(r, alpha, n as int);
        crate::ext2::lemma_e2_mul_comm(fac, eq_spec(rd, ad, m as int));
    }
}

/// The multilinear extension of the zero table is zero.
pub proof fn lemma_mle_zero(t: Seq<E2>, r: Seq<E2>)
    requires
        t.len() == pow2(r.len()),
        forall|i: int| 0 <= i < t.len() ==> #[trigger] t[i] == e2_zero(),
    ensures
        mle(t, r) == e2_zero(),
    decreases r.len(),
{
    if r.len() == 0 {
        lemma2_to64();
    } else {
        lemma_pow2_unfold(r.len() as nat);
        let f = fold1(t, r[0]);
        assert forall|i: int| 0 <= i < f.len() implies #[trigger] f[i] == e2_zero() by {
            assert(t[i] == e2_zero());
            assert(t[t.len() / 2 + i] == e2_zero());
        }
        lemma_mle_zero(f, r.drop_first());
    }
}

} // verus!
