//! The inner-product (bar) transform.
//!
//! With the symmetric Gram matrix `G[i][j] = ct(X^(i+j) mod Phi)`, the transform is
//! `bar(a) = G^-1 a`, so that `ct(cf^-1(bar(a)) * cf^-1(b)) = <a, b>`. For
//! `Phi = X^54 + X^27 + 1` the Gram matrix has entries only on the anti-diagonals
//! `i + j = 0` (value 1), `i + j = 54` (value -1) and `i + j = 81` (value 1), and its
//! inverse is explicit:
//!
//! `bar(a)_0 = a_0`, `bar(a)_j = -a_{27-j} - a_{54-j}` for `1 <= j <= 26`, and
//! `bar(a)_j = -a_{54-j}` for `27 <= j <= 53`.

use core::ops::Neg;

use vstd::prelude::*;

use crate::fp::{fmod, fmul, fneg, fp_seq, fpow, fsub, lemma_fmod_neg, lemma_fmod_small, lemma_fmod_sub, lemma_fp_lt_q, Fp};
use crate::ring::{
    conv, conv_term, lemma_conv_sum_range, lemma_fmod_combine, lemma_range_sum_congruent, lemma_range_sum_ext,
    lemma_range_sum_low, lemma_range_sum_reflect, lemma_range_sum_shift, lemma_range_sum_trim_high,
    lemma_range_sum_trim_low, monomial, phi_reduce, range_sum, lemma_range_sum_add, lemma_range_sum_split, ring_mul, ring_wf,
    RingElem, D,
};

verus! {

broadcast use {lemma_fp_lt_q, lemma_fmod_small};

/// The Gram matrix entry `ct(X^(i+j) mod Phi)`.
pub open spec fn gram_entry(i: int, j: int) -> nat {
    phi_reduce(monomial(i + j))[0]
}

/// The entries of the inverse Gram matrix, as integers in `{-1, 0, 1}`.
pub open spec fn bar_entry(j: int, k: int) -> int {
    if j == 0 {
        if k == 0 {
            1
        } else {
            0
        }
    } else if j < 27 {
        if k == 27 - j || k == 54 - j {
            -1
        } else {
            0
        }
    } else {
        if k == 54 - j {
            -1
        } else {
            0
        }
    }
}

/// The bar transform of a block of 54 residues.
pub open spec fn bar_spec(a: Seq<nat>) -> Seq<nat> {
    Seq::new(
        D as nat,
        |j: int|
            if j == 0 {
                a[0]
            } else if j < 27 {
                fmod(-a[27 - j] - a[54 - j])
            } else {
                fmod(-a[54 - j])
            },
    )
}

/// A `54 x 54` matrix of field elements, viewed as rows of residues.
pub open spec fn mat_view(m: [[Fp; D]; D]) -> Seq<Seq<nat>> {
    m@.map_values(|row: [Fp; D]| fp_seq(row@))
}

/// The Gram matrix `G[i][j] = ct(X^(i+j) mod Phi)`.
pub fn gram() -> (g: [[Fp; D]; D])
    ensures
        forall|i: int, j: int| 0 <= i < D && 0 <= j < D ==> mat_view(g)[i][j] == gram_entry(i, j),
{
    let mut ct_pow = [Fp::zero();107];
    let mut k: usize = 0;
    while k < 107
        invariant
            k <= 107,
            forall|t: int| 0 <= t < k ==> (#[trigger] ct_pow@[t])@ == phi_reduce(monomial(t))[0],
        decreases 107 - k,
    {
        ct_pow[k] = RingElem::x_pow_mod_phi(k).ct();
        k = k + 1;
    }
    let mut g = [[Fp::zero();D];D];
    let mut i: usize = 0;
    while i < D
        invariant
            i <= D,
            forall|t: int| 0 <= t < 107 ==> (#[trigger] ct_pow@[t])@ == phi_reduce(monomial(t))[0],
            forall|r: int, j: int|
                0 <= r < i && 0 <= j < D ==> (#[trigger] g@[r]@[j])@ == gram_entry(r, j),
        decreases D - i,
    {
        let mut row = [Fp::zero();D];
        let mut j: usize = 0;
        while j < D
            invariant
                j <= D,
                i < D,
                forall|t: int| 0 <= t < 107 ==> (#[trigger] ct_pow@[t])@ == phi_reduce(monomial(t))[0],
                forall|c: int| 0 <= c < j ==> (#[trigger] row@[c])@ == gram_entry(i as int, c),
            decreases D - j,
        {
            row[j] = ct_pow[i + j];
            j = j + 1;
        }
        g[i] = row;
        i = i + 1;
    }
    g
}

/// The first row at or below `r` whose entry in column `c` is nonzero (`D` if none).
pub open spec fn pivot_row(m: Seq<Seq<nat>>, c: int, r: int) -> int
    decreases D - r,
{
    if r >= D {
        D as int
    } else if m[r][c] != 0 {
        r
    } else {
        pivot_row(m, c, r + 1)
    }
}

/// Rows `c` and `p` exchanged.
pub open spec fn swap_rows(m: Seq<Seq<nat>>, c: int, p: int) -> Seq<Seq<nat>> {
    m.update(c, m[p]).update(p, m[c])
}

/// `row` less `f pr` from column `c` on, where `f = row[c] inv` (unchanged when `f = 0`).
pub open spec fn eliminate_row(row: Seq<nat>, pr: Seq<nat>, c: int, inv: nat) -> Seq<nat> {
    let f = fmul(row[c], inv);
    if f == 0 {
        row
    } else {
        Seq::new(D as nat, |j: int| if j >= c { fsub(row[j], fmul(f, pr[j])) } else { row[j] })
    }
}

/// One elimination step on column `c`: the pivot row is brought to row `c`, and every
/// row below it has its entry in column `c` cleared (the pivot inverted as `p^(q-2)`).
pub open spec fn elim_column(m: Seq<Seq<nat>>, c: int) -> Seq<Seq<nat>> {
    let sw = swap_rows(m, c, pivot_row(m, c, c));
    let pr = sw[c];
    let inv = fpow(pr[c], (crate::Q - 2) as nat);
    Seq::new(D as nat, |r: int| if r <= c { sw[r] } else { eliminate_row(sw[r], pr, c, inv) })
}

/// Gaussian elimination from column `c` with running factor `acc`: each column
/// multiplies in its pivot, negated when rows were swapped; a column without a pivot
/// gives zero.
pub open spec fn elim_det(m: Seq<Seq<nat>>, c: int, acc: nat) -> nat
    decreases D - c,
{
    if c >= D {
        acc
    } else {
        let p = pivot_row(m, c, c);
        if p >= D {
            0
        } else {
            let acc1 = if p != c {
                fneg(acc)
            } else {
                acc
            };
            elim_det(elim_column(m, c), c + 1, fmul(acc1, m[p][c]))
        }
    }
}

/// The determinant as Gaussian elimination with row swaps computes it: the product of
/// the pivots, negated once per swap, or zero when a column has no pivot.
pub open spec fn det_spec(m: Seq<Seq<nat>>) -> nat {
    elim_det(m, 0, 1)
}

/// The determinant of a `54 x 54` matrix by Gaussian elimination with row swaps.
pub fn determinant(mat: &[[Fp; D]; D]) -> (det: Fp)
    ensures
        det@ == det_spec(mat_view(*mat)),
{
    let mut a = *mat;
    let mut det = Fp::one();
    let mut col: usize = 0;
    while col < D
        invariant
            col <= D,
            elim_det(mat_view(a), col as int, det@) == det_spec(mat_view(*mat)),
        decreases D - col,
    {
        let ghost m0 = mat_view(a);
        // Find a pivot at or below the diagonal.
        let mut piv: usize = col;
        while piv < D && a[piv][col].is_zero()
            invariant
                col <= piv <= D,
                col < D,
                m0 == mat_view(a),
                pivot_row(m0, col as int, col as int) == pivot_row(m0, col as int, piv as int),
            decreases D - piv,
        {
            assert(m0[piv as int][col as int] == a[piv as int][col as int]@);
            piv = piv + 1;
        }
        if piv == D {
            return Fp::zero();
        }
        assert(m0[piv as int][col as int] == a[piv as int][col as int]@);
        assert(pivot_row(m0, col as int, piv as int) == piv);
        let ghost det0 = det@;
        if piv != col {
            let tmp = a[col];
            a[col] = a[piv];
            a[piv] = tmp;
            det = det.neg();
        }
        let ghost sw = swap_rows(m0, col as int, piv as int);
        assert(mat_view(a) =~= sw);
        let pivot_row_v = a[col];
        let p = pivot_row_v[col];
        assert(p@ == m0[piv as int][col as int]);
        det = det * p;
        let inv_p = match p.inv() {
            Ok(v) => v,
            Err(_) => {
                return Fp::zero();
            },
        };
        let ghost pr = sw[col as int];
        let ghost target = elim_column(m0, col as int);
        assert(fp_seq(pivot_row_v@) == pr);
        let mut r: usize = col + 1;
        while r < D
            invariant
                col < r <= D,
                col < D,
                sw.len() == D,
                pr == sw[col as int],
                fp_seq(pivot_row_v@) == pr,
                inv_p@ == fpow(pr[col as int], (crate::Q - 2) as nat),
                target == elim_column(m0, col as int),
                sw == swap_rows(m0, col as int, pivot_row(m0, col as int, col as int)),
                mat_view(a).len() == D,
                forall|i: int| 0 <= i < r ==> #[trigger] mat_view(a)[i] == target[i],
                forall|i: int| r <= i < D ==> #[trigger] mat_view(a)[i] == sw[i],
            decreases D - r,
        {
            let ghost mv_before = mat_view(a);
            let mut row = a[r];
            let ghost orig = fp_seq(row@);
            assert(mv_before[r as int] == fp_seq(a@[r as int]@));
            assert(orig == sw[r as int]);
            let f = row[col] * inv_p;
            if !f.is_zero() {
                let mut j: usize = col;
                while j < D
                    invariant
                        col <= j <= D,
                        col < D,
                        fp_seq(pivot_row_v@) == pr,
                        forall|t: int| 0 <= t < D && (t < col || t >= j) ==> #[trigger] row@[t]@ == orig[t],
                        forall|t: int| col <= t < j ==> #[trigger] row@[t]@ == fsub(orig[t], fmul(f@, pr[t])),
                    decreases D - j,
                {
                    row[j] = row[j] - f * pivot_row_v[j];
                    j = j + 1;
                }
                assert(fp_seq(row@) =~= eliminate_row(orig, pr, col as int, inv_p@));
                a[r] = row;
            } else {
                assert(fp_seq(row@) =~= eliminate_row(orig, pr, col as int, inv_p@));
            }
            assert(target[r as int] == eliminate_row(sw[r as int], pr, col as int, inv_p@));
            assert(mat_view(a) =~= mv_before.update(r as int, target[r as int]));
            r = r + 1;
        }
        assert(mat_view(a) =~= target);
        col = col + 1;
    }
    det
}

/// The bar-transform matrix `G^-1`, in closed form.
pub fn bar_matrix() -> (m: [[Fp; D]; D])
    ensures
        forall|j: int, k: int|
            0 <= j < D && 0 <= k < D ==> mat_view(m)[j][k] == fmod(bar_entry(j, k)),
{
    let minus_one = Fp::one().neg();
    proof {
        lemma_fmod_small(0);
        lemma_fmod_small(1);
    }
    let mut m = [[Fp::zero();D];D];
    let mut j: usize = 0;
    while j < D
        invariant
            j <= D,
            minus_one@ == fmod(-1),
            forall|r: int, k: int|
                0 <= r < j && 0 <= k < D ==> (#[trigger] m@[r]@[k])@ == fmod(bar_entry(r, k)),
        decreases D - j,
    {
        let mut row = [Fp::zero();D];
        if j == 0 {
            row[0] = Fp::one();
        } else if j < 27 {
            row[27 - j] = minus_one;
            row[54 - j] = minus_one;
        } else {
            row[54 - j] = minus_one;
        }
        assert forall|k: int| 0 <= k < D implies (#[trigger] row@[k])@ == fmod(bar_entry(j as int, k)) by {
            lemma_fmod_small(0);
            lemma_fmod_small(1);
        }
        m[j] = row;
        j = j + 1;
    }
    m
}

/// Apply the bar transform to one block: `bar(v) = G^-1 v`.
pub fn bar_block(v: &[Fp; D]) -> (r: [Fp; D])
    ensures
        fp_seq(r@) == bar_spec(fp_seq(v@)),
{
    let mut out = [Fp::zero();D];
    out[0] = v[0];
    let mut j: usize = 1;
    while j < D
        invariant
            1 <= j <= D,
            out@[0]@ == v@[0]@,
            forall|t: int| 1 <= t < j ==> (#[trigger] out@[t])@ == bar_spec(fp_seq(v@))[t],
        decreases D - j,
    {
        if j < 27 {
            let a = v[27 - j];
            let b = v[54 - j];
            out[j] = a.neg() - b;
            proof {
                lemma_fmod_neg(a@ as int);
                lemma_fmod_sub(-a@, b@ as int);
            }
        } else {
            out[j] = v[54 - j].neg();
        }
        j = j + 1;
    }
    assert(fp_seq(out@) =~= bar_spec(fp_seq(v@)));
    out
}

/// Apply the bar transform to one block, returning a ring element.
pub fn bar_ring(v: &[Fp; D]) -> (r: RingElem)
    ensures
        r@ == bar_spec(fp_seq(v@)),
{
    RingElem::from_coeffs(bar_block(v))
}

/// `dot(a, b, n)` as a range sum of products.
proof fn lemma_dot_range(a: Seq<nat>, b: Seq<nat>, n: int)
    requires
        n >= 0,
    ensures
        crate::fp::dot(a, b, n) == range_sum(|m: int| a[m] as int * b[m] as int, 0, n),
    decreases n,
{
    if n > 0 {
        lemma_dot_range(a, b, n - 1);
    }
}

/// The range sum of a negation is the negated range sum.
proof fn lemma_range_sum_neg(f: spec_fn(int) -> int, lo: int, hi: int)
    ensures
        range_sum(|i: int| -f(i), lo, hi) == -range_sum(f, lo, hi),
    decreases hi - lo,
{
    if hi > lo {
        lemma_range_sum_neg(f, lo, hi - 1);
    }
}

/// The bar transform turns inner products into constant terms of ring products:
/// `ct(bar(a) b) = <a, b>`.
pub proof fn law_bar_inner_product(a: Seq<nat>, b: Seq<nat>)
    requires
        ring_wf(a),
        ring_wf(b),
    ensures
        ring_mul(bar_spec(a), b)[0] == fmod(crate::fp::dot(a, b, D as int)),
{
    let x = bar_spec(a);
    let g = |m: int| a[m] as int * b[m] as int;
    // V(i) = a[27 - i] b[54 - i] on [1, 27); U(i) = a[54 - i] b[54 - i] on [1, 54).
    let vf = |i: int| if 1 <= i < 27 { a[27 - i] as int * b[54 - i] as int } else { 0int };
    let uf = |i: int| if 1 <= i < 54 { a[54 - i] as int * b[54 - i] as int } else { 0int };
    let l54 = |i: int| -(vf(i) + uf(i));
    let l81 = |i: int| -vf(i - 27);
    let t0 = conv_term(x, b, 0);
    let t54 = conv_term(x, b, 54);
    let t81 = conv_term(x, b, 81);
    lemma_conv_sum_range(x, b, 0, D as int);
    lemma_conv_sum_range(x, b, 54, D as int);
    lemma_conv_sum_range(x, b, 81, D as int);
    // C0 = a0 b0.
    lemma_range_sum_trim_high(t0, 0, 1, D as int);
    assert(range_sum(t0, 0, 0) == 0);
    assert(range_sum(t0, 0, 1) == t0(0));
    // C54 and C81 agree with their lifts modulo q.
    assert forall|i: int| 0 <= i < D implies #[trigger] fmod(t54(i)) == fmod(l54(i)) by {
        if 1 <= i < 27 {
            crate::fp::lemma_fmod_mul(-(a[27 - i] + a[54 - i]), b[54 - i] as int);
            assert(-(a[27 - i] + a[54 - i]) * b[54 - i] == -(vf(i) + uf(i))) by (nonlinear_arith)
                requires
                    vf(i) == a[27 - i] as int * b[54 - i] as int,
                    uf(i) == a[54 - i] as int * b[54 - i] as int,
            ;
        } else if 27 <= i < D {
            crate::fp::lemma_fmod_mul(-(a[54 - i] as int), b[54 - i] as int);
            assert(-(a[54 - i] as int) * b[54 - i] == -(vf(i) + uf(i))) by (nonlinear_arith)
                requires
                    vf(i) == 0,
                    uf(i) == a[54 - i] as int * b[54 - i] as int,
            ;
        }
    }
    assert forall|i: int| 0 <= i < D implies #[trigger] fmod(t81(i)) == fmod(l81(i)) by {
        if 28 <= i < D {
            crate::fp::lemma_fmod_mul(-(a[54 - i] as int), b[81 - i] as int);
            assert(-(a[54 - i] as int) * b[81 - i] == l81(i)) by (nonlinear_arith)
                requires
                    l81(i) == -(a[54 - i] as int * b[81 - i] as int),
            ;
        }
    }
    lemma_range_sum_congruent(t54, l54, 0, D as int);
    lemma_range_sum_congruent(t81, l81, 0, D as int);
    // Sum of the lifts.
    let sv = range_sum(vf, 0, 27);
    let su = range_sum(g, 1, 54);
    lemma_range_sum_neg(|i: int| vf(i) + uf(i), 0, D as int);
    assert(l54 =~= |i: int| -((|i: int| vf(i) + uf(i))(i)));
    lemma_range_sum_add(vf, uf, 0, D as int);
    lemma_range_sum_trim_high(vf, 0, 27, D as int);
    lemma_range_sum_trim_low(uf, 0, 1, D as int);
    let ug = |i: int| g(54 - i);
    lemma_range_sum_ext(uf, ug, 1, D as int);
    lemma_range_sum_reflect(g, 54, 1, D as int);
    assert(ug =~= |i: int| g(54 - i));
    lemma_range_sum_neg(|i: int| vf(i - 27), 0, D as int);
    assert(l81 =~= |i: int| -((|i: int| vf(i - 27))(i)));
    lemma_range_sum_shift(vf, 27, 0, D as int);
    lemma_range_sum_trim_low(vf, -27, 0, 27);
    lemma_range_sum_low(g, 0, D as int);
    lemma_dot_range(a, b, D as int);
    assert(range_sum(l54, 0, D as int) == -(sv + su));
    assert(range_sum(l81, 0, D as int) == -sv);
    lemma_fmod_combine(
        conv(x, b, 0),
        conv(x, b, 54),
        conv(x, b, 81),
        conv(x, b, 0),
        range_sum(l54, 0, D as int),
        range_sum(l81, 0, D as int),
    );
}

/// `-(x1 + y1) - (x2 + y2)` reduces the same whether the sums are reduced first or the
/// two negated pairs are.
proof fn lemma_bar_sum_mid(x1: int, x2: int, y1: int, y2: int)
    ensures
        fmod(-(fmod(x1 + y1) as int) - fmod(x2 + y2) as int) == fmod(fmod(-x1 - x2) as int + fmod(-y1 - y2) as int),
{
    crate::fp::lemma_fmod_add(-x1 - x2, -y1 - y2);
    lemma_fmod_sub(-(fmod(x1 + y1) as int), x2 + y2);
    lemma_fmod_sub(-(x2 + y2), x1 + y1);
    assert(-(fmod(x1 + y1) as int) - (x2 + y2) == -(x2 + y2) - fmod(x1 + y1) as int);
}

/// `-(x1 s) - (x2 s)` reduces like `(-x1 - x2) s`.
proof fn lemma_bar_scale_mid(x1: int, x2: int, s: int)
    ensures
        fmod(-(fmod(x1 * s) as int) - fmod(x2 * s) as int) == fmod(fmod(-x1 - x2) as int * s),
{
    crate::fp::lemma_fmod_mul(-x1 - x2, s);
    lemma_fmod_sub(-(fmod(x1 * s) as int), x2 * s);
    lemma_fmod_sub(-(x2 * s), x1 * s);
    assert(-(fmod(x1 * s) as int) - (x2 * s) == -(x2 * s) - fmod(x1 * s) as int);
    assert((-x1 - x2) * s == -(x2 * s) - x1 * s) by (nonlinear_arith);
}

/// `-(x + y)` reduces like the sum of the reduced negations, and `-(x s)` like `(-x) s`.
proof fn lemma_bar_high(x: int, y: int, s: int)
    ensures
        fmod(-(fmod(x + y) as int)) == fmod(fmod(-x) as int + fmod(-y) as int),
        fmod(-(fmod(x * s) as int)) == fmod(fmod(-x) as int * s),
{
    lemma_fmod_neg(x + y);
    crate::fp::lemma_fmod_add(-x, -y);
    lemma_fmod_neg(x * s);
    crate::fp::lemma_fmod_mul(-x, s);
    assert((-x) * s == -(x * s)) by (nonlinear_arith);
}

/// The bar transform is linear: it maps sums to sums and field multiples to multiples.
pub proof fn law_bar_linear(a: Seq<nat>, b: Seq<nat>, s: nat)
    requires
        ring_wf(a),
        ring_wf(b),
        s < crate::Q,
    ensures
        bar_spec(crate::ring::ring_add(a, b)) == crate::ring::ring_add(bar_spec(a), bar_spec(b)),
        bar_spec(crate::ring::ring_scale(a, s)) == crate::ring::ring_scale(bar_spec(a), s),
{
    let sum = crate::ring::ring_add(a, b);
    let sc = crate::ring::ring_scale(a, s);
    assert forall|j: int| 0 <= j < D implies #[trigger] bar_spec(sum)[j] == crate::ring::ring_add(
        bar_spec(a),
        bar_spec(b),
    )[j] by {
        if 0 < j < 27 {
            lemma_bar_sum_mid(a[27 - j] as int, a[54 - j] as int, b[27 - j] as int, b[54 - j] as int);
        } else if j >= 27 {
            lemma_bar_high(a[54 - j] as int, b[54 - j] as int, s as int);
        }
    }
    assert forall|j: int| 0 <= j < D implies #[trigger] bar_spec(sc)[j] == crate::ring::ring_scale(bar_spec(a), s)[j] by {
        if 0 < j < 27 {
            lemma_bar_scale_mid(a[27 - j] as int, a[54 - j] as int, s as int);
        } else if j >= 27 {
            lemma_bar_high(a[54 - j] as int, 0, s as int);
        }
    }
    assert(bar_spec(sum) =~= crate::ring::ring_add(bar_spec(a), bar_spec(b)));
    assert(bar_spec(sc) =~= crate::ring::ring_scale(bar_spec(a), s));
}

/// A range sum with one nonzero term, at `p`.
proof fn lemma_range_sum_single(f: spec_fn(int) -> int, lo: int, p: int, hi: int)
    requires
        lo <= p < hi,
        forall|i: int| lo <= i < hi && i != p ==> #[trigger] f(i) == 0,
    ensures
        range_sum(f, lo, hi) == f(p),
{
    lemma_range_sum_split(f, lo, p, hi);
    lemma_range_sum_split(f, p, p + 1, hi);
    lemma_range_sum_trim_low(f, lo, p, p);
    lemma_range_sum_trim_low(f, p + 1, hi, hi);
    assert(range_sum(f, p, p) == 0);
    assert(range_sum(f, hi, hi) == 0);
    assert(range_sum(f, p, p + 1) == range_sum(f, p, p) + f(p));
}

/// A range sum with two nonzero terms, at `p1 < p2`.
proof fn lemma_range_sum_pair(f: spec_fn(int) -> int, lo: int, p1: int, p2: int, hi: int)
    requires
        lo <= p1 < p2 < hi,
        forall|i: int| lo <= i < hi && i != p1 && i != p2 ==> #[trigger] f(i) == 0,
    ensures
        range_sum(f, lo, hi) == f(p1) + f(p2),
{
    lemma_range_sum_split(f, lo, p2, hi);
    lemma_range_sum_single(f, lo, p1, p2);
    lemma_range_sum_single(f, p2, p2, hi);
}

/// The Gram entry on the anti-diagonal `i + j = e`, as an integer in `{-1, 0, 1}`.
pub open spec fn gram_int(e: int) -> int {
    (if e == 0 {
        1int
    } else {
        0int
    }) - (if e == 54 {
        1int
    } else {
        0int
    }) + (if e == 81 {
        1int
    } else {
        0int
    })
}

/// The matrix `bar_matrix` returns, times the matrix `gram` returns, is the identity
/// over `F_q`: `sum_m bar[j][m] gram[m][k]` is `1` on the diagonal and `0` elsewhere.
pub proof fn law_bar_matrix_times_gram(j: int, k: int)
    requires
        0 <= j < D,
        0 <= k < D,
    ensures
        fmod(range_sum(|m: int| (fmod(bar_entry(j, m)) * gram_entry(m, k)) as int, 0, D as int)) == if j == k {
            1nat
        } else {
            0nat
        },
{
    law_bar_inverts_gram(j, k);
    let f = |m: int| (fmod(bar_entry(j, m)) * gram_entry(m, k)) as int;
    let g = |m: int| bar_entry(j, m) * gram_entry(m, k);
    assert forall|m: int| 0 <= m < D implies #[trigger] fmod(f(m)) == fmod(g(m)) by {
        crate::fp::lemma_fmod_mul(bar_entry(j, m), gram_entry(m, k) as int);
    }
    lemma_range_sum_congruent(f, g, 0, D as int);
}

/// The explicit bar matrix is the inverse of the Gram matrix: `sum_m B[j][m] G[m][k]` is
/// `1` on the diagonal and `0` elsewhere.
#[verifier::spinoff_prover]
pub proof fn law_bar_inverts_gram(j: int, k: int)
    requires
        0 <= j < D,
        0 <= k < D,
    ensures
        fmod(range_sum(|m: int| bar_entry(j, m) * gram_entry(m, k), 0, D as int)) == if j == k {
            1nat
        } else {
            0nat
        },
{
    let f = |m: int| bar_entry(j, m) * gram_entry(m, k);
    let g = |m: int| bar_entry(j, m) * gram_int(m + k);
    assert forall|m: int| 0 <= m < D implies #[trigger] fmod(f(m)) == fmod(g(m)) by {
        assert(gram_entry(m, k) == fmod(gram_int(m + k)));
        crate::fp::lemma_fmod_mul(bar_entry(j, m), gram_int(m + k));
    }
    lemma_range_sum_congruent(f, g, 0, D as int);
    if j == 0 {
        lemma_range_sum_single(g, 0, 0, D as int);
        let (x0, b0) = (gram_int(k), bar_entry(0, 0));
        assert(g(0) == b0 * x0);
        assert(b0 * x0 == x0) by (nonlinear_arith)
            requires
                b0 == 1,
        ;
    } else if j < 27 {
        lemma_range_sum_pair(g, 0, 27 - j, 54 - j, D as int);
        assert(bar_entry(j, 27 - j) == -1 && bar_entry(j, 54 - j) == -1);
        assert(g(27 - j) == bar_entry(j, 27 - j) * gram_int(27 - j + k));
        assert(g(54 - j) == bar_entry(j, 54 - j) * gram_int(54 - j + k));
        let (x1, x2) = (gram_int(27 - j + k), gram_int(54 - j + k));
        let (b1, b2) = (bar_entry(j, 27 - j), bar_entry(j, 54 - j));
        assert(b1 * x1 == -x1 && b2 * x2 == -x2) by (nonlinear_arith)
            requires
                b1 == -1,
                b2 == -1,
        ;
    } else {
        lemma_range_sum_single(g, 0, 54 - j, D as int);
        assert(bar_entry(j, 54 - j) == -1);
        assert(g(54 - j) == bar_entry(j, 54 - j) * gram_int(54 - j + k));
        let (x2, b2) = (gram_int(54 - j + k), bar_entry(j, 54 - j));
        assert(b2 * x2 == -x2) by (nonlinear_arith)
            requires
                b2 == -1,
        ;
    }
    lemma_fmod_small(0);
    lemma_fmod_small(1);
    assert(range_sum(g, 0, D as int) == if j == k { 1int } else { 0int });
    assert(f =~= (|m: int| bar_entry(j, m) * gram_entry(m, k)));
}

/// A `54 x 54` matrix of residues with zeros below the diagonal.
pub open spec fn upper_triangular(m: Seq<Seq<nat>>) -> bool {
    &&& m.len() == D
    &&& forall|r: int| 0 <= r < D ==> (#[trigger] m[r]).len() == D
    &&& forall|r: int, c: int| 0 <= r < D && 0 <= c < D ==> #[trigger] m[r][c] < crate::Q
    &&& forall|r: int, c: int| 0 <= c < r < D ==> #[trigger] m[r][c] == 0
}

/// `acc` times the diagonal entries `c, c + 1, ..., e - 1`.
pub open spec fn diag_product_range(m: Seq<Seq<nat>>, c: int, e: int, acc: nat) -> nat
    decreases e - c,
{
    if c >= e {
        acc
    } else {
        diag_product_range(m, c + 1, e, fmul(acc, m[c][c]))
    }
}

/// The product of the diagonal entries.
pub open spec fn diag_product(m: Seq<Seq<nat>>) -> nat {
    diag_product_range(m, 0, D as int, 1)
}

/// `(-x) y = -(x y)` in `F`.
proof fn lemma_fmul_fneg(x: nat, y: nat)
    ensures
        fmul(fneg(x), y) == fneg(fmul(x, y)),
{
    crate::fp::lemma_fmod_mul(-(x as int), y as int);
    lemma_fmod_neg(x as int * y as int);
    assert(-(x as int) * (y as int) == -(x as int * y as int)) by (nonlinear_arith);
}

/// A product that starts from `0` stays `0`; one that starts from `-acc` is the
/// negated product.
proof fn lemma_diag_product_range(m: Seq<Seq<nat>>, c: int, e: int, acc: nat)
    ensures
        diag_product_range(m, c, e, 0) == 0,
        diag_product_range(m, c, e, fneg(acc)) == fneg(diag_product_range(m, c, e, acc)),
    decreases e - c,
{
    if c < e {
        lemma_fmod_small(0);
        assert(0 * (m[c][c] as int) == 0) by (nonlinear_arith);
        lemma_fmul_fneg(acc, m[c][c]);
        lemma_diag_product_range(m, c + 1, e, acc);
        lemma_diag_product_range(m, c + 1, e, fmul(acc, m[c][c]));
    }
}

/// A product split at `a`.
proof fn lemma_diag_product_split(m: Seq<Seq<nat>>, c: int, a: int, e: int, acc: nat)
    requires
        c <= a <= e,
    ensures
        diag_product_range(m, c, e, acc) == diag_product_range(m, a, e, diag_product_range(m, c, a, acc)),
    decreases a - c,
{
    if c < a {
        lemma_diag_product_split(m, c + 1, a, e, fmul(acc, m[c][c]));
    }
}

/// The pivot search from `r` stops at the first nonzero entry `p`.
proof fn lemma_pivot_at(m: Seq<Seq<nat>>, c: int, r: int, p: int)
    requires
        r <= p < D,
        m[p][c] != 0,
        forall|s: int| r <= s < p ==> #[trigger] m[s][c] == 0,
    ensures
        pivot_row(m, c, r) == p,
    decreases p - r,
{
    if r < p {
        lemma_pivot_at(m, c, r + 1, p);
    }
}

/// Without a nonzero entry at or below `r`, the pivot search finds none.
proof fn lemma_no_pivot(m: Seq<Seq<nat>>, c: int, r: int)
    requires
        forall|s: int| r <= s < D ==> #[trigger] m[s][c] == 0,
    ensures
        pivot_row(m, c, r) == D,
    decreases D - r,
{
    if r < D {
        lemma_no_pivot(m, c, r + 1);
    }
}

/// A column already cleared below a nonzero diagonal entry is its own elimination
/// step.
proof fn lemma_clean_column(m: Seq<Seq<nat>>, c: int)
    requires
        0 <= c < D,
        m.len() == D,
        forall|r: int| 0 <= r < D ==> (#[trigger] m[r]).len() == D,
        m[c][c] != 0,
        forall|r: int| c < r < D ==> #[trigger] m[r][c] == 0,
    ensures
        pivot_row(m, c, c) == c,
        elim_column(m, c) == m,
{
    lemma_pivot_at(m, c, c, c);
    let sw = swap_rows(m, c, c);
    assert(sw =~= m);
    let inv = fpow(m[c][c], (crate::Q - 2) as nat);
    assert forall|r: int| c < r < D implies #[trigger] eliminate_row(m[r], m[c], c, inv) == m[r] by {
        lemma_fmod_small(0);
        assert(0 * (inv as int) == 0) by (nonlinear_arith);
    }
    assert(elim_column(m, c) =~= m);
}

/// On an upper-triangular matrix, elimination from column `c` multiplies `acc` by the
/// remaining diagonal entries.
proof fn lemma_elim_triangular(m: Seq<Seq<nat>>, c: int, acc: nat)
    requires
        upper_triangular(m),
        0 <= c <= D,
    ensures
        elim_det(m, c, acc) == diag_product_range(m, c, D as int, acc),
    decreases D - c,
{
    if c < D {
        if m[c][c] != 0 {
            lemma_clean_column(m, c);
            lemma_elim_triangular(m, c + 1, fmul(acc, m[c][c]));
        } else {
            lemma_no_pivot(m, c, c);
            lemma_fmod_small(0);
            assert((acc as int) * 0 == 0) by (nonlinear_arith);
            lemma_diag_product_range(m, c + 1, D as int, acc);
        }
    }
}

/// The determinant of an upper-triangular matrix is the product of its diagonal.
pub proof fn law_det_triangular(m: Seq<Seq<nat>>)
    requires
        upper_triangular(m),
    ensures
        det_spec(m) == diag_product(m),
{
    lemma_elim_triangular(m, 0, 1);
}

/// Before column `a`, the matrix with rows `a < b` of an upper-triangular `m` exchanged
/// eliminates like `m`: each column is already clear below its diagonal.
proof fn lemma_swapped_prefix(m: Seq<Seq<nat>>, a: int, b: int, c: int, acc: nat)
    requires
        upper_triangular(m),
        forall|i: int| 0 <= i < D ==> #[trigger] m[i][i] != 0,
        0 <= c <= a < b < D,
    ensures
        elim_det(swap_rows(m, a, b), c, acc) == elim_det(swap_rows(m, a, b), a, diag_product_range(m, c, a, acc)),
    decreases a - c,
{
    let ms = swap_rows(m, a, b);
    if c < a {
        assert forall|r: int| c < r < D implies #[trigger] ms[r][c] == 0 by {
            if r == a {
                assert(ms[r] == m[b]);
            } else if r == b {
                assert(ms[r] == m[a]);
            } else {
                assert(ms[r] == m[r]);
            }
        }
        assert(ms[c] == m[c]);
        lemma_clean_column(ms, c);
        lemma_swapped_prefix(m, a, b, c + 1, fmul(acc, m[c][c]));
    }
}

/// Exchanging two rows of an upper-triangular matrix with a nonzero diagonal negates
/// its determinant.
pub proof fn law_det_row_swap(m: Seq<Seq<nat>>, a: int, b: int)
    requires
        upper_triangular(m),
        forall|i: int| 0 <= i < D ==> #[trigger] m[i][i] != 0,
        0 <= a < b < D,
    ensures
        det_spec(swap_rows(m, a, b)) == fneg(det_spec(m)),
        det_spec(swap_rows(m, b, a)) == fneg(det_spec(m)),
{
    let ms = swap_rows(m, a, b);
    assert(swap_rows(m, b, a) =~= ms);
    let x = diag_product_range(m, 0, a, 1);
    lemma_swapped_prefix(m, a, b, 0, 1);
    // column a: the pivot is row b, and the exchange restores m
    assert forall|s: int| a <= s < b implies #[trigger] ms[s][a] == 0 by {
        if s == a {
            assert(ms[s] == m[b]);
        } else {
            assert(ms[s] == m[s]);
        }
    }
    assert(ms[b] == m[a]);
    lemma_pivot_at(ms, a, a, b);
    let inv = fpow(m[a][a], (crate::Q - 2) as nat);
    assert(swap_rows(ms, a, b) =~= m);
    assert forall|r: int| a < r < D implies #[trigger] eliminate_row(m[r], m[a], a, inv) == m[r] by {
        lemma_fmod_small(0);
        assert(0 * (inv as int) == 0) by (nonlinear_arith);
    }
    assert(elim_column(ms, a) =~= m);
    assert(elim_det(ms, a, x) == elim_det(m, a + 1, fmul(fneg(x), m[a][a])));
    lemma_fmul_fneg(x, m[a][a]);
    lemma_elim_triangular(m, a + 1, fmul(fneg(x), m[a][a]));
    lemma_diag_product_range(m, a + 1, D as int, fmul(x, m[a][a]));
    lemma_elim_triangular(m, 0, 1);
    lemma_diag_product_split(m, 0, a, D as int, 1);
}

} // verus!
