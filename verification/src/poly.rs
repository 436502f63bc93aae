//! Polynomials in one variable over `K`, as coefficient sequences (constant term
//! first), and the fact that a polynomial of degree at most `d` is the Lagrange
//! interpolation of its values at `0, 1, ..., d`.

use vstd::prelude::*;

use crate::ext2::{e2_add, e2_base, e2_canon, e2_mul, e2_neg, e2_one, e2_scale, e2_sub, e2_zero, law_e2_field_axioms, E2};
use crate::fp::{fmod, fmul, fpow, fsub};
use crate::sumcheck::{interpolate, lag_den, lag_num, lagrange_spec};
use crate::Q;
use crate::sc_complete::seq_canon;

verus! {

/// `c[0] + t (c[1] + t (c[2] + ...))`.
pub open spec fn peval(c: Seq<E2>, t: E2) -> E2
    decreases c.len(),
{
    if c.len() == 0 {
        e2_zero()
    } else {
        e2_add(c[0], e2_mul(t, peval(c.drop_first(), t)))
    }
}

/// Coefficient `i`, zero past the end.
pub open spec fn coef(c: Seq<E2>, i: int) -> E2 {
    if 0 <= i < c.len() {
        c[i]
    } else {
        e2_zero()
    }
}

/// The coefficients after the constant one.
pub open spec fn ptail(c: Seq<E2>) -> Seq<E2> {
    if c.len() == 0 {
        c
    } else {
        c.drop_first()
    }
}

/// The sum of two polynomials.
pub open spec fn padd(p: Seq<E2>, q: Seq<E2>) -> Seq<E2> {
    Seq::new(if p.len() >= q.len() { p.len() } else { q.len() }, |i: int| e2_add(coef(p, i), coef(q, i)))
}

/// `a` times a polynomial.
pub open spec fn pscale(p: Seq<E2>, a: E2) -> Seq<E2> {
    Seq::new(p.len(), |i: int| e2_mul(a, p[i]))
}

/// `t` times a polynomial.
pub open spec fn pshift(p: Seq<E2>) -> Seq<E2> {
    seq![e2_zero()] + p
}

/// A polynomial times `l0 + l1 t`.
pub open spec fn pmul_lin(p: Seq<E2>, l0: E2, l1: E2) -> Seq<E2> {
    padd(pscale(p, l0), pshift(pscale(p, l1)))
}

/// Values of polynomials are canonical.
pub proof fn lemma_peval_canon(c: Seq<E2>, t: E2)
    ensures
        e2_canon(peval(c, t)),
{
}

/// Products, sums and negations are canonical.
pub proof fn lemma_ops_canon(a: E2, b: E2)
    ensures
        e2_canon(e2_add(a, b)),
        e2_canon(e2_mul(a, b)),
        e2_canon(e2_sub(a, b)),
        e2_canon(e2_neg(a)),
{
}

/// `0 x = 0` and `x 0 = 0`, `0 + 0 = 0`.
pub proof fn lemma_zero_facts(x: E2)
    ensures
        e2_mul(x, e2_zero()) == e2_zero(),
        e2_mul(e2_zero(), x) == e2_zero(),
        e2_add(e2_zero(), e2_zero()) == e2_zero(),
{
    assert(x.0 * 0 + 7 * (x.1 * 0) == 0) by (nonlinear_arith);
    assert(x.0 * 0 + x.1 * 0 == 0) by (nonlinear_arith);
    assert(0 * x.0 + 7 * (0 * x.1) == 0) by (nonlinear_arith);
    assert(0 * x.1 + 0 * x.0 == 0) by (nonlinear_arith);
}

/// Horner's step holds for every sequence, the empty one included.
pub proof fn lemma_peval_unfold(c: Seq<E2>, t: E2)
    ensures
        peval(c, t) == e2_add(coef(c, 0), e2_mul(t, peval(ptail(c), t))),
{
    if c.len() == 0 {
        lemma_zero_facts(t);
    }
}

/// `(a + b) + (c + d) = (a + c) + (b + d)`.
pub proof fn lemma_add_swap(a: E2, b: E2, c: E2, d: E2)
    requires
        e2_canon(a),
        e2_canon(b),
        e2_canon(c),
        e2_canon(d),
    ensures
        e2_add(e2_add(a, b), e2_add(c, d)) == e2_add(e2_add(a, c), e2_add(b, d)),
{
    lemma_ops_canon(a, b);
    lemma_ops_canon(c, d);
    lemma_ops_canon(b, c);
    lemma_ops_canon(c, b);
    lemma_ops_canon(a, c);
    lemma_ops_canon(b, d);
    law_e2_field_axioms(a, b, e2_add(c, d));
    law_e2_field_axioms(b, c, d);
    law_e2_field_axioms(c, b, d);
    law_e2_field_axioms(b, c, d);
    law_e2_field_axioms(a, c, e2_add(b, d));
}

/// The value of a sum is the sum of the values.
pub proof fn lemma_peval_padd(p: Seq<E2>, q: Seq<E2>, t: E2)
    requires
        seq_canon(p),
        seq_canon(q),
        e2_canon(t),
    ensures
        peval(padd(p, q), t) == e2_add(peval(p, t), peval(q, t)),
    decreases p.len() + q.len(),
{
    let s = padd(p, q);
    if s.len() == 0 {
        lemma_zero_facts(t);
    } else {
        assert(ptail(s) =~= padd(ptail(p), ptail(q)));
        lemma_peval_padd(ptail(p), ptail(q), t);
        lemma_peval_unfold(p, t);
        lemma_peval_unfold(q, t);
        lemma_peval_unfold(s, t);
        let pp = peval(ptail(p), t);
        let qq = peval(ptail(q), t);
        lemma_peval_canon(ptail(p), t);
        lemma_peval_canon(ptail(q), t);
        law_e2_field_axioms(t, pp, qq);
        lemma_ops_canon(t, pp);
        lemma_ops_canon(t, qq);
        assert(e2_canon(coef(p, 0)) && e2_canon(coef(q, 0)));
        assert(coef(s, 0) == e2_add(coef(p, 0), coef(q, 0)));
        lemma_add_swap(coef(p, 0), coef(q, 0), e2_mul(t, pp), e2_mul(t, qq));
    }
}

/// `a (t x) = t (a x)`.
pub proof fn lemma_mul_swap(a: E2, t: E2, x: E2)
    requires
        e2_canon(a),
        e2_canon(t),
        e2_canon(x),
    ensures
        e2_mul(a, e2_mul(t, x)) == e2_mul(t, e2_mul(a, x)),
{
    law_e2_field_axioms(a, t, x);
    law_e2_field_axioms(t, a, x);
}

/// The value of a scaled polynomial is the scaled value.
pub proof fn lemma_peval_pscale(p: Seq<E2>, a: E2, t: E2)
    requires
        seq_canon(p),
        e2_canon(a),
        e2_canon(t),
    ensures
        peval(pscale(p, a), t) == e2_mul(a, peval(p, t)),
    decreases p.len(),
{
    if p.len() == 0 {
        lemma_zero_facts(a);
    } else {
        assert(ptail(pscale(p, a)) =~= pscale(ptail(p), a));
        lemma_peval_pscale(ptail(p), a, t);
        lemma_peval_unfold(p, t);
        lemma_peval_unfold(pscale(p, a), t);
        let pp = peval(ptail(p), t);
        lemma_peval_canon(ptail(p), t);
        lemma_ops_canon(t, pp);
        law_e2_field_axioms(a, p[0], e2_mul(t, pp));
        lemma_mul_swap(a, t, pp);
    }
}

/// The value of a shifted polynomial is `t` times the value.
pub proof fn lemma_peval_pshift(p: Seq<E2>, t: E2)
    requires
        e2_canon(t),
    ensures
        peval(pshift(p), t) == e2_mul(t, peval(p, t)),
{
    assert(pshift(p).drop_first() =~= p);
    let v = e2_mul(t, peval(p, t));
    lemma_ops_canon(t, peval(p, t));
    law_e2_field_axioms(v, e2_zero(), e2_zero());
    law_e2_field_axioms(e2_zero(), v, e2_zero());
}

/// The value of `p (l0 + l1 t)`.
pub proof fn lemma_peval_pmul_lin(p: Seq<E2>, l0: E2, l1: E2, t: E2)
    requires
        seq_canon(p),
        e2_canon(l0),
        e2_canon(l1),
        e2_canon(t),
    ensures
        peval(pmul_lin(p, l0, l1), t) == e2_mul(peval(p, t), e2_add(l0, e2_mul(t, l1))),
        pmul_lin(p, l0, l1).len() == p.len() + 1,
        seq_canon(pmul_lin(p, l0, l1)),
{
    let a = pscale(p, l0);
    let b = pscale(p, l1);
    assert(seq_canon(a) && seq_canon(b));
    assert(seq_canon(pshift(b)));
    lemma_peval_padd(a, pshift(b), t);
    lemma_peval_pscale(p, l0, t);
    lemma_peval_pscale(p, l1, t);
    lemma_peval_pshift(b, t);
    let pv = peval(p, t);
    lemma_peval_canon(p, t);
    lemma_ops_canon(l1, pv);
    lemma_ops_canon(t, l1);
    // t (l1 P) = P (t l1)
    law_e2_field_axioms(t, l1, pv);
    law_e2_field_axioms(e2_mul(t, l1), pv, l0);
    // l0 P = P l0
    law_e2_field_axioms(l0, pv, l0);
    // P (l0 + t l1) = P l0 + P (t l1)
    law_e2_field_axioms(pv, l0, e2_mul(t, l1));
}

/// `a - b = a + (-b)`, and `-(b)` is `b` times `-1`.
pub proof fn lemma_sub_facts(a: E2, b: E2)
    requires
        e2_canon(a),
        e2_canon(b),
    ensures
        e2_sub(a, b) == e2_add(a, e2_neg(b)),
        e2_neg(b) == e2_mul(e2_neg(e2_one()), b),
        e2_sub(a, a) == e2_zero(),
{
    crate::fp::lemma_fmod_add(a.0 as int, -(b.0 as int));
    crate::fp::lemma_fmod_add(a.1 as int, -(b.1 as int));
    crate::fp::lemma_fmod_small(a.0);
    crate::fp::lemma_fmod_small(a.1);
    crate::fp::lemma_fmod_small(0);
    crate::fp::lemma_fmod_mul(-1, b.0 as int);
    crate::fp::lemma_fmod_mul(-1, b.1 as int);
    assert(fneg_one() * b.0 + 7 * (0 * b.1) == fneg_one() * b.0) by (nonlinear_arith);
    assert(fneg_one() * b.1 + 0 * b.0 == fneg_one() * b.1) by (nonlinear_arith);
    assert(-1 * b.0 == -(b.0 as int)) by (nonlinear_arith);
    assert(-1 * b.1 == -(b.1 as int)) by (nonlinear_arith);
}

/// `q - 1`, the residue of `-1`.
pub open spec fn fneg_one() -> nat {
    crate::fp::fneg(1)
}

/// The quotient of `c(t) - c(a)` by `t - a`.
pub open spec fn pquot(c: Seq<E2>, a: E2) -> Seq<E2>
    decreases c.len(),
{
    if c.len() <= 1 {
        Seq::empty()
    } else {
        padd(ptail(c), pscale(pquot(ptail(c), a), a))
    }
}

/// `c(t) = c(a) + (t - a) q(t)` with `q` of one coefficient fewer.
pub proof fn lemma_pquot(c: Seq<E2>, a: E2, t: E2)
    requires
        seq_canon(c),
        e2_canon(a),
        e2_canon(t),
    ensures
        seq_canon(pquot(c, a)),
        c.len() >= 1 ==> pquot(c, a).len() == c.len() - 1,
        peval(c, t) == e2_add(peval(c, a), e2_mul(e2_sub(t, a), peval(pquot(c, a), t))),
    decreases c.len(),
{
    let qc = pquot(c, a);
    lemma_ops_canon(t, a);
    let d = e2_sub(t, a);
    if c.len() == 0 {
        lemma_zero_facts(d);
        law_e2_field_axioms(e2_zero(), e2_zero(), e2_zero());
    } else if c.len() == 1 {
        lemma_zero_facts(d);
        lemma_zero_facts(t);
        lemma_zero_facts(a);
        assert(c.drop_first().len() == 0);
        assert(peval(c.drop_first(), t) == e2_zero());
        assert(peval(c.drop_first(), a) == e2_zero());
        assert(pquot(c, a).len() == 0);
        law_e2_field_axioms(c[0], e2_zero(), e2_zero());
        assert(peval(c, t) == c[0]);
        assert(peval(c, a) == c[0]);
    } else {
        let c1 = ptail(c);
        let q1 = pquot(c1, a);
        lemma_pquot(c1, a, t);
        lemma_pquot(c1, a, a);
        assert(seq_canon(pscale(q1, a)));
        lemma_peval_padd(c1, pscale(q1, a), t);
        lemma_peval_pscale(q1, a, t);
        lemma_peval_unfold(c, t);
        lemma_peval_unfold(c, a);
        lemma_peval_canon(c1, t);
        lemma_peval_canon(c1, a);
        lemma_peval_canon(q1, t);
        assert(seq_canon(c));
        lemma_div_algebra(c[0], t, a, peval(c1, t), peval(c1, a), peval(q1, t));
    }
}

/// The algebra of one division step: if `ct = ca + (t - a) qt` then
/// `c0 + t ct = (c0 + a ca) + (t - a)(ct + a qt)`.
#[verifier::spinoff_prover]
pub proof fn lemma_div_algebra(c0: E2, t: E2, a: E2, ct: E2, ca: E2, qt: E2)
    requires
        e2_canon(c0),
        e2_canon(t),
        e2_canon(a),
        e2_canon(ct),
        e2_canon(ca),
        e2_canon(qt),
        ct == e2_add(ca, e2_mul(e2_sub(t, a), qt)),
    ensures
        e2_add(c0, e2_mul(t, ct)) == e2_add(
            e2_add(c0, e2_mul(a, ca)),
            e2_mul(e2_sub(t, a), e2_add(ct, e2_mul(a, qt))),
        ),
{
    let d = e2_sub(t, a);
    let na = e2_neg(a);
    lemma_ops_canon(t, a);
    lemma_ops_canon(a, qt);
    lemma_ops_canon(d, qt);
    lemma_ops_canon(t, ct);
    lemma_ops_canon(na, ct);
    lemma_ops_canon(d, ct);
    lemma_ops_canon(a, ca);
    lemma_ops_canon(a, ct);
    let dq = e2_mul(d, qt);
    lemma_ops_canon(a, dq);
    // d (ct + a qt) = d ct + d (a qt) = d ct + a (d qt)
    law_e2_field_axioms(d, ct, e2_mul(a, qt));
    lemma_mul_swap(d, a, qt);
    // d ct = t ct + (-a) ct
    lemma_sub_facts(t, a);
    law_e2_field_axioms(ct, t, na);
    law_e2_field_axioms(t, ct, ct);
    law_e2_field_axioms(na, ct, ct);
    // a ct = a ca + a (d qt)
    law_e2_field_axioms(a, ca, dq);
    // (-a) ct = -(a ct), and a ct + -(a ct) = 0
    lemma_neg_mul(a, ct);
    law_e2_field_axioms(e2_mul(a, ct), ct, ct);
    lemma_poly_step_algebra(c0, e2_mul(t, ct), e2_mul(a, ca), e2_mul(a, dq), e2_mul(na, ct));
}

/// `(-a) x = -(a x)`.
pub proof fn lemma_neg_mul(a: E2, x: E2)
    requires
        e2_canon(a),
        e2_canon(x),
    ensures
        e2_mul(e2_neg(a), x) == e2_neg(e2_mul(a, x)),
{
    let m1 = e2_neg(e2_one());
    lemma_sub_facts(e2_zero(), a);
    lemma_sub_facts(e2_zero(), e2_mul(a, x));
    lemma_ops_canon(a, x);
    lemma_ops_canon(m1, a);
    law_e2_field_axioms(m1, a, x);
}

/// The closing rearrangement of the division step: with `w = -(a ct)` and
/// `a ct = a ca + a (d qt)`,
/// `c0 + t ct = (c0 + a ca) + ((t ct + w) + a (d qt))`.
pub proof fn lemma_poly_step_algebra(c0: E2, tct: E2, aca: E2, adq: E2, w: E2)
    requires
        e2_canon(c0),
        e2_canon(tct),
        e2_canon(aca),
        e2_canon(adq),
        e2_canon(w),
        e2_add(e2_add(aca, adq), w) == e2_zero(),
    ensures
        e2_add(c0, tct) == e2_add(e2_add(c0, aca), e2_add(e2_add(tct, w), adq)),
{
    lemma_ops_canon(c0, aca);
    lemma_ops_canon(tct, w);
    lemma_ops_canon(aca, adq);
    lemma_ops_canon(adq, w);
    lemma_ops_canon(tct, adq);
    lemma_ops_canon(aca, w);
    lemma_ops_canon(e2_add(aca, adq), w);
    // (tct + w) + adq = tct + (w + adq)
    law_e2_field_axioms(tct, w, adq);
    // (c0 + aca) + (tct + (w + adq)) = c0 + (aca + (tct + (w + adq)))
    lemma_ops_canon(w, adq);
    lemma_ops_canon(tct, e2_add(w, adq));
    law_e2_field_axioms(c0, aca, e2_add(tct, e2_add(w, adq)));
    // aca + (tct + (w + adq)) = tct + (aca + (w + adq))
    law_e2_field_axioms(aca, tct, e2_add(w, adq));
    law_e2_field_axioms(tct, aca, e2_add(w, adq));
    lemma_ops_canon(aca, e2_add(w, adq));
    lemma_ops_canon(aca, tct);
    // aca + (w + adq) = (aca + adq) + w = 0
    law_e2_field_axioms(aca, w, adq);
    law_e2_field_axioms(aca, adq, w);
    law_e2_field_axioms(w, adq, aca);
    law_e2_field_axioms(adq, w, aca);
    law_e2_field_axioms(e2_add(aca, w), adq, aca);
    law_e2_field_axioms(tct, e2_zero(), e2_zero());
}

/// `K` has no zero divisors.
pub proof fn lemma_e2_no_zero_divisors(x: E2, y: E2)
    requires
        e2_canon(x),
        e2_canon(y),
        x != e2_zero(),
        e2_mul(x, y) == e2_zero(),
    ensures
        y == e2_zero(),
{
    crate::ext2::law_e2_norm_zero(x);
    crate::ext2::law_e2_inverse(x);
    let w = crate::ext2::e2_scale(crate::ext2::e2_conj(x), crate::fp::fpow(crate::ext2::e2_norm(x), (crate::Q - 2) as nat));
    lemma_ops_canon(w, x);
    assert(e2_canon(w));
    law_e2_field_axioms(w, x, y);
    law_e2_field_axioms(y, e2_one(), e2_one());
    law_e2_field_axioms(e2_one(), y, y);
    lemma_zero_facts(w);
}

/// Distinct canonical elements have a nonzero difference.
pub proof fn lemma_sub_nonzero(x: E2, a: E2)
    requires
        e2_canon(x),
        e2_canon(a),
        x != a,
    ensures
        e2_sub(x, a) != e2_zero(),
{
}

/// A polynomial with at most `n` coefficients that vanishes at `n` distinct canonical
/// points vanishes at every canonical point.
pub proof fn lemma_roots(c: Seq<E2>, xs: Seq<E2>, t: E2)
    requires
        seq_canon(c),
        seq_canon(xs),
        e2_canon(t),
        c.len() <= xs.len(),
        forall|i: int, j: int| 0 <= i < j < xs.len() ==> xs[i] != xs[j],
        forall|i: int| 0 <= i < xs.len() ==> peval(c, #[trigger] xs[i]) == e2_zero(),
    ensures
        peval(c, t) == e2_zero(),
    decreases xs.len(),
{
    if c.len() == 0 {
    } else {
        let n = xs.len();
        let a = xs[n - 1];
        let q = pquot(c, a);
        let ys = xs.drop_last();
        lemma_pquot(c, a, t);
        assert forall|i: int| 0 <= i < ys.len() implies peval(q, #[trigger] ys[i]) == e2_zero() by {
            let x = ys[i];
            assert(x == xs[i]);
            lemma_pquot(c, a, x);
            assert(peval(c, x) == e2_zero());
            assert(peval(c, a) == e2_zero());
            lemma_ops_canon(x, a);
            lemma_peval_canon(q, x);
            lemma_ops_canon(e2_sub(x, a), peval(q, x));
            law_e2_field_axioms(e2_mul(e2_sub(x, a), peval(q, x)), e2_zero(), e2_zero());
            law_e2_field_axioms(e2_zero(), e2_mul(e2_sub(x, a), peval(q, x)), e2_zero());
            lemma_sub_nonzero(x, a);
            lemma_e2_no_zero_divisors(e2_sub(x, a), peval(q, x));
        }
        lemma_roots(q, ys, t);
        assert(peval(c, a) == e2_zero());
        lemma_ops_canon(t, a);
        lemma_zero_facts(e2_sub(t, a));
    }
}

/// `prod_{j' < j, j' != i} (t - j')` as a polynomial.
pub open spec fn lag_num_poly(i: int, j: int) -> Seq<E2>
    decreases j,
{
    if j <= 0 {
        seq![e2_one()]
    } else if j - 1 == i {
        lag_num_poly(i, j - 1)
    } else {
        pmul_lin(lag_num_poly(i, j - 1), e2_neg(e2_base(fmod(j - 1))), e2_one())
    }
}

/// The Lagrange numerator polynomial has the numerator's values, and `j` coefficients
/// when `i` is one of the `j` nodes.
pub proof fn lemma_lag_num_poly(i: int, j: int, r: E2)
    requires
        e2_canon(r),
        j >= 0,
    ensures
        peval(lag_num_poly(i, j), r) == lag_num(r, i, j),
        seq_canon(lag_num_poly(i, j)),
        lag_num_poly(i, j).len() == if 0 <= i < j { j } else { j + 1 },
    decreases j,
{
    if j <= 0 {
        lemma_zero_facts(r);
        law_e2_field_axioms(e2_one(), e2_zero(), e2_zero());
        assert(seq![e2_one()].drop_first().len() == 0);
        assert(peval(seq![e2_one()].drop_first(), r) == e2_zero());
    } else if j - 1 == i {
        lemma_lag_num_poly(i, j - 1, r);
    } else {
        lemma_lag_num_poly(i, j - 1, r);
        let c = e2_base(fmod(j - 1));
        let p = lag_num_poly(i, j - 1);
        lemma_peval_pmul_lin(p, e2_neg(c), e2_one(), r);
        lemma_sub_facts(r, c);
        lemma_ops_canon(c, c);
        law_e2_field_axioms(r, e2_neg(c), e2_one());
        law_e2_field_axioms(e2_neg(c), r, e2_one());
    }
}

/// `x` scaled by a residue is `x` times that residue.
pub proof fn lemma_scale_is_mul(x: E2, s: nat)
    ensures
        e2_scale(x, s) == e2_mul(x, e2_base(s)),
{
    assert(x.0 * s + 7 * (x.1 * 0) == x.0 * s) by (nonlinear_arith);
    assert(x.0 * 0 + x.1 * s == x.1 * s) by (nonlinear_arith);
}

/// The Lagrange interpolation through `(i, ev[i])`, `i < n`, as a polynomial.
pub open spec fn lag_poly(ev: Seq<E2>, n: int) -> Seq<E2>
    decreases n,
{
    if n <= 0 {
        Seq::empty()
    } else {
        padd(
            lag_poly(ev, n - 1),
            pscale(
                lag_num_poly(n - 1, ev.len() as int),
                e2_mul(ev[n - 1], e2_base(fpow(lag_den(n - 1, ev.len() as int), (Q - 2) as nat))),
            ),
        )
    }
}

/// The interpolation polynomial has the interpolation's values and at most `ev.len()`
/// coefficients.
pub proof fn lemma_lag_poly(ev: Seq<E2>, n: int, r: E2)
    requires
        seq_canon(ev),
        e2_canon(r),
        0 <= n <= ev.len(),
    ensures
        peval(lag_poly(ev, n), r) == lagrange_spec(ev, r, n),
        seq_canon(lag_poly(ev, n)),
        lag_poly(ev, n).len() <= ev.len(),
    decreases n,
{
    if n > 0 {
        lemma_lag_poly(ev, n - 1, r);
        let nn = ev.len() as int;
        let ln = lag_num_poly(n - 1, nn);
        lemma_lag_num_poly(n - 1, nn, r);
        let sc = fpow(lag_den(n - 1, nn), (Q - 2) as nat);
        let bs = e2_base(sc);
        let co = e2_mul(ev[n - 1], bs);
        lemma_ops_canon(ev[n - 1], bs);
        assert(seq_canon(pscale(ln, co)));
        lemma_peval_padd(lag_poly(ev, n - 1), pscale(ln, co), r);
        lemma_peval_pscale(ln, co, r);
        let lv = lag_num(r, n - 1, nn);
        lemma_peval_canon(ln, r);
        lemma_scale_is_mul(e2_mul(ev[n - 1], lv), sc);
        lemma_ops_canon(ev[n - 1], lv);
        law_e2_field_axioms(ev[n - 1], lv, bs);
        law_e2_field_axioms(lv, bs, bs);
        law_e2_field_axioms(ev[n - 1], bs, lv);
        law_e2_field_axioms(co, lv, lv);
    }
}

/// At a node `c != i` below `j`, the numerator has the factor `c - c` and vanishes.
pub proof fn lemma_lag_num_node_zero(c: int, i: int, j: int)
    requires
        0 <= c < j,
        c != i,
    ensures
        lag_num(e2_base(fmod(c)), i, j) == e2_zero(),
    decreases j,
{
    let x = e2_base(fmod(c));
    if j - 1 == c {
        assert(e2_sub(x, e2_base(fmod(j - 1))) == e2_zero()) by {
            crate::fp::lemma_fmod_small(0);
        }
        lemma_zero_facts(lag_num(x, i, j - 1));
    } else {
        lemma_lag_num_node_zero(c, i, j - 1);
        if j - 1 != i {
            lemma_zero_facts(e2_sub(x, e2_base(fmod(j - 1))));
        }
    }
}

/// At its own node the numerator is the denominator.
pub proof fn lemma_lag_num_node_self(c: int, j: int)
    ensures
        lag_num(e2_base(fmod(c)), c, j) == e2_base(lag_den(c, j)),
    decreases j,
{
    if j > 0 {
        lemma_lag_num_node_self(c, j - 1);
        if j - 1 != c {
            let x = lag_den(c, j - 1);
            let y = fsub(fmod(c), fmod(j - 1));
            crate::fp::lemma_fmod_small(0);
            assert(x * y + 7 * (0 * 0) == x * y) by (nonlinear_arith);
            assert(x * 0 + 0 * y == 0) by (nonlinear_arith);
        }
    }
}

/// The denominator at a node below `j < q` is a nonzero residue.
pub proof fn lemma_lag_den_nonzero(c: int, j: int)
    requires
        0 <= c < Q,
        j < Q,
    ensures
        0 < lag_den(c, j) < Q,
    decreases j,
{
    if j > 0 {
        lemma_lag_den_nonzero(c, j - 1);
        if j - 1 != c {
            let y = fsub(fmod(c), fmod(j - 1));
            crate::fp::lemma_fmod_small(c as nat);
            crate::fp::lemma_fmod_small((j - 1) as nat);
            assert(y != 0);
            crate::fp::law_fp_no_zero_divisors(lag_den(c, j - 1), y);
        }
    }
}

/// The interpolation through `0, ..., n - 1` takes the value `ev[c]` at node `c`.
pub proof fn lemma_lagrange_node(ev: Seq<E2>, c: int, n: int)
    requires
        seq_canon(ev),
        ev.len() < Q,
        0 <= c < ev.len(),
        0 <= n <= ev.len(),
    ensures
        lagrange_spec(ev, e2_base(fmod(c)), n) == if c < n { ev[c] } else { e2_zero() },
    decreases n,
{
    if n > 0 {
        lemma_lagrange_node(ev, c, n - 1);
        let nn = ev.len() as int;
        let x = e2_base(fmod(c));
        let i = n - 1;
        let sc = fpow(lag_den(i, nn), (Q - 2) as nat);
        let prev = lagrange_spec(ev, x, n - 1);
        if i != c {
            lemma_lag_num_node_zero(c, i, nn);
            lemma_zero_facts(ev[i]);
            crate::fp::lemma_fmod_small(0);
            assert(0 * sc == 0) by (nonlinear_arith);
            assert(e2_scale(e2_zero(), sc) == e2_zero());
            law_e2_field_axioms(prev, e2_zero(), e2_zero());
        } else {
            lemma_lag_num_node_self(c, nn);
            let den = lag_den(c, nn);
            lemma_lag_den_nonzero(c, nn);
            crate::fp::law_fp_inverse(den);
            let e = ev[c];
            crate::fp::lemma_fmod_small(0);
            assert(e.0 * den + 7 * (e.1 * 0) == e.0 * den) by (nonlinear_arith);
            assert(e.0 * 0 + e.1 * den == e.1 * den) by (nonlinear_arith);
            assert(e2_mul(e, e2_base(den)) == (fmul(e.0, den), fmul(e.1, den)));
            crate::fp::law_fp_field_axioms(e.0, den, sc);
            crate::fp::law_fp_field_axioms(e.1, den, sc);
            law_e2_field_axioms(e2_zero(), e, e2_zero());
            law_e2_field_axioms(e, e2_zero(), e2_zero());
        }
    }
}

/// The value at node `c` of the interpolation through `0, ..., n - 1`.
pub proof fn lemma_interpolate_node(ev: Seq<E2>, c: int)
    requires
        seq_canon(ev),
        ev.len() < Q,
        0 <= c < ev.len(),
    ensures
        interpolate(ev, e2_base(fmod(c))) == ev[c],
{
    lemma_lagrange_node(ev, c, ev.len() as int);
}

/// A polynomial with at most `d + 1` coefficients is the Lagrange interpolation of its
/// values at `0, 1, ..., d`.
pub proof fn law_interpolation_exact(p: Seq<E2>, d: nat, t: E2)
    requires
        seq_canon(p),
        p.len() <= d + 1,
        d + 1 < Q,
        e2_canon(t),
    ensures
        peval(p, t) == interpolate(Seq::new(d + 1, |c: int| peval(p, e2_base(fmod(c)))), t),
{
    let ev = Seq::new(d + 1, |c: int| peval(p, e2_base(fmod(c))));
    assert forall|c: int| 0 <= c < ev.len() implies e2_canon(#[trigger] ev[c]) by {
        lemma_peval_canon(p, e2_base(fmod(c)));
    }
    let nn = (d + 1) as int;
    let l = lag_poly(ev, nn);
    let m1 = e2_neg(e2_one());
    lemma_ops_canon(e2_one(), e2_one());
    let h = padd(p, pscale(l, m1));
    lemma_lag_poly(ev, nn, t);
    assert(seq_canon(pscale(l, m1)));
    let xs = Seq::new(d + 1, |c: int| e2_base(fmod(c)));
    assert forall|i: int, j: int| 0 <= i < j < xs.len() implies xs[i] != xs[j] by {
        crate::fp::lemma_fmod_small(i as nat);
        crate::fp::lemma_fmod_small(j as nat);
    }
    assert forall|i: int| 0 <= i < xs.len() implies peval(h, #[trigger] xs[i]) == e2_zero() by {
        let x = xs[i];
        lemma_lag_poly(ev, nn, x);
        lemma_peval_padd(p, pscale(l, m1), x);
        lemma_peval_pscale(l, m1, x);
        lemma_interpolate_node(ev, i);
        let pv = peval(p, x);
        lemma_peval_canon(p, x);
        lemma_sub_facts(pv, pv);
    }
    assert(seq_canon(h));
    lemma_roots(h, xs, t);
    lemma_peval_padd(p, pscale(l, m1), t);
    lemma_peval_pscale(l, m1, t);
    let pv = peval(p, t);
    let lv = peval(l, t);
    lemma_peval_canon(p, t);
    lemma_peval_canon(l, t);
    lemma_sub_facts(lv, lv);
    lemma_sub_facts(pv, lv);
    lemma_ops_canon(lv, lv);
    let nl = e2_neg(lv);
    law_e2_field_axioms(pv, nl, lv);
    law_e2_field_axioms(lv, nl, lv);
    law_e2_field_axioms(nl, lv, lv);
    law_e2_field_axioms(lv, e2_zero(), e2_zero());
    law_e2_field_axioms(e2_zero(), lv, lv);
}

/// The value of a polynomial with two coefficients.
pub proof fn lemma_peval_lin(l: Seq<E2>, t: E2)
    requires
        l.len() == 2,
        seq_canon(l),
        e2_canon(t),
    ensures
        peval(l, t) == e2_add(l[0], e2_mul(t, l[1])),
{
    assert(l.drop_first().drop_first().len() == 0);
    assert(peval(l.drop_first().drop_first(), t) == e2_zero());
    assert(l.drop_first()[0] == l[1]);
    lemma_zero_facts(t);
    assert(peval(l.drop_first(), t) == e2_add(l[1], e2_mul(t, peval(l.drop_first().drop_first(), t))));
    law_e2_field_axioms(l[1], e2_zero(), e2_zero());
    assert(peval(l.drop_first(), t) == l[1]);
}

/// Linear polynomials, one per variable.
pub open spec fn lin_ok(ls: Seq<Seq<E2>>) -> bool {
    forall|k: int| 0 <= k < ls.len() ==> (#[trigger] ls[k]).len() == 2 && seq_canon(ls[k])
}

/// The values of the linear polynomials at `t`.
pub open spec fn lin_vals(ls: Seq<Seq<E2>>, t: E2) -> Seq<E2> {
    Seq::new(ls.len(), |k: int| peval(ls[k], t))
}

/// `p` times `l^e`.
pub open spec fn pow_poly(p: Seq<E2>, l: Seq<E2>, e: nat) -> Seq<E2>
    decreases e,
{
    if e == 0 {
        p
    } else {
        pmul_lin(pow_poly(p, l, (e - 1) as nat), l[0], l[1])
    }
}

/// The value and length of `p l^e`.
pub proof fn lemma_pow_poly(p: Seq<E2>, l: Seq<E2>, e: nat, t: E2)
    requires
        seq_canon(p),
        l.len() == 2,
        seq_canon(l),
        e2_canon(t),
    ensures
        peval(pow_poly(p, l, e), t) == e2_mul(peval(p, t), crate::ext2::e2_pow(peval(l, t), e)),
        pow_poly(p, l, e).len() == p.len() + e,
        seq_canon(pow_poly(p, l, e)),
    decreases e,
{
    let pv = peval(p, t);
    lemma_peval_canon(p, t);
    if e == 0 {
        law_e2_field_axioms(pv, pv, pv);
    } else {
        lemma_pow_poly(p, l, (e - 1) as nat, t);
        let q = pow_poly(p, l, (e - 1) as nat);
        lemma_peval_pmul_lin(q, l[0], l[1], t);
        lemma_peval_lin(l, t);
        let x = peval(l, t);
        lemma_peval_canon(l, t);
        let xe = crate::ext2::e2_pow(x, (e - 1) as nat);
        crate::ext2::lemma_e2_pow_canon(x, (e - 1) as nat);
        law_e2_field_axioms(pv, xe, x);
    }
}

/// The polynomial of one monomial `coeff prod_k args_k^exps_k` over the first `n`
/// variables, each given by a linear polynomial.
pub open spec fn term_poly(coeff: nat, ls: Seq<Seq<E2>>, exps: Seq<u32>, n: int) -> Seq<E2>
    decreases n,
{
    if n <= 0 {
        seq![e2_base(coeff)]
    } else {
        pow_poly(term_poly(coeff, ls, exps, n - 1), ls[n - 1], exps[n - 1] as nat)
    }
}

/// The monomial polynomial has the monomial's values along the line, and one more
/// coefficient than the monomial's degree.
pub proof fn lemma_term_poly(coeff: nat, ls: Seq<Seq<E2>>, exps: Seq<u32>, n: int, t: E2)
    requires
        coeff < Q,
        lin_ok(ls),
        0 <= n <= ls.len(),
        n <= exps.len(),
        e2_canon(t),
    ensures
        peval(term_poly(coeff, ls, exps, n), t) == crate::types::term_eval(coeff, lin_vals(ls, t), exps, n),
        term_poly(coeff, ls, exps, n).len() == 1 + crate::types::exp_sum(exps, n),
        seq_canon(term_poly(coeff, ls, exps, n)),
    decreases n,
{
    if n <= 0 {
        lemma_zero_facts(t);
        assert(seq![e2_base(coeff)].drop_first().len() == 0);
        assert(peval(seq![e2_base(coeff)].drop_first(), t) == e2_zero());
        law_e2_field_axioms(e2_base(coeff), e2_zero(), e2_zero());
    } else {
        lemma_term_poly(coeff, ls, exps, n - 1, t);
        lemma_pow_poly(term_poly(coeff, ls, exps, n - 1), ls[n - 1], exps[n - 1] as nat, t);
        assert(lin_vals(ls, t)[n - 1] == peval(ls[n - 1], t));
    }
}

/// The polynomial of the first `n` terms of a sparse polynomial along linear arguments.
pub open spec fn pe_poly(terms: Seq<(crate::fp::Fp, Vec<u32>)>, ls: Seq<Seq<E2>>, n: int) -> Seq<E2>
    decreases n,
{
    if n <= 0 {
        Seq::empty()
    } else {
        padd(pe_poly(terms, ls, n - 1), term_poly(terms[n - 1].0@, ls, terms[n - 1].1@, terms[n - 1].1@.len() as int))
    }
}

/// The sparse polynomial's values along linear arguments, with at most one more
/// coefficient than its degree.
pub proof fn lemma_pe_poly(terms: Seq<(crate::fp::Fp, Vec<u32>)>, ls: Seq<Seq<E2>>, n: int, t: E2)
    requires
        lin_ok(ls),
        0 <= n <= terms.len(),
        forall|i: int| 0 <= i < terms.len() ==> (#[trigger] terms[i]).1@.len() == ls.len(),
        e2_canon(t),
    ensures
        peval(pe_poly(terms, ls, n), t) == crate::types::poly_eval(terms, lin_vals(ls, t), n),
        pe_poly(terms, ls, n).len() <= 1 + crate::types::deg_upto(terms, n),
        seq_canon(pe_poly(terms, ls, n)),
    decreases n,
{
    if n > 0 {
        lemma_pe_poly(terms, ls, n - 1, t);
        let tm = terms[n - 1];
        crate::fp::lemma_fp_lt_q(tm.0);
        lemma_term_poly(tm.0@, ls, tm.1@, tm.1@.len() as int, t);
        lemma_peval_padd(pe_poly(terms, ls, n - 1), term_poly(tm.0@, ls, tm.1@, tm.1@.len() as int), t);
    }
}

/// `prod_{c < n} (x - (c - (b - 1)))` for `x` given by a linear polynomial.
pub open spec fn rp_poly(l: Seq<E2>, b: int, n: int) -> Seq<E2>
    decreases n,
{
    if n <= 0 {
        seq![e2_one()]
    } else {
        pmul_lin(rp_poly(l, b, n - 1), e2_sub(l[0], e2_base(fmod(n - 1 - (b - 1)))), l[1])
    }
}

/// The range product along a linear argument, with `n + 1` coefficients.
pub proof fn lemma_rp_poly(l: Seq<E2>, b: int, n: int, t: E2)
    requires
        l.len() == 2,
        seq_canon(l),
        e2_canon(t),
        n >= 0,
    ensures
        peval(rp_poly(l, b, n), t) == crate::pi_ccs::range_prod(peval(l, t), b, n),
        rp_poly(l, b, n).len() == n + 1,
        seq_canon(rp_poly(l, b, n)),
    decreases n,
{
    if n <= 0 {
        lemma_zero_facts(t);
        assert(seq![e2_one()].drop_first().len() == 0);
        assert(peval(seq![e2_one()].drop_first(), t) == e2_zero());
        law_e2_field_axioms(e2_one(), e2_zero(), e2_zero());
    } else {
        lemma_rp_poly(l, b, n - 1, t);
        let c = e2_base(fmod(n - 1 - (b - 1)));
        let l0c = e2_sub(l[0], c);
        lemma_ops_canon(l[0], c);
        lemma_peval_pmul_lin(rp_poly(l, b, n - 1), l0c, l[1], t);
        lemma_peval_lin(l, t);
        // (l0 + t l1) - c = (l0 - c) + t l1
        let tl = e2_mul(t, l[1]);
        lemma_ops_canon(t, l[1]);
        lemma_sub_facts(l[0], c);
        lemma_sub_facts(e2_add(l[0], tl), c);
        lemma_ops_canon(l[0], tl);
        lemma_ops_canon(c, c);
        law_e2_field_axioms(l[0], tl, e2_neg(c));
        law_e2_field_axioms(l[0], e2_neg(c), tl);
        law_e2_field_axioms(tl, e2_neg(c), tl);
    }
}

} // verus!
