//! In-circuit ring gadgets: `R_F` and `R_K` arithmetic.
//!
//! An `RFVar` is 54 base-field coefficient wires for an element of
//! `R_F = F[X]/(X^54 + X^27 + 1)`; an `RKVar` is 54 extension coefficient wires for an
//! element of `R_K`. Multiplication is schoolbook into a 107-term buffer (54^2 base
//! multiplications) followed by the linear trinomial reduction.

use vstd::prelude::*;

use crate::circuit::cs::{
    cs_extends, cs_satisfied, cs_wf, lc_neg, lc_valid, lc_value, lemma_extends_refl, lemma_extends_trans, lemma_lc_value_append,
    lemma_lc_value_lt, lemma_lc_value_neg, lemma_lc_value_single, lemma_value_stable, ConstraintSystem, CsView, Lc,
};
use crate::circuit::gadgets::{kv_valid, kv_value, lemma_fadd_fneg, KVar};
use crate::ext2::{e2_add, Ext2, E2};
use crate::fp::{fadd, fmod, fmul, fsub, lemma_fmod_add, lemma_fmod_mul, lemma_fmod_sub, lemma_fp_lt_q, Fp};
use crate::ring::{conv, conv_sum, lemma_ring_wf, phi_reduce, ring_add, ring_mul, RingElem, D, MID, PROD_LEN};
use crate::ring_k::{comp0, comp1, lemma_rk_wf, rk_add, rk_mul_rf, RingK};

verus! {

broadcast use {lemma_fp_lt_q, lemma_ring_wf, lemma_rk_wf};

/// The values of a list of combinations.
pub open spec fn lcs_value(v: Seq<Lc>, w: Seq<nat>) -> Seq<nat> {
    Seq::new(v.len(), |l: int| lc_value(v[l]@, w))
}

/// Every combination of the list only uses variables below `n`.
pub open spec fn lcs_valid(v: Seq<Lc>, n: nat) -> bool {
    forall|l: int| 0 <= l < v.len() ==> lc_valid((#[trigger] v[l])@, n)
}

/// `conv_sum` with the term of left index `i` restricted to right indices below `j`.
pub open spec fn conv_part(a: Seq<nat>, b: Seq<nat>, k: int, i: int, j: int) -> int {
    conv_sum(a, b, k, i) + (if 0 <= k - i < j { a[i] * b[k - i] } else { 0 })
}

/// The unreduced coefficient values of a product buffer, as an integer function.
pub open spec fn buffer_fn(prod: Seq<Lc>, w: Seq<nat>) -> spec_fn(int) -> int {
    |k: int| if 0 <= k < 107 { lc_value(prod[k]@, w) as int } else { 0 }
}

/// Values of an allocated list do not change as the system grows.
pub proof fn lemma_lcs_stable(v: Seq<Lc>, old: CsView, new: CsView)
    requires
        cs_extends(old, new),
        lcs_valid(v, old.0.len()),
    ensures
        lcs_value(v, new.0) == lcs_value(v, old.0),
        lcs_valid(v, new.0.len()),
{
    assert forall|l: int| 0 <= l < v.len() implies lcs_value(v, new.0)[l] == lcs_value(v, old.0)[l] && lc_valid(
        (#[trigger] v[l])@,
        new.0.len(),
    ) by {
        lemma_value_stable(v[l]@, old, new);
    }
    assert(lcs_value(v, new.0) =~= lcs_value(v, old.0));
}

/// Schoolbook product of two 54-term lists: `prod[k]` is `sum_{i + j = k} a_i b_j`, one
/// multiplication constraint per pair `(i, j)`, pairs in row-major order.
fn schoolbook(cs: &mut ConstraintSystem, a: &Vec<Lc>, b: &Vec<Lc>) -> (prod: Vec<Lc>)
    requires
        cs_wf(old(cs)@),
        a@.len() == 54,
        b@.len() == 54,
        lcs_valid(a@, old(cs)@.0.len()),
        lcs_valid(b@, old(cs)@.0.len()),
    ensures
        cs_wf(final(cs)@),
        cs_extends(old(cs)@, final(cs)@),
        cs_satisfied(final(cs)@) <==> cs_satisfied(old(cs)@),
        prod@.len() == 107,
        lcs_valid(prod@, final(cs)@.0.len()),
        forall|k: int|
            0 <= k < 107 ==> lc_value((#[trigger] prod@[k])@, final(cs)@.0) == fmod(
                conv(lcs_value(a@, old(cs)@.0), lcs_value(b@, old(cs)@.0), k),
            ),
{
    let ghost s0 = cs@;
    proof {
        lemma_extends_refl(s0);
    }
    let ghost va = lcs_value(a@, s0.0);
    let ghost vb = lcs_value(b@, s0.0);
    let mut prod: Vec<Lc> = Vec::new();
    let mut k: usize = 0;
    while k < PROD_LEN
        invariant
            k <= 107,
            prod@.len() == k,
            forall|k2: int| 0 <= k2 < k ==> (#[trigger] prod@[k2])@ == Seq::<(usize, nat)>::empty(),
        decreases 107 - k,
    {
        prod.push(Lc::zero());
        k = k + 1;
    }
    assert(lcs_valid(prod@, s0.0.len()));
    let mut i: usize = 0;
    while i < D
        invariant
            i <= 54,
            a@.len() == 54,
            b@.len() == 54,
            cs_wf(cs@),
            cs_extends(s0, cs@),
            cs_satisfied(cs@) <==> cs_satisfied(s0),
            cs_wf(s0),
            lcs_valid(a@, s0.0.len()),
            lcs_valid(b@, s0.0.len()),
            va == lcs_value(a@, s0.0),
            vb == lcs_value(b@, s0.0),
            prod@.len() == 107,
            lcs_valid(prod@, cs@.0.len()),
            forall|k2: int|
                0 <= k2 < 107 ==> lc_value((#[trigger] prod@[k2])@, cs@.0) == fmod(conv_part(va, vb, k2, i as int, 0)),
        decreases 54 - i,
    {
        let mut j: usize = 0;
        while j < D
            invariant
                i < 54,
                j <= 54,
                a@.len() == 54,
                b@.len() == 54,
                cs_wf(cs@),
                cs_extends(s0, cs@),
                cs_satisfied(cs@) <==> cs_satisfied(s0),
                cs_wf(s0),
                lcs_valid(a@, s0.0.len()),
                lcs_valid(b@, s0.0.len()),
                va == lcs_value(a@, s0.0),
                vb == lcs_value(b@, s0.0),
                prod@.len() == 107,
                lcs_valid(prod@, cs@.0.len()),
                forall|k2: int|
                    0 <= k2 < 107 ==> lc_value((#[trigger] prod@[k2])@, cs@.0) == fmod(
                        conv_part(va, vb, k2, i as int, j as int),
                    ),
            decreases 54 - j,
        {
            let ghost s1 = cs@;
            proof {
                lemma_lcs_stable(a@, s0, s1);
                lemma_lcs_stable(b@, s0, s1);
                assert(lc_valid(a@[i as int]@, s1.0.len()));
                assert(lc_valid(b@[j as int]@, s1.0.len()));
            }
            let p = cs.mul(&a[i], &b[j]);
            let ghost s2 = cs@;
            let k = i + j;
            let next = prod[k].add(&Lc::from_var(p));
            let ghost prev = prod@;
            prod.set(k, next);
            proof {
                lemma_extends_trans(s0, s1, s2);
                let w = s2.0;
                assert(w[p.0 as int] == fmul(va[i as int], vb[j as int]));
                assert forall|k2: int| 0 <= k2 < 107 implies lc_value((#[trigger] prod@[k2])@, w) == fmod(
                    conv_part(va, vb, k2, i as int, j + 1),
                ) && lc_valid(prod@[k2]@, w.len()) by {
                    lemma_value_stable(prev[k2]@, s1, s2);
                    if k2 == k {
                        lemma_lc_value_append(prev[k2]@, seq![(p.0, 1nat)], w);
                        lemma_lc_value_single(p.0, 1, w);
                        assert(fmul(1, w[p.0 as int]) == w[p.0 as int]);
                        let sm = conv_part(va, vb, k2, i as int, j as int);
                        lemma_fmod_mul(va[i as int] as int, vb[j as int] as int);
                        lemma_fmod_add(sm, (va[i as int] * vb[j as int]) as int);
                        assert(conv_part(va, vb, k2, i as int, j + 1) == sm + va[i as int] * vb[j as int]);
                        assert forall|t: int| 0 <= t < prod@[k2]@.len() implies (#[trigger] prod@[k2]@[t]).0 < w.len() by {
                            if t >= prev[k2]@.len() {
                                assert(prod@[k2]@[t] == seq![(p.0, 1nat)][t - prev[k2]@.len()]);
                            }
                        }
                    } else {
                        assert(prod@[k2] == prev[k2]);
                    }
                }
            }
            j = j + 1;
        }
        proof {
            assert forall|k2: int| 0 <= k2 < 107 implies conv_part(va, vb, k2, i as int, 54) == conv_part(
                va,
                vb,
                k2,
                i + 1,
                0,
            ) by {
                assert(conv_sum(va, vb, k2, i + 1) == conv_sum(va, vb, k2, i as int) + (if 0 <= k2 - i < 54 {
                    va[i as int] * vb[k2 - i]
                } else {
                    0
                }));
            }
        }
        i = i + 1;
    }
    prod
}

/// The trinomial reduction of a 107-term buffer, in closed form:
/// `r_i = p_i - p_(i+54) + p_(i+81)` for `i < 27`, `r_i = p_i - p_(i+27)` otherwise.
fn reduce_lcs(prod: &Vec<Lc>) -> (out: Vec<Lc>)
    requires
        prod@.len() == 107,
    ensures
        out@.len() == 54,
        forall|w: Seq<nat>| #[trigger] lcs_value(out@, w) == phi_reduce(buffer_fn(prod@, w)),
        forall|n: nat| lcs_valid(prod@, n) ==> #[trigger] lcs_valid(out@, n),
{
    let mut out: Vec<Lc> = Vec::new();
    let mut i: usize = 0;
    while i < D
        invariant
            i <= 54,
            prod@.len() == 107,
            out@.len() == i,
            forall|t: int|
                0 <= t < i ==> (#[trigger] out@[t])@ == (if t < 27 {
                    (prod@[t]@ + lc_neg(prod@[t + 54]@)) + (if t + 81 < 107 { prod@[t + 81]@ } else { Seq::empty() })
                } else {
                    prod@[t]@ + lc_neg(prod@[t + 27]@)
                }),
        decreases 54 - i,
    {
        if i < MID {
            let d = prod[i].sub(&prod[i + 54]);
            if i + 81 < PROD_LEN {
                out.push(d.add(&prod[i + 81]));
            } else {
                let e = d.add(&Lc::zero());
                assert(e@ =~= d@ + Seq::<(usize, nat)>::empty());
                out.push(e);
            }
        } else {
            out.push(prod[i].sub(&prod[i + MID]));
        }
        i = i + 1;
    }
    proof {
        assert forall|w: Seq<nat>| #[trigger] lcs_value(out@, w) == phi_reduce(buffer_fn(prod@, w)) by {
            let p = buffer_fn(prod@, w);
            assert forall|t: int| 0 <= t < 54 implies lcs_value(out@, w)[t] == phi_reduce(p)[t] by {
                if t < 27 {
                    let x = lc_value(prod@[t]@, w) as int;
                    let y = lc_value(prod@[t + 54]@, w) as int;
                    lemma_lc_value_append(prod@[t]@, lc_neg(prod@[t + 54]@), w);
                    lemma_lc_value_neg(prod@[t + 54]@, w);
                    lemma_fadd_fneg(x as nat, y as nat);
                    if t + 81 < 107 {
                        let z = lc_value(prod@[t + 81]@, w) as int;
                        lemma_lc_value_append(prod@[t]@ + lc_neg(prod@[t + 54]@), prod@[t + 81]@, w);
                        lemma_fmod_sub(x, y);
                        lemma_fmod_add(x - y, z);
                    } else {
                        lemma_lc_value_append(prod@[t]@ + lc_neg(prod@[t + 54]@), Seq::empty(), w);
                        lemma_fmod_sub(x, y);
                        lemma_fmod_add(x - y, 0);
                        assert(p(t + 81) == 0);
                    }
                } else {
                    let x = lc_value(prod@[t]@, w) as int;
                    let y = lc_value(prod@[t + 27]@, w) as int;
                    lemma_lc_value_append(prod@[t]@, lc_neg(prod@[t + 27]@), w);
                    lemma_lc_value_neg(prod@[t + 27]@, w);
                    lemma_fadd_fneg(x as nat, y as nat);
                }
            }
            assert(lcs_value(out@, w) =~= phi_reduce(p));
        }
        assert forall|n: nat| lcs_valid(prod@, n) implies #[trigger] lcs_valid(out@, n) by {
            assert forall|t: int| 0 <= t < 54 implies lc_valid((#[trigger] out@[t])@, n) by {
                assert(lc_valid(prod@[t]@, n));
                if t < 27 {
                    assert(lc_valid(prod@[t + 54]@, n));
                    let d = prod@[t]@ + lc_neg(prod@[t + 54]@);
                    assert forall|u: int| 0 <= u < d.len() implies (#[trigger] d[u]).0 < n by {
                        if u >= prod@[t]@.len() {
                            assert(d[u] == lc_neg(prod@[t + 54]@)[u - prod@[t]@.len()]);
                        }
                    }
                    if t + 81 < 107 {
                        assert(lc_valid(prod@[t + 81]@, n));
                        let e = d + prod@[t + 81]@;
                        assert forall|u: int| 0 <= u < e.len() implies (#[trigger] e[u]).0 < n by {
                            if u >= d.len() {
                                assert(e[u] == prod@[t + 81]@[u - d.len()]);
                            } else {
                                assert(e[u] == d[u]);
                            }
                        }
                    } else {
                        assert(d + Seq::<(usize, nat)>::empty() =~= d);
                    }
                } else {
                    assert(lc_valid(prod@[t + 27]@, n));
                    let d = prod@[t]@ + lc_neg(prod@[t + 27]@);
                    assert forall|u: int| 0 <= u < d.len() implies (#[trigger] d[u]).0 < n by {
                        if u >= prod@[t]@.len() {
                            assert(d[u] == lc_neg(prod@[t + 27]@)[u - prod@[t]@.len()]);
                        }
                    }
                }
            }
        }
    }
    out
}

/// The buffer of a schoolbook product reduces to the ring product.
proof fn lemma_buffer_ring_mul(prod: Seq<Lc>, w: Seq<nat>, va: Seq<nat>, vb: Seq<nat>)
    requires
        prod.len() == 107,
        forall|k: int| 0 <= k < 107 ==> lc_value((#[trigger] prod[k])@, w) == fmod(conv(va, vb, k)),
    ensures
        phi_reduce(buffer_fn(prod, w)) == ring_mul(va, vb),
{
    let p = buffer_fn(prod, w);
    let c = |k: int| conv(va, vb, k);
    assert forall|t: int| 0 <= t < 54 implies phi_reduce(p)[t] == ring_mul(va, vb)[t] by {
        if t < 27 {
            lemma_fmod_sub(c(t), c(t + 54));
            lemma_fmod_add(c(t) - c(t + 54), c(t + 81));
            lemma_fmod_sub(p(t), p(t + 54));
            lemma_fmod_add(p(t) - p(t + 54), p(t + 81));
            lemma_fmod_add(fmod(c(t) - c(t + 54)) as int, p(t + 81));
            lemma_fmod_add(p(t) - p(t + 54), c(t + 81));
            lemma_fmod_sub(c(t), p(t + 54));
            lemma_fmod_sub(p(t), c(t + 54));
            assert(conv(va, vb, 107) == 0) by {
                lemma_conv_high(va, vb, 107, 54);
            }
            if t + 81 >= 107 {
                assert(p(t + 81) == 0);
            }
        } else {
            lemma_fmod_sub(c(t), c(t + 27));
            lemma_fmod_sub(p(t), p(t + 27));
            lemma_fmod_sub(c(t), p(t + 27));
            lemma_fmod_sub(p(t), c(t + 27));
        }
    }
    assert(phi_reduce(p) =~= ring_mul(va, vb));
}

/// No term of index 107 or more.
proof fn lemma_conv_high(a: Seq<nat>, b: Seq<nat>, k: int, n: int)
    requires
        k >= 107,
        0 <= n <= 54,
    ensures
        conv_sum(a, b, k, n) == 0,
    decreases n,
{
    if n > 0 {
        lemma_conv_high(a, b, k, n - 1);
    }
}

/// An `R_F` element: 54 base-field coefficient wires.
#[derive(Clone, Debug)]
pub struct RFVar {
    /// Coefficients `c_0, ..., c_53`.
    pub coeffs: Vec<Lc>,
}

/// The value of an `R_F` wire under a witness.
pub open spec fn rf_value(x: RFVar, w: Seq<nat>) -> Seq<nat> {
    lcs_value(x.coeffs@, w)
}

/// 54 coefficients, all over variables below `n`.
pub open spec fn rf_valid(x: RFVar, n: nat) -> bool {
    x.coeffs@.len() == 54 && lcs_valid(x.coeffs@, n)
}

impl RFVar {
    /// A constant `R_F` value (all coefficients pinned).
    pub fn constant(cs: &ConstraintSystem, v: &RingElem) -> (r: RFVar)
        requires
            cs_wf(cs@),
        ensures
            rf_valid(r, cs@.0.len()),
            rf_value(r, cs@.0) == v@,
    {
        let cfs = v.coeffs();
        let mut out: Vec<Lc> = Vec::new();
        let mut l: usize = 0;
        while l < D
            invariant
                l <= 54,
                cs_wf(cs@),
                crate::fp::fp_seq(cfs@) == v@,
                out@.len() == l,
                lcs_valid(out@, cs@.0.len()),
                forall|t: int| 0 <= t < l ==> lc_value((#[trigger] out@[t])@, cs@.0) == v@[t],
            decreases 54 - l,
        {
            let c = cs.constant(cfs[l]);
            proof {
                lemma_lc_value_single(0, cfs@[l as int]@, cs@.0);
                assert(v@[l as int] == cfs@[l as int]@);
            }
            out.push(c);
            l = l + 1;
        }
        let r = RFVar { coeffs: out };
        assert(rf_value(r, cs@.0) =~= v@);
        r
    }

    /// Allocate an `R_F` value as 54 advice wires.
    pub fn allocate(cs: &mut ConstraintSystem, v: &RingElem) -> (r: RFVar)
        requires
            cs_wf(old(cs)@),
        ensures
            cs_wf(final(cs)@),
            cs_extends(old(cs)@, final(cs)@),
            cs_satisfied(final(cs)@) <==> cs_satisfied(old(cs)@),
            rf_valid(r, final(cs)@.0.len()),
            rf_value(r, final(cs)@.0) == v@,
    {
        let ghost s0 = cs@;
        proof {
            lemma_extends_refl(s0);
        }
        let cfs = v.coeffs();
        let mut out: Vec<Lc> = Vec::new();
        let mut l: usize = 0;
        while l < D
            invariant
                l <= 54,
                cs_wf(cs@),
                cs_wf(s0),
                cs_extends(s0, cs@),
                cs_satisfied(cs@) <==> cs_satisfied(s0),
                crate::fp::fp_seq(cfs@) == v@,
                out@.len() == l,
                lcs_valid(out@, cs@.0.len()),
                forall|t: int| 0 <= t < l ==> lc_value((#[trigger] out@[t])@, cs@.0) == v@[t],
            decreases 54 - l,
        {
            let ghost s1 = cs@;
            let x = cs.allocate(cfs[l]);
            let lc = Lc::from_var(x);
            proof {
                lemma_extends_trans(s0, s1, cs@);
                lemma_lcs_stable(out@, s1, cs@);
                lemma_lc_value_single(x.0, 1, cs@.0);
                assert(v@[l as int] == cfs@[l as int]@);
                assert forall|t: int| 0 <= t < l implies lc_value((#[trigger] out@[t])@, cs@.0) == v@[t] by {
                    assert(lcs_value(out@, cs@.0)[t] == lcs_value(out@, s1.0)[t]);
                }
            }
            out.push(lc);
            l = l + 1;
        }
        let r = RFVar { coeffs: out };
        assert(rf_value(r, cs@.0) =~= v@);
        r
    }

    /// `self + other` (free).
    pub fn add(&self, other: &RFVar) -> (r: RFVar)
        requires
            self.coeffs@.len() == 54,
            other.coeffs@.len() == 54,
        ensures
            forall|w: Seq<nat>| #[trigger] rf_value(r, w) == ring_add(rf_value(*self, w), rf_value(*other, w)),
            forall|n: nat| rf_valid(*self, n) && rf_valid(*other, n) ==> #[trigger] rf_valid(r, n),
    {
        let mut out: Vec<Lc> = Vec::new();
        let mut l: usize = 0;
        while l < D
            invariant
                l <= 54,
                self.coeffs@.len() == 54,
                other.coeffs@.len() == 54,
                out@.len() == l,
                forall|t: int| 0 <= t < l ==> (#[trigger] out@[t])@ == self.coeffs@[t]@ + other.coeffs@[t]@,
            decreases 54 - l,
        {
            out.push(self.coeffs[l].add(&other.coeffs[l]));
            l = l + 1;
        }
        let r = RFVar { coeffs: out };
        proof {
            assert forall|w: Seq<nat>| #[trigger] rf_value(r, w) == ring_add(rf_value(*self, w), rf_value(*other, w)) by {
                assert forall|t: int| 0 <= t < 54 implies rf_value(r, w)[t] == ring_add(rf_value(*self, w), rf_value(*other, w))[t] by {
                    lemma_lc_value_append(self.coeffs@[t]@, other.coeffs@[t]@, w);
                }
                assert(rf_value(r, w) =~= ring_add(rf_value(*self, w), rf_value(*other, w)));
            }
            assert forall|n: nat| rf_valid(*self, n) && rf_valid(*other, n) implies #[trigger] rf_valid(r, n) by {
                assert forall|t: int| 0 <= t < 54 implies lc_valid((#[trigger] r.coeffs@[t])@, n) by {
                    assert(lc_valid(self.coeffs@[t]@, n));
                    assert(lc_valid(other.coeffs@[t]@, n));
                    let s = r.coeffs@[t]@;
                    assert forall|u: int| 0 <= u < s.len() implies (#[trigger] s[u]).0 < n by {
                        if u >= self.coeffs@[t]@.len() {
                            assert(s[u] == other.coeffs@[t]@[u - self.coeffs@[t]@.len()]);
                        } else {
                            assert(s[u] == self.coeffs@[t]@[u]);
                        }
                    }
                }
            }
        }
        r
    }

    /// `self * other mod Phi` (54^2 base multiplications, then the linear reduction).
    pub fn mul(&self, cs: &mut ConstraintSystem, other: &RFVar) -> (r: RFVar)
        requires
            cs_wf(old(cs)@),
            rf_valid(*self, old(cs)@.0.len()),
            rf_valid(*other, old(cs)@.0.len()),
        ensures
            cs_wf(final(cs)@),
            cs_extends(old(cs)@, final(cs)@),
            cs_satisfied(final(cs)@) <==> cs_satisfied(old(cs)@),
            rf_valid(r, final(cs)@.0.len()),
            rf_value(r, final(cs)@.0) == ring_mul(rf_value(*self, old(cs)@.0), rf_value(*other, old(cs)@.0)),
    {
        let prod = schoolbook(cs, &self.coeffs, &other.coeffs);
        let out = reduce_lcs(&prod);
        let r = RFVar { coeffs: out };
        proof {
            lemma_buffer_ring_mul(prod@, cs@.0, rf_value(*self, old(cs)@.0), rf_value(*other, old(cs)@.0));
            assert(lcs_value(out@, cs@.0) == phi_reduce(buffer_fn(prod@, cs@.0)));
        }
        r
    }

    /// Impose `self = other` coefficient-wise.
    pub fn assert_eq(&self, cs: &mut ConstraintSystem, other: &RFVar)
        requires
            cs_wf(old(cs)@),
            rf_valid(*self, old(cs)@.0.len()),
            rf_valid(*other, old(cs)@.0.len()),
        ensures
            cs_wf(final(cs)@),
            cs_extends(old(cs)@, final(cs)@),
            final(cs)@.0 == old(cs)@.0,
            cs_satisfied(final(cs)@) <==> (cs_satisfied(old(cs)@) && rf_value(*self, old(cs)@.0) == rf_value(
                *other,
                old(cs)@.0,
            )),
    {
        let ghost s0 = cs@;
        proof {
            lemma_extends_refl(s0);
        }
        let mut l: usize = 0;
        while l < D
            invariant
                l <= 54,
                cs_wf(s0),
                cs_wf(cs@),
                cs_extends(s0, cs@),
                cs@.0 == s0.0,
                rf_valid(*self, s0.0.len()),
                rf_valid(*other, s0.0.len()),
                cs_satisfied(cs@) <==> (cs_satisfied(s0) && forall|t: int|
                    0 <= t < l ==> #[trigger] rf_value(*self, s0.0)[t] == rf_value(*other, s0.0)[t]),
            decreases 54 - l,
        {
            let ghost s1 = cs@;
            proof {
                assert(lc_valid(self.coeffs@[l as int]@, s0.0.len()));
                assert(lc_valid(other.coeffs@[l as int]@, s0.0.len()));
            }
            cs.assert_eq(&self.coeffs[l], &other.coeffs[l]);
            proof {
                lemma_extends_trans(s0, s1, cs@);
                assert(rf_value(*self, s0.0)[l as int] == lc_value(self.coeffs@[l as int]@, s0.0));
                assert(rf_value(*other, s0.0)[l as int] == lc_value(other.coeffs@[l as int]@, s0.0));
            }
            l = l + 1;
        }
        proof {
            if forall|t: int| 0 <= t < 54 ==> #[trigger] rf_value(*self, s0.0)[t] == rf_value(*other, s0.0)[t] {
                assert(rf_value(*self, s0.0) =~= rf_value(*other, s0.0));
            }
        }
    }
}

/// An `R_K` element: 54 extension coefficient wires.
#[derive(Clone, Debug)]
pub struct RKVar {
    /// Coefficients `c_0, ..., c_53`.
    pub coeffs: Vec<KVar>,
}

/// The value of an `R_K` wire under a witness.
pub open spec fn rk_value(x: RKVar, w: Seq<nat>) -> Seq<E2> {
    Seq::new(x.coeffs@.len(), |l: int| kv_value(x.coeffs@[l], w))
}

/// 54 coefficients, all over variables below `n`.
pub open spec fn rk_valid(x: RKVar, n: nat) -> bool {
    x.coeffs@.len() == 54 && forall|l: int| 0 <= l < 54 ==> kv_valid(#[trigger] x.coeffs@[l], n)
}

impl RKVar {
    /// A constant `R_K` value (all coefficients pinned).
    pub fn constant(cs: &ConstraintSystem, v: &RingK) -> (r: RKVar)
        requires
            cs_wf(cs@),
        ensures
            rk_valid(r, cs@.0.len()),
            rk_value(r, cs@.0) == v@,
    {
        let mut out: Vec<KVar> = Vec::new();
        let mut l: usize = 0;
        while l < D
            invariant
                l <= 54,
                cs_wf(cs@),
                out@.len() == l,
                forall|t: int| 0 <= t < l ==> kv_valid(#[trigger] out@[t], cs@.0.len()),
                forall|t: int| 0 <= t < l ==> kv_value(#[trigger] out@[t], cs@.0) == v@[t],
            decreases 54 - l,
        {
            out.push(KVar::constant(cs, v.coeff(l)));
            l = l + 1;
        }
        let r = RKVar { coeffs: out };
        assert(crate::ring_k::rk_wf(v@));
        assert(rk_value(r, cs@.0) =~= v@);
        r
    }

    /// `self + other` (free).
    pub fn add(&self, other: &RKVar) -> (r: RKVar)
        requires
            self.coeffs@.len() == 54,
            other.coeffs@.len() == 54,
        ensures
            forall|w: Seq<nat>| #[trigger] rk_value(r, w) == rk_add(rk_value(*self, w), rk_value(*other, w)),
            forall|n: nat| rk_valid(*self, n) && rk_valid(*other, n) ==> #[trigger] rk_valid(r, n),
    {
        let mut out: Vec<KVar> = Vec::new();
        let mut l: usize = 0;
        while l < D
            invariant
                l <= 54,
                self.coeffs@.len() == 54,
                other.coeffs@.len() == 54,
                out@.len() == l,
                forall|t: int, w: Seq<nat>|
                    0 <= t < l ==> #[trigger] kv_value(out@[t], w) == e2_add(
                        kv_value(self.coeffs@[t], w),
                        kv_value(other.coeffs@[t], w),
                    ),
                forall|t: int, n: nat|
                    0 <= t < l && kv_valid(self.coeffs@[t], n) && kv_valid(other.coeffs@[t], n) ==> #[trigger] kv_valid(
                        out@[t],
                        n,
                    ),
            decreases 54 - l,
        {
            out.push(self.coeffs[l].add(&other.coeffs[l]));
            l = l + 1;
        }
        let r = RKVar { coeffs: out };
        proof {
            assert forall|w: Seq<nat>| #[trigger] rk_value(r, w) == rk_add(rk_value(*self, w), rk_value(*other, w)) by {
                assert forall|t: int| 0 <= t < 54 implies rk_value(r, w)[t] == rk_add(rk_value(*self, w), rk_value(*other, w))[t] by {
                    assert(kv_value(r.coeffs@[t], w) == e2_add(kv_value(self.coeffs@[t], w), kv_value(other.coeffs@[t], w)));
                }
                assert(rk_value(r, w) =~= rk_add(rk_value(*self, w), rk_value(*other, w)));
            }
            assert forall|n: nat| rk_valid(*self, n) && rk_valid(*other, n) implies #[trigger] rk_valid(r, n) by {
                assert forall|t: int| 0 <= t < 54 implies kv_valid(#[trigger] r.coeffs@[t], n) by {
                    assert(kv_valid(self.coeffs@[t], n));
                    assert(kv_valid(other.coeffs@[t], n));
                }
            }
        }
        r
    }

    /// The mixed product `self * rf mod Phi` for `rf` in `R_F`: each component of every
    /// coefficient is multiplied by every coefficient of `rf` (two base multiplications
    /// per pair), then reduced.
    pub fn mul_rf(&self, cs: &mut ConstraintSystem, rf: &RFVar) -> (r: RKVar)
        requires
            cs_wf(old(cs)@),
            rk_valid(*self, old(cs)@.0.len()),
            rf_valid(*rf, old(cs)@.0.len()),
        ensures
            cs_wf(final(cs)@),
            cs_extends(old(cs)@, final(cs)@),
            cs_satisfied(final(cs)@) <==> cs_satisfied(old(cs)@),
            rk_valid(r, final(cs)@.0.len()),
            rk_value(r, final(cs)@.0) == rk_mul_rf(rk_value(*self, old(cs)@.0), rf_value(*rf, old(cs)@.0)),
    {
        let ghost s0 = cs@;
        let mut y0: Vec<Lc> = Vec::new();
        let mut y1: Vec<Lc> = Vec::new();
        let mut l: usize = 0;
        while l < D
            invariant
                l <= 54,
                self.coeffs@.len() == 54,
                y0@.len() == l,
                y1@.len() == l,
                forall|t: int| 0 <= t < l ==> (#[trigger] y0@[t])@ == self.coeffs@[t].c0@,
                forall|t: int| 0 <= t < l ==> (#[trigger] y1@[t])@ == self.coeffs@[t].c1@,
            decreases 54 - l,
        {
            let k = self.coeffs[l].duplicate();
            y0.push(k.c0);
            y1.push(k.c1);
            l = l + 1;
        }
        let ghost yv = rk_value(*self, s0.0);
        proof {
            assert(lcs_value(y0@, s0.0) =~= comp0(yv));
            assert(lcs_value(y1@, s0.0) =~= comp1(yv));
            assert forall|t: int| 0 <= t < 54 implies lc_valid((#[trigger] y0@[t])@, s0.0.len()) by {
                assert(kv_valid(self.coeffs@[t], s0.0.len()));
            }
            assert forall|t: int| 0 <= t < 54 implies lc_valid((#[trigger] y1@[t])@, s0.0.len()) by {
                assert(kv_valid(self.coeffs@[t], s0.0.len()));
            }
        }
        let p0 = schoolbook(cs, &y0, &rf.coeffs);
        let ghost s1 = cs@;
        proof {
            lemma_lcs_stable(y1@, s0, s1);
            lemma_lcs_stable(rf.coeffs@, s0, s1);
        }
        let p1 = schoolbook(cs, &y1, &rf.coeffs);
        let ghost s2 = cs@;
        let r0 = reduce_lcs(&p0);
        let r1 = reduce_lcs(&p1);
        proof {
            lemma_extends_trans(s0, s1, s2);
            lemma_lcs_stable(p0@, s1, s2);
            assert forall|k: int| 0 <= k < 107 implies lc_value((#[trigger] p0@[k])@, s2.0) == fmod(
                conv(comp0(yv), rf_value(*rf, s0.0), k),
            ) by {
                assert(lcs_value(p0@, s2.0)[k] == lcs_value(p0@, s1.0)[k]);
            }
            lemma_buffer_ring_mul(p0@, s2.0, comp0(yv), rf_value(*rf, s0.0));
            lemma_buffer_ring_mul(p1@, s2.0, comp1(yv), rf_value(*rf, s0.0));
        }
        let mut out: Vec<KVar> = Vec::new();
        let mut l: usize = 0;
        while l < D
            invariant
                l <= 54,
                r0@.len() == 54,
                r1@.len() == 54,
                out@.len() == l,
                forall|t: int| 0 <= t < l ==> (#[trigger] out@[t]).c0@ == r0@[t]@ && out@[t].c1@ == r1@[t]@,
            decreases 54 - l,
        {
            let c0 = Lc(vstd::slice::slice_to_vec(r0[l].0.as_slice()));
            let c1 = Lc(vstd::slice::slice_to_vec(r1[l].0.as_slice()));
            assert(c0@ =~= r0@[l as int]@);
            assert(c1@ =~= r1@[l as int]@);
            out.push(KVar { c0, c1 });
            l = l + 1;
        }
        let r = RKVar { coeffs: out };
        proof {
            let w = s2.0;
            assert(lcs_value(r0@, w) == ring_mul(comp0(yv), rf_value(*rf, s0.0)));
            assert(lcs_value(r1@, w) == ring_mul(comp1(yv), rf_value(*rf, s0.0)));
            assert(rk_value(r, w) =~= rk_mul_rf(yv, rf_value(*rf, s0.0)));
            assert(lcs_valid(r0@, w.len()));
            assert(lcs_valid(r1@, w.len()));
            assert forall|t: int| 0 <= t < 54 implies kv_valid(#[trigger] r.coeffs@[t], w.len()) by {
                assert(lc_valid(r0@[t]@, w.len()));
                assert(lc_valid(r1@[t]@, w.len()));
            }
        }
        r
    }

    /// Impose `self = other` coefficient-wise.
    pub fn assert_eq(&self, cs: &mut ConstraintSystem, other: &RKVar)
        requires
            cs_wf(old(cs)@),
            rk_valid(*self, old(cs)@.0.len()),
            rk_valid(*other, old(cs)@.0.len()),
        ensures
            cs_wf(final(cs)@),
            cs_extends(old(cs)@, final(cs)@),
            final(cs)@.0 == old(cs)@.0,
            cs_satisfied(final(cs)@) <==> (cs_satisfied(old(cs)@) && rk_value(*self, old(cs)@.0) == rk_value(
                *other,
                old(cs)@.0,
            )),
    {
        let ghost s0 = cs@;
        proof {
            lemma_extends_refl(s0);
        }
        let mut l: usize = 0;
        while l < D
            invariant
                l <= 54,
                cs_wf(s0),
                cs_wf(cs@),
                cs_extends(s0, cs@),
                cs@.0 == s0.0,
                rk_valid(*self, s0.0.len()),
                rk_valid(*other, s0.0.len()),
                cs_satisfied(cs@) <==> (cs_satisfied(s0) && forall|t: int|
                    0 <= t < l ==> #[trigger] rk_value(*self, s0.0)[t] == rk_value(*other, s0.0)[t]),
            decreases 54 - l,
        {
            let ghost s1 = cs@;
            proof {
                assert(kv_valid(self.coeffs@[l as int], s0.0.len()));
                assert(kv_valid(other.coeffs@[l as int], s0.0.len()));
            }
            self.coeffs[l].assert_eq(cs, &other.coeffs[l]);
            proof {
                lemma_extends_trans(s0, s1, cs@);
                assert(rk_value(*self, s0.0)[l as int] == kv_value(self.coeffs@[l as int], s0.0));
                assert(rk_value(*other, s0.0)[l as int] == kv_value(other.coeffs@[l as int], s0.0));
            }
            l = l + 1;
        }
        proof {
            if forall|t: int| 0 <= t < 54 ==> #[trigger] rk_value(*self, s0.0)[t] == rk_value(*other, s0.0)[t] {
                assert(rk_value(*self, s0.0) =~= rk_value(*other, s0.0));
            }
        }
    }
}

} // verus!
