//! Extension-field (`K = F_q[u]/(u^2 - 7)`) gadgets over the R1CS builder.
//!
//! A `K` value is a pair of base-field linear combinations `(c0, c1)` for `c0 + c1 u`.
//! Addition and scaling are free (linear); multiplication uses Karatsuba, three base
//! multiplications: `(a0 + a1 u)(b0 + b1 u) = (a0 b0 + 7 a1 b1) + ((a0 + a1)(b0 + b1) - a0 b0 - a1 b1) u`.

use vstd::prelude::*;

use crate::circuit::cs::{
    cs_extends, cs_satisfied, cs_wf, lc_neg, lc_scale, lc_valid, lc_value, lemma_extends_trans,
    lemma_lc_value_append, lemma_lc_value_lt, lemma_lc_value_neg, lemma_lc_value_scale, lemma_lc_value_single,
    lemma_value_stable, ConstraintSystem, CsView, Lc,
};
use crate::ext2::{e2_add, e2_mul, e2_scale, e2_sub, Ext2, E2};
use crate::fp::{fadd, fmod, fmul, fneg, fsub, lemma_fmod_add, lemma_fmod_mul, lemma_fmod_neg, lemma_fmod_sub, lemma_fp_lt_q, Fp};

verus! {

broadcast use lemma_fp_lt_q;

/// The non-residue `u^2 = 7`.
pub const W: u64 = 7;

/// A `K`-valued wire `c0 + c1 u`, each part a base-field linear combination.
#[derive(Clone, Debug)]
pub struct KVar {
    /// Constant part.
    pub c0: Lc,
    /// Coefficient of `u`.
    pub c1: Lc,
}

/// The value of a `K` wire under a witness.
pub open spec fn kv_value(k: KVar, w: Seq<nat>) -> E2 {
    (lc_value(k.c0@, w), lc_value(k.c1@, w))
}

/// Both parts only use variables below `n`.
pub open spec fn kv_valid(k: KVar, n: nat) -> bool {
    lc_valid(k.c0@, n) && lc_valid(k.c1@, n)
}

/// `a + fneg(b)` is `a - b`.
pub proof fn lemma_fadd_fneg(a: nat, b: nat)
    ensures
        fadd(a, fneg(b)) == fsub(a, b),
{
    lemma_fmod_add(a as int, -b);
}

/// Karatsuba's three products give the product in `K`.
pub proof fn lemma_karatsuba(a0: nat, a1: nat, b0: nat, b1: nat)
    ensures
        fadd(fmul(a0, b0), fmul(fmul(a1, b1), 7)) == e2_mul((a0, a1), (b0, b1)).0,
        fsub(fsub(fmul(fadd(a0, a1), fadd(b0, b1)), fmul(a0, b0)), fmul(a1, b1)) == e2_mul((a0, a1), (b0, b1)).1,
{
    let (x0, x1, y0, y1) = (a0 as int, a1 as int, b0 as int, b1 as int);
    lemma_fmod_mul(x1 * y1, 7);
    lemma_fmod_add(x0 * y0, x1 * y1 * 7);
    assert(x1 * y1 * 7 == 7 * (x1 * y1)) by (nonlinear_arith);
    // second component
    lemma_fmod_mul(x0 + x1, y0 + y1);
    lemma_fmod_add(x0, x1);
    lemma_fmod_add(y0, y1);
    lemma_fmod_mul(fmod(x0 + x1) as int, y0 + y1);
    lemma_fmod_mul(x0 + x1, fmod(y0 + y1) as int);
    let p = (x0 + x1) * (y0 + y1);
    lemma_fmod_sub(p, x0 * y0);
    lemma_fmod_sub(p - x0 * y0, x1 * y1);
    lemma_fmod_sub(fmod(p - x0 * y0) as int, x1 * y1);
    assert(p - x0 * y0 - x1 * y1 == x0 * y1 + x1 * y0) by (nonlinear_arith)
        requires p == (x0 + x1) * (y0 + y1);
}

impl KVar {
    /// A copy of this wire.
    pub fn duplicate(&self) -> (r: KVar)
        ensures
            r.c0@ == self.c0@,
            r.c1@ == self.c1@,
    {
        let c0 = Lc(vstd::slice::slice_to_vec(self.c0.0.as_slice()));
        let c1 = Lc(vstd::slice::slice_to_vec(self.c1.0.as_slice()));
        assert(c0@ =~= self.c0@);
        assert(c1@ =~= self.c1@);
        KVar { c0, c1 }
    }

    /// A constant `K` value.
    pub fn constant(cs: &ConstraintSystem, v: Ext2) -> (r: KVar)
        requires
            cs_wf(cs@),
        ensures
            kv_valid(r, cs@.0.len()),
            kv_value(r, cs@.0) == v@,
            r.c0@ == seq![(0usize, v.c0@)],
            r.c1@ == seq![(0usize, v.c1@)],
    {
        let r = KVar { c0: cs.constant(v.c0), c1: cs.constant(v.c1) };
        proof {
            lemma_lc_value_single(0, v.c0@, cs@.0);
            lemma_lc_value_single(0, v.c1@, cs@.0);
        }
        r
    }

    /// Allocate a `K` value as two witness variables (advice).
    pub fn allocate(cs: &mut ConstraintSystem, v: Ext2) -> (r: KVar)
        requires
            cs_wf(old(cs)@),
        ensures
            cs_wf(final(cs)@),
            cs_extends(old(cs)@, final(cs)@),
            final(cs)@.1.len() == old(cs)@.1.len(),
            cs_satisfied(final(cs)@) <==> cs_satisfied(old(cs)@),
            kv_valid(r, final(cs)@.0.len()),
            kv_value(r, final(cs)@.0) == v@,
    {
        let ghost s0 = cs@;
        let x0 = cs.allocate(v.c0);
        let ghost s1 = cs@;
        let x1 = cs.allocate(v.c1);
        let r = KVar { c0: Lc::from_var(x0), c1: Lc::from_var(x1) };
        proof {
            lemma_extends_trans(s0, s1, cs@);
            assert(cs@.0[x0.0 as int] == v.c0@);
            assert(cs@.0[x1.0 as int] == v.c1@);
            lemma_lc_value_single(x0.0, 1, cs@.0);
            lemma_lc_value_single(x1.0, 1, cs@.0);
        }
        r
    }

    /// `self + other` (free).
    pub fn add(&self, other: &KVar) -> (r: KVar)
        ensures
            forall|w: Seq<nat>| #[trigger] kv_value(r, w) == e2_add(kv_value(*self, w), kv_value(*other, w)),
            forall|n: nat| kv_valid(*self, n) && kv_valid(*other, n) ==> #[trigger] kv_valid(r, n),
    {
        let r = KVar { c0: self.c0.add(&other.c0), c1: self.c1.add(&other.c1) };
        proof {
            assert forall|w: Seq<nat>| #[trigger] kv_value(r, w) == e2_add(kv_value(*self, w), kv_value(*other, w)) by {
                lemma_lc_value_append(self.c0@, other.c0@, w);
                lemma_lc_value_append(self.c1@, other.c1@, w);
            }
            assert forall|n: nat| kv_valid(*self, n) && kv_valid(*other, n) implies #[trigger] kv_valid(r, n) by {
                assert forall|i: int| 0 <= i < r.c0@.len() implies (#[trigger] r.c0@[i]).0 < n by {
                    if i >= self.c0@.len() {
                        assert(r.c0@[i] == other.c0@[i - self.c0@.len()]);
                    }
                }
                assert forall|i: int| 0 <= i < r.c1@.len() implies (#[trigger] r.c1@[i]).0 < n by {
                    if i >= self.c1@.len() {
                        assert(r.c1@[i] == other.c1@[i - self.c1@.len()]);
                    }
                }
            }
        }
        r
    }

    /// `self - other` (free).
    pub fn sub(&self, other: &KVar) -> (r: KVar)
        ensures
            forall|w: Seq<nat>| #[trigger] kv_value(r, w) == e2_sub(kv_value(*self, w), kv_value(*other, w)),
            forall|n: nat| kv_valid(*self, n) && kv_valid(*other, n) ==> #[trigger] kv_valid(r, n),
    {
        let r = KVar { c0: self.c0.sub(&other.c0), c1: self.c1.sub(&other.c1) };
        proof {
            assert forall|w: Seq<nat>| #[trigger] kv_value(r, w) == e2_sub(kv_value(*self, w), kv_value(*other, w)) by {
                lemma_lc_value_append(self.c0@, lc_neg(other.c0@), w);
                lemma_lc_value_append(self.c1@, lc_neg(other.c1@), w);
                lemma_lc_value_neg(other.c0@, w);
                lemma_lc_value_neg(other.c1@, w);
                lemma_fadd_fneg(lc_value(self.c0@, w), lc_value(other.c0@, w));
                lemma_fadd_fneg(lc_value(self.c1@, w), lc_value(other.c1@, w));
            }
            assert forall|n: nat| kv_valid(*self, n) && kv_valid(*other, n) implies #[trigger] kv_valid(r, n) by {
                assert forall|i: int| 0 <= i < r.c0@.len() implies (#[trigger] r.c0@[i]).0 < n by {
                    if i >= self.c0@.len() {
                        assert(r.c0@[i] == lc_neg(other.c0@)[i - self.c0@.len()]);
                    }
                }
                assert forall|i: int| 0 <= i < r.c1@.len() implies (#[trigger] r.c1@[i]).0 < n by {
                    if i >= self.c1@.len() {
                        assert(r.c1@[i] == lc_neg(other.c1@)[i - self.c1@.len()]);
                    }
                }
            }
        }
        r
    }

    /// `s * self` for a base-field constant `s` (free).
    pub fn scale(&self, s: Fp) -> (r: KVar)
        ensures
            forall|w: Seq<nat>| #[trigger] kv_value(r, w) == e2_scale(kv_value(*self, w), s@),
            forall|n: nat| kv_valid(*self, n) ==> #[trigger] kv_valid(r, n),
    {
        let r = KVar { c0: self.c0.scale(s), c1: self.c1.scale(s) };
        proof {
            assert forall|w: Seq<nat>| #[trigger] kv_value(r, w) == e2_scale(kv_value(*self, w), s@) by {
                lemma_lc_value_scale(self.c0@, s@, w);
                lemma_lc_value_scale(self.c1@, s@, w);
            }
            assert forall|n: nat| kv_valid(*self, n) implies #[trigger] kv_valid(r, n) by {
                assert forall|i: int| 0 <= i < r.c0@.len() implies (#[trigger] r.c0@[i]).0 < n by {
                    assert(r.c0@[i].0 == self.c0@[i].0);
                }
                assert forall|i: int| 0 <= i < r.c1@.len() implies (#[trigger] r.c1@[i]).0 < n by {
                    assert(r.c1@[i].0 == self.c1@[i].0);
                }
            }
        }
        r
    }

    /// `self * other` via Karatsuba (allocates three product variables).
    pub fn mul(&self, cs: &mut ConstraintSystem, other: &KVar) -> (r: KVar)
        requires
            cs_wf(old(cs)@),
            kv_valid(*self, old(cs)@.0.len()),
            kv_valid(*other, old(cs)@.0.len()),
        ensures
            cs_wf(final(cs)@),
            cs_extends(old(cs)@, final(cs)@),
            cs_satisfied(final(cs)@) <==> cs_satisfied(old(cs)@),
            kv_valid(r, final(cs)@.0.len()),
            kv_value(r, final(cs)@.0) == e2_mul(kv_value(*self, old(cs)@.0), kv_value(*other, old(cs)@.0)),
            final(cs)@.0.len() == old(cs)@.0.len() + 3,
            final(cs)@.1.len() == old(cs)@.1.len() + 3,
    {
        let ghost s0 = cs@;
        let m0v = cs.mul(&self.c0, &other.c0);
        let ghost s1 = cs@;
        proof {
            lemma_value_stable(self.c1@, s0, s1);
            lemma_value_stable(other.c1@, s0, s1);
            lemma_value_stable(self.c0@, s0, s1);
            lemma_value_stable(other.c0@, s0, s1);
        }
        let m1v = cs.mul(&self.c1, &other.c1);
        let ghost s2 = cs@;
        let sa = self.c0.add(&self.c1);
        let sb = other.c0.add(&other.c1);
        proof {
            lemma_extends_trans(s0, s1, s2);
            lemma_value_stable(self.c1@, s0, s2);
            lemma_value_stable(other.c1@, s0, s2);
            lemma_value_stable(self.c0@, s0, s2);
            lemma_value_stable(other.c0@, s0, s2);
            lemma_lc_value_append(self.c0@, self.c1@, s2.0);
            lemma_lc_value_append(other.c0@, other.c1@, s2.0);
            assert forall|i: int| 0 <= i < sa@.len() implies (#[trigger] sa@[i]).0 < s2.0.len() by {
                if i >= self.c0@.len() {
                    assert(sa@[i] == self.c1@[i - self.c0@.len()]);
                }
            }
            assert forall|i: int| 0 <= i < sb@.len() implies (#[trigger] sb@[i]).0 < s2.0.len() by {
                if i >= other.c0@.len() {
                    assert(sb@[i] == other.c1@[i - other.c0@.len()]);
                }
            }
        }
        let m2v = cs.mul(&sa, &sb);
        let ghost s3 = cs@;
        let m0 = Lc::from_var(m0v);
        let m1 = Lc::from_var(m1v);
        let m2 = Lc::from_var(m2v);
        let c0 = m0.add(&m1.scale(Fp::new(W)));
        let c1 = m2.sub(&m0).sub(&m1);
        let r = KVar { c0, c1 };
        proof {
            lemma_extends_trans(s0, s2, s3);
            let w = s3.0;
            // the three product wires
            assert(w[m0v.0 as int] == s1.0[m0v.0 as int]) by {
                assert(w.subrange(0, s2.0.len() as int) == s2.0);
                assert(s2.0.subrange(0, s1.0.len() as int) == s1.0);
            }
            assert(w[m1v.0 as int] == s2.0[m1v.0 as int]) by {
                assert(w.subrange(0, s2.0.len() as int) == s2.0);
            }
            let p0 = fmul(lc_value(self.c0@, s0.0), lc_value(other.c0@, s0.0));
            let p1 = fmul(lc_value(self.c1@, s0.0), lc_value(other.c1@, s0.0));
            let p2 = fmul(
                fadd(lc_value(self.c0@, s0.0), lc_value(self.c1@, s0.0)),
                fadd(lc_value(other.c0@, s0.0), lc_value(other.c1@, s0.0)),
            );
            assert(w[m0v.0 as int] == p0);
            assert(w[m1v.0 as int] == p1);
            assert(w[m2v.0 as int] == p2);
            lemma_lc_value_single(m0v.0, 1, w);
            lemma_lc_value_single(m1v.0, 1, w);
            lemma_lc_value_single(m2v.0, 1, w);
            assert(fmul(1, p0) == p0);
            assert(fmul(1, p1) == p1);
            assert(fmul(1, p2) == p2);
            lemma_lc_value_append(m0@, lc_scale(m1@, 7), w);
            lemma_lc_value_scale(m1@, 7, w);
            lemma_lc_value_append(m2@, lc_neg(m0@), w);
            lemma_lc_value_neg(m0@, w);
            lemma_fadd_fneg(p2, p0);
            let d = m2@ + lc_neg(m0@);
            lemma_lc_value_append(d, lc_neg(m1@), w);
            lemma_lc_value_neg(m1@, w);
            lemma_fadd_fneg(fsub(p2, p0), p1);
            lemma_karatsuba(
                lc_value(self.c0@, s0.0),
                lc_value(self.c1@, s0.0),
                lc_value(other.c0@, s0.0),
                lc_value(other.c1@, s0.0),
            );
            assert(kv_value(r, w) == e2_mul(kv_value(*self, s0.0), kv_value(*other, s0.0)));
            // validity
            assert(m0v.0 < w.len() && m1v.0 < w.len() && m2v.0 < w.len());
            assert forall|i: int| 0 <= i < r.c0@.len() implies (#[trigger] r.c0@[i]).0 < w.len() by {
                if i >= m0@.len() {
                    assert(r.c0@[i] == lc_scale(m1@, 7)[i - m0@.len()]);
                }
            }
            assert forall|i: int| 0 <= i < r.c1@.len() implies (#[trigger] r.c1@[i]).0 < w.len() by {
                if i >= d.len() {
                    assert(r.c1@[i] == lc_neg(m1@)[i - d.len()]);
                } else if i >= m2@.len() {
                    assert(r.c1@[i] == d[i]);
                    assert(d[i] == lc_neg(m0@)[i - m2@.len()]);
                } else {
                    assert(r.c1@[i] == d[i]);
                }
            }
        }
        r
    }

    /// Impose `self = other` (two base-field equality constraints).
    pub fn assert_eq(&self, cs: &mut ConstraintSystem, other: &KVar)
        requires
            cs_wf(old(cs)@),
            kv_valid(*self, old(cs)@.0.len()),
            kv_valid(*other, old(cs)@.0.len()),
        ensures
            cs_wf(final(cs)@),
            cs_extends(old(cs)@, final(cs)@),
            final(cs)@.0 == old(cs)@.0,
            final(cs)@.1.len() == old(cs)@.1.len() + 2,
            cs_satisfied(final(cs)@) <==> (cs_satisfied(old(cs)@) && kv_value(*self, old(cs)@.0) == kv_value(
                *other,
                old(cs)@.0,
            )),
    {
        let ghost s0 = cs@;
        cs.assert_eq(&self.c0, &other.c0);
        let ghost s1 = cs@;
        cs.assert_eq(&self.c1, &other.c1);
        proof {
            lemma_extends_trans(s0, s1, cs@);
        }
    }
}

} // verus!
